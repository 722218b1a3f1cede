# znsh

A small interactive shell whose line handling is verified with Verus.

- `src/parser.rs`: `tokenize`, which splits a line into words, honouring
  single quotes, double quotes, backslash escapes and the pipe `|` (a word of
  its own), against the scanning model `spec_tokenize`, with laws about plain
  text, quotes, escapes, pipes and errors.
- `src/lexer.rs`: a second tokenizer that keeps the pipe operator apart from
  words (`Token::Pipe`), with the same kind of laws and a proof that the two
  tokenizers agree on every line.
- `src/shell.rs`: what a line asks for (`exit`, `cd`, `echo`, or a program to
  run).
- `src/text.rs`: the Unicode white-space class and the std string calls.
- `app/main.rs`: the read–run loop, which does the I/O.
