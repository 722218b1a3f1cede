use znsh::lexer::tokenize;
use znsh::lexer::ParseError;
use znsh::lexer::Token;

fn word(s: &str) -> Token {
    Token::Word(s.to_string())
}

#[test]
fn lexer_splits_words_on_whitespace() {
    assert_eq!(
        tokenize("echo hello\tworld"),
        Ok(vec![word("echo"), word("hello"), word("world")])
    );
    assert_eq!(tokenize("   "), Ok(vec![]));
}

#[test]
fn lexer_pipe_operator_is_a_pipe_token() {
    assert_eq!(
        tokenize("echo | wc"),
        Ok(vec![word("echo"), Token::Pipe, word("wc")])
    );
    assert_eq!(
        tokenize("echo hello|wc"),
        Ok(vec![word("echo"), word("hello"), Token::Pipe, word("wc")])
    );
    assert_eq!(tokenize("| echo"), Ok(vec![Token::Pipe, word("echo")]));
}

#[test]
fn lexer_quoted_pipe_is_a_word() {
    assert_eq!(tokenize(r#"echo "|""#), Ok(vec![word("echo"), word("|")]));
    assert_eq!(tokenize("echo '|'"), Ok(vec![word("echo"), word("|")]));
    assert_eq!(tokenize(r"echo \|"), Ok(vec![word("echo"), word("|")]));
}

#[test]
fn lexer_quotes_keep_words_together() {
    assert_eq!(
        tokenize(r#"echo "hello world" 'a "b" c'"#),
        Ok(vec![word("echo"), word("hello world"), word(r#"a "b" c"#)])
    );
    assert_eq!(tokenize(r#"echo "" ''"#), Ok(vec![word("echo"), word(""), word("")]));
    assert_eq!(tokenize(r#"hello" worl"d"#), Ok(vec![word("hello world")]));
}

#[test]
fn lexer_backslash_escapes() {
    assert_eq!(tokenize(r"hello\ world"), Ok(vec![word("hello world")]));
    assert_eq!(tokenize(r#"\"hello\""#), Ok(vec![word(r#""hello""#)]));
    assert_eq!(tokenize(r"a\\b"), Ok(vec![word(r"a\b")]));
    assert_eq!(tokenize(r"'a\b'"), Ok(vec![word(r"a\b")]));
}

#[test]
fn lexer_errors() {
    assert_eq!(tokenize(r#"echo "hllo"#), Err(ParseError::UnclosedDoubleQuote));
    assert_eq!(tokenize("echo 'hello"), Err(ParseError::UnclosedSingleQuote));
    assert_eq!(tokenize("echo hello\\"), Err(ParseError::BackslashAtEnd));
}

#[test]
fn lexer_escaped_single_quote_is_literal() {
    assert_eq!(tokenize(r"echo \'"), Ok(vec![word("echo"), word("'")]));
    assert_eq!(
        tokenize(r"echo \'hello\'"),
        Ok(vec![word("echo"), word("'hello'")])
    );
    assert_eq!(tokenize(r#""a\'b""#), Ok(vec![word(r"a'b")]));
}

#[test]
fn lexer_white_space_or_pipe_after_a_good_line_splits_it() {
    assert_eq!(
        tokenize(r#"a'b c'd "x|y" | e\ f"#),
        Ok(vec![word("ab cd"), word("x|y"), Token::Pipe, word("e f")])
    );
    assert_eq!(tokenize("'a b' | \"c"), Err(ParseError::UnclosedDoubleQuote));
}
