//! A command-line tokenizer: splits a line into words the way a POSIX-like
//! shell does, honouring single quotes, double quotes, backslash escapes and
//! the pipe operator, which stands as a word of its own (`"|"`).

use vstd::prelude::*;
use crate::text::{all_plain, all_word_chars, char_is_whitespace, is_plain, is_white_space, split_ws};

verus! {

broadcast use vstd::string::group_string_axioms;

/// Why a line could not be tokenized.
#[derive(Debug, PartialEq, Eq, Clone, Copy)]
pub enum ParseError {
    UnclosedDoubleQuote,
    UnclosedSingleQuote,
    BackslashAtEnd,
}

/// Which kind of quotation the scanner is inside.
#[derive(Debug, Clone, Copy)]
pub enum QuoteMode {
    Unquoted,
    Single,
    Double,
}

/// The scanner's state after reading part of a line: the words finished so
/// far, the word being built, whether a word has been started (an empty
/// pair of quotes starts one), and whether the previous character was an
/// escaping backslash.
pub struct Scan {
    pub mode: QuoteMode,
    pub tokens: Seq<Seq<char>>,
    pub word: Seq<char>,
    pub started: bool,
    pub escaping: bool,
}

/// The state before the first character.
pub open spec fn scan_start() -> Scan {
    Scan { mode: QuoteMode::Unquoted, tokens: seq![], word: seq![], started: false, escaping: false }
}

/// `c` joins the current word, which is then started.
pub open spec fn add_char(s: Scan, c: char) -> Scan {
    Scan { word: s.word.push(c), started: true, ..s }
}

/// `c` is taken literally and ends an escape.
pub open spec fn add_literal(s: Scan, c: char) -> Scan {
    Scan { escaping: false, ..add_char(s, c) }
}

/// The one-character word that a pipe makes.
pub open spec fn pipe_word() -> Seq<char> {
    seq!['|']
}

/// The state after reading `c` in state `s`.
pub open spec fn scan_step(s: Scan, c: char) -> Scan {
    if c == '\'' {
        if s.escaping {
            add_literal(s, c)
        } else {
            match s.mode {
                QuoteMode::Unquoted => Scan { mode: QuoteMode::Single, started: true, ..s },
                QuoteMode::Single => Scan { mode: QuoteMode::Unquoted, started: true, ..s },
                QuoteMode::Double => add_char(s, c),
            }
        }
    } else if c == '"' {
        if s.escaping {
            add_literal(s, c)
        } else {
            match s.mode {
                QuoteMode::Unquoted => Scan { mode: QuoteMode::Double, started: true, ..s },
                QuoteMode::Single => add_char(s, c),
                QuoteMode::Double => Scan { mode: QuoteMode::Unquoted, started: true, ..s },
            }
        }
    } else if c == '\\' {
        if s.escaping {
            add_literal(s, c)
        } else {
            match s.mode {
                QuoteMode::Single => add_char(s, c),
                _ => Scan { escaping: true, ..s },
            }
        }
    } else if is_white_space(c) && s.mode is Unquoted && !s.escaping {
        if s.started {
            Scan { tokens: s.tokens.push(s.word), word: seq![], started: false, ..s }
        } else {
            s
        }
    } else if c == '|' {
        if s.escaping {
            add_literal(s, c)
        } else if !(s.mode is Unquoted) {
            add_char(s, c)
        } else if !s.started {
            Scan { tokens: s.tokens.push(pipe_word()), ..s }
        } else {
            Scan {
                tokens: s.tokens.push(s.word).push(pipe_word()),
                word: seq![],
                started: false,
                ..s
            }
        }
    } else {
        add_literal(s, c)
    }
}

/// The state after reading all of `input`, starting in state `s`.
pub open spec fn scan_run(s: Scan, input: Seq<char>) -> Scan
    decreases input.len(),
{
    if input.len() == 0 {
        s
    } else {
        scan_step(scan_run(s, input.drop_last()), input.last())
    }
}

/// What the end of the line makes of the final state.
pub open spec fn scan_finish(s: Scan) -> Result<Seq<Seq<char>>, ParseError> {
    match s.mode {
        QuoteMode::Unquoted => if s.escaping {
            Err(ParseError::BackslashAtEnd)
        } else if s.started {
            Ok(s.tokens.push(s.word))
        } else {
            Ok(s.tokens)
        },
        QuoteMode::Single => Err(ParseError::UnclosedSingleQuote),
        QuoteMode::Double => Err(ParseError::UnclosedDoubleQuote),
    }
}

/// The words of `input`, or why it has none.
pub open spec fn spec_tokenize(input: Seq<char>) -> Result<Seq<Seq<char>>, ParseError> {
    scan_finish(scan_run(scan_start(), input))
}

/// The character sequences of a list of strings.
pub open spec fn views(v: Seq<String>) -> Seq<Seq<char>> {
    v.map_values(|w: String| w@)
}

/// The character sequences of a tokenizer result.
pub open spec fn result_view(r: Result<Vec<String>, ParseError>) -> Result<Seq<Seq<char>>, ParseError> {
    match r {
        Ok(v) => Ok(views(v@)),
        Err(e) => Err(e),
    }
}

/// Pushing a string pushes its characters.
pub proof fn lemma_views_push(v: Seq<String>, w: String)
    ensures
        views(v.push(w)) == views(v).push(w@),
{
    assert(views(v.push(w)) =~= views(v).push(w@));
}

fn push_to_word(character: char, current_word: &mut String, word_started: &mut bool)
    ensures
        final(current_word)@ == old(current_word)@.push(character),
        *final(word_started),
{
    current_word.push(character);
    *word_started = true;
}

/// Splits `input` into words; see `spec_tokenize` for the rules.
pub fn tokenize(input: &str) -> (res: Result<Vec<String>, ParseError>)
    ensures
        result_view(res) == spec_tokenize(input@),
{
    let mut quote_mode = QuoteMode::Unquoted;
    let mut tokens: Vec<String> = Vec::new();
    let mut current_word = String::new();
    let mut word_started = false;
    let mut escaping = false;
    proof {
        assert(views(tokens@) =~= Seq::<Seq<char>>::empty());
        assert(input@.take(0) =~= Seq::<char>::empty());
    }

    for character in it: input.chars()
        invariant
            it.seq() == input@,
            (Scan {
                mode: quote_mode,
                tokens: views(tokens@),
                word: current_word@,
                started: word_started,
                escaping: escaping,
            }) == scan_run(scan_start(), input@.take(it.index() as int)),
    {
        proof {
            assert(input@.take(it.index() + 1).drop_last() =~= input@.take(it.index() as int));
        }
        let unquoted = match quote_mode {
            QuoteMode::Unquoted => true,
            _ => false,
        };
        if character == '\'' {
            if escaping {
                push_to_word(character, &mut current_word, &mut word_started);
                escaping = false;
            } else {
                match quote_mode {
                    QuoteMode::Unquoted => {
                        quote_mode = QuoteMode::Single;
                    },
                    QuoteMode::Single => {
                        quote_mode = QuoteMode::Unquoted;
                    },
                    QuoteMode::Double => {
                        push_to_word(character, &mut current_word, &mut word_started);
                    },
                }
                word_started = true;
            }
        } else if character == '"' {
            if escaping {
                push_to_word(character, &mut current_word, &mut word_started);
                escaping = false;
            } else {
                match quote_mode {
                    QuoteMode::Unquoted => {
                        quote_mode = QuoteMode::Double;
                    },
                    QuoteMode::Single => {
                        push_to_word(character, &mut current_word, &mut word_started);
                    },
                    QuoteMode::Double => {
                        quote_mode = QuoteMode::Unquoted;
                    },
                }
                word_started = true;
            }
        } else if character == '\\' {
            if escaping {
                push_to_word(character, &mut current_word, &mut word_started);
                escaping = false;
            } else {
                match quote_mode {
                    QuoteMode::Single => {
                        push_to_word(character, &mut current_word, &mut word_started);
                    },
                    _ => {
                        escaping = true;
                    },
                }
            }
        } else if char_is_whitespace(character) && unquoted && !escaping {
            if word_started {
                proof {
                    lemma_views_push(tokens@, current_word);
                }
                tokens.push(current_word);
                current_word = String::new();
                word_started = false;
            }
        } else if character == '|' {
            if escaping {
                push_to_word(character, &mut current_word, &mut word_started);
                escaping = false;
            } else if !unquoted {
                push_to_word(character, &mut current_word, &mut word_started);
            } else {
                if word_started {
                    proof {
                        lemma_views_push(tokens@, current_word);
                    }
                    tokens.push(current_word);
                    current_word = String::new();
                    word_started = false;
                }
                let mut pipe = String::new();
                pipe.push('|');
                proof {
                    lemma_views_push(tokens@, pipe);
                    assert(pipe@ =~= pipe_word());
                }
                tokens.push(pipe);
            }
        } else {
            push_to_word(character, &mut current_word, &mut word_started);
            escaping = false;
        }
    }
    proof {
        assert(input@.take(input@.len() as int) =~= input@);
    }

    match quote_mode {
        QuoteMode::Unquoted => {
            if escaping {
                return Err(ParseError::BackslashAtEnd);
            } else if word_started {
                proof {
                    lemma_views_push(tokens@, current_word);
                }
                tokens.push(current_word);
            }
            Ok(tokens)
        },
        QuoteMode::Single => Err(ParseError::UnclosedSingleQuote),
        QuoteMode::Double => Err(ParseError::UnclosedDoubleQuote),
    }
}

/// A state outside quotes with no word started and no escape pending.
pub open spec fn clean(tokens: Seq<Seq<char>>) -> Scan {
    Scan { mode: QuoteMode::Unquoted, tokens, word: seq![], started: false, escaping: false }
}

/// Reading `x + y` is reading `x`, then `y`.
pub proof fn lemma_scan_run_append(s: Scan, x: Seq<char>, y: Seq<char>)
    ensures
        scan_run(s, x + y) == scan_run(scan_run(s, x), y),
    decreases y.len(),
{
    if y.len() == 0 {
        assert(x + y =~= x);
    } else {
        lemma_scan_run_append(s, x, y.drop_last());
        assert((x + y).drop_last() =~= x + y.drop_last());
    }
}

/// Reading one character is one step.
pub proof fn lemma_scan_run_one(s: Scan, c: char)
    ensures
        scan_run(s, seq![c]) == scan_step(s, c),
{
    let one = seq![c];
    assert(one.drop_last() =~= Seq::<char>::empty());
    assert(scan_run(s, one.drop_last()) == s);
    assert(one.last() == c);
}

proof fn lemma_all_plain_prefix(p: Seq<char>)
    requires
        all_plain(p),
        p.len() > 0,
    ensures
        all_plain(p.drop_last()),
        is_plain(p.last()),
{
    let q = p.drop_last();
    assert forall|i: int| 0 <= i < q.len() implies is_plain(q[i]) by {
        assert(q[i] == p[i]);
    }
    assert(is_plain(p[p.len() - 1]));
}

/// Plain text read from a clean state: the finished words are those of
/// `split_ws`, the last one still open when the text does not end in white
/// space.
proof fn lemma_scan_plain(t: Seq<Seq<char>>, p: Seq<char>)
    requires
        all_plain(p),
    ensures
        ({
            let r = scan_run(clean(t), p);
            &&& r.mode is Unquoted
            &&& !r.escaping
            &&& if p.len() > 0 && !is_white_space(p.last()) {
                &&& r.started
                &&& split_ws(p).len() > 0
                &&& r.tokens == t + split_ws(p).drop_last()
                &&& r.word == split_ws(p).last()
            } else {
                &&& !r.started
                &&& r.word == Seq::<char>::empty()
                &&& r.tokens == t + split_ws(p)
            }
        }),
    decreases p.len(),
{
    if p.len() > 0 {
        let q = p.drop_last();
        let c = p.last();
        lemma_all_plain_prefix(p);
        lemma_scan_plain(t, q);
        let r = scan_run(clean(t), q);
        let sq = split_ws(q);
        if q.len() > 0 {
            assert(p[p.len() - 2] == q.last());
        }
        if is_white_space(c) {
            if r.started {
                assert(t + sq =~= (t + sq.drop_last()).push(sq.last()));
            }
        } else if q.len() > 0 && !is_white_space(q.last()) {
            let sp = split_ws(p);
            assert(sp =~= sq.update(sq.len() - 1, sq.last().push(c)));
            assert(sp.drop_last() =~= sq.drop_last());
        } else {
            let sp = split_ws(p);
            assert(sp =~= sq.push(seq![c]));
            assert(sp.drop_last() =~= sq);
            assert(r.word.push(c) =~= seq![c]);
        }
    }
}

/// What a clean state after plain text makes of the end of the line.
proof fn lemma_finish_plain(t: Seq<Seq<char>>, p: Seq<char>)
    requires
        all_plain(p),
    ensures
        scan_finish(scan_run(clean(t), p)) == Ok::<Seq<Seq<char>>, ParseError>(t + split_ws(p)),
{
    lemma_scan_plain(t, p);
    let r = scan_run(clean(t), p);
    if r.started {
        assert(r.tokens.push(r.word) =~= t + split_ws(p));
    }
}

/// Plain text read from a clean state leaves a clean state once the open
/// word, if any, is closed by a pipe.
proof fn lemma_scan_plain_then_pipe(t: Seq<Seq<char>>, p: Seq<char>)
    requires
        all_plain(p),
    ensures
        scan_step(scan_run(clean(t), p), '|') == clean(t + split_ws(p) + seq![pipe_word()]),
{
    lemma_scan_plain(t, p);
    let r = scan_run(clean(t), p);
    if r.started {
        assert(r.tokens.push(r.word).push(pipe_word()) =~= t + split_ws(p) + seq![pipe_word()]);
    } else {
        assert(r.tokens.push(pipe_word()) =~= t + split_ws(p) + seq![pipe_word()]);
    }
    assert(scan_step(r, '|').word =~= clean(t + split_ws(p) + seq![pipe_word()]).word);
}

/// Text read inside single quotes, none of it a single quote, joins the word as it is.
proof fn lemma_scan_single_quoted(t: Seq<Seq<char>>, w: Seq<char>, x: Seq<char>)
    requires
        !x.contains('\''),
    ensures
        scan_run(Scan { mode: QuoteMode::Single, tokens: t, word: w, started: true, escaping: false }, x)
            == (Scan { mode: QuoteMode::Single, tokens: t, word: w + x, started: true, escaping: false }),
    decreases x.len(),
{
    if x.len() > 0 {
        let y = x.drop_last();
        assert(!y.contains('\'')) by {
            if y.contains('\'') {
                let i = choose|i: int| 0 <= i < y.len() && y[i] == '\'';
                assert(x[i] == '\'');
            }
        }
        assert(x[x.len() - 1] != '\'');
        lemma_scan_single_quoted(t, w, y);
        assert((w + y).push(x.last()) =~= w + x);
    } else {
        assert(w + x =~= w);
    }
}

/// Text read inside double quotes, with no double quote and no backslash,
/// joins the word as it is.
proof fn lemma_scan_double_quoted(t: Seq<Seq<char>>, w: Seq<char>, x: Seq<char>)
    requires
        !x.contains('"'),
        !x.contains('\\'),
    ensures
        scan_run(Scan { mode: QuoteMode::Double, tokens: t, word: w, started: true, escaping: false }, x)
            == (Scan { mode: QuoteMode::Double, tokens: t, word: w + x, started: true, escaping: false }),
    decreases x.len(),
{
    if x.len() > 0 {
        let y = x.drop_last();
        assert(!y.contains('"') && !y.contains('\\')) by {
            if y.contains('"') {
                let i = choose|i: int| 0 <= i < y.len() && y[i] == '"';
                assert(x[i] == '"');
            }
            if y.contains('\\') {
                let i = choose|i: int| 0 <= i < y.len() && y[i] == '\\';
                assert(x[i] == '\\');
            }
        }
        assert(x[x.len() - 1] != '"' && x[x.len() - 1] != '\\');
        lemma_scan_double_quoted(t, w, y);
        assert((w + y).push(x.last()) =~= w + x);
    } else {
        assert(w + x =~= w);
    }
}

/// Bare word characters read outside quotes, with no escape pending, join the word.
proof fn lemma_scan_word_chars(s: Scan, x: Seq<char>)
    requires
        s.mode is Unquoted,
        !s.escaping,
        all_word_chars(x),
    ensures
        scan_run(s, x) == (Scan { word: s.word + x, started: s.started || x.len() > 0, ..s }),
    decreases x.len(),
{
    if x.len() > 0 {
        let y = x.drop_last();
        assert(all_word_chars(y)) by {
            assert forall|i: int| 0 <= i < y.len() implies is_plain(#[trigger] y[i]) && !is_white_space(y[i]) by {
                assert(y[i] == x[i]);
            }
        }
        assert(is_plain(x[x.len() - 1]) && !is_white_space(x[x.len() - 1]));
        lemma_scan_word_chars(s, y);
        assert((s.word + y).push(x.last()) =~= s.word + x);
    } else {
        assert(s.word + x =~= s.word);
    }
}

/// Text with no quote, backslash or pipe is split at white space into its
/// maximal runs of other characters.
pub proof fn law_plain_text_splits_on_white_space(input: Seq<char>)
    requires
        all_plain(input),
    ensures
        spec_tokenize(input) == Ok::<Seq<Seq<char>>, ParseError>(split_ws(input)),
{
    lemma_finish_plain(seq![], input);
    assert(seq![] + split_ws(input) =~= split_ws(input));
}

/// A pipe outside quotes is a word of its own, between the words before it
/// and those after it, whether or not white space surrounds it.
pub proof fn law_pipe_separates_words(before: Seq<char>, after: Seq<char>)
    requires
        all_plain(before),
        all_plain(after),
    ensures
        spec_tokenize(before + seq!['|'] + after)
            == Ok::<Seq<Seq<char>>, ParseError>(split_ws(before) + seq![pipe_word()] + split_ws(after)),
{
    let t = split_ws(before) + seq![pipe_word()];
    lemma_scan_run_append(scan_start(), before + seq!['|'], after);
    lemma_scan_run_append(scan_start(), before, seq!['|']);
    lemma_scan_run_one(scan_run(scan_start(), before), '|');
    lemma_scan_plain_then_pipe(seq![], before);
    assert(seq![] + split_ws(before) + seq![pipe_word()] =~= t);
    lemma_finish_plain(t, after);
}

/// Text between single quotes, none of it a single quote, is one word as it
/// is: white space, double quotes, backslashes and pipes in it are literal.
pub proof fn law_single_quotes_keep_text(text: Seq<char>)
    requires
        !text.contains('\''),
    ensures
        spec_tokenize(seq!['\''] + text + seq!['\'']) == Ok::<Seq<Seq<char>>, ParseError>(seq![text]),
{
    let q = seq!['\''];
    lemma_scan_run_append(scan_start(), q + text, q);
    lemma_scan_run_append(scan_start(), q, text);
    lemma_scan_run_one(scan_start(), '\'');
    let empty: Seq<char> = seq![];
    lemma_scan_single_quoted(seq![], empty, text);
    assert(empty + text =~= text);
    lemma_scan_run_one(scan_run(scan_start(), q + text), '\'');
    let r = scan_run(scan_start(), q + text + q);
    assert(r.tokens.push(r.word) =~= seq![text]);
}

/// A single quote that is never closed makes the line an error.
pub proof fn law_unclosed_single_quote(before: Seq<char>, text: Seq<char>)
    requires
        all_plain(before),
        !text.contains('\''),
    ensures
        spec_tokenize(before + seq!['\''] + text) == Err::<Seq<Seq<char>>, ParseError>(ParseError::UnclosedSingleQuote),
{
    let q = seq!['\''];
    lemma_scan_run_append(scan_start(), before + q, text);
    lemma_scan_run_append(scan_start(), before, q);
    lemma_scan_run_one(scan_run(scan_start(), before), '\'');
    lemma_scan_plain(seq![], before);
    let r = scan_step(scan_run(scan_start(), before), '\'');
    lemma_scan_single_quoted(r.tokens, r.word, text);
}

/// Text between double quotes, with no double quote or backslash in it, is
/// one word as it is: white space, single quotes and pipes in it are literal.
pub proof fn law_double_quotes_keep_text(text: Seq<char>)
    requires
        !text.contains('"'),
        !text.contains('\\'),
    ensures
        spec_tokenize(seq!['"'] + text + seq!['"']) == Ok::<Seq<Seq<char>>, ParseError>(seq![text]),
{
    let q = seq!['"'];
    lemma_scan_run_append(scan_start(), q + text, q);
    lemma_scan_run_append(scan_start(), q, text);
    lemma_scan_run_one(scan_start(), '"');
    let empty: Seq<char> = seq![];
    lemma_scan_double_quoted(seq![], empty, text);
    assert(empty + text =~= text);
    lemma_scan_run_one(scan_run(scan_start(), q + text), '"');
    let r = scan_run(scan_start(), q + text + q);
    assert(r.tokens.push(r.word) =~= seq![text]);
}

/// A double quote that is never closed makes the line an error.
pub proof fn law_unclosed_double_quote(before: Seq<char>, text: Seq<char>)
    requires
        all_plain(before),
        !text.contains('"'),
        !text.contains('\\'),
    ensures
        spec_tokenize(before + seq!['"'] + text) == Err::<Seq<Seq<char>>, ParseError>(ParseError::UnclosedDoubleQuote),
{
    let q = seq!['"'];
    lemma_scan_run_append(scan_start(), before + q, text);
    lemma_scan_run_append(scan_start(), before, q);
    lemma_scan_run_one(scan_run(scan_start(), before), '"');
    lemma_scan_plain(seq![], before);
    let r = scan_step(scan_run(scan_start(), before), '"');
    lemma_scan_double_quoted(r.tokens, r.word, text);
}

/// A backslash outside quotes makes the one character after it literal,
/// whatever it is, and the word goes on around it.
pub proof fn law_escape_makes_next_char_literal(before: Seq<char>, c: char, after: Seq<char>)
    requires
        all_word_chars(before),
        all_word_chars(after),
    ensures
        spec_tokenize(before + seq!['\\', c] + after)
            == Ok::<Seq<Seq<char>>, ParseError>(seq![before + seq![c] + after]),
{
    let e = seq!['\\', c];
    lemma_scan_run_append(scan_start(), before + e, after);
    lemma_scan_run_append(scan_start(), before, e);
    lemma_scan_word_chars(scan_start(), before);
    let b = scan_run(scan_start(), before);
    assert(e =~= seq!['\\'] + seq![c]);
    lemma_scan_run_append(b, seq!['\\'], seq![c]);
    lemma_scan_run_one(b, '\\');
    lemma_scan_run_one(scan_step(b, '\\'), c);
    let r = scan_run(b, e);
    assert(r.word =~= before + seq![c]);
    lemma_scan_word_chars(r, after);
    let f = scan_run(r, after);
    assert(f.tokens.push(f.word) =~= seq![before + seq![c] + after]);
}

/// A backslash at the end of a line, outside quotes, makes the line an error.
pub proof fn law_backslash_at_end(before: Seq<char>)
    requires
        all_plain(before),
    ensures
        spec_tokenize(before + seq!['\\']) == Err::<Seq<Seq<char>>, ParseError>(ParseError::BackslashAtEnd),
{
    lemma_scan_run_append(scan_start(), before, seq!['\\']);
    lemma_scan_run_one(scan_run(scan_start(), before), '\\');
    lemma_scan_plain(seq![], before);
}

/// `s` with the words `w` before its finished words.
pub open spec fn with_words_before(s: Scan, w: Seq<Seq<char>>) -> Scan {
    Scan { tokens: w + s.tokens, ..s }
}

/// An outcome with the words `w` before its words.
pub open spec fn after_words(w: Seq<Seq<char>>, r: Result<Seq<Seq<char>>, ParseError>) -> Result<Seq<Seq<char>>, ParseError> {
    match r {
        Ok(v) => Ok(w + v),
        Err(e) => Err(e),
    }
}

proof fn lemma_step_with_words_before(s: Scan, w: Seq<Seq<char>>, c: char)
    ensures
        scan_step(with_words_before(s, w), c) == with_words_before(scan_step(s, c), w),
{
    assert((w + s.tokens).push(s.word) =~= w + s.tokens.push(s.word));
    assert((w + s.tokens).push(pipe_word()) =~= w + s.tokens.push(pipe_word()));
    assert((w + s.tokens).push(s.word).push(pipe_word()) =~= w + s.tokens.push(s.word).push(pipe_word()));
}

/// Words finished before reading some text stay in front of those it makes.
proof fn lemma_run_with_words_before(s: Scan, w: Seq<Seq<char>>, y: Seq<char>)
    ensures
        scan_run(with_words_before(s, w), y) == with_words_before(scan_run(s, y), w),
    decreases y.len(),
{
    if y.len() > 0 {
        lemma_run_with_words_before(s, w, y.drop_last());
        lemma_step_with_words_before(scan_run(s, y.drop_last()), w, y.last());
    }
}

proof fn lemma_finish_with_words_before(s: Scan, w: Seq<Seq<char>>)
    ensures
        scan_finish(with_words_before(s, w)) == after_words(w, scan_finish(s)),
{
    assert((w + s.tokens).push(s.word) =~= w + s.tokens.push(s.word));
}

/// A word that has not been started is empty.
proof fn lemma_unstarted_word_is_empty(x: Seq<char>)
    ensures
        !scan_run(scan_start(), x).started ==> scan_run(scan_start(), x).word == Seq::<char>::empty(),
    decreases x.len(),
{
    if x.len() > 0 {
        lemma_unstarted_word_is_empty(x.drop_last());
    }
}

/// White space after a line that reads well splits it: the words of
/// `x + c + y` are those of `x` followed by those of `y`, and an error in
/// `y` is the error of the whole.
pub proof fn law_white_space_splits_line(x: Seq<char>, c: char, y: Seq<char>)
    requires
        spec_tokenize(x) is Ok,
        is_white_space(c),
    ensures
        spec_tokenize(x + seq![c] + y) == after_words(spec_tokenize(x)->Ok_0, spec_tokenize(y)),
{
    let w = spec_tokenize(x)->Ok_0;
    lemma_scan_run_append(scan_start(), x + seq![c], y);
    lemma_scan_run_append(scan_start(), x, seq![c]);
    lemma_scan_run_one(scan_run(scan_start(), x), c);
    lemma_unstarted_word_is_empty(x);
    assert(scan_step(scan_run(scan_start(), x), c) == with_words_before(scan_start(), w)) by {
        assert(w + Seq::<Seq<char>>::empty() =~= w);
    }
    lemma_run_with_words_before(scan_start(), w, y);
    lemma_finish_with_words_before(scan_run(scan_start(), y), w);
}

/// A pipe after a line that reads well splits it: the words of `x | y` are
/// those of `x`, the word `|`, and those of `y`; an error in `y` is the
/// error of the whole.
pub proof fn law_pipe_splits_line(x: Seq<char>, y: Seq<char>)
    requires
        spec_tokenize(x) is Ok,
    ensures
        spec_tokenize(x + seq!['|'] + y)
            == after_words(spec_tokenize(x)->Ok_0.push(pipe_word()), spec_tokenize(y)),
{
    let w = spec_tokenize(x)->Ok_0.push(pipe_word());
    lemma_scan_run_append(scan_start(), x + seq!['|'], y);
    lemma_scan_run_append(scan_start(), x, seq!['|']);
    lemma_scan_run_one(scan_run(scan_start(), x), '|');
    lemma_unstarted_word_is_empty(x);
    assert(scan_step(scan_run(scan_start(), x), '|') == with_words_before(scan_start(), w)) by {
        assert(w + Seq::<Seq<char>>::empty() =~= w);
    }
    lemma_run_with_words_before(scan_start(), w, y);
    lemma_finish_with_words_before(scan_run(scan_start(), y), w);
}

/// Inside double quotes a backslash makes the one character after it
/// literal, whatever it is (a quote, a backslash, a pipe, white space), and
/// only that character joins the word: the backslash itself does not.
pub proof fn law_escape_in_double_quotes(before: Seq<char>, c: char, after: Seq<char>)
    requires
        !before.contains('"'),
        !before.contains('\\'),
        !after.contains('"'),
        !after.contains('\\'),
    ensures
        spec_tokenize(seq!['"'] + before + seq!['\\', c] + after + seq!['"'])
            == Ok::<Seq<Seq<char>>, ParseError>(seq![before + seq![c] + after]),
{
    let q = seq!['"'];
    let e = seq!['\\', c];
    let empty: Seq<char> = seq![];
    let no_words: Seq<Seq<char>> = seq![];
    lemma_scan_run_append(scan_start(), q + before + e + after, q);
    lemma_scan_run_append(scan_start(), q + before + e, after);
    lemma_scan_run_append(scan_start(), q + before, e);
    lemma_scan_run_append(scan_start(), q, before);
    lemma_scan_run_one(scan_start(), '"');
    lemma_scan_double_quoted(no_words, empty, before);
    assert(empty + before =~= before);
    let b = scan_run(scan_start(), q + before);
    assert(b == (Scan { mode: QuoteMode::Double, tokens: no_words, word: before, started: true, escaping: false }));
    assert(e =~= seq!['\\'] + seq![c]);
    lemma_scan_run_append(b, seq!['\\'], seq![c]);
    lemma_scan_run_one(b, '\\');
    lemma_scan_run_one(scan_step(b, '\\'), c);
    let r = scan_run(b, e);
    assert(r == (Scan { mode: QuoteMode::Double, tokens: no_words, word: before.push(c), started: true, escaping: false }));
    lemma_scan_double_quoted(no_words, before.push(c), after);
    assert(before.push(c) + after =~= before + seq![c] + after);
    lemma_scan_run_one(scan_run(scan_start(), q + before + e + after), '"');
    let f = scan_run(scan_start(), q + before + e + after + q);
    assert(f.tokens.push(f.word) =~= seq![before + seq![c] + after]);
}

/// Quoted text between bare word characters joins them into one word: the
/// quotes only stop the text inside them from being read specially.
pub proof fn law_single_quoted_text_joins_word(before: Seq<char>, text: Seq<char>, after: Seq<char>)
    requires
        all_word_chars(before),
        !text.contains('\''),
        all_word_chars(after),
    ensures
        spec_tokenize(before + seq!['\''] + text + seq!['\''] + after)
            == Ok::<Seq<Seq<char>>, ParseError>(seq![before + text + after]),
{
    let q = seq!['\''];
    lemma_scan_run_append(scan_start(), before + q + text + q, after);
    lemma_scan_run_append(scan_start(), before + q + text, q);
    lemma_scan_run_append(scan_start(), before + q, text);
    lemma_scan_run_append(scan_start(), before, q);
    lemma_scan_word_chars(scan_start(), before);
    let b = scan_run(scan_start(), before);
    lemma_scan_run_one(b, '\'');
    let r = scan_step(b, '\'');
    assert(r == (Scan { mode: QuoteMode::Single, tokens: seq![], word: before, started: true, escaping: false }));
    lemma_scan_single_quoted(seq![], before, text);
    lemma_scan_run_one(scan_run(scan_start(), before + q + text), '\'');
    let m = scan_run(scan_start(), before + q + text + q);
    assert(m == (Scan { mode: QuoteMode::Unquoted, tokens: seq![], word: before + text, started: true, escaping: false }));
    lemma_scan_word_chars(m, after);
    let f = scan_run(m, after);
    assert(f.word =~= before + text + after);
    assert(f.tokens.push(f.word) =~= seq![before + text + after]);
}

/// Quoted text between bare word characters joins them into one word: the
/// quotes only stop the text inside them from being read specially.
pub proof fn law_double_quoted_text_joins_word(before: Seq<char>, text: Seq<char>, after: Seq<char>)
    requires
        all_word_chars(before),
        !text.contains('"'),
        !text.contains('\\'),
        all_word_chars(after),
    ensures
        spec_tokenize(before + seq!['"'] + text + seq!['"'] + after)
            == Ok::<Seq<Seq<char>>, ParseError>(seq![before + text + after]),
{
    let q = seq!['"'];
    lemma_scan_run_append(scan_start(), before + q + text + q, after);
    lemma_scan_run_append(scan_start(), before + q + text, q);
    lemma_scan_run_append(scan_start(), before + q, text);
    lemma_scan_run_append(scan_start(), before, q);
    lemma_scan_word_chars(scan_start(), before);
    let b = scan_run(scan_start(), before);
    lemma_scan_run_one(b, '"');
    let r = scan_step(b, '"');
    assert(r == (Scan { mode: QuoteMode::Double, tokens: seq![], word: before, started: true, escaping: false }));
    lemma_scan_double_quoted(seq![], before, text);
    lemma_scan_run_one(scan_run(scan_start(), before + q + text), '"');
    let m = scan_run(scan_start(), before + q + text + q);
    assert(m == (Scan { mode: QuoteMode::Unquoted, tokens: seq![], word: before + text, started: true, escaping: false }));
    lemma_scan_word_chars(m, after);
    let f = scan_run(m, after);
    assert(f.word =~= before + text + after);
    assert(f.tokens.push(f.word) =~= seq![before + text + after]);
}

/// An unclosed double quote is the error even when the line ends in a
/// backslash inside it.
pub proof fn law_unclosed_double_quote_before_backslash(text: Seq<char>)
    requires
        !text.contains('"'),
        !text.contains('\\'),
    ensures
        spec_tokenize(seq!['"'] + text + seq!['\\']) == Err::<Seq<Seq<char>>, ParseError>(ParseError::UnclosedDoubleQuote),
{
    let q = seq!['"'];
    let empty: Seq<char> = seq![];
    lemma_scan_run_append(scan_start(), q + text, seq!['\\']);
    lemma_scan_run_append(scan_start(), q, text);
    lemma_scan_run_one(scan_start(), '"');
    lemma_scan_double_quoted(seq![], empty, text);
    lemma_scan_run_one(scan_run(scan_start(), q + text), '\\');
}

} // verus!
