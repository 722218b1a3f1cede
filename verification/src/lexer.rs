//! A lexer that keeps the pipe operator apart from words: the operator in
//! `echo | wc` is a `Token::Pipe`, the word in `echo "|"` a `Token::Word`.

use vstd::prelude::*;
use crate::parser;
use crate::parser::{scan_run, scan_start, scan_step, spec_tokenize, Scan};
use crate::text::{all_plain, all_word_chars, char_is_whitespace, is_plain, is_white_space, split_ws};

verus! {

broadcast use vstd::string::group_string_axioms;

/// Why a line could not be lexed.
#[derive(Debug, PartialEq, Eq, Clone, Copy)]
pub enum ParseError {
    UnclosedDoubleQuote,
    UnclosedSingleQuote,
    BackslashAtEnd,
}

/// Operators and words are different token kinds.
#[derive(Debug, PartialEq, Eq)]
pub enum Token {
    Word(String),
    Pipe,
}

/// A token with its word as a character sequence.
pub enum SpecToken {
    Word(Seq<char>),
    Pipe,
}

impl View for Token {
    type V = SpecToken;

    open spec fn view(&self) -> SpecToken {
        match self {
            Token::Word(w) => SpecToken::Word(w@),
            Token::Pipe => SpecToken::Pipe,
        }
    }
}

/// The spec tokens of a list of tokens.
pub open spec fn token_views(v: Seq<Token>) -> Seq<SpecToken> {
    v.map_values(|t: Token| t@)
}

/// Which kind of quotation the lexer is inside.
#[derive(Debug, Clone, Copy)]
pub enum QuoteMode {
    Unquoted,
    Single,
    Double,
}

/// The lexer's state: tokens finished so far, the word being built, whether
/// a word has been started, and whether a backslash escape is pending.
pub struct LexState {
    pub mode: QuoteMode,
    pub tokens: Seq<SpecToken>,
    pub word: Seq<char>,
    pub started: bool,
    pub escaping: bool,
}

/// The state before the first character.
pub open spec fn lex_start() -> LexState {
    LexState { mode: QuoteMode::Unquoted, tokens: seq![], word: seq![], started: false, escaping: false }
}

/// `c` joins the word, literally: the word is started and no escape is pending.
pub open spec fn with_char(s: LexState, c: char) -> LexState {
    LexState { word: s.word.push(c), started: true, escaping: false, ..s }
}

/// A started word becomes a token; nothing happens otherwise.
pub open spec fn with_word_finished(s: LexState) -> LexState {
    if s.started {
        LexState { tokens: s.tokens.push(SpecToken::Word(s.word)), word: seq![], started: false, ..s }
    } else {
        s
    }
}

/// Reading `'`: after an escaping backslash it is a literal character.
pub open spec fn on_single_quote(s: LexState) -> LexState {
    if s.escaping {
        with_char(s, '\'')
    } else {
        let t = match s.mode {
            QuoteMode::Unquoted => LexState { mode: QuoteMode::Single, ..s },
            QuoteMode::Single => LexState { mode: QuoteMode::Unquoted, ..s },
            QuoteMode::Double => LexState { word: s.word.push('\''), ..s },
        };
        LexState { started: true, ..t }
    }
}

/// Reading `"`.
pub open spec fn on_double_quote(s: LexState) -> LexState {
    if s.escaping {
        with_char(s, '"')
    } else {
        let t = match s.mode {
            QuoteMode::Unquoted => LexState { mode: QuoteMode::Double, ..s },
            QuoteMode::Single => LexState { word: s.word.push('"'), ..s },
            QuoteMode::Double => LexState { mode: QuoteMode::Unquoted, ..s },
        };
        LexState { started: true, ..t }
    }
}

/// Reading `\`.
pub open spec fn on_backslash(s: LexState) -> LexState {
    if s.escaping {
        with_char(s, '\\')
    } else {
        match s.mode {
            QuoteMode::Single => LexState { word: s.word.push('\\'), started: true, ..s },
            _ => LexState { escaping: true, ..s },
        }
    }
}

/// Reading `|`.
pub open spec fn on_pipe(s: LexState) -> LexState {
    if s.escaping {
        with_char(s, '|')
    } else if s.mode is Unquoted {
        let t = with_word_finished(s);
        LexState { tokens: t.tokens.push(SpecToken::Pipe), ..t }
    } else {
        with_char(s, '|')
    }
}

/// Reading the white space character `c`.
pub open spec fn on_whitespace(s: LexState, c: char) -> LexState {
    if s.mode is Unquoted && !s.escaping {
        with_word_finished(s)
    } else {
        with_char(s, c)
    }
}

/// The state after reading `c`.
pub open spec fn lex_step(s: LexState, c: char) -> LexState {
    if c == '\'' {
        on_single_quote(s)
    } else if c == '"' {
        on_double_quote(s)
    } else if c == '\\' {
        on_backslash(s)
    } else if c == '|' {
        on_pipe(s)
    } else if is_white_space(c) {
        on_whitespace(s, c)
    } else {
        with_char(s, c)
    }
}

/// The state after reading all of `input`, starting in `s`.
pub open spec fn lex_run(s: LexState, input: Seq<char>) -> LexState
    decreases input.len(),
{
    if input.len() == 0 {
        s
    } else {
        lex_step(lex_run(s, input.drop_last()), input.last())
    }
}

/// What the end of the line makes of the final state.
pub open spec fn lex_finish(s: LexState) -> Result<Seq<SpecToken>, ParseError> {
    match s.mode {
        QuoteMode::Single => Err(ParseError::UnclosedSingleQuote),
        QuoteMode::Double => Err(ParseError::UnclosedDoubleQuote),
        QuoteMode::Unquoted => if s.escaping {
            Err(ParseError::BackslashAtEnd)
        } else {
            Ok(with_word_finished(s).tokens)
        },
    }
}

/// The tokens of `input`, or why it has none.
pub open spec fn spec_lex(input: Seq<char>) -> Result<Seq<SpecToken>, ParseError> {
    lex_finish(lex_run(lex_start(), input))
}

/// The spec tokens of a lexer result.
pub open spec fn lex_result_view(r: Result<Vec<Token>, ParseError>) -> Result<Seq<SpecToken>, ParseError> {
    match r {
        Ok(v) => Ok(token_views(v@)),
        Err(e) => Err(e),
    }
}

proof fn lemma_token_views_push(v: Seq<Token>, t: Token)
    ensures
        token_views(v.push(t)) == token_views(v).push(t@),
{
    assert(token_views(v.push(t)) =~= token_views(v).push(t@));
}

struct Lexer {
    mode: QuoteMode,
    tokens: Vec<Token>,
    current: String,
    word_started: bool,
    escaping: bool,
}

impl View for Lexer {
    type V = LexState;

    closed spec fn view(&self) -> LexState {
        LexState {
            mode: self.mode,
            tokens: token_views(self.tokens@),
            word: self.current@,
            started: self.word_started,
            escaping: self.escaping,
        }
    }
}

impl Lexer {
    fn new() -> (lexer: Self)
        ensures
            lexer@ == lex_start(),
    {
        let lexer = Self {
            mode: QuoteMode::Unquoted,
            tokens: Vec::new(),
            current: String::new(),
            word_started: false,
            escaping: false,
        };
        proof {
            assert(token_views(lexer.tokens@) =~= Seq::<SpecToken>::empty());
        }
        lexer
    }

    fn scan(self, input: &str) -> (res: Result<Vec<Token>, ParseError>)
        ensures
            lex_result_view(res) == lex_finish(lex_run(self@, input@)),
            res matches Ok(ts) ==> tokens_prefix(self@.tokens, token_views(ts@)),
    {
        let ghost start = self@;
        proof {
            law_scan_keeps_emitted_tokens(start, input@);
        }
        let mut lexer = self;
        proof {
            assert(input@.take(0) =~= Seq::<char>::empty());
        }
        for character in it: input.chars()
            invariant
                it.seq() == input@,
                lexer@ == lex_run(start, input@.take(it.index() as int)),
        {
            proof {
                assert(input@.take(it.index() + 1).drop_last() =~= input@.take(it.index() as int));
            }
            lexer.consume(character);
        }
        proof {
            assert(input@.take(input@.len() as int) =~= input@);
        }
        lexer.finish()
    }

    fn consume(&mut self, character: char)
        ensures
            final(self)@ == lex_step(old(self)@, character),
            lex_consistent(old(self)@) ==> lex_consistent(final(self)@),
            tokens_prefix(old(self)@.tokens, final(self)@.tokens),
            final(self)@.tokens.len() <= old(self)@.tokens.len() + 2,
    {
        proof {
            lemma_step_keeps_tokens(self@, character);
            if lex_consistent(self@) {
                law_step_keeps_state_and_tokens(self@, character);
            }
            assert(lex_step(self@, character).tokens.len() <= self@.tokens.len() + 2);
        }
        if character == '\'' {
            self.consume_single_quote()
        } else if character == '"' {
            self.consume_double_quote()
        } else if character == '\\' {
            self.consume_backslash()
        } else if character == '|' {
            self.consume_pipe()
        } else if char_is_whitespace(character) {
            self.consume_whitespace(character)
        } else {
            self.push_character(character)
        }
    }

    fn consume_single_quote(&mut self)
        ensures
            final(self)@ == on_single_quote(old(self)@),
    {
        if self.escaping {
            self.push_escaped('\'');
            return;
        }

        match self.mode {
            QuoteMode::Unquoted => self.mode = QuoteMode::Single,
            QuoteMode::Single => self.mode = QuoteMode::Unquoted,
            QuoteMode::Double => self.current.push('\''),
        }

        self.word_started = true;
    }

    fn consume_double_quote(&mut self)
        ensures
            final(self)@ == on_double_quote(old(self)@),
    {
        if self.escaping {
            self.push_escaped('"');
            return;
        }

        match self.mode {
            QuoteMode::Unquoted => self.mode = QuoteMode::Double,
            QuoteMode::Single => self.current.push('"'),
            QuoteMode::Double => self.mode = QuoteMode::Unquoted,
        }

        self.word_started = true;
    }

    fn consume_backslash(&mut self)
        ensures
            final(self)@ == on_backslash(old(self)@),
    {
        if self.escaping {
            self.push_escaped('\\');
            return;
        }

        match self.mode {
            QuoteMode::Single => {
                self.current.push('\\');
                self.word_started = true;
            },
            _ => self.escaping = true,
        }
    }

    fn consume_pipe(&mut self)
        ensures
            final(self)@ == on_pipe(old(self)@),
    {
        let unquoted = match self.mode {
            QuoteMode::Unquoted => true,
            _ => false,
        };
        if self.escaping {
            self.push_escaped('|');
        } else if unquoted {
            self.finish_word();
            proof {
                lemma_token_views_push(self.tokens@, Token::Pipe);
            }
            self.tokens.push(Token::Pipe);
        } else {
            self.push_character('|');
        }
    }

    fn consume_whitespace(&mut self, character: char)
        requires
            is_white_space(character),
        ensures
            final(self)@ == on_whitespace(old(self)@, character),
    {
        let unquoted = match self.mode {
            QuoteMode::Unquoted => true,
            _ => false,
        };
        if unquoted && !self.escaping {
            self.finish_word();
        } else {
            self.push_character(character);
        }
    }

    fn push_character(&mut self, character: char)
        ensures
            final(self)@ == with_char(old(self)@, character),
    {
        self.current.push(character);
        self.word_started = true;
        self.escaping = false;
    }

    fn push_escaped(&mut self, character: char)
        ensures
            final(self)@ == with_char(old(self)@, character),
    {
        self.current.push(character);
        self.word_started = true;
        self.escaping = false;
    }

    fn finish_word(&mut self)
        ensures
            final(self)@ == with_word_finished(old(self)@),
    {
        if !self.word_started {
            return;
        }
        let mut word = String::new();
        std::mem::swap(&mut word, &mut self.current);
        proof {
            lemma_token_views_push(self.tokens@, Token::Word(word));
        }
        self.tokens.push(Token::Word(word));
        self.word_started = false;
    }

    fn finish(self) -> (res: Result<Vec<Token>, ParseError>)
        ensures
            lex_result_view(res) == lex_finish(self@),
    {
        let mut lexer = self;
        match lexer.mode {
            QuoteMode::Single => return Err(ParseError::UnclosedSingleQuote),
            QuoteMode::Double => return Err(ParseError::UnclosedDoubleQuote),
            QuoteMode::Unquoted => {},
        }

        if lexer.escaping {
            return Err(ParseError::BackslashAtEnd);
        }

        lexer.finish_word();
        Ok(lexer.tokens)
    }
}

/// Splits `input` into words and pipe operators; see `spec_lex` for the rules.
pub fn tokenize(input: &str) -> (res: Result<Vec<Token>, ParseError>)
    ensures
        lex_result_view(res) == spec_lex(input@),
{
    Lexer::new().scan(input)
}

/// Words as word tokens.
pub open spec fn word_tokens(words: Seq<Seq<char>>) -> Seq<SpecToken> {
    words.map_values(|w: Seq<char>| SpecToken::Word(w))
}

/// A state outside quotes with no word started and no escape pending.
pub open spec fn lex_clean(tokens: Seq<SpecToken>) -> LexState {
    LexState { mode: QuoteMode::Unquoted, tokens, word: seq![], started: false, escaping: false }
}

/// Reading `x + y` is reading `x`, then `y`.
pub proof fn lemma_lex_run_append(s: LexState, x: Seq<char>, y: Seq<char>)
    ensures
        lex_run(s, x + y) == lex_run(lex_run(s, x), y),
    decreases y.len(),
{
    if y.len() == 0 {
        assert(x + y =~= x);
    } else {
        lemma_lex_run_append(s, x, y.drop_last());
        assert((x + y).drop_last() =~= x + y.drop_last());
    }
}

/// Reading one character is one step.
pub proof fn lemma_lex_run_one(s: LexState, c: char)
    ensures
        lex_run(s, seq![c]) == lex_step(s, c),
{
    let one = seq![c];
    assert(one.drop_last() =~= Seq::<char>::empty());
    assert(lex_run(s, one.drop_last()) == s);
    assert(one.last() == c);
}

proof fn lemma_word_tokens_push(words: Seq<Seq<char>>, w: Seq<char>)
    ensures
        word_tokens(words.push(w)) == word_tokens(words).push(SpecToken::Word(w)),
        word_tokens(words).len() == words.len(),
{
    assert(word_tokens(words.push(w)) =~= word_tokens(words).push(SpecToken::Word(w)));
}

/// Plain text read from a clean state: the finished tokens are the words of
/// `split_ws`, the last one still open when the text does not end in white
/// space.
proof fn lemma_lex_plain(t: Seq<SpecToken>, p: Seq<char>)
    requires
        all_plain(p),
    ensures
        ({
            let r = lex_run(lex_clean(t), p);
            &&& r.mode is Unquoted
            &&& !r.escaping
            &&& if p.len() > 0 && !is_white_space(p.last()) {
                &&& r.started
                &&& split_ws(p).len() > 0
                &&& r.tokens == t + word_tokens(split_ws(p).drop_last())
                &&& r.word == split_ws(p).last()
            } else {
                &&& !r.started
                &&& r.word == Seq::<char>::empty()
                &&& r.tokens == t + word_tokens(split_ws(p))
            }
        }),
    decreases p.len(),
{
    if p.len() > 0 {
        let q = p.drop_last();
        let c = p.last();
        assert(all_plain(q)) by {
            assert forall|i: int| 0 <= i < q.len() implies is_plain(q[i]) by {
                assert(q[i] == p[i]);
            }
        }
        assert(is_plain(p[p.len() - 1]));
        lemma_lex_plain(t, q);
        let r = lex_run(lex_clean(t), q);
        let sq = split_ws(q);
        if q.len() > 0 {
            assert(p[p.len() - 2] == q.last());
        }
        if is_white_space(c) {
            if r.started {
                assert(sq =~= sq.drop_last().push(sq.last()));
                lemma_word_tokens_push(sq.drop_last(), sq.last());
                assert(t + word_tokens(sq) =~= (t + word_tokens(sq.drop_last())).push(SpecToken::Word(sq.last())));
            }
        } else if q.len() > 0 && !is_white_space(q.last()) {
            let sp = split_ws(p);
            assert(sp =~= sq.update(sq.len() - 1, sq.last().push(c)));
            assert(sp.drop_last() =~= sq.drop_last());
        } else {
            let sp = split_ws(p);
            assert(sp =~= sq.push(seq![c]));
            assert(sp.drop_last() =~= sq);
            assert(r.word.push(c) =~= seq![c]);
        }
    }
}

proof fn lemma_lex_finish_plain(t: Seq<SpecToken>, p: Seq<char>)
    requires
        all_plain(p),
    ensures
        lex_finish(lex_run(lex_clean(t), p)) == Ok::<Seq<SpecToken>, ParseError>(t + word_tokens(split_ws(p))),
{
    lemma_lex_plain(t, p);
    let r = lex_run(lex_clean(t), p);
    let sp = split_ws(p);
    if r.started {
        assert(sp =~= sp.drop_last().push(sp.last()));
        lemma_word_tokens_push(sp.drop_last(), sp.last());
        assert(r.tokens.push(SpecToken::Word(r.word)) =~= t + word_tokens(sp));
    }
}

proof fn lemma_lex_plain_then_pipe(t: Seq<SpecToken>, p: Seq<char>)
    requires
        all_plain(p),
    ensures
        lex_step(lex_run(lex_clean(t), p), '|') == lex_clean(t + word_tokens(split_ws(p)) + seq![SpecToken::Pipe]),
{
    lemma_lex_plain(t, p);
    let r = lex_run(lex_clean(t), p);
    let sp = split_ws(p);
    if r.started {
        assert(sp =~= sp.drop_last().push(sp.last()));
        lemma_word_tokens_push(sp.drop_last(), sp.last());
        assert(r.tokens.push(SpecToken::Word(r.word)).push(SpecToken::Pipe)
            =~= t + word_tokens(sp) + seq![SpecToken::Pipe]);
    } else {
        assert(r.tokens.push(SpecToken::Pipe) =~= t + word_tokens(sp) + seq![SpecToken::Pipe]);
    }
    assert(lex_step(r, '|').word =~= Seq::<char>::empty());
}

proof fn lemma_lex_single_quoted(t: Seq<SpecToken>, w: Seq<char>, x: Seq<char>)
    requires
        !x.contains('\''),
    ensures
        lex_run(LexState { mode: QuoteMode::Single, tokens: t, word: w, started: true, escaping: false }, x)
            == (LexState { mode: QuoteMode::Single, tokens: t, word: w + x, started: true, escaping: false }),
    decreases x.len(),
{
    if x.len() > 0 {
        let y = x.drop_last();
        assert(!y.contains('\'')) by {
            if y.contains('\'') {
                let i = choose|i: int| 0 <= i < y.len() && y[i] == '\'';
                assert(x[i] == '\'');
            }
        }
        assert(x[x.len() - 1] != '\'');
        lemma_lex_single_quoted(t, w, y);
        assert((w + y).push(x.last()) =~= w + x);
    } else {
        assert(w + x =~= w);
    }
}

proof fn lemma_lex_double_quoted(t: Seq<SpecToken>, w: Seq<char>, x: Seq<char>)
    requires
        !x.contains('"'),
        !x.contains('\\'),
    ensures
        lex_run(LexState { mode: QuoteMode::Double, tokens: t, word: w, started: true, escaping: false }, x)
            == (LexState { mode: QuoteMode::Double, tokens: t, word: w + x, started: true, escaping: false }),
    decreases x.len(),
{
    if x.len() > 0 {
        let y = x.drop_last();
        assert(!y.contains('"') && !y.contains('\\')) by {
            if y.contains('"') {
                let i = choose|i: int| 0 <= i < y.len() && y[i] == '"';
                assert(x[i] == '"');
            }
            if y.contains('\\') {
                let i = choose|i: int| 0 <= i < y.len() && y[i] == '\\';
                assert(x[i] == '\\');
            }
        }
        assert(x[x.len() - 1] != '"' && x[x.len() - 1] != '\\');
        lemma_lex_double_quoted(t, w, y);
        assert((w + y).push(x.last()) =~= w + x);
    } else {
        assert(w + x =~= w);
    }
}

proof fn lemma_lex_word_chars(s: LexState, x: Seq<char>)
    requires
        s.mode is Unquoted,
        !s.escaping,
        all_word_chars(x),
    ensures
        lex_run(s, x) == (LexState { word: s.word + x, started: s.started || x.len() > 0, ..s }),
    decreases x.len(),
{
    if x.len() > 0 {
        let y = x.drop_last();
        assert(all_word_chars(y)) by {
            assert forall|i: int| 0 <= i < y.len() implies is_plain(#[trigger] y[i]) && !is_white_space(y[i]) by {
                assert(y[i] == x[i]);
            }
        }
        assert(is_plain(x[x.len() - 1]) && !is_white_space(x[x.len() - 1]));
        lemma_lex_word_chars(s, y);
        assert((s.word + y).push(x.last()) =~= s.word + x);
    } else {
        assert(s.word + x =~= s.word);
    }
}

/// Text with no quote, backslash or pipe is split at white space into word
/// tokens, one for each maximal run of other characters.
pub proof fn law_plain_text_splits_on_white_space(input: Seq<char>)
    requires
        all_plain(input),
    ensures
        spec_lex(input) == Ok::<Seq<SpecToken>, ParseError>(word_tokens(split_ws(input))),
{
    lemma_lex_finish_plain(seq![], input);
    assert(seq![] + word_tokens(split_ws(input)) =~= word_tokens(split_ws(input)));
}

/// A pipe outside quotes is a pipe token between the words before it and
/// those after it, whether or not white space surrounds it.
pub proof fn law_pipe_is_an_operator(before: Seq<char>, after: Seq<char>)
    requires
        all_plain(before),
        all_plain(after),
    ensures
        spec_lex(before + seq!['|'] + after) == Ok::<Seq<SpecToken>, ParseError>(
            word_tokens(split_ws(before)) + seq![SpecToken::Pipe] + word_tokens(split_ws(after)),
        ),
{
    let t = word_tokens(split_ws(before)) + seq![SpecToken::Pipe];
    lemma_lex_run_append(lex_start(), before + seq!['|'], after);
    lemma_lex_run_append(lex_start(), before, seq!['|']);
    lemma_lex_run_one(lex_run(lex_start(), before), '|');
    lemma_lex_plain_then_pipe(seq![], before);
    assert(seq![] + word_tokens(split_ws(before)) + seq![SpecToken::Pipe] =~= t);
    lemma_lex_finish_plain(t, after);
}

/// Text between single quotes, none of it a single quote, is one word token
/// as it is; a pipe in it is part of the word.
pub proof fn law_single_quotes_keep_text(text: Seq<char>)
    requires
        !text.contains('\''),
    ensures
        spec_lex(seq!['\''] + text + seq!['\'']) == Ok::<Seq<SpecToken>, ParseError>(seq![SpecToken::Word(text)]),
{
    let q = seq!['\''];
    lemma_lex_run_append(lex_start(), q + text, q);
    lemma_lex_run_append(lex_start(), q, text);
    lemma_lex_run_one(lex_start(), '\'');
    let empty: Seq<char> = seq![];
    lemma_lex_single_quoted(seq![], empty, text);
    assert(empty + text =~= text);
    lemma_lex_run_one(lex_run(lex_start(), q + text), '\'');
    let r = lex_run(lex_start(), q + text + q);
    assert(r.tokens.push(SpecToken::Word(r.word)) =~= seq![SpecToken::Word(text)]);
}

/// Text between double quotes, with no double quote or backslash in it, is
/// one word token as it is; a pipe in it is part of the word.
pub proof fn law_double_quotes_keep_text(text: Seq<char>)
    requires
        !text.contains('"'),
        !text.contains('\\'),
    ensures
        spec_lex(seq!['"'] + text + seq!['"']) == Ok::<Seq<SpecToken>, ParseError>(seq![SpecToken::Word(text)]),
{
    let q = seq!['"'];
    lemma_lex_run_append(lex_start(), q + text, q);
    lemma_lex_run_append(lex_start(), q, text);
    lemma_lex_run_one(lex_start(), '"');
    let empty: Seq<char> = seq![];
    lemma_lex_double_quoted(seq![], empty, text);
    assert(empty + text =~= text);
    lemma_lex_run_one(lex_run(lex_start(), q + text), '"');
    let r = lex_run(lex_start(), q + text + q);
    assert(r.tokens.push(SpecToken::Word(r.word)) =~= seq![SpecToken::Word(text)]);
}

/// A single quote that is never closed makes the line an error.
pub proof fn law_unclosed_single_quote(before: Seq<char>, text: Seq<char>)
    requires
        all_plain(before),
        !text.contains('\''),
    ensures
        spec_lex(before + seq!['\''] + text) == Err::<Seq<SpecToken>, ParseError>(ParseError::UnclosedSingleQuote),
{
    let q = seq!['\''];
    lemma_lex_run_append(lex_start(), before + q, text);
    lemma_lex_run_append(lex_start(), before, q);
    lemma_lex_run_one(lex_run(lex_start(), before), '\'');
    lemma_lex_plain(seq![], before);
    let r = lex_step(lex_run(lex_start(), before), '\'');
    lemma_lex_single_quoted(r.tokens, r.word, text);
}

/// A double quote that is never closed makes the line an error.
pub proof fn law_unclosed_double_quote(before: Seq<char>, text: Seq<char>)
    requires
        all_plain(before),
        !text.contains('"'),
        !text.contains('\\'),
    ensures
        spec_lex(before + seq!['"'] + text) == Err::<Seq<SpecToken>, ParseError>(ParseError::UnclosedDoubleQuote),
{
    let q = seq!['"'];
    lemma_lex_run_append(lex_start(), before + q, text);
    lemma_lex_run_append(lex_start(), before, q);
    lemma_lex_run_one(lex_run(lex_start(), before), '"');
    lemma_lex_plain(seq![], before);
    let r = lex_step(lex_run(lex_start(), before), '"');
    lemma_lex_double_quoted(r.tokens, r.word, text);
}

/// A backslash outside quotes makes the one character after it literal,
/// whatever it is, and the word goes on around it.
pub proof fn law_escape_makes_next_char_literal(before: Seq<char>, c: char, after: Seq<char>)
    requires
        all_word_chars(before),
        all_word_chars(after),
    ensures
        spec_lex(before + seq!['\\', c] + after)
            == Ok::<Seq<SpecToken>, ParseError>(seq![SpecToken::Word(before + seq![c] + after)]),
{
    let e = seq!['\\', c];
    lemma_lex_run_append(lex_start(), before + e, after);
    lemma_lex_run_append(lex_start(), before, e);
    lemma_lex_word_chars(lex_start(), before);
    let b = lex_run(lex_start(), before);
    assert(e =~= seq!['\\'] + seq![c]);
    lemma_lex_run_append(b, seq!['\\'], seq![c]);
    lemma_lex_run_one(b, '\\');
    lemma_lex_run_one(lex_step(b, '\\'), c);
    let r = lex_run(b, e);
    assert(r.word =~= before + seq![c]);
    lemma_lex_word_chars(r, after);
    let f = lex_run(r, after);
    assert(f.tokens.push(SpecToken::Word(f.word)) =~= seq![SpecToken::Word(before + seq![c] + after)]);
}

/// A backslash at the end of a line, outside quotes, makes the line an error.
pub proof fn law_backslash_at_end(before: Seq<char>)
    requires
        all_plain(before),
    ensures
        spec_lex(before + seq!['\\']) == Err::<Seq<SpecToken>, ParseError>(ParseError::BackslashAtEnd),
{
    lemma_lex_run_append(lex_start(), before, seq!['\\']);
    lemma_lex_run_one(lex_run(lex_start(), before), '\\');
    lemma_lex_plain(seq![], before);
}

/// The text of a token: a word's characters, or `|` for the pipe.
pub open spec fn token_text(t: SpecToken) -> Seq<char> {
    match t {
        SpecToken::Word(w) => w,
        SpecToken::Pipe => seq!['|'],
    }
}

/// The texts of a list of tokens.
pub open spec fn tokens_text(ts: Seq<SpecToken>) -> Seq<Seq<char>> {
    ts.map_values(|t: SpecToken| token_text(t))
}

/// The same error as `crate::parser::ParseError`.
pub open spec fn as_parser_error(e: ParseError) -> parser::ParseError {
    match e {
        ParseError::UnclosedDoubleQuote => parser::ParseError::UnclosedDoubleQuote,
        ParseError::UnclosedSingleQuote => parser::ParseError::UnclosedSingleQuote,
        ParseError::BackslashAtEnd => parser::ParseError::BackslashAtEnd,
    }
}

/// A lexer outcome with tokens replaced by their texts.
pub open spec fn as_parser_outcome(r: Result<Seq<SpecToken>, ParseError>) -> Result<Seq<Seq<char>>, parser::ParseError> {
    match r {
        Ok(ts) => Ok(tokens_text(ts)),
        Err(e) => Err(as_parser_error(e)),
    }
}

spec fn same_mode(a: parser::QuoteMode, b: QuoteMode) -> bool {
    match (a, b) {
        (parser::QuoteMode::Unquoted, QuoteMode::Unquoted) => true,
        (parser::QuoteMode::Single, QuoteMode::Single) => true,
        (parser::QuoteMode::Double, QuoteMode::Double) => true,
        _ => false,
    }
}

spec fn corresponds(p: Scan, l: LexState) -> bool {
    &&& same_mode(p.mode, l.mode)
    &&& p.tokens == tokens_text(l.tokens)
    &&& p.word == l.word
    &&& p.started == l.started
    &&& p.escaping == l.escaping
}

proof fn lemma_tokens_text_push(ts: Seq<SpecToken>, t: SpecToken)
    ensures
        tokens_text(ts.push(t)) == tokens_text(ts).push(token_text(t)),
{
    assert(tokens_text(ts.push(t)) =~= tokens_text(ts).push(token_text(t)));
}

proof fn lemma_step_corresponds(p: Scan, l: LexState, c: char)
    requires
        corresponds(p, l),
    ensures
        corresponds(scan_step(p, c), lex_step(l, c)),
{
    lemma_tokens_text_push(l.tokens, SpecToken::Pipe);
    lemma_tokens_text_push(l.tokens, SpecToken::Word(l.word));
    lemma_tokens_text_push(l.tokens.push(SpecToken::Word(l.word)), SpecToken::Pipe);
    assert(token_text(SpecToken::Pipe) == parser::pipe_word());
}

proof fn lemma_run_corresponds(input: Seq<char>, n: int)
    requires
        0 <= n <= input.len(),
    ensures
        corresponds(scan_run(scan_start(), input.take(n)), lex_run(lex_start(), input.take(n))),
    decreases n,
{
    if n == 0 {
        assert(tokens_text(Seq::<SpecToken>::empty()) =~= Seq::<Seq<char>>::empty());
    } else {
        lemma_run_corresponds(input, n - 1);
        let prefix = input.take(n);
        assert(prefix.drop_last() =~= input.take(n - 1));
        assert(prefix.last() == input[n - 1]);
        lemma_step_corresponds(
            scan_run(scan_start(), input.take(n - 1)),
            lex_run(lex_start(), input.take(n - 1)),
            input[n - 1],
        );
    }
}

/// The two tokenizers agree on every line, the pipe token reading as the
/// word `|`.
pub proof fn law_agrees_with_parser(input: Seq<char>)
    ensures
        as_parser_outcome(spec_lex(input)) == spec_tokenize(input),
{
    lemma_run_corresponds(input, input.len() as int);
    assert(input.take(input.len() as int) =~= input);
    let l = lex_run(lex_start(), input);
    if l.started {
        lemma_tokens_text_push(l.tokens, SpecToken::Word(l.word));
    }
}

/// The lexer's state is consistent: no word is started without being begun,
/// and a word is always started inside quotes.
pub open spec fn lex_consistent(s: LexState) -> bool {
    &&& !s.started ==> s.word == Seq::<char>::empty()
    &&& !(s.mode is Unquoted) ==> s.started
}

/// `a` is where `b` starts.
pub open spec fn tokens_prefix(a: Seq<SpecToken>, b: Seq<SpecToken>) -> bool {
    a.len() <= b.len() && b.subrange(0, a.len() as int) == a
}

/// Reading one character keeps the state consistent, keeps every token
/// already made, and makes at most two new ones (a word and a pipe).
pub proof fn law_step_keeps_state_and_tokens(s: LexState, c: char)
    requires
        lex_consistent(s),
    ensures
        lex_consistent(lex_step(s, c)),
        tokens_prefix(s.tokens, lex_step(s, c).tokens),
        lex_step(s, c).tokens.len() <= s.tokens.len() + 2,
{
    lemma_step_keeps_tokens(s, c);
}

proof fn lemma_tokens_prefix_trans(a: Seq<SpecToken>, b: Seq<SpecToken>, c: Seq<SpecToken>)
    requires
        tokens_prefix(a, b),
        tokens_prefix(b, c),
    ensures
        tokens_prefix(a, c),
{
    assert(c.subrange(0, a.len() as int) =~= b.subrange(0, a.len() as int));
}

proof fn lemma_step_keeps_tokens(s: LexState, c: char)
    ensures
        tokens_prefix(s.tokens, lex_step(s, c).tokens),
        lex_step(s, c).tokens.len() <= s.tokens.len() + 2,
{
    assert(s.tokens.push(SpecToken::Pipe).subrange(0, s.tokens.len() as int) =~= s.tokens);
    assert(s.tokens.push(SpecToken::Word(s.word)).subrange(0, s.tokens.len() as int) =~= s.tokens);
    assert(s.tokens.push(SpecToken::Word(s.word)).push(SpecToken::Pipe).subrange(0, s.tokens.len() as int)
        =~= s.tokens);
    assert(s.tokens.subrange(0, s.tokens.len() as int) =~= s.tokens);
}

/// Reading any text keeps every token already made, and a consistent state
/// stays consistent.
pub proof fn law_run_keeps_state_and_tokens(s: LexState, input: Seq<char>)
    ensures
        tokens_prefix(s.tokens, lex_run(s, input).tokens),
        lex_consistent(s) ==> lex_consistent(lex_run(s, input)),
    decreases input.len(),
{
    if input.len() == 0 {
        assert(s.tokens.subrange(0, s.tokens.len() as int) =~= s.tokens);
    } else {
        let r = lex_run(s, input.drop_last());
        law_run_keeps_state_and_tokens(s, input.drop_last());
        lemma_step_keeps_tokens(r, input.last());
        lemma_tokens_prefix_trans(s.tokens, r.tokens, lex_step(r, input.last()).tokens);
        if lex_consistent(s) {
            law_step_keeps_state_and_tokens(r, input.last());
        }
    }
}

/// Scanning never drops a token already made: when the line is accepted,
/// the tokens held before scanning start the result. Scanning nothing is
/// finishing.
pub proof fn law_scan_keeps_emitted_tokens(s: LexState, input: Seq<char>)
    ensures
        lex_finish(lex_run(s, input)) matches Ok(ts) ==> tokens_prefix(s.tokens, ts),
        lex_finish(lex_run(s, Seq::<char>::empty())) == lex_finish(s),
{
    law_run_keeps_state_and_tokens(s, input);
    let r = lex_run(s, input);
    let f = with_word_finished(r);
    assert(tokens_prefix(r.tokens, f.tokens)) by {
        assert(r.tokens.push(SpecToken::Word(r.word)).subrange(0, r.tokens.len() as int) =~= r.tokens);
        assert(r.tokens.subrange(0, r.tokens.len() as int) =~= r.tokens);
    }
    lemma_tokens_prefix_trans(s.tokens, r.tokens, f.tokens);
}

/// `s` with the tokens `w` before its finished tokens.
pub open spec fn with_tokens_before(s: LexState, w: Seq<SpecToken>) -> LexState {
    LexState { tokens: w + s.tokens, ..s }
}

/// An outcome with the tokens `w` before its tokens.
pub open spec fn after_tokens(w: Seq<SpecToken>, r: Result<Seq<SpecToken>, ParseError>) -> Result<Seq<SpecToken>, ParseError> {
    match r {
        Ok(v) => Ok(w + v),
        Err(e) => Err(e),
    }
}

proof fn lemma_lex_step_with_tokens_before(s: LexState, w: Seq<SpecToken>, c: char)
    ensures
        lex_step(with_tokens_before(s, w), c) == with_tokens_before(lex_step(s, c), w),
{
    assert((w + s.tokens).push(SpecToken::Word(s.word)) =~= w + s.tokens.push(SpecToken::Word(s.word)));
    assert((w + s.tokens).push(SpecToken::Pipe) =~= w + s.tokens.push(SpecToken::Pipe));
    assert((w + s.tokens).push(SpecToken::Word(s.word)).push(SpecToken::Pipe)
        =~= w + s.tokens.push(SpecToken::Word(s.word)).push(SpecToken::Pipe));
}

/// Tokens finished before reading some text stay in front of those it makes.
proof fn lemma_lex_run_with_tokens_before(s: LexState, w: Seq<SpecToken>, y: Seq<char>)
    ensures
        lex_run(with_tokens_before(s, w), y) == with_tokens_before(lex_run(s, y), w),
    decreases y.len(),
{
    if y.len() > 0 {
        lemma_lex_run_with_tokens_before(s, w, y.drop_last());
        lemma_lex_step_with_tokens_before(lex_run(s, y.drop_last()), w, y.last());
    }
}

proof fn lemma_lex_finish_with_tokens_before(s: LexState, w: Seq<SpecToken>)
    ensures
        lex_finish(with_tokens_before(s, w)) == after_tokens(w, lex_finish(s)),
{
    assert((w + s.tokens).push(SpecToken::Word(s.word)) =~= w + s.tokens.push(SpecToken::Word(s.word)));
}

/// White space after a line that lexes well splits it: the tokens of
/// `x + c + y` are those of `x` followed by those of `y`, and an error in
/// `y` is the error of the whole.
pub proof fn law_white_space_splits_line(x: Seq<char>, c: char, y: Seq<char>)
    requires
        spec_lex(x) is Ok,
        is_white_space(c),
    ensures
        spec_lex(x + seq![c] + y) == after_tokens(spec_lex(x)->Ok_0, spec_lex(y)),
{
    let w = spec_lex(x)->Ok_0;
    lemma_lex_run_append(lex_start(), x + seq![c], y);
    lemma_lex_run_append(lex_start(), x, seq![c]);
    lemma_lex_run_one(lex_run(lex_start(), x), c);
    law_run_keeps_state_and_tokens(lex_start(), x);
    assert(lex_step(lex_run(lex_start(), x), c) == with_tokens_before(lex_start(), w)) by {
        assert(w + Seq::<SpecToken>::empty() =~= w);
    }
    lemma_lex_run_with_tokens_before(lex_start(), w, y);
    lemma_lex_finish_with_tokens_before(lex_run(lex_start(), y), w);
}

/// A pipe after a line that lexes well splits it: the tokens of `x | y` are
/// those of `x`, a pipe token, and those of `y`; an error in `y` is the
/// error of the whole.
pub proof fn law_pipe_splits_line(x: Seq<char>, y: Seq<char>)
    requires
        spec_lex(x) is Ok,
    ensures
        spec_lex(x + seq!['|'] + y) == after_tokens(spec_lex(x)->Ok_0.push(SpecToken::Pipe), spec_lex(y)),
{
    let w = spec_lex(x)->Ok_0.push(SpecToken::Pipe);
    lemma_lex_run_append(lex_start(), x + seq!['|'], y);
    lemma_lex_run_append(lex_start(), x, seq!['|']);
    lemma_lex_run_one(lex_run(lex_start(), x), '|');
    law_run_keeps_state_and_tokens(lex_start(), x);
    assert(lex_step(lex_run(lex_start(), x), '|') == with_tokens_before(lex_start(), w)) by {
        assert(w + Seq::<SpecToken>::empty() =~= w);
    }
    lemma_lex_run_with_tokens_before(lex_start(), w, y);
    lemma_lex_finish_with_tokens_before(lex_run(lex_start(), y), w);
}

/// Inside double quotes a backslash makes the one character after it
/// literal, whatever it is (a quote, a backslash, a pipe, white space), and
/// only that character joins the word: the backslash itself does not.
pub proof fn law_escape_in_double_quotes(before: Seq<char>, c: char, after: Seq<char>)
    requires
        !before.contains('"'),
        !before.contains('\\'),
        !after.contains('"'),
        !after.contains('\\'),
    ensures
        spec_lex(seq!['"'] + before + seq!['\\', c] + after + seq!['"'])
            == Ok::<Seq<SpecToken>, ParseError>(seq![SpecToken::Word(before + seq![c] + after)]),
{
    let q = seq!['"'];
    let e = seq!['\\', c];
    let empty: Seq<char> = seq![];
    let no_tokens: Seq<SpecToken> = seq![];
    lemma_lex_run_append(lex_start(), q + before + e + after, q);
    lemma_lex_run_append(lex_start(), q + before + e, after);
    lemma_lex_run_append(lex_start(), q + before, e);
    lemma_lex_run_append(lex_start(), q, before);
    lemma_lex_run_one(lex_start(), '"');
    lemma_lex_double_quoted(no_tokens, empty, before);
    assert(empty + before =~= before);
    let b = lex_run(lex_start(), q + before);
    assert(b == (LexState { mode: QuoteMode::Double, tokens: no_tokens, word: before, started: true, escaping: false }));
    assert(e =~= seq!['\\'] + seq![c]);
    lemma_lex_run_append(b, seq!['\\'], seq![c]);
    lemma_lex_run_one(b, '\\');
    lemma_lex_run_one(lex_step(b, '\\'), c);
    let r = lex_run(b, e);
    assert(r == (LexState { mode: QuoteMode::Double, tokens: no_tokens, word: before.push(c), started: true, escaping: false }));
    lemma_lex_double_quoted(no_tokens, before.push(c), after);
    assert(before.push(c) + after =~= before + seq![c] + after);
    lemma_lex_run_one(lex_run(lex_start(), q + before + e + after), '"');
    let f = lex_run(lex_start(), q + before + e + after + q);
    assert(f.tokens.push(SpecToken::Word(f.word)) =~= seq![SpecToken::Word(before + seq![c] + after)]);
}

/// Quoted text between bare word characters joins them into one word: the
/// quotes only stop the text inside them from being read specially.
pub proof fn law_single_quoted_text_joins_word(before: Seq<char>, text: Seq<char>, after: Seq<char>)
    requires
        all_word_chars(before),
        !text.contains('\''),
        all_word_chars(after),
    ensures
        spec_lex(before + seq!['\''] + text + seq!['\''] + after)
            == Ok::<Seq<SpecToken>, ParseError>(seq![SpecToken::Word(before + text + after)]),
{
    let q = seq!['\''];
    lemma_lex_run_append(lex_start(), before + q + text + q, after);
    lemma_lex_run_append(lex_start(), before + q + text, q);
    lemma_lex_run_append(lex_start(), before + q, text);
    lemma_lex_run_append(lex_start(), before, q);
    lemma_lex_word_chars(lex_start(), before);
    let b = lex_run(lex_start(), before);
    lemma_lex_run_one(b, '\'');
    let r = lex_step(b, '\'');
    assert(r == (LexState { mode: QuoteMode::Single, tokens: seq![], word: before, started: true, escaping: false }));
    lemma_lex_single_quoted(seq![], before, text);
    lemma_lex_run_one(lex_run(lex_start(), before + q + text), '\'');
    let m = lex_run(lex_start(), before + q + text + q);
    assert(m == (LexState { mode: QuoteMode::Unquoted, tokens: seq![], word: before + text, started: true, escaping: false }));
    lemma_lex_word_chars(m, after);
    let f = lex_run(m, after);
    assert(f.word =~= before + text + after);
    assert(f.tokens.push(SpecToken::Word(f.word)) =~= seq![SpecToken::Word(before + text + after)]);
}

/// Quoted text between bare word characters joins them into one word: the
/// quotes only stop the text inside them from being read specially.
pub proof fn law_double_quoted_text_joins_word(before: Seq<char>, text: Seq<char>, after: Seq<char>)
    requires
        all_word_chars(before),
        !text.contains('"'),
        !text.contains('\\'),
        all_word_chars(after),
    ensures
        spec_lex(before + seq!['"'] + text + seq!['"'] + after)
            == Ok::<Seq<SpecToken>, ParseError>(seq![SpecToken::Word(before + text + after)]),
{
    let q = seq!['"'];
    lemma_lex_run_append(lex_start(), before + q + text + q, after);
    lemma_lex_run_append(lex_start(), before + q + text, q);
    lemma_lex_run_append(lex_start(), before + q, text);
    lemma_lex_run_append(lex_start(), before, q);
    lemma_lex_word_chars(lex_start(), before);
    let b = lex_run(lex_start(), before);
    lemma_lex_run_one(b, '"');
    let r = lex_step(b, '"');
    assert(r == (LexState { mode: QuoteMode::Double, tokens: seq![], word: before, started: true, escaping: false }));
    lemma_lex_double_quoted(seq![], before, text);
    lemma_lex_run_one(lex_run(lex_start(), before + q + text), '"');
    let m = lex_run(lex_start(), before + q + text + q);
    assert(m == (LexState { mode: QuoteMode::Unquoted, tokens: seq![], word: before + text, started: true, escaping: false }));
    lemma_lex_word_chars(m, after);
    let f = lex_run(m, after);
    assert(f.word =~= before + text + after);
    assert(f.tokens.push(SpecToken::Word(f.word)) =~= seq![SpecToken::Word(before + text + after)]);
}

/// An unclosed double quote is the error even when the line ends in a
/// backslash inside it.
pub proof fn law_unclosed_double_quote_before_backslash(text: Seq<char>)
    requires
        !text.contains('"'),
        !text.contains('\\'),
    ensures
        spec_lex(seq!['"'] + text + seq!['\\']) == Err::<Seq<SpecToken>, ParseError>(ParseError::UnclosedDoubleQuote),
{
    let q = seq!['"'];
    let empty: Seq<char> = seq![];
    lemma_lex_run_append(lex_start(), q + text, seq!['\\']);
    lemma_lex_run_append(lex_start(), q, text);
    lemma_lex_run_one(lex_start(), '"');
    lemma_lex_double_quoted(seq![], empty, text);
    lemma_lex_run_one(lex_run(lex_start(), q + text), '\\');
}

} // verus!
