//! Character classes and the std string operations the tokenizers rely on.

use vstd::prelude::*;

verus! {

/// The Unicode `White_Space` property: the code points U+0009..=U+000D,
/// U+0020, U+0085, U+00A0, U+1680, U+2000..=U+200A, U+2028, U+2029,
/// U+202F, U+205F and U+3000.
pub open spec fn is_white_space(c: char) -> bool {
    let n = c as u32;
    ||| 0x9 <= n <= 0xd
    ||| n == 0x20
    ||| n == 0x85
    ||| n == 0xa0
    ||| n == 0x1680
    ||| 0x2000 <= n <= 0x200a
    ||| n == 0x2028
    ||| n == 0x2029
    ||| n == 0x202f
    ||| n == 0x205f
    ||| n == 0x3000
}

/// A character with no special meaning to the tokenizers: neither a quote,
/// a backslash nor a pipe.
pub open spec fn is_plain(c: char) -> bool {
    c != '\'' && c != '"' && c != '\\' && c != '|'
}

/// Every character of `s` is plain.
pub open spec fn all_plain(s: Seq<char>) -> bool {
    forall|i: int| 0 <= i < s.len() ==> #[trigger] is_plain(s[i])
}

/// Every character of `s` is plain and not white space: `s` reads as (part
/// of) one bare word.
pub open spec fn all_word_chars(s: Seq<char>) -> bool {
    forall|i: int| 0 <= i < s.len() ==> is_plain(#[trigger] s[i]) && !is_white_space(s[i])
}

/// The maximal runs of non-white-space characters of `s`, in order.
pub open spec fn split_ws(s: Seq<char>) -> Seq<Seq<char>>
    decreases s.len(),
{
    if s.len() == 0 {
        seq![]
    } else {
        let prev = split_ws(s.drop_last());
        let c = s.last();
        if is_white_space(c) {
            prev
        } else if s.len() >= 2 && !is_white_space(s[s.len() - 2]) {
            prev.update(prev.len() - 1, prev.last().push(c))
        } else {
            prev.push(seq![c])
        }
    }
}

/// `char::is_whitespace`: std documents it as "has the Unicode `White_Space`
/// property", which is the code point list of `is_white_space`.
#[verifier::external_body]
pub(crate) fn char_is_whitespace(c: char) -> (b: bool)
    ensures
        b == is_white_space(c),
{
    c.is_whitespace()
}

/// `s` without its leading white space.
pub open spec fn trim_front(s: Seq<char>) -> Seq<char>
    decreases s.len(),
{
    if s.len() > 0 && is_white_space(s[0]) {
        trim_front(s.drop_first())
    } else {
        s
    }
}

/// `s` without its trailing white space.
pub open spec fn trim_back(s: Seq<char>) -> Seq<char>
    decreases s.len(),
{
    if s.len() > 0 && is_white_space(s.last()) {
        trim_back(s.drop_last())
    } else {
        s
    }
}

/// `s` without its leading and trailing white space.
pub open spec fn trimmed(s: Seq<char>) -> Seq<char> {
    trim_back(trim_front(s))
}

/// `str::trim`: std documents that it removes the leading and trailing
/// characters with the Unicode `White_Space` property.
#[verifier::external_body]
pub(crate) fn trim(s: &str) -> (t: &str)
    ensures
        t@ == trimmed(s@),
{
    s.trim()
}

/// `String::push` appends one character to the end of the string.
pub assume_specification[ String::push ](s: &mut String, ch: char)
    ensures
        final(s)@ == old(s)@.push(ch),
;

proof fn lemma_trim_front_append(l: Seq<char>, r: Seq<char>)
    ensures
        trim_front(l + r) == (if trim_front(l).len() > 0 { trim_front(l) + r } else { trim_front(r) }),
    decreases l.len(),
{
    if l.len() == 0 {
        assert(l + r =~= r);
    } else {
        assert((l + r)[0] == l[0]);
        if is_white_space(l[0]) {
            assert((l + r).drop_first() =~= l.drop_first() + r);
            lemma_trim_front_append(l.drop_first(), r);
        }
    }
}

/// White space added at either end of a text does not change it once trimmed.
pub proof fn law_trimmed_ignores_outer_white_space(s: Seq<char>, c: char)
    requires
        is_white_space(c),
    ensures
        trimmed(seq![c] + s) == trimmed(s),
        trimmed(s + seq![c]) == trimmed(s),
{
    assert((seq![c] + s)[0] == c);
    assert((seq![c] + s).drop_first() =~= s);
    lemma_trim_front_append(s, seq![c]);
    let f = trim_front(s);
    if f.len() > 0 {
        assert((f + seq![c]).last() == c);
        assert((f + seq![c]).drop_last() =~= f);
    } else {
        let one = seq![c];
        assert(one[0] == c);
        assert(one.drop_first() =~= Seq::<char>::empty());
        assert(trim_front(one) == trim_front(Seq::<char>::empty()));
    }
}

} // verus!
