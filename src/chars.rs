//! Character classes of the grammar, and runs of characters of one class.
use vstd::prelude::*;

verus! {

/// White space as Unicode defines it (the `White_Space` property).
pub open spec fn is_space(c: char) -> bool {
    ('\u{9}' <= c && c <= '\u{d}') || c == ' ' || c == '\u{85}' || c == '\u{a0}' || c == '\u{1680}'
        || ('\u{2000}' <= c && c <= '\u{200a}') || c == '\u{2028}' || c == '\u{2029}'
        || c == '\u{202f}' || c == '\u{205f}' || c == '\u{3000}'
}

pub open spec fn is_digit(c: char) -> bool {
    '0' <= c && c <= '9'
}

pub open spec fn is_ascii_letter(c: char) -> bool {
    ('a' <= c && c <= 'z') || ('A' <= c && c <= 'Z')
}

/// A character that may begin a name.
pub open spec fn is_name_start(c: char) -> bool {
    is_ascii_letter(c) || c == '_'
}

/// A character that may continue a name.
pub open spec fn is_name_char(c: char) -> bool {
    is_ascii_letter(c) || is_digit(c) || c == '_'
}

/// A character with its ASCII upper-case letters mapped to lower case.
pub open spec fn ascii_lower(c: char) -> char {
    if 'A' <= c && c <= 'Z' {
        ((c as u32) + 32) as char
    } else {
        c
    }
}

pub open spec fn ascii_lower_seq(s: Seq<char>) -> Seq<char> {
    s.map_values(|c: char| ascii_lower(c))
}

/// The length of the longest prefix of `s` whose characters all satisfy `p`.
pub open spec fn span(s: Seq<char>, p: spec_fn(char) -> bool) -> nat
    decreases s.len(),
{
    if s.len() > 0 && p(s[0]) {
        1 + span(s.drop_first(), p)
    } else {
        0
    }
}

/// `s` without its leading white space.
pub open spec fn skip_space(s: Seq<char>) -> Seq<char> {
    s.skip(span(s, |c: char| is_space(c)) as int)
}

pub proof fn lemma_span_bound(s: Seq<char>, p: spec_fn(char) -> bool)
    ensures
        span(s, p) <= s.len(),
        forall|i: int| 0 <= i < span(s, p) ==> p(#[trigger] s[i]),
        span(s, p) < s.len() ==> !p(s[span(s, p) as int]),
    decreases s.len(),
{
    if s.len() > 0 && p(s[0]) {
        lemma_span_bound(s.drop_first(), p);
        assert forall|i: int| 0 <= i < span(s, p) implies p(#[trigger] s[i]) by {
            if i > 0 {
                assert(s[i] == s.drop_first()[i - 1]);
            }
        }
    }
}

/// A split of `s` into a run of `p` characters and a rest that does not
/// start with one is the split at `span(s, p)`.
pub proof fn lemma_span_split(s: Seq<char>, p: spec_fn(char) -> bool, run: Seq<char>, rest: Seq<char>)
    requires
        run + rest == s,
        forall|i: int| 0 <= i < run.len() ==> p(#[trigger] run[i]),
        rest.len() > 0 ==> !p(rest[0]),
    ensures
        span(s, p) == run.len(),
    decreases s.len(),
{
    if run.len() > 0 {
        assert(run.drop_first() + rest =~= s.drop_first());
        assert(s[0] == run[0]);
        assert forall|i: int| 0 <= i < run.drop_first().len() implies p(#[trigger] run.drop_first()[i]) by {
            assert(run.drop_first()[i] == run[i + 1]);
        }
        lemma_span_split(s.drop_first(), p, run.drop_first(), rest);
    } else {
        assert(rest =~= s);
    }
}

pub proof fn lemma_skip_space(s: Seq<char>)
    ensures
        skip_space(s).len() <= s.len(),
{
    lemma_span_bound(s, |c: char| is_space(c));
}

pub fn char_is_space(c: char) -> (r: bool)
    ensures
        r == is_space(c),
{
    ('\u{9}' <= c && c <= '\u{d}') || c == ' ' || c == '\u{85}' || c == '\u{a0}' || c == '\u{1680}'
        || ('\u{2000}' <= c && c <= '\u{200a}') || c == '\u{2028}' || c == '\u{2029}'
        || c == '\u{202f}' || c == '\u{205f}' || c == '\u{3000}'
}

pub fn char_is_digit(c: char) -> (r: bool)
    ensures
        r == is_digit(c),
{
    '0' <= c && c <= '9'
}

pub fn char_is_name_start(c: char) -> (r: bool)
    ensures
        r == is_name_start(c),
{
    ('a' <= c && c <= 'z') || ('A' <= c && c <= 'Z') || c == '_'
}

pub fn char_is_name_char(c: char) -> (r: bool)
    ensures
        r == is_name_char(c),
{
    ('a' <= c && c <= 'z') || ('A' <= c && c <= 'Z') || ('0' <= c && c <= '9') || c == '_'
}

/// Relies on `str::to_ascii_lowercase`: each ASCII upper-case letter is
/// mapped to its lower-case form, every other character is kept.
#[verifier::external_body]
pub(crate) fn lowercase(s: &str) -> (r: String)
    ensures
        r@ == ascii_lower_seq(s@),
{
    s.to_ascii_lowercase()
}

} // verus!
