//! What the rest of the library needs to know of strings: when one occurs
//! inside another, and the few operations of `str` and `String` whose
//! behaviour is taken from the standard library's documentation.

use vstd::prelude::*;

verus! {

/// `needle` occurs in `hay` as a run of consecutive characters that starts
/// at index `at`.
pub open spec fn occurs_at(needle: Seq<char>, hay: Seq<char>, at: int) -> bool {
    &&& 0 <= at
    &&& at + needle.len() <= hay.len()
    &&& hay.subrange(at, at + needle.len()) == needle
}

/// `needle` occurs somewhere in `hay` as a run of consecutive characters.
pub open spec fn is_substring(needle: Seq<char>, hay: Seq<char>) -> bool {
    exists|at: int| occurs_at(needle, hay, at)
}

/// The empty string occurs in every string.
pub proof fn lemma_empty_is_substring(needle: Seq<char>, hay: Seq<char>)
    requires
        needle.len() == 0,
    ensures
        is_substring(needle, hay),
{
    assert(hay.subrange(0, 0) =~= needle);
    assert(occurs_at(needle, hay, 0));
}

/// What contains a string contains the string without its last character.
pub proof fn lemma_shorter_is_substring(needle: Seq<char>, hay: Seq<char>)
    requires
        needle.len() > 0,
        is_substring(needle, hay),
    ensures
        is_substring(needle.drop_last(), hay),
{
    let at = choose|at: int| occurs_at(needle, hay, at);
    assert(hay.subrange(at, at + needle.len() - 1) =~= needle.drop_last());
    assert(occurs_at(needle.drop_last(), hay, at));
}

/// The lowercase form that `str::to_lowercase` gives to a string.
pub uninterp spec fn lowercase_of(s: Seq<char>) -> Seq<char>;

/// `str::contains` with a string as the pattern: whether `needle` occurs in
/// `hay`. Trusted from the documentation of the standard library.
#[verifier::external_body]
pub(crate) fn str_contains(hay: &str, needle: &str) -> (found: bool)
    ensures
        found == is_substring(needle@, hay@),
{
    hay.contains(needle)
}

/// `str::to_lowercase`. The result depends on the characters of `s` alone; it
/// is named, not spelled out, and the lowercase form of the empty string is
/// empty. Trusted from the documentation of the standard library.
#[verifier::external_body]
pub(crate) fn to_lowercase(s: &str) -> (lower: String)
    ensures
        lower@ == lowercase_of(s@),
        s@.len() == 0 ==> lower@.len() == 0,
{
    s.to_lowercase()
}

/// `String::push`: appends one character. Trusted from the documentation of
/// the standard library.
#[verifier::external_body]
pub(crate) fn push_char(s: &mut String, c: char)
    ensures
        final(s)@ == old(s)@.push(c),
{
    s.push(c)
}

/// `String::pop`: removes the last character and returns it, or returns
/// `None` and leaves the string as it is when it is empty. Trusted from the
/// documentation of the standard library.
#[verifier::external_body]
pub(crate) fn pop_char(s: &mut String) -> (last: Option<char>)
    ensures
        old(s)@.len() == 0 ==> last is None && final(s)@ == old(s)@,
        old(s)@.len() > 0 ==> last == Some(old(s)@.last()) && final(s)@ == old(s)@.drop_last(),
{
    s.pop()
}

} // verus!
