//! Lower-casing of text, as the standard library does it.

use crate::substring::{occurs_at, occurs_in};
use vstd::prelude::*;
use vstd::utf8::*;

verus! {

/// What `str::to_lowercase` makes of `text`: the lower-case form by the rules
/// of Unicode, which may differ in length from `text`. It depends on `text`
/// alone. Nothing more is said of it here.
pub uninterp spec fn unicode_lowercase(text: Seq<char>) -> Seq<char>;

/// `c` with the letters `A` to `Z` mapped to `a` to `z`.
pub open spec fn ascii_lowercase_char(c: char) -> char {
    if 'A' <= c <= 'Z' {
        ((c as u32 + 32) as u32) as char
    } else {
        c
    }
}

/// `text` with the letters `A` to `Z` mapped to `a` to `z`, place by place.
pub open spec fn ascii_lowercase(text: Seq<char>) -> Seq<char> {
    Seq::new(text.len(), |i: int| ascii_lowercase_char(text[i]))
}

/// The lower-case form of `text`. Of a text of characters below U+0080 it is
/// the text with `A` to `Z` mapped to `a` to `z`; of any other text it is
/// whatever the rules of Unicode make of it.
pub open spec fn lowercase_of(text: Seq<char>) -> Seq<char> {
    if is_ascii_chars(text) {
        ascii_lowercase(text)
    } else {
        unicode_lowercase(text)
    }
}

/// Calls `str::to_lowercase`. Trusted, not proved: the result is the
/// lower-case form that the standard library computes from the characters of
/// `text` alone, and on a text of characters below U+0080 that form is the
/// text with each of the letters `A` to `Z` replaced by its small letter and
/// every other character kept.
#[verifier::external_body]
pub(crate) fn to_lowercase(text: &str) -> (lowered: String)
    ensures
        is_ascii_chars(text@) ==> lowered@ == ascii_lowercase(text@),
        !is_ascii_chars(text@) ==> lowered@ == unicode_lowercase(text@),
{
    text.to_lowercase()
}

/// Where every character is below U+0080, lower-casing keeps an occurrence in
/// its place.
pub proof fn lemma_ascii_lowercase_keeps_occurrence(needle: Seq<char>, haystack: Seq<char>)
    requires
        is_ascii_chars(needle),
        is_ascii_chars(haystack),
        occurs_in(needle, haystack),
    ensures
        occurs_in(lowercase_of(needle), lowercase_of(haystack)),
{
    let at = choose|at: int| occurs_at(needle, haystack, at);
    let part = haystack.subrange(at, at + needle.len());
    assert forall|i: int| 0 <= i < needle.len() implies ascii_lowercase(haystack)[at + i]
        == ascii_lowercase(needle)[i] by {
        assert(part[i] == haystack[at + i]);
    }
    assert(ascii_lowercase(haystack).subrange(at, at + needle.len()) =~= ascii_lowercase(needle));
    assert(occurs_at(lowercase_of(needle), lowercase_of(haystack), at));
}

} // verus!
