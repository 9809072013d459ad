//! Contiguous containment of one sequence in another, and a verified test for it.

use crate::encoding::{lemma_encode_concat, lemma_valid_prefix_ends_on_boundary};
use vstd::prelude::*;
use vstd::utf8::*;

verus! {

/// `needle` stands in `haystack` at offset `at`.
pub open spec fn occurs_at<T>(needle: Seq<T>, haystack: Seq<T>, at: int) -> bool {
    &&& 0 <= at
    &&& at + needle.len() <= haystack.len()
    &&& haystack.subrange(at, at + needle.len()) == needle
}

/// `needle` stands somewhere in `haystack` as a contiguous run.
/// The empty sequence occurs in every sequence.
pub open spec fn occurs_in<T>(needle: Seq<T>, haystack: Seq<T>) -> bool {
    exists|at: int| occurs_at(needle, haystack, at)
}

/// Whether `needle` stands in `haystack` at byte offset `at`.
fn bytes_match_at(haystack: &[u8], needle: &[u8], at: usize) -> (matched: bool)
    requires
        at + needle@.len() <= haystack@.len(),
    ensures
        matched == occurs_at(needle@, haystack@, at as int),
{
    let len: usize = haystack.len();
    let mut j: usize = 0;
    while j < needle.len()
        invariant
            j <= needle@.len(),
            at + needle@.len() <= haystack@.len() == len,
            forall|k: int| 0 <= k < j ==> haystack@[at + k] == needle@[k],
        decreases needle@.len() - j,
    {
        if haystack[at + j] != needle[j] {
            assert(haystack@.subrange(at as int, at + needle@.len())[j as int]
                != needle@[j as int]);
            return false;
        }
        j += 1;
    }
    assert(haystack@.subrange(at as int, at + needle@.len()) =~= needle@);
    true
}

/// Whether `needle` stands anywhere in `haystack`, by trying every offset in turn.
pub fn bytes_contain(haystack: &[u8], needle: &[u8]) -> (found: bool)
    ensures
        found == occurs_in(needle@, haystack@),
{
    if needle.len() > haystack.len() {
        return false;
    }
    let last: usize = haystack.len() - needle.len();
    let mut at: usize = 0;
    loop
        invariant
            last == haystack@.len() - needle@.len(),
            at <= last,
            forall|k: int| 0 <= k < at ==> !occurs_at(needle@, haystack@, k),
        decreases last - at,
    {
        if bytes_match_at(haystack, needle, at) {
            return true;
        }
        if at == last {
            return false;
        }
        at += 1;
    }
}

/// An occurrence among the characters is an occurrence among the bytes.
proof fn lemma_occurrence_encodes(needle: Seq<char>, haystack: Seq<char>, at: int)
    requires
        occurs_at(needle, haystack, at),
    ensures
        occurs_at(
            encode_utf8(needle),
            encode_utf8(haystack),
            encode_utf8(haystack.take(at)).len() as int,
        ),
{
    let before = haystack.take(at);
    let after = haystack.skip(at + needle.len());
    assert(haystack =~= before + needle + after);
    lemma_encode_concat(before + needle, after);
    lemma_encode_concat(before, needle);
    let start = encode_utf8(before).len() as int;
    assert(encode_utf8(haystack).subrange(start, start + encode_utf8(needle).len()) =~= encode_utf8(
        needle,
    ));
}

/// An occurrence among the bytes starts and ends between characters, so it is
/// an occurrence among the characters.
proof fn lemma_occurrence_decodes(needle: Seq<char>, haystack: Seq<char>, at: int)
    requires
        occurs_at(encode_utf8(needle), encode_utf8(haystack), at),
    ensures
        occurs_in(needle, haystack),
{
    let n = encode_utf8(needle);
    let h = encode_utf8(haystack);
    encode_utf8_valid_utf8(needle);
    encode_utf8_valid_utf8(haystack);
    encode_utf8_decode_utf8(needle);
    encode_utf8_decode_utf8(haystack);
    if needle.len() == 0 {
        assert(haystack.subrange(0, 0) =~= needle);
        assert(occurs_at(needle, haystack, 0));
    } else {
        assert(n.len() > 0) by {
            encode_utf8_first_scalar(needle);
        }
        assert(h[at] == n[0]) by {
            assert(h.subrange(at, at + n.len())[0] == n[0]);
        }
        assert(!is_continuation_byte(n[0]));
        is_char_boundary_iff_not_is_continuation_byte(h, at);
        valid_utf8_split(h, at);
        decode_utf8_split(h, at);
        let head = h.subrange(0, at);
        let tail = h.subrange(at, h.len() as int);
        assert(tail.subrange(0, n.len() as int) =~= n);
        lemma_valid_prefix_ends_on_boundary(tail, n);
        valid_utf8_split(tail, n.len() as int);
        decode_utf8_split(tail, n.len() as int);
        let rest = tail.subrange(n.len() as int, tail.len() as int);
        let before = decode_utf8(head);
        let start = before.len() as int;
        assert(haystack =~= before + needle + decode_utf8(rest));
        assert(haystack.subrange(start, start + needle.len()) =~= needle);
        assert(occurs_at(needle, haystack, start));
    }
}

/// A text contains another exactly when its encoding contains the other's.
pub proof fn lemma_occurrence_in_encoding(needle: Seq<char>, haystack: Seq<char>)
    ensures
        occurs_in(encode_utf8(needle), encode_utf8(haystack)) <==> occurs_in(needle, haystack),
{
    if occurs_in(needle, haystack) {
        let at = choose|at: int| occurs_at(needle, haystack, at);
        lemma_occurrence_encodes(needle, haystack, at);
    }
    if occurs_in(encode_utf8(needle), encode_utf8(haystack)) {
        let at = choose|at: int| occurs_at(encode_utf8(needle), encode_utf8(haystack), at);
        lemma_occurrence_decodes(needle, haystack, at);
    }
}

/// Whether `haystack` contains `needle` as a contiguous run of characters.
/// Letter case counts; the empty needle is contained in every text.
pub fn contains(haystack: &str, needle: &str) -> (found: bool)
    ensures
        found == occurs_in(needle@, haystack@),
{
    proof {
        lemma_occurrence_in_encoding(needle@, haystack@);
    }
    bytes_contain(haystack.as_bytes(), needle.as_bytes())
}

} // verus!
