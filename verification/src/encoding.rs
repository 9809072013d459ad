//! Facts about UTF-8 that carry a statement about the bytes of a string over
//! to its characters.

use vstd::prelude::*;
use vstd::utf8::*;

verus! {

/// The encoding of a concatenation is the concatenation of the encodings.
pub proof fn lemma_encode_concat(a: Seq<char>, b: Seq<char>)
    ensures
        encode_utf8(a + b) == encode_utf8(a) + encode_utf8(b),
    decreases a.len(),
{
    if a.len() == 0 {
        assert(a + b =~= b);
        assert(encode_utf8(a) + encode_utf8(b) =~= encode_utf8(b));
    } else {
        lemma_encode_concat(a.drop_first(), b);
        assert((a + b).drop_first() =~= a.drop_first() + b);
        assert(encode_utf8(a + b) =~= encode_utf8(a) + encode_utf8(b));
    }
}

/// A well-formed sequence that begins another well-formed sequence ends on a
/// character boundary of it: no character straddles the end of the prefix.
pub proof fn lemma_valid_prefix_ends_on_boundary(whole: Seq<u8>, prefix: Seq<u8>)
    requires
        valid_utf8(whole),
        valid_utf8(prefix),
        prefix.len() <= whole.len(),
        whole.subrange(0, prefix.len() as int) == prefix,
    ensures
        is_char_boundary(whole, prefix.len() as int),
    decreases prefix.len(),
{
    if prefix.len() > 0 {
        let width = length_of_first_scalar(prefix);
        assert(whole[0] == whole.subrange(0, prefix.len() as int)[0]);
        assert(width <= prefix.len());
        assert(length_of_first_scalar(whole) == width);
        assert(pop_first_scalar(whole).subrange(0, prefix.len() - width) =~= pop_first_scalar(
            prefix,
        ));
        lemma_valid_prefix_ends_on_boundary(pop_first_scalar(whole), pop_first_scalar(prefix));
    }
}

/// In well-formed bytes, a byte below 0x80 is a whole character: there is a
/// character boundary before it and one after it.
pub proof fn lemma_boundaries_around_ascii_byte(bytes: Seq<u8>, k: int)
    requires
        valid_utf8(bytes),
        0 <= k < bytes.len(),
        bytes[k] <= 0x7f,
    ensures
        is_char_boundary(bytes, k),
        is_char_boundary(bytes, k + 1),
{
    is_char_boundary_iff_not_is_continuation_byte(bytes, k);
    valid_utf8_split(bytes, k);
    let tail = bytes.subrange(k, bytes.len() as int);
    assert(tail[0] == bytes[k]);
    assert(length_of_first_scalar(tail) == 1);
    let after = pop_first_scalar(tail);
    assert(valid_utf8(after));
    if k + 1 == bytes.len() {
        is_char_boundary_start_end_of_seq(bytes);
    } else {
        assert(after[0] == bytes[k + 1]);
        assert(valid_first_scalar(after));
        is_char_boundary_iff_not_is_continuation_byte(bytes, k + 1);
    }
}

/// Cutting well-formed bytes around a byte below 0x80 cuts the decoded text
/// around the character with that code.
pub proof fn lemma_decode_around_ascii_byte(bytes: Seq<u8>, k: int, c: char)
    requires
        valid_utf8(bytes),
        0 <= k < bytes.len(),
        c <= '\u{7f}',
        bytes[k] == c as u8,
    ensures
        valid_utf8(bytes.subrange(0, k)),
        valid_utf8(bytes.subrange(k + 1, bytes.len() as int)),
        decode_utf8(bytes) == decode_utf8(bytes.subrange(0, k)) + seq![c] + decode_utf8(
            bytes.subrange(k + 1, bytes.len() as int),
        ),
{
    lemma_boundaries_around_ascii_byte(bytes, k);
    valid_utf8_split(bytes, k);
    valid_utf8_split(bytes, k + 1);
    decode_utf8_split(bytes, k);
    let tail = bytes.subrange(k, bytes.len() as int);
    assert(tail[0] == bytes[k]);
    assert(pop_first_scalar(tail) =~= bytes.subrange(k + 1, bytes.len() as int));
    let b = tail[0];
    assert(codepoint_width_1(b) == b as u32) by (bit_vector)
        requires
            b <= 0x7f,
    ;
    char_u32_cast(c, c as u32);
    assert(decode_first_scalar(tail) as char == c);
    assert(decode_utf8(tail) =~= seq![c] + decode_utf8(pop_first_scalar(tail)));
}

/// A character below U+0080 is encoded as the one byte with its code, between
/// the encodings of what stands before it and of what stands after it.
pub proof fn lemma_ascii_char_shows_in_bytes(text: Seq<char>, i: int, c: char)
    requires
        0 <= i < text.len(),
        text[i] == c,
        c <= '\u{7f}',
    ensures
        encode_utf8(text) == encode_utf8(text.take(i)) + seq![c as u8] + encode_utf8(
            text.skip(i + 1),
        ),
{
    let before = text.take(i);
    let one = seq![c];
    let after = text.skip(i + 1);
    assert(text =~= before + one + after);
    lemma_encode_concat(before + one, after);
    lemma_encode_concat(before, one);
    is_ascii_chars_encode_utf8(one);
    assert(encode_utf8(one) =~= seq![c as u8]);
}

} // verus!
