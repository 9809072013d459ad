//! The lines of a text: what they are, and a verified splitter that hands
//! them out as slices of the text.

use crate::encoding::{
    lemma_ascii_char_shows_in_bytes, lemma_boundaries_around_ascii_byte,
    lemma_decode_around_ascii_byte,
};
use crate::substring::{occurs_at, occurs_in};
use vstd::prelude::*;
use vstd::string::*;
use vstd::utf8::*;

verus! {

/// Offset of the first line feed of `text`; the length of `text` where it has none.
pub open spec fn first_line_feed(text: Seq<char>) -> nat
    decreases text.len(),
{
    if text.len() == 0 || text[0] == '\n' {
        0
    } else {
        1 + first_line_feed(text.drop_first())
    }
}

/// `line` without the carriage return at its end, if it ends in one.
pub open spec fn without_carriage_return(line: Seq<char>) -> Seq<char> {
    if line.len() > 0 && line.last() == '\r' {
        line.drop_last()
    } else {
        line
    }
}

/// The first line of a text that is not empty: what stands before its first
/// line feed, without a carriage return directly before that line feed; the
/// whole text where it has no line feed.
pub open spec fn first_line(text: Seq<char>) -> Seq<char> {
    let end = first_line_feed(text) as int;
    if end >= text.len() {
        text
    } else {
        without_carriage_return(text.take(end))
    }
}

/// What follows the first line of `text` and the line feed that ends it.
pub open spec fn after_first_line(text: Seq<char>) -> Seq<char> {
    let end = first_line_feed(text) as int;
    if end >= text.len() {
        Seq::empty()
    } else {
        text.skip(end + 1)
    }
}

/// The lines of `text`, in order.
///
/// A line ends at a line feed. The line feed is not part of the line, nor is a
/// carriage return that stands directly before it. What follows the last line
/// feed is a line of its own unless it is empty, so a text that ends in a line
/// feed has no empty line at its end, and the empty text has no line at all.
/// A carriage return that no line feed follows stays in its line.
pub open spec fn lines_of(text: Seq<char>) -> Seq<Seq<char>>
    decreases text.len(),
{
    if text.len() == 0 {
        Seq::empty()
    } else {
        seq![first_line(text)] + lines_of(after_first_line(text))
    }
}

/// `first_line_feed` lies within the text or at its end, at a line feed where
/// it lies within, and no line feed stands before it.
pub proof fn lemma_first_line_feed_is_first(text: Seq<char>)
    ensures
        first_line_feed(text) <= text.len(),
        first_line_feed(text) < text.len() ==> text[first_line_feed(text) as int] == '\n',
        forall|i: int| 0 <= i < first_line_feed(text) ==> text[i] != '\n',
    decreases text.len(),
{
    if text.len() == 0 || text[0] == '\n' {
    } else {
        let rest = text.drop_first();
        lemma_first_line_feed_is_first(rest);
        assert forall|i: int| 0 <= i < first_line_feed(text) implies text[i] != '\n' by {
            if i > 0 {
                assert(text[i] == rest[i - 1]);
            }
        }
    }
}

/// An offset with a line feed (or the end of the text) at it and no line feed
/// before it is `first_line_feed`.
pub proof fn lemma_first_line_feed_is_at(text: Seq<char>, end: int)
    requires
        0 <= end <= text.len(),
        end < text.len() ==> text[end] == '\n',
        forall|i: int| 0 <= i < end ==> text[i] != '\n',
    ensures
        first_line_feed(text) == end,
{
    lemma_first_line_feed_is_first(text);
    let first = first_line_feed(text) as int;
    if first < end {
        assert(text[first] != '\n');
    }
}

/// Every line of a text is a part of the text: it stands in it as it is,
/// character by character.
pub proof fn lemma_lines_are_parts_of_text(text: Seq<char>)
    ensures
        forall|i: int|
            0 <= i < lines_of(text).len() ==> occurs_in(#[trigger] lines_of(text)[i], text),
    decreases text.len(),
{
    if text.len() > 0 {
        let end = first_line_feed(text) as int;
        let first = first_line(text);
        let rest = after_first_line(text);
        lemma_first_line_feed_is_first(text);
        assert(text.subrange(0, first.len() as int) =~= first);
        assert(occurs_at(first, text, 0));
        lemma_lines_are_parts_of_text(rest);
        assert forall|i: int| 0 <= i < lines_of(text).len() implies occurs_in(
            #[trigger] lines_of(text)[i],
            text,
        ) by {
            if i > 0 {
                let line = lines_of(rest)[i - 1];
                assert(lines_of(text)[i] == line);
                let at = choose|at: int| occurs_at(line, rest, at);
                let start = end + 1 + at;
                assert(text.subrange(start, start + line.len()) =~= rest.subrange(
                    at,
                    at + line.len(),
                ));
                assert(occurs_at(line, text, start));
            }
        }
    }
}

/// Every line of a text of characters below U+0080 is such a text.
pub proof fn lemma_lines_of_ascii_are_ascii(text: Seq<char>)
    requires
        is_ascii_chars(text),
    ensures
        forall|i: int|
            0 <= i < lines_of(text).len() ==> is_ascii_chars(#[trigger] lines_of(text)[i]),
{
    lemma_lines_are_parts_of_text(text);
    assert forall|i: int| 0 <= i < lines_of(text).len() implies is_ascii_chars(
        #[trigger] lines_of(text)[i],
    ) by {
        let line = lines_of(text)[i];
        let at = choose|at: int| occurs_at(line, text, at);
        assert forall|j: int| 0 <= j < line.len() implies '\0' <= #[trigger] line[j]
            <= '\u{7f}' by {
            assert(line[j] == text.subrange(at, at + line.len())[j]);
        }
    }
}

/// Offset of the first `byte` in `bytes`; the length of `bytes` where it has none.
fn find_byte(bytes: &[u8], byte: u8) -> (at: usize)
    ensures
        at <= bytes@.len(),
        at < bytes@.len() ==> bytes@[at as int] == byte,
        forall|i: int| 0 <= i < at ==> bytes@[i] != byte,
{
    let mut at: usize = 0;
    while at < bytes.len()
        invariant
            at <= bytes@.len(),
            forall|i: int| 0 <= i < at ==> bytes@[i] != byte,
        decreases bytes@.len() - at,
    {
        if bytes[at] == byte {
            return at;
        }
        at += 1;
    }
    at
}

/// A text whose encoding holds no byte 0x0A holds no line feed.
proof fn lemma_no_line_feed_byte(text: Seq<char>)
    requires
        forall|i: int| 0 <= i < encode_utf8(text).len() ==> encode_utf8(text)[i] != 0x0Au8,
    ensures
        forall|i: int| 0 <= i < text.len() ==> text[i] != '\n',
{
    assert forall|i: int| 0 <= i < text.len() implies text[i] != '\n' by {
        if text[i] == '\n' {
            lemma_ascii_char_shows_in_bytes(text, i, '\n');
            let at = encode_utf8(text.take(i)).len() as int;
            assert(encode_utf8(text)[at] == 0x0Au8);
        }
    }
}

/// A text that ends in a character below U+0080 ends in the byte with that code.
proof fn lemma_last_ascii_char_is_last_byte(text: Seq<char>, c: char)
    requires
        text.len() > 0,
        text.last() == c,
        c <= '\u{7f}',
    ensures
        encode_utf8(text).len() > 0,
        encode_utf8(text).last() == c as u8,
{
    let i = text.len() - 1;
    lemma_ascii_char_shows_in_bytes(text, i, c);
    assert(text.skip(i + 1) =~= Seq::<char>::empty());
}

/// `line` without the carriage return at its end, if it ends in one.
pub fn strip_carriage_return<'a>(line: &'a str) -> (stripped: &'a str)
    ensures
        stripped@ == without_carriage_return(line@),
{
    let bytes = line.as_bytes();
    let len: usize = bytes.len();
    proof {
        encode_utf8_valid_utf8(line@);
        encode_utf8_decode_utf8(line@);
        if line@.len() > 0 && line@.last() == '\r' {
            lemma_last_ascii_char_is_last_byte(line@, '\r');
        }
    }
    if len > 0 && bytes[len - 1] == 0x0D {
        proof {
            lemma_boundaries_around_ascii_byte(bytes@, len - 1);
            lemma_decode_around_ascii_byte(bytes@, len - 1, '\r');
        }
        let (stripped, _) = line.split_at(len - 1);
        proof {
            encode_utf8_decode_utf8(stripped@);
            assert(bytes@.subrange(len as int, len as int) =~= Seq::<u8>::empty());
            assert(line@ =~= stripped@ + seq!['\r']);
            assert(line@.drop_last() =~= stripped@);
        }
        stripped
    } else {
        proof {
            if len == 0 && line@.len() > 0 {
                encode_utf8_first_scalar(line@);
            }
        }
        line
    }
}

/// Splits the first line off `text`: the line, and what follows the line feed
/// that ends it. Both are slices of `text`. The empty text has no first line.
pub fn split_first_line<'a>(text: &'a str) -> (parts: Option<(&'a str, &'a str)>)
    ensures
        parts is None <==> text@.len() == 0,
        parts matches Some((line, rest)) ==> {
            &&& line@ == first_line(text@)
            &&& rest@ == after_first_line(text@)
            &&& rest@.len() < text@.len()
        },
{
    if text.is_empty() {
        return None;
    }
    let bytes = text.as_bytes();
    let end: usize = find_byte(bytes, 0x0A);
    proof {
        encode_utf8_valid_utf8(text@);
        encode_utf8_decode_utf8(text@);
    }
    if end == bytes.len() {
        proof {
            is_char_boundary_start_end_of_seq(bytes@);
        }
        let (_, rest) = text.split_at(end);
        proof {
            lemma_no_line_feed_byte(text@);
            lemma_first_line_feed_is_at(text@, text@.len() as int);
            encode_utf8_decode_utf8(rest@);
            assert(bytes@.subrange(end as int, end as int) =~= Seq::<u8>::empty());
        }
        return Some((text, rest));
    }
    proof {
        lemma_boundaries_around_ascii_byte(bytes@, end as int);
        lemma_decode_around_ascii_byte(bytes@, end as int, '\n');
    }
    let (whole_line, _) = text.split_at(end);
    let (_, rest) = text.split_at(end + 1);
    let line = strip_carriage_return(whole_line);
    proof {
        let head = decode_utf8(bytes@.subrange(0, end as int));
        let tail = decode_utf8(bytes@.subrange(end + 1, bytes@.len() as int));
        encode_utf8_decode_utf8(rest@);
        encode_utf8_decode_utf8(whole_line@);
        assert(rest@ == tail);
        assert(whole_line@ == head);
        assert(text@ =~= head + seq!['\n'] + tail);
        assert(encode_utf8(head) == bytes@.subrange(0, end as int)) by {
            decode_utf8_encode_utf8(bytes@.subrange(0, end as int));
        }
        lemma_no_line_feed_byte(head);
        lemma_first_line_feed_is_at(text@, head.len() as int);
        assert(text@.take(head.len() as int) =~= head);
        assert(text@.skip(head.len() as int + 1) =~= tail);
    }
    Some((line, rest))
}

} // verus!
