//! Lines and columns of a source, counted in characters.

use vstd::prelude::*;
use vstd::utf8::{
    encode_scalar, encode_utf8, encode_utf8_first_scalar, is_ascii_chars,
    is_ascii_chars_encode_utf8, is_continuation_byte,
};
use crate::error_preview::last_line_start;
use crate::grammar::{column_of, line_of, LINE_FEED};
use crate::layout::lemma_encode_concat;

verus! {

/// How many line feeds `text` holds.
pub open spec fn line_feeds(text: Seq<char>) -> nat
    decreases text.len(),
{
    if text.len() == 0 {
        0
    } else if text.last() == '\n' {
        line_feeds(text.drop_last()) + 1
    } else {
        line_feeds(text.drop_last())
    }
}

/// The line and the column of a place do not depend on what follows the
/// place.
pub proof fn lemma_place_in_prefix(source: Seq<u8>, longer: Seq<u8>, at: int)
    requires
        0 <= at <= source.len() <= longer.len(),
        longer.subrange(0, source.len() as int) == source,
    ensures
        line_of(longer, at) == line_of(source, at),
        column_of(longer, at) == column_of(source, at),
    decreases at,
{
    if at > 0 {
        lemma_place_in_prefix(source, longer, at - 1);
        assert(longer.subrange(0, source.len() as int)[at - 1] == longer[at - 1]);
    }
}

/// The bytes of one character: a first byte, which no other character has
/// within it, and then bytes that only stand within characters. Only the
/// line feed is encoded as the byte of the line feed.
pub proof fn lemma_character_bytes(c: char)
    ensures
        1 <= encode_scalar(c as u32).len() <= 4,
        !is_continuation_byte(encode_scalar(c as u32)[0]),
        forall|i: int|
            1 <= i < encode_scalar(c as u32).len() ==> is_continuation_byte(
                #[trigger] encode_scalar(c as u32)[i],
            ),
        encode_scalar(c as u32)[0] == LINE_FEED <==> c == '\n',
        encode_utf8(seq![c]) == encode_scalar(c as u32),
{
    let text = seq![c];
    let bytes = encode_utf8(text);
    assert(text.drop_first() =~= Seq::<char>::empty());
    assert(encode_utf8(text.drop_first()) =~= Seq::<u8>::empty());
    assert(bytes =~= encode_scalar(c as u32));
    encode_utf8_first_scalar(text);
    if c <= '\u{7f}' {
        assert(is_ascii_chars(text));
        is_ascii_chars_encode_utf8(text);
        assert(text[0] as u8 == bytes[0]);
    }
}

/// Behind a character, the line is the next one if the character is a line
/// feed, and else the column is the next one.
pub proof fn lemma_place_behind_character(source: Seq<u8>, at: int, c: char)
    requires
        0 <= at,
        at + encode_scalar(c as u32).len() <= source.len(),
        source.subrange(at, at + encode_scalar(c as u32).len()) == encode_scalar(c as u32),
    ensures
        line_of(source, at + encode_scalar(c as u32).len()) == line_of(source, at) + if c
            == '\n' {
            1int
        } else {
            0int
        },
        column_of(source, at + encode_scalar(c as u32).len()) == if c == '\n' {
            1
        } else {
            column_of(source, at) + 1
        },
{
    let bytes = encode_scalar(c as u32);
    lemma_character_bytes(c);
    assert forall|i: int| 0 <= i < bytes.len() implies source[at + i] == #[trigger] bytes[i] by {
        assert(source.subrange(at, at + bytes.len())[i] == source[at + i]);
    }
    assert(source[at + 0] == bytes[0]);
    let feed = if c == '\n' {
        1int
    } else {
        0int
    };
    assert(line_of(source, at + 1) == line_of(source, at) + feed);
    assert(column_of(source, at + 1) == if c == '\n' {
        1
    } else {
        column_of(source, at) + 1
    });
    if bytes.len() >= 2 {
        assert(source[at + 1] == bytes[1]);
        assert(is_continuation_byte(bytes[1]));
        assert(line_of(source, at + 2) == line_of(source, at + 1));
        assert(column_of(source, at + 2) == column_of(source, at + 1));
    }
    if bytes.len() >= 3 {
        assert(source[at + 2] == bytes[2]);
        assert(is_continuation_byte(bytes[2]));
        assert(line_of(source, at + 3) == line_of(source, at + 2));
        assert(column_of(source, at + 3) == column_of(source, at + 2));
    }
    if bytes.len() >= 4 {
        assert(source[at + 3] == bytes[3]);
        assert(is_continuation_byte(bytes[3]));
        assert(line_of(source, at + 4) == line_of(source, at + 3));
        assert(column_of(source, at + 4) == column_of(source, at + 3));
    }
}

/// At the end of a text, the line is one more than the line feeds of the
/// text, and the column is one more than the characters of its last line:
/// a character takes one column, whatever the number of its bytes.
pub proof fn places_count_characters(text: Seq<char>)
    ensures
        line_of(encode_utf8(text), encode_utf8(text).len() as int) == 1 + line_feeds(text),
        column_of(encode_utf8(text), encode_utf8(text).len() as int) == 1 + text.len()
            - last_line_start(text),
    decreases text.len(),
{
    if text.len() == 0 {
    } else {
        let first = text.drop_last();
        let c = text.last();
        places_count_characters(first);
        assert(text =~= first + seq![c]);
        lemma_encode_concat(first, seq![c]);
        lemma_character_bytes(c);
        let head = encode_utf8(first);
        let bytes = encode_utf8(text);
        assert(bytes.subrange(0, head.len() as int) =~= head);
        assert(bytes.subrange(head.len() as int, bytes.len() as int) =~= encode_scalar(c as u32));
        lemma_place_in_prefix(head, bytes, head.len() as int);
        lemma_place_behind_character(bytes, head.len() as int, c);
    }
}

} // verus!
