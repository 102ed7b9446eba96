//! How the UTF-8 bytes of a text relate to its characters: the facts that let
//! the search work on bytes and answer in characters.

use vstd::prelude::*;
use vstd::utf8::*;

use crate::model::{lemma_line_break, line_break, occurs_at, occurs_in};

verus! {

/// The byte of a line feed.
pub const LINE_FEED: u8 = 0x0a;

/// The byte of a carriage return.
pub const CARRIAGE_RETURN: u8 = 0x0d;

/// A scalar below 0x80 is encoded as the one byte of the same value; every
/// byte of the encoding of any other scalar is 0x80 or more.
pub proof fn lemma_encode_scalar_bytes(scalar: u32)
    requires
        is_scalar(scalar),
    ensures
        1 <= encode_scalar(scalar).len() <= 4,
        scalar < 0x80 ==> encode_scalar(scalar) == seq![scalar as u8],
        scalar >= 0x80 ==> forall|i: int|
            0 <= i < encode_scalar(scalar).len() ==> #[trigger] encode_scalar(scalar)[i] >= 0x80,
{
    if scalar < 0x80 {
        assert((scalar & 0x7F) as u8 == scalar as u8) by (bit_vector)
            requires
                scalar < 0x80,
        ;
    } else {
        assert((0xC0 | ((scalar >> 6) & 0x1F) as u8) >= 0x80) by (bit_vector);
        assert((0xE0 | ((scalar >> 12) & 0x0F) as u8) >= 0x80) by (bit_vector);
        assert((0xF0 | ((scalar >> 18) & 0x7) as u8) >= 0x80) by (bit_vector);
        assert((0x80 | (scalar & 0x3F) as u8) >= 0x80) by (bit_vector);
        assert((0x80 | ((scalar >> 6) & 0x3F) as u8) >= 0x80) by (bit_vector);
        assert((0x80 | ((scalar >> 12) & 0x3F) as u8) >= 0x80) by (bit_vector);
    }
}

/// The encoding of a concatenation is the concatenation of the encodings.
pub proof fn lemma_encode_concat(left: Seq<char>, right: Seq<char>)
    ensures
        encode_utf8(left + right) == encode_utf8(left) + encode_utf8(right),
    decreases left.len(),
{
    if left.len() == 0 {
        assert(left + right =~= right);
        assert(encode_utf8(left) + encode_utf8(right) =~= encode_utf8(right));
    } else {
        lemma_encode_concat(left.drop_first(), right);
        assert((left + right).drop_first() =~= left.drop_first() + right);
        assert(encode_utf8(left + right) =~= encode_utf8(left) + encode_utf8(right));
    }
}

/// The encoding of a character holds the byte of an ASCII character exactly
/// when it is that character, and then it is that byte alone.
pub proof fn lemma_encode_ascii(c: char, ascii: char)
    requires
        (ascii as u32) < 0x80,
    ensures
        c == ascii ==> encode_scalar(c as u32) == seq![ascii as u8],
        c != ascii ==> forall|i: int|
            0 <= i < encode_scalar(c as u32).len() ==> #[trigger] encode_scalar(c as u32)[i]
                != ascii as u8,
{
    char_is_scalar(c);
    lemma_encode_scalar_bytes(c as u32);
}

/// The first line feed byte of an encoded text stands where the encoding of
/// what precedes the first line feed character ends.
pub proof fn lemma_encoded_line_break(text: Seq<char>, end: int)
    requires
        0 <= end <= encode_utf8(text).len(),
        forall|i: int| 0 <= i < end ==> encode_utf8(text)[i] != LINE_FEED,
        end < encode_utf8(text).len() ==> encode_utf8(text)[end] == LINE_FEED,
    ensures
        0 <= line_break(text) <= text.len(),
        end == encode_utf8(text.subrange(0, line_break(text))).len(),
        end < encode_utf8(text).len() <==> line_break(text) < text.len(),
    decreases text.len(),
{
    let bytes = encode_utf8(text);
    lemma_line_break(text);
    if text.len() == 0 {
        assert(text.subrange(0, 0) =~= text);
    } else {
        let head = encode_scalar(text[0] as u32);
        let rest = text.drop_first();
        let tail = encode_utf8(rest);
        assert(bytes == head + tail);
        lemma_encode_ascii(text[0], '\n');
        if text[0] == '\n' {
            assert(bytes[0] == LINE_FEED);
            assert(text.subrange(0, 0) =~= Seq::<char>::empty());
        } else {
            let width = head.len() as int;
            if end < width {
                assert(bytes[end] == head[end]);
            }
            assert forall|i: int| 0 <= i < end - width implies tail[i] != LINE_FEED by {
                assert(tail[i] == bytes[i + width]);
            }
            if end - width < tail.len() {
                assert(tail[end - width] == bytes[end]);
            }
            lemma_encoded_line_break(rest, end - width);
            let cut = line_break(text);
            assert(text.subrange(0, cut).drop_first() =~= rest.subrange(0, cut - 1));
            assert(text.subrange(0, cut)[0] == text[0]);
        }
    }
}

/// The encoding of a text is the encoding of what stands before a position
/// followed by the encoding of what stands from it on.
pub proof fn lemma_encode_split(text: Seq<char>, at: int)
    requires
        0 <= at <= text.len(),
    ensures
        encode_utf8(text) == encode_utf8(text.subrange(0, at)) + encode_utf8(
            text.subrange(at, text.len() as int),
        ),
{
    assert(text =~= text.subrange(0, at) + text.subrange(at, text.len() as int));
    lemma_encode_concat(text.subrange(0, at), text.subrange(at, text.len() as int));
}

/// The encoding of one character is the encoding of its scalar.
pub proof fn lemma_encode_single(c: char)
    ensures
        encode_utf8(seq![c]) == encode_scalar(c as u32),
{
    let one = seq![c];
    assert(one.drop_first() =~= Seq::<char>::empty());
    assert(encode_utf8(one.drop_first()) =~= Seq::<u8>::empty());
    assert(encode_utf8(one) =~= encode_scalar(c as u32));
}

/// An encoded text ends in the byte of an ASCII character exactly when the
/// text ends in that character, and without it the encoding is one byte
/// shorter.
pub proof fn lemma_encoded_last(text: Seq<char>, ascii: char)
    requires
        text.len() > 0,
        (ascii as u32) < 0x80,
    ensures
        encode_utf8(text).len() > 0,
        encode_utf8(text).last() == ascii as u8 <==> text.last() == ascii,
        text.last() == ascii ==> encode_utf8(text.drop_last()) == encode_utf8(text).drop_last(),
{
    let last = text.last();
    let init = text.drop_last();
    assert(text =~= init + seq![last]);
    lemma_encode_concat(init, seq![last]);
    lemma_encode_single(last);
    lemma_encode_ascii(last, ascii);
    char_is_scalar(last);
    lemma_encode_scalar_bytes(last as u32);
    let tail = encode_scalar(last as u32);
    assert(encode_utf8(text).last() == tail[tail.len() - 1]);
    if last == ascii {
        assert(encode_utf8(text).drop_last() =~= encode_utf8(init));
    }
}

/// Two texts with the same encoding are the same text.
pub proof fn lemma_encode_injective(left: Seq<char>, right: Seq<char>)
    requires
        encode_utf8(left) == encode_utf8(right),
    ensures
        left == right,
{
    encode_utf8_decode_utf8(left);
    encode_utf8_decode_utf8(right);
}

/// A valid encoding that begins with another valid encoding has a character
/// boundary where that one ends.
pub proof fn lemma_prefix_boundary(whole: Seq<u8>, prefix: Seq<u8>)
    requires
        valid_utf8(whole),
        valid_utf8(prefix),
        prefix.len() <= whole.len(),
        whole.subrange(0, prefix.len() as int) == prefix,
    ensures
        is_char_boundary(whole, prefix.len() as int),
    decreases prefix.len(),
{
    if prefix.len() > 0 {
        assert(whole[0] == whole.subrange(0, prefix.len() as int)[0]);
        let width = length_of_first_scalar(prefix);
        assert(width == length_of_first_scalar(whole));
        assert(1 <= width <= prefix.len());
        let whole_rest = pop_first_scalar(whole);
        let prefix_rest = pop_first_scalar(prefix);
        assert(whole_rest.subrange(0, prefix_rest.len() as int) =~= prefix_rest) by {
            assert forall|i: int| 0 <= i < prefix_rest.len() implies whole_rest[i]
                == prefix_rest[i] by {
                assert(whole[i + width] == whole.subrange(0, prefix.len() as int)[i + width]);
            }
        }
        lemma_prefix_boundary(whole_rest, prefix_rest);
    }
}

/// A text contains another exactly when its encoding contains the encoding
/// of the other: a match of bytes begins and ends between characters.
pub proof fn lemma_encoded_occurs_in(haystack: Seq<char>, needle: Seq<char>)
    ensures
        occurs_in(encode_utf8(haystack), encode_utf8(needle)) <==> occurs_in(haystack, needle),
{
    let hay = encode_utf8(haystack);
    let pin = encode_utf8(needle);
    encode_utf8_valid_utf8(haystack);
    encode_utf8_valid_utf8(needle);
    encode_utf8_decode_utf8(haystack);
    encode_utf8_decode_utf8(needle);
    if occurs_in(haystack, needle) {
        let at = choose|at: int| occurs_at(haystack, needle, at);
        lemma_encode_split(haystack, at);
        lemma_encode_split(haystack.subrange(at, haystack.len() as int), needle.len() as int);
        assert(haystack.subrange(at, haystack.len() as int).subrange(0, needle.len() as int)
            =~= needle);
        let start = encode_utf8(haystack.subrange(0, at)).len() as int;
        assert(hay.subrange(start, start + pin.len()) =~= pin);
        assert(occurs_at(hay, pin, start));
    }
    if occurs_in(hay, pin) {
        if needle.len() == 0 {
            assert(haystack.subrange(0, 0) =~= needle);
            assert(occurs_at(haystack, needle, 0));
        } else {
            let start = choose|start: int| occurs_at(hay, pin, start);
            char_is_scalar(needle[0]);
            lemma_encode_scalar_bytes(needle[0] as u32);
            assert(pin.len() >= 1);
            assert(hay[start] == hay.subrange(start, start + pin.len())[0]);
            is_char_boundary_start_end_of_seq(pin);
            is_char_boundary_iff_not_is_continuation_byte(pin, 0);
            is_char_boundary_iff_not_is_continuation_byte(hay, start);
            valid_utf8_split(hay, start);
            decode_utf8_split(hay, start);
            let from = hay.subrange(start, hay.len() as int);
            assert(from.subrange(0, pin.len() as int) =~= pin);
            lemma_prefix_boundary(from, pin);
            decode_utf8_split(from, pin.len() as int);
            let before = decode_utf8(hay.subrange(0, start));
            let after = decode_utf8(from.subrange(pin.len() as int, from.len() as int));
            assert(haystack =~= before + (needle + after));
            let at = before.len() as int;
            assert(haystack.subrange(at, at + needle.len()) =~= needle);
            assert(occurs_at(haystack, needle, at));
        }
    }
}

} // verus!
