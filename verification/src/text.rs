//! Facts about the UTF-8 encoding of texts.
//!
//! The parser moves over bytes, yet it hands out string slices, so every
//! offset it stops at must fall between two characters. The first lemmas
//! show that it does. The others say what the bytes of the grammar's own
//! words are, and where the byte `"` can stand in an encoding.

use crate::grammar::{
    CLOSE_BRACE, CLOSE_BRACKET, COLON, COMMA, MINUS, OPEN_BRACE, OPEN_BRACKET, POINT, QUOTE,
};
use vstd::prelude::*;
use vstd::string::*;
use vstd::utf8::*;

verus! {

/// An offset up to which the bytes are themselves valid UTF-8 is a
/// character boundary.
pub proof fn lemma_valid_prefix_is_boundary(bytes: Seq<u8>, i: int)
    requires
        valid_utf8(bytes),
        0 <= i <= bytes.len(),
        valid_utf8(bytes.subrange(0, i)),
    ensures
        is_char_boundary(bytes, i),
    decreases bytes.len(),
{
    if i != 0 {
        let prefix = bytes.subrange(0, i);
        let first = length_of_first_scalar(bytes);
        assert(valid_first_scalar(prefix));
        assert(prefix[0] == bytes[0]);
        assert(length_of_first_scalar(prefix) == first);
        assert(first <= i);
        assert(pop_first_scalar(prefix) =~= pop_first_scalar(bytes).subrange(0, i - first));
        lemma_valid_prefix_is_boundary(pop_first_scalar(bytes), i - first);
    }
}

/// After a piece of valid UTF-8 that starts at a boundary comes a boundary.
pub proof fn lemma_boundary_after_text(bytes: Seq<u8>, start: int, piece: Seq<u8>)
    requires
        valid_utf8(bytes),
        valid_utf8(piece),
        is_char_boundary(bytes, start),
        0 <= start,
        start + piece.len() <= bytes.len(),
        bytes.subrange(start, start + piece.len()) == piece,
    ensures
        is_char_boundary(bytes, start + piece.len()),
{
    valid_utf8_split(bytes, start);
    valid_utf8_concat(bytes.subrange(0, start), piece);
    assert(bytes.subrange(0, start) + piece =~= bytes.subrange(0, start + piece.len()));
    lemma_valid_prefix_is_boundary(bytes, start + piece.len());
}

/// After a run of ASCII bytes that starts at a boundary comes a boundary.
pub proof fn lemma_boundary_after_ascii(bytes: Seq<u8>, start: int, end: int)
    requires
        valid_utf8(bytes),
        is_char_boundary(bytes, start),
        0 <= start <= end <= bytes.len(),
        forall|i: int| start <= i < end ==> #[trigger] bytes[i] < 0x80,
    ensures
        is_char_boundary(bytes, end),
{
    valid_utf8_split(bytes, start);
    assert forall|i: int| 0 <= start <= i < end <= bytes.len() implies #[trigger]
        is_leading_byte_width_1(bytes[i]) by {}
    partial_valid_utf8_extend_ascii_block(bytes, start, end);
    lemma_valid_prefix_is_boundary(bytes, end);
}

/// Where a non-empty piece of valid UTF-8 occurs in valid UTF-8, a
/// character begins.
pub proof fn lemma_boundary_before_text(bytes: Seq<u8>, at: int, piece: Seq<u8>)
    requires
        valid_utf8(bytes),
        valid_utf8(piece),
        piece.len() > 0,
        0 <= at,
        at + piece.len() <= bytes.len(),
        bytes.subrange(at, at + piece.len()) == piece,
    ensures
        is_char_boundary(bytes, at),
{
    assert(valid_first_scalar(piece));
    assert(bytes[at] == bytes.subrange(at, at + piece.len())[0]);
    assert(!is_continuation_byte(bytes[at]));
    is_char_boundary_iff_not_is_continuation_byte(bytes, at);
}

/// A boundary of the whole is a boundary of every prefix that reaches it.
pub proof fn lemma_boundary_in_prefix(bytes: Seq<u8>, i: int, end: int)
    requires
        valid_utf8(bytes),
        0 <= i <= end <= bytes.len(),
        is_char_boundary(bytes, i),
        valid_utf8(bytes.subrange(0, end)),
    ensures
        is_char_boundary(bytes.subrange(0, end), i),
{
    valid_utf8_split(bytes, i);
    assert(bytes.subrange(0, end).subrange(0, i) =~= bytes.subrange(0, i));
    lemma_valid_prefix_is_boundary(bytes.subrange(0, end), i);
}

/// The encoding of two texts, one after the other, is their encodings one
/// after the other.
pub proof fn lemma_encode_concat(a: Seq<char>, b: Seq<char>)
    ensures
        encode_utf8(a + b) == encode_utf8(a) + encode_utf8(b),
    decreases a.len(),
{
    if a.len() == 0 {
        assert(a + b == b);
    } else {
        assert((a + b).drop_first() == a.drop_first() + b);
        lemma_encode_concat(a.drop_first(), b);
    }
}

/// The bytes of the punctuation, each written as a text of one character.
pub proof fn lemma_punctuation()
    ensures
        "\"".spec_bytes() == seq![QUOTE],
        "-".spec_bytes() == seq![MINUS],
        ".".spec_bytes() == seq![POINT],
        ",".spec_bytes() == seq![COMMA],
        ":".spec_bytes() == seq![COLON],
        "[".spec_bytes() == seq![OPEN_BRACKET],
        "]".spec_bytes() == seq![CLOSE_BRACKET],
        "{".spec_bytes() == seq![OPEN_BRACE],
        "}".spec_bytes() == seq![CLOSE_BRACE],
{
    reveal_strlit("\"");
    reveal_strlit("-");
    reveal_strlit(".");
    reveal_strlit(",");
    reveal_strlit(":");
    reveal_strlit("[");
    reveal_strlit("]");
    reveal_strlit("{");
    reveal_strlit("}");
    is_ascii_chars_encode_utf8("\""@);
    is_ascii_chars_encode_utf8("-"@);
    is_ascii_chars_encode_utf8("."@);
    is_ascii_chars_encode_utf8(","@);
    is_ascii_chars_encode_utf8(":"@);
    is_ascii_chars_encode_utf8("["@);
    is_ascii_chars_encode_utf8("]"@);
    is_ascii_chars_encode_utf8("{"@);
    is_ascii_chars_encode_utf8("}"@);
    assert("\"".spec_bytes() =~= seq![QUOTE]);
    assert("-".spec_bytes() =~= seq![MINUS]);
    assert(".".spec_bytes() =~= seq![POINT]);
    assert(",".spec_bytes() =~= seq![COMMA]);
    assert(":".spec_bytes() =~= seq![COLON]);
    assert("[".spec_bytes() =~= seq![OPEN_BRACKET]);
    assert("]".spec_bytes() =~= seq![CLOSE_BRACKET]);
    assert("{".spec_bytes() =~= seq![OPEN_BRACE]);
    assert("}".spec_bytes() =~= seq![CLOSE_BRACE]);
}

/// The bytes of the three keywords.
pub proof fn lemma_keywords()
    ensures
        "null".spec_bytes() == seq![0x6eu8, 0x75u8, 0x6cu8, 0x6cu8],
        "true".spec_bytes() == seq![0x74u8, 0x72u8, 0x75u8, 0x65u8],
        "false".spec_bytes() == seq![0x66u8, 0x61u8, 0x6cu8, 0x73u8, 0x65u8],
{
    reveal_strlit("null");
    reveal_strlit("true");
    reveal_strlit("false");
    is_ascii_chars_encode_utf8("null"@);
    is_ascii_chars_encode_utf8("true"@);
    is_ascii_chars_encode_utf8("false"@);
    assert("null".spec_bytes() =~= seq![0x6eu8, 0x75u8, 0x6cu8, 0x6cu8]);
    assert("true".spec_bytes() =~= seq![0x74u8, 0x72u8, 0x75u8, 0x65u8]);
    assert("false".spec_bytes() =~= seq![0x66u8, 0x61u8, 0x6cu8, 0x73u8, 0x65u8]);
}

/// Every byte of the encoding of a character other than `"` differs from
/// the byte `"`, and the encoding of `"` is that one byte.
pub proof fn lemma_quote_scalar(c: char)
    ensures
        c == '"' ==> encode_scalar(c as u32) == seq![QUOTE],
        c != '"' ==> !encode_scalar(c as u32).contains(QUOTE),
        encode_scalar(c as u32).len() > 0,
{
    let v = c as u32;
    assert(v == 0x22 ==> (v & 0x7F) as u8 == 0x22u8) by (bit_vector);
    assert(v <= 0x7F && v != 0x22 ==> (v & 0x7F) as u8 != 0x22u8) by (bit_vector);
    assert(0xC0u8 | ((v >> 6) & 0x1F) as u8 != 0x22u8) by (bit_vector);
    assert(0xE0u8 | ((v >> 12) & 0x0F) as u8 != 0x22u8) by (bit_vector);
    assert(0xF0u8 | ((v >> 18) & 0x7) as u8 != 0x22u8) by (bit_vector);
    assert(0x80u8 | (v & 0x3F) as u8 != 0x22u8) by (bit_vector);
    assert(0x80u8 | ((v >> 6) & 0x3F) as u8 != 0x22u8) by (bit_vector);
    assert(0x80u8 | ((v >> 12) & 0x3F) as u8 != 0x22u8) by (bit_vector);
    if c == '"' {
        assert(encode_scalar(v) =~= seq![QUOTE]);
    }
}

/// The encoding of a text holds the byte `"` exactly when the text holds
/// the character `"`.
pub proof fn lemma_quote_encoded(chars: Seq<char>)
    ensures
        encode_utf8(chars).contains(QUOTE) <==> chars.contains('"'),
    decreases chars.len(),
{
    if chars.len() > 0 {
        let head = encode_scalar(chars[0] as u32);
        let rest = chars.drop_first();
        let tail = encode_utf8(rest);
        lemma_quote_scalar(chars[0]);
        lemma_quote_encoded(rest);
        assert(encode_utf8(chars) == head + tail);
        if chars.contains('"') {
            let i = choose|i: int| 0 <= i < chars.len() && chars[i] == '"';
            if i == 0 {
                assert((head + tail)[0] == QUOTE);
            } else {
                assert(rest[i - 1] == '"');
                let k = choose|k: int| 0 <= k < tail.len() && tail[k] == QUOTE;
                assert((head + tail)[head.len() + k] == QUOTE);
            }
        }
        if encode_utf8(chars).contains(QUOTE) {
            let k = choose|k: int| 0 <= k < (head + tail).len() && (head + tail)[k] == QUOTE;
            if k < head.len() {
                assert(head[k] == QUOTE);
                assert(head.contains(QUOTE));
                assert(chars[0] == '"');
            } else {
                assert(tail[k - head.len()] == QUOTE);
                let i = choose|i: int| 0 <= i < rest.len() && rest[i] == '"';
                assert(chars[i + 1] == '"');
            }
        }
    }
}

} // verus!
