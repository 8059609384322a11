//! Where the characters of a text lie in its UTF-8 encoding.

use vstd::prelude::*;
use vstd::utf8::{char_is_scalar, encode_scalar, encode_utf8};

verus! {

/// How many bytes the first `p` characters of `s` take in UTF-8: the byte
/// offset of the character at `p`.
pub open spec fn byte_offset(s: Seq<char>, p: int) -> int {
    encode_utf8(s.take(p)).len() as int
}

/// How many bytes `c` takes in UTF-8.
pub open spec fn width(c: char) -> int {
    encode_scalar(c as u32).len() as int
}

/// Whether `b` is the byte of an ASCII decimal digit.
pub open spec fn is_digit_byte(b: u8) -> bool {
    0x30 <= b <= 0x39
}

/// How many bytes `c` takes in UTF-8.
pub fn char_width(c: char) -> (bytes: usize)
    ensures
        bytes == width(c),
        1 <= bytes <= 4,
{
    proof {
        char_is_scalar(c);
    }
    let v = c as u32;
    if v < 0x80 {
        1
    } else if v < 0x800 {
        2
    } else if v < 0x10000 {
        3
    } else {
        4
    }
}

/// The encoding of two texts put together is their encodings put together.
pub proof fn lemma_encode_concat(a: Seq<char>, b: Seq<char>)
    ensures
        encode_utf8(a + b) == encode_utf8(a) + encode_utf8(b),
    decreases a.len(),
{
    if a.len() == 0 {
        assert(a + b == b);
        assert(encode_utf8(a) + encode_utf8(b) == encode_utf8(b));
    } else {
        lemma_encode_concat(a.drop_first(), b);
        assert((a + b).drop_first() == a.drop_first() + b);
        assert((a + b)[0] == a[0]);
        assert(encode_scalar(a[0] as u32) + (encode_utf8(a.drop_first()) + encode_utf8(b)) == (
        encode_scalar(a[0] as u32) + encode_utf8(a.drop_first())) + encode_utf8(b));
    }
}

/// A text of one character is encoded as that character is.
pub proof fn lemma_encode_single(c: char)
    ensures
        encode_utf8(seq![c]) == encode_scalar(c as u32),
{
    assert(seq![c].drop_first() == Seq::<char>::empty());
    assert(encode_utf8(Seq::<char>::empty()) == Seq::<u8>::empty());
    assert(encode_scalar(c as u32) + Seq::<u8>::empty() == encode_scalar(c as u32));
}

/// The character at `p` lies at its byte offset, byte for byte, and the
/// next character begins behind it.
pub proof fn lemma_character_bytes(s: Seq<char>, p: int)
    requires
        0 <= p < s.len(),
    ensures
        1 <= width(s[p]) <= 4,
        byte_offset(s, p + 1) == byte_offset(s, p) + width(s[p]),
        0 <= byte_offset(s, p),
        byte_offset(s, p + 1) <= encode_utf8(s).len(),
        forall|j: int|
            0 <= j < width(s[p]) ==> #[trigger] encode_utf8(s)[byte_offset(s, p) + j]
                == encode_scalar(s[p] as u32)[j],
{
    char_is_scalar(s[p]);
    let head = s.take(p);
    let tail = s.skip(p + 1);
    assert(s.take(p + 1) == head + seq![s[p]]);
    assert(s == s.take(p + 1) + tail);
    lemma_encode_concat(head, seq![s[p]]);
    lemma_encode_single(s[p]);
    lemma_encode_concat(s.take(p + 1), tail);
}

/// The byte offset of the end of the text is the length of its encoding.
pub proof fn lemma_byte_offset_ends(s: Seq<char>)
    ensures
        byte_offset(s, 0) == 0,
        byte_offset(s, s.len() as int) == encode_utf8(s).len(),
{
    assert(s.take(0) == Seq::<char>::empty());
    assert(s.take(s.len() as int) == s);
}

/// Later characters lie at later bytes.
pub proof fn lemma_byte_offsets_climb(s: Seq<char>, a: int, b: int)
    requires
        0 <= a <= b <= s.len(),
    ensures
        byte_offset(s, a) <= byte_offset(s, b),
        a < b ==> byte_offset(s, a) < byte_offset(s, b),
        byte_offset(s, b) <= encode_utf8(s).len(),
    decreases b - a,
{
    lemma_byte_offset_ends(s);
    if a < b {
        lemma_byte_offsets_climb(s, a, b - 1);
        lemma_character_bytes(s, b - 1);
    } else if b < s.len() {
        lemma_character_bytes(s, b);
    }
}

/// The character that the byte at `i` belongs to.
pub proof fn lemma_character_of_byte(s: Seq<char>, i: int) -> (p: int)
    requires
        0 <= i < encode_utf8(s).len(),
    ensures
        0 <= p < s.len(),
        byte_offset(s, p) <= i < byte_offset(s, p + 1),
{
    lemma_byte_offset_ends(s);
    lemma_search_character(s, i, 0)
}

proof fn lemma_search_character(s: Seq<char>, i: int, from: int) -> (p: int)
    requires
        0 <= from <= s.len(),
        byte_offset(s, from) <= i < encode_utf8(s).len(),
    ensures
        from <= p < s.len(),
        byte_offset(s, p) <= i < byte_offset(s, p + 1),
    decreases s.len() - from,
{
    lemma_byte_offset_ends(s);
    lemma_character_bytes(s, from);
    if i < byte_offset(s, from + 1) {
        from
    } else {
        lemma_search_character(s, i, from + 1)
    }
}

proof fn lemma_high_bytes(x: u8)
    by (bit_vector)
    ensures
        0xC0u8 | x >= 0x80u8,
        0xE0u8 | x >= 0x80u8,
        0xF0u8 | x >= 0x80u8,
        0x80u8 | x >= 0x80u8,
{
}

proof fn lemma_low_byte(v: u32)
    by (bit_vector)
    requires
        v <= 0x7F,
    ensures
        (v & 0x7F) as u8 == v as u8,
        (v as u8) as u32 == v,
{
}

/// An ASCII character is encoded as the one byte of its code; every byte
/// of another character is larger than any ASCII code. So a byte is that of
/// a digit exactly where it encodes a digit.
pub proof fn lemma_encoded_digit(c: char)
    ensures
        ('0' <= c && c <= '9') ==> encode_scalar(c as u32) == seq![c as u8] && is_digit_byte(
            c as u8,
        ),
        !('0' <= c && c <= '9') ==> forall|j: int|
            0 <= j < width(c) ==> !is_digit_byte(#[trigger] encode_scalar(c as u32)[j]),
{
    char_is_scalar(c);
    let v = c as u32;
    if v <= 0x7F {
        lemma_low_byte(v);
    } else {
        lemma_high_bytes(((v >> 6) & 0x1F) as u8);
        lemma_high_bytes(((v >> 12) & 0x0F) as u8);
        lemma_high_bytes(((v >> 18) & 0x7) as u8);
        lemma_high_bytes((v & 0x3F) as u8);
        lemma_high_bytes(((v >> 6) & 0x3F) as u8);
        lemma_high_bytes(((v >> 12) & 0x3F) as u8);
    }
}

} // verus!
