//! Facts about the UTF-8 encoding of a `char` sequence that let the byte-level
//! scans of this crate be read as statements about characters.

use vstd::prelude::*;
use vstd::utf8::*;

verus! {

/// The encoding of a concatenation is the concatenation of the encodings.
pub proof fn lemma_encode_concat(a: Seq<char>, b: Seq<char>)
    ensures
        encode_utf8(a + b) == encode_utf8(a) + encode_utf8(b),
    decreases a.len(),
{
    if a.len() == 0 {
        assert(a + b =~= b);
        assert(encode_utf8(a) + encode_utf8(b) =~= encode_utf8(b));
    } else {
        lemma_encode_concat(a.drop_first(), b);
        assert((a + b).drop_first() =~= a.drop_first() + b);
        assert((a + b)[0] == a[0]);
        assert(encode_utf8(a + b) =~= encode_scalar(a[0] as u32) + (encode_utf8(a.drop_first())
            + encode_utf8(b)));
    }
}

/// The encoding of a single character is its scalar encoding.
pub proof fn lemma_encode_single(c: char)
    ensures
        encode_utf8(seq![c]) == encode_scalar(c as u32),
{
    let s = seq![c];
    assert(s.drop_first() =~= Seq::<char>::empty());
    assert(encode_utf8(s.drop_first()) =~= Seq::<u8>::empty());
    assert(encode_scalar(c as u32) + Seq::<u8>::empty() =~= encode_scalar(c as u32));
}

/// Encoding a sequence with one more character at its end appends that
/// character's scalar encoding.
pub proof fn lemma_encode_push(s: Seq<char>, c: char)
    ensures
        encode_utf8(s.push(c)) == encode_utf8(s) + encode_scalar(c as u32),
{
    lemma_encode_concat(s, seq![c]);
    lemma_encode_single(c);
    assert(s.push(c) =~= s + seq![c]);
}

/// The encoding of a non-empty sequence splits into the encoding of all but
/// its last character and the scalar encoding of that character.
pub proof fn lemma_encode_drop_last(s: Seq<char>)
    requires
        s.len() > 0,
    ensures
        encode_utf8(s) == encode_utf8(s.drop_last()) + encode_scalar(s.last() as u32),
{
    lemma_encode_push(s.drop_last(), s.last());
    assert(s.drop_last().push(s.last()) =~= s);
}

/// An ASCII character is encoded as its own code as a single byte; any other
/// character is encoded as two to four bytes that are all at least 0x80, the
/// first of which is not a continuation byte and the last of which is.
pub proof fn lemma_scalar_bytes(c: char)
    ensures
        1 <= encode_scalar(c as u32).len() <= 4,
        !is_continuation_byte(encode_scalar(c as u32)[0]),
        (c as u32) < 0x80 ==> encode_scalar(c as u32) == seq![(c as u32) as u8],
        (c as u32) >= 0x80 ==> encode_scalar(c as u32).len() >= 2,
        (c as u32) >= 0x80 ==> forall|i: int|
            0 <= i < encode_scalar(c as u32).len() ==> #[trigger] encode_scalar(c as u32)[i]
                >= 0x80,
        (c as u32) >= 0x80 ==> is_continuation_byte(encode_scalar(c as u32).last()),
{
    let v = c as u32;
    char_is_scalar(c);
    if has_width_1_encoding(v) {
        assert(v <= 0x7F ==> (v & 0x7F) as u8 == v as u8) by (bit_vector);
    } else if has_width_2_encoding(v) {
        assert(0xC0u8 | ((v >> 6) & 0x1F) as u8 >= 0xC0) by (bit_vector);
        assert(0x80u8 | (v & 0x3F) as u8 >= 0x80 && 0x80u8 | (v & 0x3F) as u8 <= 0xBF)
            by (bit_vector);
    } else if has_width_3_encoding(v) {
        assert(0xE0u8 | ((v >> 12) & 0x0F) as u8 >= 0xE0) by (bit_vector);
        assert(0x80u8 | ((v >> 6) & 0x3F) as u8 >= 0x80) by (bit_vector);
        assert(0x80u8 | (v & 0x3F) as u8 >= 0x80 && 0x80u8 | (v & 0x3F) as u8 <= 0xBF)
            by (bit_vector);
    } else {
        assert(0xF0u8 | ((v >> 18) & 0x7) as u8 >= 0xF0 && 0xF0u8 | ((v >> 18) & 0x7) as u8
            <= 0xF7) by (bit_vector);
        assert(0x80u8 | ((v >> 12) & 0x3F) as u8 >= 0x80) by (bit_vector);
        assert(0x80u8 | ((v >> 6) & 0x3F) as u8 >= 0x80) by (bit_vector);
        assert(0x80u8 | (v & 0x3F) as u8 >= 0x80 && 0x80u8 | (v & 0x3F) as u8 <= 0xBF)
            by (bit_vector);
    }
}

/// Characters with the same code are equal.
pub proof fn lemma_char_code(c: char, d: char)
    requires
        c as u32 == d as u32,
    ensures
        c == d,
{
    char_u32_cast(c, c as u32);
    char_u32_cast(d, d as u32);
}

/// Two character sequences with the same encoding are equal.
pub proof fn lemma_encode_injective(a: Seq<char>, b: Seq<char>)
    requires
        encode_utf8(a) == encode_utf8(b),
    ensures
        a == b,
{
    encode_utf8_decode_utf8(a);
    encode_utf8_decode_utf8(b);
}

/// Only the empty sequence has an empty encoding.
pub proof fn lemma_encode_empty(s: Seq<char>)
    ensures
        (encode_utf8(s).len() == 0) == (s.len() == 0),
{
    if s.len() > 0 {
        lemma_scalar_bytes(s[0]);
    }
}


/// In a valid UTF-8 sequence the byte after an ASCII byte starts a character.
pub proof fn lemma_after_ascii_boundary(b: Seq<u8>, j: int)
    requires
        valid_utf8(b),
        0 < j <= b.len(),
        b[j - 1] < 0x80,
    ensures
        is_char_boundary(b, j),
    decreases b.len(),
{
    if j == b.len() {
        is_char_boundary_start_end_of_seq(b);
    } else {
        reveal_with_fuel(valid_utf8, 2);
        let len = length_of_first_scalar(b);
        let rest = pop_first_scalar(b);
        if j < len {
            assert(b[j - 1] >= 0x80);
        } else if j == len {
            assert(rest[0] == b[j]);
            assert(!is_continuation_byte(b[j]));
            is_char_boundary_iff_not_is_continuation_byte(b, j);
        } else {
            assert(rest[j - len - 1] == b[j - 1]);
            lemma_after_ascii_boundary(rest, j - len);
        }
    }
}

} // verus!
