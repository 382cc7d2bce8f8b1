//! Walking the UTF-8 bytes of a string slice one character at a time.
//!
//! The recognizers read the bytes of their input and cut it at byte offsets,
//! while their contracts speak of characters. The lemmas here connect the two:
//! a cut made in front of a character is a character boundary, and the
//! characters behind such a cut are the first character followed by the
//! characters behind the next cut.
use vstd::prelude::*;
use vstd::utf8::*;

verus! {

/// The bytes of `b` from offset `i` on.
pub open spec fn tail_from(b: Seq<u8>, i: int) -> Seq<u8> {
    b.subrange(i, b.len() as int)
}

/// The character whose encoding starts at offset `i` of `b`.
pub open spec fn char_at(b: Seq<u8>, i: int) -> char {
    decode_first_scalar(tail_from(b, i)) as char
}

/// The number of bytes that the character at offset `i` of `b` takes.
pub open spec fn width_at(b: Seq<u8>, i: int) -> int {
    length_of_first_scalar(tail_from(b, i))
}

/// The offset behind the character that starts at a boundary is a boundary again.
pub proof fn lemma_next_boundary(b: Seq<u8>, i: int)
    requires
        valid_utf8(b),
        is_char_boundary(b, i),
        0 <= i < b.len(),
    ensures
        1 <= width_at(b, i) <= 4,
        i + width_at(b, i) <= b.len(),
        is_char_boundary(b, i + width_at(b, i)),
    decreases b.len(),
{
    if i == 0 {
        assert(tail_from(b, 0) =~= b);
        reveal_with_fuel(is_char_boundary, 2);
    } else {
        let w0 = length_of_first_scalar(b);
        let p = pop_first_scalar(b);
        assert(is_char_boundary(p, i - w0));
        lemma_next_boundary(p, i - w0);
        assert(tail_from(p, i - w0) =~= tail_from(b, i));
    }
}

/// At a boundary in front of a character, the characters from there on are
/// that character and then the characters behind it. An ASCII byte stands for
/// itself; any other leading byte starts a character beyond the ASCII range.
pub proof fn lemma_decode_step(b: Seq<u8>, i: int)
    requires
        valid_utf8(b),
        is_char_boundary(b, i),
        0 <= i < b.len(),
    ensures
        valid_utf8(tail_from(b, i)),
        decode_utf8(tail_from(b, i)) == seq![char_at(b, i)] + decode_utf8(
            tail_from(b, i + width_at(b, i)),
        ),
        b[i] < 0x80 ==> width_at(b, i) == 1 && char_at(b, i) == b[i] as char,
        b[i] >= 0x80 ==> char_at(b, i) as u32 >= 0x80,
        is_leading_byte_width_1(b[i]) || is_leading_byte_width_2(b[i]) || is_leading_byte_width_3(
            b[i],
        ) || is_leading_byte_width_4(b[i]),
{
    valid_utf8_split(b, i);
    let t = tail_from(b, i);
    assert(t[0] == b[i]);
    assert(valid_first_scalar(t));
    assert(pop_first_scalar(t) =~= tail_from(b, i + width_at(b, i)));
    let x = b[i];
    if x < 0x80 {
        assert(x & 0x7f == x) by (bit_vector)
            requires
                x < 0x80,
        ;
    } else {
        decode_utf8_first_scalar(t);
        let c = char_at(b, i);
        assert(take_first_scalar(t).len() == length_of_first_scalar(t));
        assert(length_of_first_scalar(t) >= 2);
        if has_width_1_encoding(c as u32) {
            assert(encode_scalar(c as u32).len() == 1);
        }
    }
}

/// The number of bytes of the character that starts at offset `i`.
pub fn char_width(b: &[u8], i: usize) -> (w: usize)
    requires
        valid_utf8(b@),
        is_char_boundary(b@, i as int),
        i < b.len(),
    ensures
        w == width_at(b@, i as int),
        1 <= w <= 4,
        i + w <= b.len(),
        is_char_boundary(b@, i + w),
{
    proof {
        lemma_next_boundary(b@, i as int);
        lemma_decode_step(b@, i as int);
    }
    let x = b[i];
    if x < 0x80 {
        1
    } else if x < 0xe0 {
        2
    } else if x < 0xf0 {
        3
    } else {
        4
    }
}

} // verus!
