//! Whether a run of bytes is UTF-8.
use vstd::prelude::*;
use vstd::utf8::*;

verus! {

/// How far the scalar of an encoding of one, two or three bytes can reach.
pub proof fn lemma_decoded_bounds(b0: u8, b1: u8, b2: u8)
    by (bit_vector)
    ensures
        (b0 & 0x7f) as u32 <= 0x7f,
        (((b0 & 0x1f) as u32) << 6) | ((b1 & 0x3f) as u32) <= 0x7ff,
        (((b0 & 0x0f) as u32) << 12) | (((b1 & 0x3f) as u32) << 6) | ((b2 & 0x3f) as u32)
            <= 0xffff,
{
}

/// Whether `b` continues a character.
fn continues(b: u8) -> (yes: bool)
    ensures
        yes == is_continuation_byte(b),
{
    0x80 <= b && b <= 0xbf
}

/// The width in bytes of the character that is encoded at `at`, or zero
/// where no well-formed encoding of a character starts there.
fn scalar_width(bytes: &[u8], at: usize) -> (width: usize)
    requires
        at < bytes@.len(),
    ensures
        width == if valid_first_scalar(bytes@.skip(at as int)) {
            length_of_first_scalar(bytes@.skip(at as int))
        } else {
            0
        },
        width <= bytes@.len() - at,
{
    let ghost x = bytes@.skip(at as int);
    let left: usize = bytes.len() - at;
    let b0: u8 = bytes[at];
    assert(x[0] == b0);
    proof {
        lemma_decoded_bounds(x[0], x[1], x[2]);
    }
    if b0 <= 0x7f {
        1
    } else if 0xc0 <= b0 && b0 <= 0xdf {
        if left < 2 {
            return 0;
        }
        let b1: u8 = bytes[at + 1];
        assert(x[1] == b1);
        if !continues(b1) {
            return 0;
        }
        let scalar: u32 = (((b0 & 0x1f) as u32) << 6) | ((b1 & 0x3f) as u32);
        if scalar >= 0x80 {
            2
        } else {
            0
        }
    } else if 0xe0 <= b0 && b0 <= 0xef {
        if left < 3 {
            return 0;
        }
        let b1: u8 = bytes[at + 1];
        let b2: u8 = bytes[at + 2];
        assert(x[1] == b1);
        assert(x[2] == b2);
        if !continues(b1) || !continues(b2) {
            return 0;
        }
        let scalar: u32 = (((b0 & 0x0f) as u32) << 12) | (((b1 & 0x3f) as u32) << 6) | ((b2
            & 0x3f) as u32);
        if scalar >= 0x800 && !(0xd800 <= scalar && scalar <= 0xdfff) {
            3
        } else {
            0
        }
    } else if 0xf0 <= b0 && b0 <= 0xf7 {
        if left < 4 {
            return 0;
        }
        let b1: u8 = bytes[at + 1];
        let b2: u8 = bytes[at + 2];
        let b3: u8 = bytes[at + 3];
        assert(x[1] == b1);
        assert(x[2] == b2);
        assert(x[3] == b3);
        if !continues(b1) || !continues(b2) || !continues(b3) {
            return 0;
        }
        let scalar: u32 = (((b0 & 0x07) as u32) << 18) | (((b1 & 0x3f) as u32) << 12) | (((b2
            & 0x3f) as u32) << 6) | ((b3 & 0x3f) as u32);
        if 0x10000 <= scalar && scalar <= 0x10ffff {
            4
        } else {
            0
        }
    } else {
        0
    }
}

/// Whether `bytes` is well-formed UTF-8.
pub fn is_utf8(bytes: &[u8]) -> (valid: bool)
    ensures
        valid == valid_utf8(bytes@),
{
    let len: usize = bytes.len();
    let mut at: usize = 0;
    assert(bytes@.skip(0) =~= bytes@);
    while at < len
        invariant
            at <= len,
            len == bytes@.len(),
            valid_utf8(bytes@) == valid_utf8(bytes@.skip(at as int)),
        decreases len - at,
    {
        let width = scalar_width(bytes, at);
        if width == 0 {
            return false;
        }
        assert(pop_first_scalar(bytes@.skip(at as int)) =~= bytes@.skip(at + width));
        at += width;
    }
    true
}

} // verus!
