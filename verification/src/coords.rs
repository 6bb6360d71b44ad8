//! Page coordinates as order keys.
//!
//! The engine reports positions as IEEE-754 single-precision numbers. The
//! layout logic only ever compares positions and picks the smaller or larger
//! of two, so it works on an integer key per position: the key of the bit
//! pattern of the number, chosen so that integer order is number order.
//!
//! Only numbers have a place in that order: a NaN compares with nothing, so
//! its key means nothing. Positions given to the layout logic are keys of
//! numbers (`is_number`), infinities included; a box with a NaN side or centre
//! is to be read as no box.

use vstd::prelude::*;

verus! {

/// The sign bit of an IEEE-754 single-precision bit pattern.
pub const SIGN_BIT: u32 = 0x8000_0000;

/// The bit pattern without its sign bit.
pub open spec fn magnitude(bits: u32) -> u32 {
    bits & 0x7fff_ffff
}

/// The sign bit is set.
pub open spec fn is_negative(bits: u32) -> bool {
    bits & SIGN_BIT != 0
}

/// The bit pattern is a number (possibly infinite), not a NaN.
pub open spec fn is_number(bits: u32) -> bool {
    magnitude(bits) <= 0x7f80_0000
}

/// The order of IEEE-754 numbers on their bit patterns: both zeros are equal,
/// negatives come before positives, and within one sign the magnitude decides.
pub open spec fn number_le(a: u32, b: u32) -> bool {
    if magnitude(a) == 0 && magnitude(b) == 0 {
        true
    } else if is_negative(a) != is_negative(b) {
        is_negative(a)
    } else if is_negative(a) {
        magnitude(b) <= magnitude(a)
    } else {
        magnitude(a) <= magnitude(b)
    }
}

/// The order key of a bit pattern: negative zero has the key of positive
/// zero, negatives have their bits inverted and positives get the sign bit.
pub open spec fn key_of(bits: u32) -> u32 {
    if bits == SIGN_BIT {
        SIGN_BIT
    } else if bits & SIGN_BIT != 0 {
        !bits
    } else {
        bits | SIGN_BIT
    }
}

/// The bit pattern that a key stands for.
pub open spec fn bits_of(key: u32) -> u32 {
    if key & SIGN_BIT != 0 {
        key & 0x7fff_ffff
    } else {
        !key
    }
}

/// Order key of an IEEE-754 single-precision bit pattern.
pub fn coordinate_key(bits: u32) -> (k: u32)
    ensures
        k == key_of(bits),
{
    if bits == SIGN_BIT {
        SIGN_BIT
    } else if bits & SIGN_BIT != 0 {
        !bits
    } else {
        bits | SIGN_BIT
    }
}

/// The IEEE-754 single-precision bit pattern that a key stands for.
pub fn coordinate_bits(key: u32) -> (b: u32)
    ensures
        b == bits_of(key),
{
    if key & SIGN_BIT != 0 {
        key & 0x7fff_ffff
    } else {
        !key
    }
}

/// Keys order numbers as the numbers are ordered: for two non-NaN bit
/// patterns, one number is at most the other exactly when its key is.
pub proof fn lemma_key_preserves_order(a: u32, b: u32)
    requires
        is_number(a),
        is_number(b),
    ensures
        number_le(a, b) <==> key_of(a) <= key_of(b),
{
    assert(
        (a & 0x7fff_ffff) <= 0x7f80_0000 && (b & 0x7fff_ffff) <= 0x7f80_0000 ==> (
            (if (a & 0x7fff_ffff) == 0 && (b & 0x7fff_ffff) == 0 {
                true
            } else if (a & 0x8000_0000 != 0) != (b & 0x8000_0000 != 0) {
                a & 0x8000_0000 != 0
            } else if a & 0x8000_0000 != 0 {
                (b & 0x7fff_ffff) <= (a & 0x7fff_ffff)
            } else {
                (a & 0x7fff_ffff) <= (b & 0x7fff_ffff)
            }) <==> (if a == 0x8000_0000 {
                0x8000_0000u32
            } else if a & 0x8000_0000 != 0 {
                !a
            } else {
                a | 0x8000_0000
            }) <= (if b == 0x8000_0000 {
                0x8000_0000u32
            } else if b & 0x8000_0000 != 0 {
                !b
            } else {
                b | 0x8000_0000
            })
        )
    ) by (bit_vector);
}

/// A key gives back the bit pattern it was made from, for every pattern but
/// negative zero (which comes back as positive zero).
pub proof fn lemma_bits_of_key(bits: u32)
    ensures
        bits != SIGN_BIT ==> bits_of(key_of(bits)) == bits,
        bits == SIGN_BIT ==> bits_of(key_of(bits)) == 0,
{
    assert(
        (bits != 0x8000_0000u32 ==> (if (if bits & 0x8000_0000 != 0 { !bits } else { bits | 0x8000_0000 }) & 0x8000_0000 != 0 {
            (if bits & 0x8000_0000 != 0 { !bits } else { bits | 0x8000_0000 }) & 0x7fff_ffff
        } else {
            !(if bits & 0x8000_0000 != 0 { !bits } else { bits | 0x8000_0000 })
        }) == bits)
    ) by (bit_vector);
    assert(0x8000_0000u32 & 0x8000_0000u32 != 0 && 0x8000_0000u32 & 0x7fff_ffffu32 == 0) by (bit_vector);
}

} // verus!
