//! Spreads as ordered keys.
//!
//! A spread is an IEEE-754 binary64 number. The cache never computes with it; it only
//! compares spreads. So it stores, in place of the number, a `u64` key whose unsigned order
//! is the numeric order of the numbers: the bit pattern with the sign bit flipped for a
//! non-negative number, and with every bit flipped for a negative one.

use vstd::prelude::*;

verus! {

/// The sign bit of a binary64 bit pattern.
pub const SIGN_BIT: u64 = 0x8000_0000_0000_0000;

/// The key of positive infinity: what an empty range reports as its least spread.
pub const EMPTY_MIN_SPREAD: u64 = 0xFFF0_0000_0000_0000;

/// The key of negative infinity: what an empty range reports as its greatest spread.
pub const EMPTY_MAX_SPREAD: u64 = 0x000F_FFFF_FFFF_FFFF;

/// The key that stands for the number with bit pattern `bits`.
pub open spec fn spec_spread_key(bits: u64) -> u64 {
    if bits & SIGN_BIT != 0 {
        !bits
    } else {
        bits | SIGN_BIT
    }
}

/// The bit pattern of the number that `key` stands for.
pub open spec fn spec_spread_bits(key: u64) -> u64 {
    if key & SIGN_BIT != 0 {
        key & !SIGN_BIT
    } else {
        !key
    }
}

/// A key stands for a finite number when it lies strictly between the keys of the two
/// infinities.
pub open spec fn is_finite_spread(key: u64) -> bool {
    EMPTY_MAX_SPREAD < key < EMPTY_MIN_SPREAD
}

/// Whether the bit pattern has its sign bit set.
pub open spec fn is_negative_bits(bits: u64) -> bool {
    bits & SIGN_BIT != 0
}

/// The bit pattern without its sign bit: exponent and fraction, whose unsigned order is the
/// order of the absolute values.
pub open spec fn magnitude_bits(bits: u64) -> u64 {
    bits & !SIGN_BIT
}

/// A bit pattern is that of a finite number when its exponent field is not all ones.
pub open spec fn is_finite_bits(bits: u64) -> bool {
    magnitude_bits(bits) < 0x7FF0_0000_0000_0000
}

/// The lesser of two keys.
pub open spec fn spec_lesser(a: u64, b: u64) -> u64 {
    if a <= b {
        a
    } else {
        b
    }
}

/// The greater of two keys.
pub open spec fn spec_greater(a: u64, b: u64) -> u64 {
    if a >= b {
        a
    } else {
        b
    }
}

/// Computes [`spec_lesser`].
pub fn lesser(a: u64, b: u64) -> (r: u64)
    ensures
        r == spec_lesser(a, b),
{
    if a <= b {
        a
    } else {
        b
    }
}

/// Computes [`spec_greater`].
pub fn greater(a: u64, b: u64) -> (r: u64)
    ensures
        r == spec_greater(a, b),
{
    if a >= b {
        a
    } else {
        b
    }
}

/// Encodes the bit pattern of a binary64 number as its key.
pub fn spread_key(bits: u64) -> (key: u64)
    ensures
        key == spec_spread_key(bits),
{
    if bits & SIGN_BIT != 0 {
        !bits
    } else {
        bits | SIGN_BIT
    }
}

/// Decodes a key into the bit pattern of the number it stands for.
pub fn spread_bits(key: u64) -> (bits: u64)
    ensures
        bits == spec_spread_bits(key),
{
    if key & SIGN_BIT != 0 {
        key & !SIGN_BIT
    } else {
        !key
    }
}

/// Whether the key stands for a finite number.
pub fn spread_is_finite(key: u64) -> (r: bool)
    ensures
        r == is_finite_spread(key),
{
    EMPTY_MAX_SPREAD < key && key < EMPTY_MIN_SPREAD
}

/// The order of the numbers behind two bit patterns, neither of them a NaN: a negative
/// number is less than a non-negative one, of two non-negative numbers the one of lesser
/// magnitude is less, and of two negative numbers the one of greater magnitude. Negative
/// zero counts as less than positive zero.
pub open spec fn bits_less(a: u64, b: u64) -> bool {
    if is_negative_bits(a) {
        !is_negative_bits(b) || magnitude_bits(a) > magnitude_bits(b)
    } else {
        !is_negative_bits(b) && magnitude_bits(a) < magnitude_bits(b)
    }
}

/// The unsigned order of the keys is the order of the numbers.
pub proof fn lemma_spread_key_order(a: u64, b: u64)
    ensures
        spec_spread_key(a) < spec_spread_key(b) <==> bits_less(a, b),
{
    let ka = spec_spread_key(a);
    let kb = spec_spread_key(b);
    assert((ka < kb) == (if a & 0x8000_0000_0000_0000u64 != 0 {
        !(b & 0x8000_0000_0000_0000u64 != 0) || (a & !0x8000_0000_0000_0000u64) > (b
            & !0x8000_0000_0000_0000u64)
    } else {
        !(b & 0x8000_0000_0000_0000u64 != 0) && (a & !0x8000_0000_0000_0000u64) < (b
            & !0x8000_0000_0000_0000u64)
    })) by (bit_vector)
        requires
            ka == (if a & 0x8000_0000_0000_0000u64 != 0 {
                !a
            } else {
                a | 0x8000_0000_0000_0000u64
            }),
            kb == (if b & 0x8000_0000_0000_0000u64 != 0 {
                !b
            } else {
                b | 0x8000_0000_0000_0000u64
            }),
    ;
}

/// The keys of the finite numbers are the keys strictly between those of the infinities.
pub proof fn lemma_spread_key_finite(bits: u64)
    ensures
        is_finite_spread(spec_spread_key(bits)) <==> is_finite_bits(bits),
{
    let k = spec_spread_key(bits);
    assert((0x000F_FFFF_FFFF_FFFFu64 < k && k < 0xFFF0_0000_0000_0000u64) == ((bits
        & !0x8000_0000_0000_0000u64) < 0x7FF0_0000_0000_0000u64)) by (bit_vector)
        requires
            k == (if bits & 0x8000_0000_0000_0000u64 != 0 {
                !bits
            } else {
                bits | 0x8000_0000_0000_0000u64
            }),
    ;
}

/// Encoding and decoding are inverse to each other, in both directions.
pub proof fn lemma_spread_key_round_trip(x: u64)
    ensures
        spec_spread_bits(spec_spread_key(x)) == x,
        spec_spread_key(spec_spread_bits(x)) == x,
{
    assert(spec_spread_bits(spec_spread_key(x)) == x && spec_spread_key(spec_spread_bits(x)) == x)
        by (bit_vector)
        requires
            SIGN_BIT == 0x8000_0000_0000_0000u64,
            spec_spread_key(x) == (if x & 0x8000_0000_0000_0000u64 != 0 { !x } else { x | 0x8000_0000_0000_0000u64 }),
    ;
}

} // verus!
