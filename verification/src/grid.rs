//! The grid: integers in place of the scene's numbers.
//!
//! The hierarchy and the choice among hits compare numbers and never add
//! them, so they take integers that keep the order of the scene's numbers.
//! For numbers in IEEE single precision such integers are made here from
//! the number's 32 bits: sign in the highest bit, magnitude in the others.
//! Among numbers that are not NaN, the one of greater value has the greater
//! key; negative zero, whose bits differ from those of zero, comes just below
//! it, so a caller adds zero to a number before it takes the bits.

use vstd::prelude::*;

verus! {

/// The highest bit of 32, which holds the sign.
pub const SIGN: u32 = 0x8000_0000;

/// Whether the bits are those of a number below zero, or of negative zero.
pub open spec fn is_negative(bits: u32) -> bool {
    bits >= SIGN
}

/// The bits without the sign: the number's magnitude, greater for numbers
/// farther from zero.
pub open spec fn magnitude(bits: u32) -> int {
    if bits >= SIGN {
        bits - SIGN
    } else {
        bits as int
    }
}

/// The key of the number with the given bits: its magnitude, or for a
/// negative number what lies as far below minus one.
pub open spec fn key_of(bits: u32) -> int {
    if is_negative(bits) {
        -1 - magnitude(bits)
    } else {
        magnitude(bits)
    }
}

/// Whether the number with the bits `a` comes before the one with the bits
/// `b` in the order of sign and magnitude: a negative number before one that
/// is not, of two that are not negative the one of lesser magnitude first,
/// of two negative ones the one of greater magnitude.
pub open spec fn precedes(a: u32, b: u32) -> bool {
    if is_negative(a) && is_negative(b) {
        magnitude(a) > magnitude(b)
    } else if !is_negative(a) && !is_negative(b) {
        magnitude(a) < magnitude(b)
    } else {
        is_negative(a)
    }
}

/// The key of the number with the given bits.
pub fn key(bits: u32) -> (k: i32)
    ensures
        k == key_of(bits),
{
    if bits >= SIGN {
        -1 - ((bits - SIGN) as i32)
    } else {
        bits as i32
    }
}

/// The bits of the number with the given key.
pub fn unkey(k: i32) -> (bits: u32)
    ensures
        key_of(bits) == k,
{
    if k < 0 {
        ((-1 - k) as u32) + SIGN
    } else {
        k as u32
    }
}

/// Keys keep the order of sign and magnitude, and no two numbers have one
/// key.
pub proof fn lemma_key_keeps_order(a: u32, b: u32)
    ensures
        precedes(a, b) <==> key_of(a) < key_of(b),
        key_of(a) == key_of(b) <==> a == b,
        i32::MIN <= key_of(a) <= i32::MAX,
{
}

/// Bits come back from their key.
pub proof fn lemma_unkey_undoes_key(bits: u32, back: u32)
    requires
        key_of(back) == key_of(bits),
    ensures
        back == bits,
{
}

} // verus!
