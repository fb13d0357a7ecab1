//! Single-precision numbers handled by their bit pattern.
//!
//! The store never computes with floating-point numbers itself. It keeps every component, score
//! and ratio as the 32 bits of its IEEE 754 encoding and only ever compares two of them.

use vstd::prelude::*;

verus! {

/// The bit pattern of zero.
pub const ZERO: u32 = 0;

/// The bit pattern of one.
pub const ONE: u32 = 0x3f80_0000;

/// The bit pattern of negative infinity.
pub const NEG_INFINITY: u32 = 0xff80_0000;

/// Whether the pattern encodes "not a number": all exponent bits set and a non-zero fraction,
/// whatever the sign.
pub open spec fn spec_is_nan(b: u32) -> bool {
    b % 0x8000_0000 > 0x7f80_0000
}

/// The position of a number on the line of all single-precision numbers, zero at the origin.
/// Both zeros share one position; for two numbers `a < b` holds of the encoded values exactly
/// when it holds of their positions.
pub open spec fn spec_position(b: u32) -> int {
    if b < 0x8000_0000 {
        b as int
    } else {
        0x8000_0000 - b
    }
}

/// `a > b` of the encoded values. False as soon as one of them is not a number.
pub open spec fn spec_gt(a: u32, b: u32) -> bool {
    !spec_is_nan(a) && !spec_is_nan(b) && spec_position(a) > spec_position(b)
}

/// `a >= b` of the encoded values. False as soon as one of them is not a number.
pub open spec fn spec_ge(a: u32, b: u32) -> bool {
    !spec_is_nan(a) && !spec_is_nan(b) && spec_position(a) >= spec_position(b)
}

pub fn is_nan(b: u32) -> (r: bool)
    ensures
        r == spec_is_nan(b),
{
    b % 0x8000_0000 > 0x7f80_0000
}

fn position(b: u32) -> (r: i64)
    ensures
        r == spec_position(b),
{
    if b < 0x8000_0000 {
        b as i64
    } else {
        0x8000_0000i64 - b as i64
    }
}

pub fn bits_gt(a: u32, b: u32) -> (r: bool)
    ensures
        r == spec_gt(a, b),
{
    !is_nan(a) && !is_nan(b) && position(a) > position(b)
}

pub fn bits_ge(a: u32, b: u32) -> (r: bool)
    ensures
        r == spec_ge(a, b),
{
    !is_nan(a) && !is_nan(b) && position(a) >= position(b)
}

/// Of two numbers one is greater, or both stand at the same position; what is not a number is
/// neither greater nor smaller than anything.
pub proof fn law_numbers_compare(a: u32, b: u32)
    ensures
        !spec_is_nan(a) && !spec_is_nan(b) ==> spec_gt(a, b) || spec_gt(b, a) || spec_position(a)
            == spec_position(b),
        spec_is_nan(a) ==> !spec_gt(a, b) && !spec_gt(b, a),
        !(spec_gt(a, b) && spec_gt(b, a)),
{
}

/// How encoded numbers compare, told by their patterns alone. Of two without a sign the one with
/// the greater pattern is the greater number; of two with a sign the one with the smaller pattern
/// is; a number without a sign is greater than one with a sign, unless both are zero; and the two
/// zeros are equal. No two numbers compare equal otherwise.
pub proof fn law_order_of_numbers(a: u32, b: u32)
    requires
        a <= 0x7f80_0000 || 0x8000_0000 <= a <= 0xff80_0000,
        b <= 0x7f80_0000 || 0x8000_0000 <= b <= 0xff80_0000,
    ensures
        a < 0x8000_0000 && b < 0x8000_0000 ==> (spec_gt(a, b) <==> a > b),
        a >= 0x8000_0000 && b >= 0x8000_0000 ==> (spec_gt(a, b) <==> a < b),
        a < 0x8000_0000 && b >= 0x8000_0000 ==> (spec_gt(a, b) <==> a > 0 || b > 0x8000_0000),
        a >= 0x8000_0000 && b < 0x8000_0000 ==> !spec_gt(a, b),
        a < 0x8000_0000 && b < 0x8000_0000 ==> (spec_ge(a, b) <==> a >= b),
        a >= 0x8000_0000 && b >= 0x8000_0000 ==> (spec_ge(a, b) <==> a <= b),
        a < 0x8000_0000 && b >= 0x8000_0000 ==> spec_ge(a, b),
        a >= 0x8000_0000 && b < 0x8000_0000 ==> (spec_ge(a, b) <==> a == 0x8000_0000 && b == 0),
        spec_ge(a, b) <==> !spec_gt(b, a),
{
}

/// A pattern beyond that of an infinity, with a sign or without, is not a number, and compares
/// with nothing; every other pattern is a number.
pub proof fn law_what_is_not_a_number(a: u32, b: u32)
    ensures
        spec_is_nan(a) <==> 0x7f80_0000 < a < 0x8000_0000 || a > 0xff80_0000,
        0x7f80_0000 < a < 0x8000_0000 || a > 0xff80_0000 ==> !spec_gt(a, b) && !spec_gt(b, a)
            && !spec_ge(a, b) && !spec_ge(b, a),
{
}

/// Greater is a strict order, and it reverses with the sign: with the sign bit of both flipped,
/// the greater number becomes the smaller one.
pub proof fn law_greater_is_an_order(a: u32, b: u32, c: u32)
    ensures
        !spec_gt(a, a),
        spec_gt(a, b) && spec_gt(b, c) ==> spec_gt(a, c),
        a < 0x8000_0000 && b < 0x8000_0000 ==> (spec_gt(a, b) <==> spec_gt(
            (b + 0x8000_0000) as u32,
            (a + 0x8000_0000) as u32,
        )),
{
}

} // verus!
