//! IEEE 754 single-precision numbers as bit patterns.
//!
//! Amplitudes and scores are single-precision numbers. They are handled by
//! their bit patterns, in integer arithmetic throughout: a pattern holds a sign
//! bit, eight bits of biased exponent and the 23 mantissa bits below the
//! leading one.

use vstd::prelude::*;

verus! {

/// The bit that marks a negative number.
pub const SIGN_BIT: u32 = 0x8000_0000;

/// The pattern of positive infinity; a larger magnitude is not a number.
pub const INFINITY_BITS: u32 = 0x7f80_0000;

/// The pattern of the number 1.
pub const ONE_BITS: u32 = 0x3f80_0000;

/// The weight of the leading mantissa bit, which a pattern leaves out: one step
/// of the exponent field.
pub const HIDDEN_BIT: u32 = 0x0080_0000;

/// The exponent field of a number between 1 and 2.
pub const EXPONENT_BIAS: u32 = 127;

/// Whether a bit pattern stands for no number.
pub open spec fn is_nan_bits(bits: u32) -> bool {
    bits % SIGN_BIT > INFINITY_BITS
}

/// The key of a bit pattern: its magnitude bits, negated where the sign bit is
/// set. Both zeros get the key 0, and of two numbers the smaller has the
/// smaller key.
pub open spec fn key_of_bits(bits: u32) -> i32 {
    if bits < SIGN_BIT {
        bits as i32
    } else {
        (SIGN_BIT - bits) as i32
    }
}

/// Whether the number that a pattern stands for lies between -1 and 1.
pub open spec fn within_unit_range(bits: u32) -> bool {
    -ONE_BITS <= key_of_bits(bits) <= ONE_BITS
}

/// The key of a bit pattern, or `None` where the pattern is not a number.
pub fn order_key(bits: u32) -> (key: Option<i32>)
    ensures
        key == if is_nan_bits(bits) {
            None
        } else {
            Some(key_of_bits(bits))
        },
{
    let negative = bits >= SIGN_BIT;
    let magnitude: u32 = if negative {
        bits - SIGN_BIT
    } else {
        bits
    };
    if magnitude > INFINITY_BITS {
        None
    } else if negative {
        Some(-(magnitude as i32))
    } else {
        Some(magnitude as i32)
    }
}

/// Two patterns that are numbers share a key only if they are the same pattern
/// or the two zeros: keys tie exactly where the numbers are equal.
pub proof fn lemma_equal_keys(a: u32, b: u32)
    requires
        !is_nan_bits(a),
        !is_nan_bits(b),
    ensures
        key_of_bits(a) == key_of_bits(b) <==> a == b || (a % SIGN_BIT == 0 && b % SIGN_BIT == 0),
{
}

} // verus!
