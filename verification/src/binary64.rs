//! The binary64 format: how a bit pattern is read as a number.

use vstd::prelude::*;
use vstd::arithmetic::power2::pow2;

verus! {

/// The sign bit of a bit pattern.
pub const SIGN_BIT: u64 = 0x8000_0000_0000_0000;

/// The bit pattern of positive infinity; as a magnitude, the least one that
/// is not finite.
pub const INFINITY: u64 = 0x7ff0_0000_0000_0000;

/// The bit pattern of the quiet NaN that every invalid operation returns.
pub const QUIET_NAN: u64 = 0x7ff8_0000_0000_0000;

/// The weight of the implicit leading bit of a normal significand, 2^52.
pub const HIDDEN_BIT: u64 = 0x0010_0000_0000_0000;

/// The bit pattern without its sign bit.
pub open spec fn magnitude(x: u64) -> u64 {
    if x >= SIGN_BIT {
        (x - SIGN_BIT) as u64
    } else {
        x
    }
}

/// Whether the sign bit is set.
pub open spec fn is_negative(x: u64) -> bool {
    x >= SIGN_BIT
}

/// Zero, subnormal or normal.
pub open spec fn is_finite(x: u64) -> bool {
    magnitude(x) < INFINITY
}

/// Not a number.
pub open spec fn is_nan(x: u64) -> bool {
    magnitude(x) > INFINITY
}

/// Positive or negative zero.
pub open spec fn is_zero(x: u64) -> bool {
    magnitude(x) == 0
}

/// The bit pattern with its sign bit flipped.
pub open spec fn negated(x: u64) -> u64 {
    if x >= SIGN_BIT {
        (x - SIGN_BIT) as u64
    } else {
        (x + SIGN_BIT) as u64
    }
}

/// The significand of a magnitude, with the implicit bit of a normal number.
pub open spec fn significand(m: nat) -> nat {
    if m < HIDDEN_BIT {
        m
    } else {
        m % (HIDDEN_BIT as nat) + HIDDEN_BIT as nat
    }
}

/// The binary exponent of the last place of a magnitude, counted from
/// 2^-1074.
pub open spec fn scale(m: nat) -> nat {
    if m < HIDDEN_BIT {
        0
    } else {
        (m / (HIDDEN_BIT as nat) - 1) as nat
    }
}

/// The number that a magnitude stands for, in units of 2^-1074.
pub open spec fn mag_quanta(m: nat) -> nat {
    significand(m) * pow2(scale(m))
}

/// The finite number that a bit pattern stands for, in units of 2^-1074.
pub open spec fn quanta(x: u64) -> int {
    if is_negative(x) {
        -(mag_quanta(magnitude(x) as nat) as int)
    } else {
        mag_quanta(magnitude(x) as nat) as int
    }
}

/// Strips the sign bit.
pub fn abs_bits(x: u64) -> (m: u64)
    ensures
        m == magnitude(x),
{
    if x >= SIGN_BIT {
        x - SIGN_BIT
    } else {
        x
    }
}

/// Flips the sign bit.
pub fn negate(x: u64) -> (r: u64)
    ensures
        r == negated(x),
{
    if x >= SIGN_BIT {
        x - SIGN_BIT
    } else {
        x + SIGN_BIT
    }
}

/// The comparison `|a| < |b|` of IEEE 754: false as soon as one side is NaN.
pub open spec fn spec_abs_lt(a: u64, b: u64) -> bool {
    !is_nan(a) && !is_nan(b) && magnitude(a) < magnitude(b)
}

/// Tells whether `a` is smaller in magnitude than `b`.
pub fn abs_lt(a: u64, b: u64) -> (r: bool)
    ensures
        r == spec_abs_lt(a, b),
{
    let ma = abs_bits(a);
    let mb = abs_bits(b);
    ma <= INFINITY && mb <= INFINITY && ma < mb
}

/// Tells whether `x` differs from zero in the sense of IEEE 754: true of
/// every pattern but the two zeros, NaN included.
pub fn is_nonzero(x: u64) -> (r: bool)
    ensures
        r == !is_zero(x),
{
    abs_bits(x) != 0
}

/// Splits a finite magnitude into significand and scale.
pub fn decode(m: u64) -> (r: (u64, u32))
    requires
        m < INFINITY,
    ensures
        r.0 == significand(m as nat),
        r.1 == scale(m as nat),
        r.0 < 2 * HIDDEN_BIT,
        r.1 <= 2045,
        m >= HIDDEN_BIT ==> r.0 >= HIDDEN_BIT,
{
    if m < HIDDEN_BIT {
        (m, 0)
    } else {
        let e: u64 = m / HIDDEN_BIT;
        let f: u64 = m % HIDDEN_BIT;
        (f + HIDDEN_BIT, (e - 1) as u32)
    }
}

} // verus!
