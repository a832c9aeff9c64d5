//! Addition and subtraction of binary64 numbers, correctly rounded.

use vstd::prelude::*;
use vstd::arithmetic::power2::{pow2, lemma_pow2_pos, lemma_pow2_unfold, lemma_pow2_adds, lemma_pow2_strictly_increases, lemma2_to64, lemma2_to64_rest};
use crate::binary64::{SIGN_BIT, INFINITY, QUIET_NAN, HIDDEN_BIT, magnitude, is_negative, is_finite, is_nan, negated, mag_quanta, quanta, abs_bits, negate, decode};
use crate::rounding::{round_mag, cap, lemma_round_decomposed, two_pow, round_pack};

verus! {

/// The bit pattern with magnitude `m` and the given sign.
pub open spec fn with_sign(negative: bool, m: nat) -> u64 {
    if negative {
        (m + SIGN_BIT) as u64
    } else {
        m as u64
    }
}

/// The binary64 number nearest to `n` units of 2^-1074. An exact zero has no
/// sign of its own: `negative_zero` says which one it gets.
pub open spec fn round_signed(n: int, negative_zero: bool) -> u64 {
    if n == 0 {
        with_sign(negative_zero, 0)
    } else if n < 0 {
        with_sign(true, round_mag((-n) as nat))
    } else {
        with_sign(false, round_mag(n as nat))
    }
}

/// The sum `a + b` of IEEE 754, rounded to nearest, ties to even.
///
/// NaN where an operand is NaN or the operands are infinities of opposite
/// signs, and then always `QUIET_NAN`; an infinite operand otherwise wins;
/// two finite operands give their exact sum, rounded. An exact zero sum is
/// `+0`, unless both operands are negative.
pub open spec fn spec_plus(a: u64, b: u64) -> u64 {
    if is_nan(a) || is_nan(b) {
        QUIET_NAN
    } else if !is_finite(a) {
        if !is_finite(b) && a != b {
            QUIET_NAN
        } else {
            a
        }
    } else if !is_finite(b) {
        b
    } else {
        round_signed(quanta(a) + quanta(b), is_negative(a) && is_negative(b))
    }
}

/// The difference `a - b` of IEEE 754: the sum of `a` and the negated `b`.
pub open spec fn spec_minus(a: u64, b: u64) -> u64 {
    spec_plus(a, negated(b))
}

/// A magnitude less than a quarter of a unit in the last place away from a
/// normal number rounds to that number.
pub proof fn lemma_round_near(q: nat, k: nat, m: nat)
    requires
        HIDDEN_BIT <= q < 2 * HIDDEN_BIT,
        4 * (m - q * pow2(k)) < pow2(k),
        4 * (q * pow2(k) - m) < pow2(k),
    ensures
        round_mag(m) == cap((k * HIDDEN_BIT + q) as nat),
{
    let p = pow2(k);
    let v = q * p;
    lemma_pow2_pos(k);
    if m >= v {
        let r = (m - v) as nat;
        lemma_round_decomposed(q, k, r);
    } else if q > HIDDEN_BIT {
        let t = v - m;
        let r = (p - t) as nat;
        assert(m == (q - 1) as nat * p + r) by (nonlinear_arith)
            requires
                v == q * p,
                m == v - t,
                r == p - t,
                q >= 1,
        ;
        lemma_round_decomposed((q - 1) as nat, k, r);
    } else {
        let t = v - m;
        assert(k >= 1) by {
            if k == 0 {
                lemma2_to64();
            }
        }
        lemma_pow2_unfold(k);
        let h = pow2((k - 1) as nat);
        let r = (h - t) as nat;
        let top = (2 * HIDDEN_BIT - 1) as nat;
        assert(m == top * h + r) by (nonlinear_arith)
            requires
                v == q * p,
                q == HIDDEN_BIT,
                p == 2 * h,
                m == v - t,
                r == h - t,
                top == 2 * HIDDEN_BIT - 1,
        ;
        lemma_round_decomposed(top, (k - 1) as nat, r);
        assert((k - 1) as nat * HIDDEN_BIT + top + 1 == k * HIDDEN_BIT + q) by (nonlinear_arith)
            requires
                k >= 1,
                q == HIDDEN_BIT,
                top == 2 * HIDDEN_BIT - 1,
        ;
    }
}

/// Adds two finite numbers, given by magnitude and sign, the first at least
/// as large in magnitude as the second.
fn plus_ordered(mh: u64, nh: bool, ml: u64, nl: bool) -> (r: u64)
    requires
        ml <= mh < INFINITY,
    ensures
        r == round_signed(
            quanta(with_sign(nh, mh as nat)) + quanta(with_sign(nl, ml as nat)),
            nh && nl,
        ),
{
    let (sh, eh) = decode(mh);
    let (sl, el) = decode(ml);
    let d: u32 = eh - el;
    let ghost vh = mag_quanta(mh as nat);
    let ghost vl = mag_quanta(ml as nat);
    let ghost pl = pow2(el as nat);
    let ghost pd = pow2(d as nat);
    proof {
        lemma2_to64();
        lemma2_to64_rest();
        lemma_pow2_pos(el as nat);
        lemma_pow2_pos(d as nat);
        lemma_pow2_adds(d as nat, el as nat);
        assert(magnitude(with_sign(nh, mh as nat)) == mh);
        assert(magnitude(with_sign(nl, ml as nat)) == ml);
        assert(vh == (sh * pd) * pl) by (nonlinear_arith)
            requires
                vh == sh * pow2(eh as nat),
                pow2(eh as nat) == pd * pl,
        ;
        if d >= 1 {
            lemma_pow2_strictly_increases(0, d as nat);
            assert(sh >= HIDDEN_BIT);
        } else {
            assert(sl <= sh);
        }
        assert(sl <= sh * pd) by (nonlinear_arith)
            requires
                pd >= 1,
                sl <= sh || (pd >= 2 && sh >= HIDDEN_BIT && sl < 2 * HIDDEN_BIT),
        ;
    }
    if d >= 60 {
        proof {
            lemma_pow2_adds(55, el as nat);
            if 55 + el < eh {
                lemma_pow2_strictly_increases((55 + el) as nat, eh as nat);
            }
            assert(4 * vl < pow2(eh as nat)) by (nonlinear_arith)
                requires
                    vl == sl * pl,
                    sl < 2 * HIDDEN_BIT,
                    pl > 0,
                    pow2((55 + el) as nat) == 0x80_0000_0000_0000 * pl,
                    pow2((55 + el) as nat) <= pow2(eh as nat),
            ;
            assert(vl < vh) by (nonlinear_arith)
                requires
                    4 * vl < pow2(eh as nat),
                    vh == sh * pow2(eh as nat),
                    sh >= 1,
            ;
            let m = if nh == nl {
                vh + vl
            } else {
                (vh - vl) as nat
            };
            lemma_round_near(sh as nat, eh as nat, m);
        }
        return if nh {
            mh + SIGN_BIT
        } else {
            mh
        };
    }
    let pw = two_pow(d);
    proof {
        lemma_pow2_strictly_increases(d as nat, 60);
        lemma_pow2_adds(30, 30);
        assert(sh * pw < 0x20_0000_0000_0000 * 0x1000_0000_0000_0000) by (nonlinear_arith)
            requires
                sh < 0x20_0000_0000_0000,
                pw < 0x1000_0000_0000_0000,
        ;
    }
    let big: u128 = (sh as u128) * pw;
    let small: u128 = sl as u128;
    let total: u128 = if nh == nl {
        big + small
    } else {
        big - small
    };
    proof {
        assert(total * pl == if nh == nl {
            (vh + vl) as int
        } else {
            vh - vl
        }) by (nonlinear_arith)
            requires
                vh == big * pl,
                vl == small * pl,
                total == if nh == nl {
                    big + small
                } else {
                    big - small
                },
        ;
        assert(total > 0 ==> total * pl > 0) by (nonlinear_arith)
            requires
                pl > 0,
        ;
    }
    if total == 0 {
        return if nh && nl {
            SIGN_BIT
        } else {
            0
        };
    }
    let m = round_pack(total, el);
    proof {
        assert(m <= INFINITY);
    }
    if nh {
        m + SIGN_BIT
    } else {
        m
    }
}

/// Adds two binary64 numbers.
pub fn plus(a: u64, b: u64) -> (r: u64)
    ensures
        r == spec_plus(a, b),
{
    let ma = abs_bits(a);
    let mb = abs_bits(b);
    if ma > INFINITY || mb > INFINITY {
        return QUIET_NAN;
    }
    if ma == INFINITY {
        if mb == INFINITY && a != b {
            return QUIET_NAN;
        }
        return a;
    }
    if mb == INFINITY {
        return b;
    }
    let na = a >= SIGN_BIT;
    let nb = b >= SIGN_BIT;
    if ma >= mb {
        plus_ordered(ma, na, mb, nb)
    } else {
        plus_ordered(mb, nb, ma, na)
    }
}

/// Subtracts `b` from `a`.
pub fn minus(a: u64, b: u64) -> (r: u64)
    ensures
        r == spec_minus(a, b),
{
    plus(a, negate(b))
}

} // verus!
