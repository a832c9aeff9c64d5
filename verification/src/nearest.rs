//! The value that rounding gives, and what makes it the nearest.

use vstd::prelude::*;
use vstd::arithmetic::power2::{pow2, lemma_pow2_pos, lemma_pow2_unfold, lemma2_to64};
use vstd::arithmetic::div_mod::lemma_div_denominator;
use crate::binary64::{HIDDEN_BIT, INFINITY, mag_quanta};
use crate::rounding::{round_mag, shift_of, tie_up, lemma_decompose, lemma_round_small};
use crate::grid::{on_grid, size, lemma_pow2_monotone, lemma_pow2_order, lemma_grid_multiple, lemma_grid_coarser};

verus! {

/// The least magnitude, in units of 2^-1074, that is beyond every finite
/// number: 2^1024.
pub open spec fn overflow_bound() -> nat {
    HIDDEN_BIT as nat * pow2(2046)
}

/// The number that `m` rounds to, where that is finite.
pub open spec fn nearest(m: nat) -> nat {
    mag_quanta(round_mag(m))
}

/// Rounding `m` does not overflow.
pub open spec fn rounds_mag(m: nat) -> bool {
    round_mag(m) < INFINITY
}

/// `m` is the magnitude of a finite binary64 number.
pub open spec fn fits_mag(m: nat) -> bool {
    rounds_mag(m) && nearest(m) == m
}

/// A magnitude of 2^53 or more splits into 53 leading bits and the rest.
pub proof fn lemma_shift_bounds(m: nat)
    requires
        m >= 2 * HIDDEN_BIT,
    ensures
        shift_of(m) >= 1,
        HIDDEN_BIT <= m / pow2(shift_of(m)) < 2 * HIDDEN_BIT,
        m == (m / pow2(shift_of(m))) * pow2(shift_of(m)) + m % pow2(shift_of(m)),
        m % pow2(shift_of(m)) < pow2(shift_of(m)),
        HIDDEN_BIT * pow2(shift_of(m)) <= m < 2 * HIDDEN_BIT * pow2(shift_of(m)),
    decreases m,
{
    let k = shift_of(m);
    let h = m / 2;
    lemma2_to64();
    if h < 2 * HIDDEN_BIT {
        assert(shift_of(h) == 0);
        assert(k == 1);
    } else {
        lemma_shift_bounds(h);
        let kh = shift_of(h);
        lemma_pow2_pos(kh);
        lemma_pow2_unfold(k);
        lemma_div_denominator(m as int, 2, pow2(kh) as int);
    }
    let p = pow2(k);
    lemma_pow2_pos(k);
    let q = m / p;
    let r = m % p;
    assert(m == q * p + r && 0 <= r < p) by (nonlinear_arith)
        requires
            q == m / p,
            r == m % p,
            p > 0,
    ;
    assert(HIDDEN_BIT * p <= m < 2 * HIDDEN_BIT * p) by (nonlinear_arith)
        requires
            m == q * p + r,
            0 <= r < p,
            HIDDEN_BIT <= q < 2 * HIDDEN_BIT,
    ;
}

/// A magnitude below 2^53 is the number that it stands for.
pub proof fn lemma_small_quanta(m: nat)
    requires
        m < 2 * HIDDEN_BIT,
    ensures
        mag_quanta(m) == m,
{
    lemma2_to64();
    assert(m * 1 == m) by (nonlinear_arith);
}

/// The number behind a magnitude written as scale `k` and significand `s`,
/// where a significand of 2^53 stands for a carry into the next scale.
pub proof fn lemma_encoded_quanta(k: nat, s: nat)
    requires
        k >= 1,
        HIDDEN_BIT <= s <= 2 * HIDDEN_BIT,
    ensures
        mag_quanta((k * HIDDEN_BIT + s) as nat) == s * pow2(k),
{
    let m: nat = (k * HIDDEN_BIT + s) as nat;
    if s < 2 * HIDDEN_BIT {
        assert(m / (HIDDEN_BIT as nat) == k + 1 && m % (HIDDEN_BIT as nat) == s - HIDDEN_BIT) by (nonlinear_arith)
            requires
                m == k * HIDDEN_BIT + s,
                HIDDEN_BIT <= s < 2 * HIDDEN_BIT,
        ;
    } else {
        assert(m / (HIDDEN_BIT as nat) == k + 2 && m % (HIDDEN_BIT as nat) == 0) by (nonlinear_arith)
            requires
                m == k * HIDDEN_BIT + s,
                s == 2 * HIDDEN_BIT,
        ;
        lemma_pow2_unfold(k + 1);
        assert(HIDDEN_BIT * (2 * pow2(k)) == (2 * HIDDEN_BIT) * pow2(k)) by (nonlinear_arith);
    }
}

/// The value of a rounding that does not overflow: the 53 leading bits,
/// one more where the rest rounds upwards, at their scale.
pub proof fn lemma_nearest_value(m: nat)
    requires
        m >= 2 * HIDDEN_BIT,
        rounds_mag(m),
    ensures
        nearest(m) == (m / pow2(shift_of(m)) + tie_up(
            m / pow2(shift_of(m)),
            m % pow2(shift_of(m)),
            pow2(shift_of(m)),
        )) * pow2(shift_of(m)),
        shift_of(m) <= 2045,
{
    let k = shift_of(m);
    let p = pow2(k);
    let q = m / p;
    let u = tie_up(q, m % p, p);
    lemma_shift_bounds(m);
    assert(k <= 2045) by {
        if k >= 2046 {
            assert(k * HIDDEN_BIT >= 2046 * HIDDEN_BIT) by (nonlinear_arith)
                requires
                    k >= 2046,
            ;
        }
    }
    lemma_encoded_quanta(k, (q + u) as nat);
}

/// A multiple of 2^g that is at most 2^(53+g), and below the overflow
/// bound, is the magnitude of a finite number.
pub proof fn lemma_fits_grid(n: nat, g: nat)
    requires
        on_grid(n as int, g),
        n <= 2 * HIDDEN_BIT * pow2(g),
        n < overflow_bound(),
    ensures
        fits_mag(n),
{
    if n < 2 * HIDDEN_BIT {
        lemma_round_small(n);
        lemma_small_quanta(n);
    } else {
        lemma_shift_bounds(n);
        let k = shift_of(n);
        let p = pow2(k);
        let q = n / p;
        let r = n % p;
        lemma_pow2_pos(k);
        lemma_pow2_unfold(g + 1);
        lemma_pow2_pos(g + 1);
        if n == 2 * HIDDEN_BIT * pow2(g) {
            assert(n == HIDDEN_BIT * pow2(g + 1) + 0) by (nonlinear_arith)
                requires
                    n == 2 * HIDDEN_BIT * pow2(g),
                    pow2(g + 1) == 2 * pow2(g),
            ;
            lemma_decompose(HIDDEN_BIT as nat, g + 1, 0);
        } else {
            assert(pow2(k) < pow2(g + 1)) by (nonlinear_arith)
                requires
                    HIDDEN_BIT * pow2(k) <= n,
                    n < 2 * HIDDEN_BIT * pow2(g),
                    pow2(g + 1) == 2 * pow2(g),
            ;
            lemma_pow2_order(k, g + 1);
            lemma_grid_coarser(n as int, g, k);
        }
        assert(r == 0);
        assert(pow2(k) < pow2(2046)) by (nonlinear_arith)
            requires
                HIDDEN_BIT * pow2(k) <= n,
                n < HIDDEN_BIT * pow2(2046),
        ;
        lemma_pow2_order(k, 2046);
        assert(k * HIDDEN_BIT <= 2045 * HIDDEN_BIT) by (nonlinear_arith)
            requires
                k <= 2045,
        ;
        assert(tie_up(q, 0, p) == 0);
        lemma_encoded_quanta(k, q);
        assert(q * p == n);
    }
}

/// The magnitude of a finite number is a multiple of the power of two of
/// its own scale, has at most 53 bits above it, and is below the overflow
/// bound.
pub proof fn lemma_fits_props(m: nat)
    requires
        fits_mag(m),
    ensures
        on_grid(m as int, shift_of(m)),
        m < 2 * HIDDEN_BIT * pow2(shift_of(m)),
        shift_of(m) >= 1 ==> m >= HIDDEN_BIT * pow2(shift_of(m)),
        shift_of(m) <= 2045,
        m < overflow_bound(),
{
    let k = shift_of(m);
    let p = pow2(k);
    lemma2_to64();
    lemma_pow2_pos(k);
    lemma_pow2_unfold(k + 1);
    if m < 2 * HIDDEN_BIT {
        assert(k == 0);
        assert(m % 1 == 0);
        assert(2 * HIDDEN_BIT * p == 2 * HIDDEN_BIT) by (nonlinear_arith)
            requires
                p == 1,
        ;
        lemma_pow2_monotone(1, 2046);
        assert(HIDDEN_BIT * pow2(2046) >= HIDDEN_BIT * 2) by (nonlinear_arith)
            requires
                pow2(2046) >= 2,
        ;
    } else {
        lemma_shift_bounds(m);
        lemma_nearest_value(m);
        lemma_pow2_monotone(k + 1, 2046);
        let q = m / p;
        let r = m % p;
        let u = tie_up(q, r, p);
        assert(u == 0 && r == 0) by (nonlinear_arith)
            requires
                (q + u) * p == q * p + r,
                0 <= r < p,
                u == 0 || u == 1,
        ;
        assert(2 * HIDDEN_BIT * p <= HIDDEN_BIT * pow2(2046)) by (nonlinear_arith)
            requires
                2 * p <= pow2(2046),
        ;
    }
}

/// What a rounding that does not overflow gives: a finite number on the
/// grid of the scale of `m`, at most half a step of that grid away.
pub proof fn lemma_nearest_props(m: nat)
    requires
        rounds_mag(m),
    ensures
        fits_mag(nearest(m)),
        on_grid(nearest(m) as int, shift_of(m)),
        2 * (m - nearest(m)) <= pow2(shift_of(m)),
        2 * (nearest(m) - m) <= pow2(shift_of(m)),
        m < 2 * HIDDEN_BIT ==> nearest(m) == m,
        m >= 2 * HIDDEN_BIT ==> HIDDEN_BIT * pow2(shift_of(m)) <= nearest(m) <= 2 * HIDDEN_BIT * pow2(
            shift_of(m),
        ),
{
    let k = shift_of(m);
    let p = pow2(k);
    lemma2_to64();
    lemma_pow2_pos(k);
    if m < 2 * HIDDEN_BIT {
        lemma_round_small(m);
        lemma_small_quanta(m);
        assert(m % 1 == 0);
    } else {
        lemma_shift_bounds(m);
        lemma_nearest_value(m);
        let q = m / p;
        let r = m % p;
        let u = tie_up(q, r, p);
        let v = nearest(m);
        lemma_grid_multiple((q + u) as int, k);
        assert(2 * (m - v) <= p && 2 * (v - m) <= p && HIDDEN_BIT * p <= v <= 2 * HIDDEN_BIT * p) by (nonlinear_arith)
            requires
                v == (q + u) * p,
                m == q * p + r,
                0 <= r < p,
                HIDDEN_BIT <= q < 2 * HIDDEN_BIT,
                (u == 1 && 2 * r >= p) || (u == 0 && 2 * r <= p),
        ;
        lemma_pow2_unfold(2046);
        if k <= 2044 {
            lemma_pow2_monotone(k, 2044);
            lemma_pow2_unfold(2045);
            assert(v < HIDDEN_BIT * pow2(2046)) by (nonlinear_arith)
                requires
                    v <= 2 * HIDDEN_BIT * p,
                    p <= pow2(2044),
                    pow2(2046) == 4 * pow2(2044),
                    p > 0,
            ;
        } else {
            assert(k * HIDDEN_BIT == 2045 * HIDDEN_BIT) by (nonlinear_arith)
                requires
                    k == 2045,
            ;
            assert(q + u < 2 * HIDDEN_BIT);
            assert(v < HIDDEN_BIT * pow2(2046)) by (nonlinear_arith)
                requires
                    v == (q + u) * p,
                    q + u < 2 * HIDDEN_BIT,
                    pow2(2046) == 2 * p,
                    p > 0,
            ;
        }
        lemma_fits_grid(v, k);
    }
}

/// No finite number is nearer to `m` than the one that `m` rounds to.
pub proof fn lemma_nearest_is_nearest(m: nat, z: nat)
    requires
        rounds_mag(m),
        fits_mag(z),
    ensures
        size(m - nearest(m)) <= size(m - z),
{
    let k = shift_of(m);
    let p = pow2(k);
    lemma_nearest_props(m);
    if m >= 2 * HIDDEN_BIT {
        lemma_shift_bounds(m);
        lemma_nearest_value(m);
        let q = m / p;
        let r = m % p;
        let u = tie_up(q, r, p);
        let v = nearest(m);
        let lo = q * p;
        assert(v == lo + u * p) by (nonlinear_arith)
            requires
                v == (q + u) * p,
                lo == q * p,
        ;
        assert(u * p == if u == 1 {
            p
        } else {
            0
        }) by (nonlinear_arith)
            requires
                u == 0 || u == 1,
        ;
        if lo < z < lo + p {
            lemma_decompose(q, k, (z - lo) as nat);
            lemma_fits_props(z);
        }
    }
}

/// Rounding keeps a multiple of a power of two a multiple of it.
pub proof fn lemma_nearest_grid(m: nat, j: nat)
    requires
        rounds_mag(m),
        on_grid(m as int, j),
    ensures
        on_grid(nearest(m) as int, j),
{
    let k = shift_of(m);
    let p = pow2(k);
    lemma_nearest_props(m);
    if m >= 2 * HIDDEN_BIT {
        if j <= k {
            lemma_grid_coarser(nearest(m) as int, k, j);
        } else {
            lemma_grid_coarser(m as int, j, k);
            lemma_shift_bounds(m);
            lemma_nearest_value(m);
            let q = m / p;
            assert((q + 0) * p == q * p) by (nonlinear_arith);
        }
    }
}

/// The larger magnitude has the larger scale.
pub proof fn lemma_shift_monotone(a: nat, b: nat)
    requires
        a <= b,
    ensures
        shift_of(a) <= shift_of(b),
    decreases b,
{
    if a >= 2 * HIDDEN_BIT {
        lemma_shift_monotone(a / 2, b / 2);
    }
}

/// A magnitude below 2^(53+g) has a scale of at most `g`.
pub proof fn lemma_shift_below(m: nat, g: nat)
    requires
        m < 2 * HIDDEN_BIT * pow2(g),
    ensures
        shift_of(m) <= g,
{
    if m >= 2 * HIDDEN_BIT {
        lemma_shift_bounds(m);
        let k = shift_of(m);
        lemma_pow2_unfold(g + 1);
        assert(pow2(k) < pow2(g + 1)) by (nonlinear_arith)
            requires
                HIDDEN_BIT * pow2(k) <= m,
                m < 2 * HIDDEN_BIT * pow2(g),
                pow2(g + 1) == 2 * pow2(g),
        ;
        lemma_pow2_order(k, g + 1);
    }
}

/// A magnitude below 2^(55+g), with `g` at most 2042, rounds without
/// overflow and is below the overflow bound.
pub proof fn lemma_rounds_bounded(m: nat, g: nat)
    requires
        m < 8 * HIDDEN_BIT * pow2(g),
        g <= 2042,
    ensures
        rounds_mag(m),
        m < overflow_bound(),
{
    lemma_pow2_monotone(g, 2042);
    lemma_pow2_unfold(2043);
    lemma_pow2_unfold(2044);
    lemma_pow2_unfold(2045);
    lemma_pow2_unfold(2046);
    lemma_pow2_pos(2042);
    assert(m < HIDDEN_BIT * pow2(2045) && HIDDEN_BIT * pow2(2045) < HIDDEN_BIT * pow2(2046)) by (nonlinear_arith)
        requires
            m < 8 * HIDDEN_BIT * pow2(g),
            pow2(g) <= pow2(2042),
            pow2(2045) == 8 * pow2(2042),
            pow2(2046) == 16 * pow2(2042),
            pow2(2042) > 0,
    ;
    if m < 2 * HIDDEN_BIT {
        lemma_round_small(m);
    } else {
        lemma_shift_bounds(m);
        let k = shift_of(m);
        assert(pow2(k) < pow2(2045)) by (nonlinear_arith)
            requires
                HIDDEN_BIT * pow2(k) <= m,
                m < HIDDEN_BIT * pow2(2045),
        ;
        lemma_pow2_order(k, 2045);
        assert(k * HIDDEN_BIT <= 2044 * HIDDEN_BIT) by (nonlinear_arith)
            requires
                k <= 2044,
        ;
    }
}

} // verus!
