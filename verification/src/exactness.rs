//! Why `two_sum` and `fast_two_sum` lose nothing: the rounding error of a
//! sum of two binary64 numbers is itself a binary64 number, and the
//! operations that recover it are exact.
//!
//! The proofs work on integers, in units of 2^-1074.

use vstd::prelude::*;
use vstd::arithmetic::power2::{pow2, lemma_pow2_pos, lemma_pow2_unfold};
use crate::binary64::{HIDDEN_BIT, magnitude, is_finite, negated, quanta, mag_quanta};
use crate::rounding::{shift_of, lemma_round_small, lemma_round_exact};
use crate::arith::{spec_plus, spec_minus};
use crate::two_sum::{spec_two_sum, spec_fast_two_sum};
use crate::grid::{on_grid, size, lemma_pow2_monotone, lemma_pow2_order, lemma_grid_multiple, lemma_grid_coarser, lemma_grid_combine, lemma_grid_step};
use crate::nonoverlap::lies_below;
use crate::nearest::{overflow_bound, nearest, rounds_mag, fits_mag, lemma_small_quanta, lemma_fits_grid, lemma_fits_props, lemma_nearest_props, lemma_nearest_is_nearest, lemma_nearest_grid, lemma_shift_monotone};

verus! {

/// The finite number nearest to `n`, where rounding `n` does not overflow.
pub open spec fn fl(n: int) -> int {
    if n >= 0 {
        nearest(n as nat) as int
    } else {
        -(nearest((-n) as nat) as int)
    }
}

/// Rounding `n` does not overflow.
pub open spec fn rounds(n: int) -> bool {
    rounds_mag(size(n))
}

/// `n` is a finite binary64 number.
pub open spec fn fits(n: int) -> bool {
    fits_mag(size(n))
}

/// The scale at which `n` is rounded.
pub open spec fn grid_of(n: int) -> nat {
    shift_of(size(n))
}

/// What rounding gives: a finite number of the sign of `n`, on the grid of
/// `n`, at most half a step away.
pub proof fn lemma_fl_props(n: int)
    requires
        rounds(n),
    ensures
        fits(fl(n)),
        on_grid(fl(n), grid_of(n)),
        2 * size(n - fl(n)) <= pow2(grid_of(n)),
        n >= 0 ==> fl(n) >= 0,
        n <= 0 ==> fl(n) <= 0,
        size(n) < 2 * HIDDEN_BIT ==> fl(n) == n,
        size(n) >= 2 * HIDDEN_BIT ==> grid_of(n) >= 1 && HIDDEN_BIT * pow2(grid_of(n)) <= size(fl(n)) <= 2
            * HIDDEN_BIT * pow2(grid_of(n)) && HIDDEN_BIT * pow2(grid_of(n)) <= size(n) < 2 * HIDDEN_BIT
            * pow2(grid_of(n)),
{
    let m = size(n);
    lemma_nearest_props(m);
    lemma_grid_combine(nearest(m) as int, nearest(m) as int, shift_of(m));
    if m >= 2 * HIDDEN_BIT {
        crate::nearest::lemma_shift_bounds(m);
    }
}

/// No finite number is nearer to `n` than `fl(n)`.
pub proof fn lemma_fl_nearest(n: int, z: int)
    requires
        rounds(n),
        fits(z),
    ensures
        size(n - fl(n)) <= size(n - z),
{
    lemma_round_small(0);
    lemma_small_quanta(0);
    lemma_nearest_is_nearest(size(n), size(z));
    lemma_nearest_is_nearest(size(n), 0);
}

/// Rounding keeps a multiple of a power of two a multiple of it.
pub proof fn lemma_fl_grid(n: int, j: nat)
    requires
        rounds(n),
        on_grid(n, j),
    ensures
        on_grid(fl(n), j),
{
    lemma_grid_combine(n, n, j);
    lemma_nearest_grid(size(n), j);
    lemma_grid_combine(nearest(size(n)) as int, nearest(size(n)) as int, j);
}

/// A multiple of 2^g of size at most 2^(53+g), below the overflow bound,
/// is a finite number.
pub proof fn lemma_fits_from_grid(n: int, g: nat)
    requires
        on_grid(n, g),
        size(n) <= 2 * HIDDEN_BIT * pow2(g),
        size(n) < overflow_bound(),
    ensures
        fits(n),
{
    lemma_grid_combine(n, n, g);
    lemma_fits_grid(size(n), g);
}

/// A finite number is a multiple of the power of two of its scale, with at
/// most 53 bits above it.
pub proof fn lemma_fits_grid_props(n: int)
    requires
        fits(n),
    ensures
        on_grid(n, grid_of(n)),
        size(n) < 2 * HIDDEN_BIT * pow2(grid_of(n)),
        grid_of(n) >= 1 ==> size(n) >= HIDDEN_BIT * pow2(grid_of(n)),
        size(n) < overflow_bound(),
{
    lemma_fits_props(size(n));
    lemma_grid_combine(size(n) as int, size(n) as int, grid_of(n));
}

proof fn lemma_error_fits_ordered(a: int, b: int)
    requires
        fits(a),
        fits(b),
        size(b) <= size(a),
        rounds(a + b),
    ensures
        fits(a + b - fl(a + b)),
{
    let s = a + b;
    let x = fl(s);
    let ga = grid_of(a);
    let gb = grid_of(b);
    lemma_shift_monotone(size(b), size(a));
    lemma_fits_grid_props(a);
    lemma_fits_grid_props(b);
    lemma_grid_coarser(a, ga, gb);
    lemma_grid_combine(a, b, gb);
    lemma_fl_grid(s, gb);
    lemma_grid_combine(s, x, gb);
    lemma_fl_nearest(s, a);
    lemma_fits_from_grid(s - x, gb);
}

/// The rounding error of a sum of two finite numbers is a finite number.
pub proof fn lemma_error_fits(a: int, b: int)
    requires
        fits(a),
        fits(b),
        rounds(a + b),
    ensures
        fits(a + b - fl(a + b)),
{
    if size(b) <= size(a) {
        lemma_error_fits_ordered(a, b);
    } else {
        lemma_error_fits_ordered(b, a);
    }
}

proof fn lemma_dekker_positive(a: int, b: int)
    requires
        fits(a),
        fits(b),
        a >= 0,
        size(b) <= a,
        rounds(a + b),
    ensures
        fits(fl(a + b) - a),
{
    let s = a + b;
    let x = fl(s);
    let e = s - x;
    let u = x - a;
    lemma_fl_props(s);
    if !fits(s) {
        let k = grid_of(s);
        let p = pow2(k);
        let ga = grid_of(a);
        let gb = grid_of(b);
        let pa = pow2(ga);
        lemma_pow2_pos(k);
        lemma_pow2_pos(ga);
        lemma_shift_monotone(size(b), size(a));
        lemma_fits_grid_props(a);
        lemma_fits_grid_props(b);
        lemma_fits_grid_props(x);
        assert(size(u) < overflow_bound());
        if k >= ga {
            lemma_grid_coarser(x, k, ga);
            lemma_grid_combine(x, a, ga);
            lemma_pow2_unfold(ga + 1);
            lemma_pow2_unfold(ga + 2);
            assert(p < pow2(ga + 2)) by (nonlinear_arith)
                requires
                    HIDDEN_BIT * p <= s,
                    s <= 2 * a,
                    a < 2 * HIDDEN_BIT * pa,
                    pow2(ga + 2) == 4 * pa,
            ;
            lemma_pow2_order(k, ga + 2);
            lemma_pow2_monotone(k, ga + 1);
            lemma_grid_multiple(2 * HIDDEN_BIT - 1, ga);
            assert((2 * HIDDEN_BIT - 1) * pa + pa == 2 * HIDDEN_BIT * pa) by (nonlinear_arith);
            lemma_grid_step(a, (2 * HIDDEN_BIT - 1) * pa, ga);
            lemma_fits_from_grid(u, ga);
        } else {
            lemma_pow2_monotone(k + 1, ga);
            lemma_pow2_unfold(k + 1);
            lemma_pow2_unfold(k + 2);
            assert(s < a) by (nonlinear_arith)
                requires
                    s < 2 * HIDDEN_BIT * p,
                    a >= HIDDEN_BIT * pa,
                    pa >= 2 * p,
            ;
            if s <= size(b) {
                lemma_grid_coarser(a, ga, gb);
                lemma_grid_combine(a, b, gb);
                lemma_fits_from_grid(s, gb);
            }
            assert(a < 2 * s);
            assert(pa < pow2(k + 2)) by (nonlinear_arith)
                requires
                    a < 2 * s,
                    s < 2 * HIDDEN_BIT * p,
                    a >= HIDDEN_BIT * pa,
                    pow2(k + 2) == 4 * p,
            ;
            lemma_pow2_order(ga, k + 2);
            assert(ga == k + 1);
            lemma_grid_coarser(a, ga, k);
            lemma_grid_combine(x, a, k);
            lemma_grid_combine(u, u, k);
            lemma_grid_multiple(2 * HIDDEN_BIT, k);
            assert(x <= a) by (nonlinear_arith)
                requires
                    x <= 2 * HIDDEN_BIT * p,
                    a >= HIDDEN_BIT * pa,
                    pa == 2 * p,
            ;
            assert(a - x < 2 * HIDDEN_BIT * p + p) by (nonlinear_arith)
                requires
                    a < 2 * s,
                    s - x <= size(e),
                    2 * size(e) <= p,
                    x <= 2 * HIDDEN_BIT * p,
            ;
            lemma_grid_step(a - x, 2 * HIDDEN_BIT * p, k);
            lemma_fits_from_grid(u, k);
        }
    }
}

/// Where `a` is at least as large in size as `b`, the difference between
/// the rounded sum and `a` is a finite number.
pub proof fn lemma_dekker(a: int, b: int)
    requires
        fits(a),
        fits(b),
        size(b) <= size(a),
        rounds(a + b),
    ensures
        fits(fl(a + b) - a),
{
    if a >= 0 {
        lemma_dekker_positive(a, b);
    } else {
        lemma_dekker_positive(-a, -b);
        lemma_round_small(0);
        lemma_small_quanta(0);
        assert(fl(-a + -b) == -fl(a + b));
        assert(size(fl(a + b) - a) == size(fl(-a + -b) - (-a)));
    }
}

/// The three operations of `fast_two_sum` on integers: with `x` the rounded
/// sum of `a` and `b`, where `a` is at least as large in size as `b`, both
/// subtractions are exact and end on the rounding error of `x`.
pub proof fn lemma_fast_two_sum_int(a: int, b: int)
    requires
        fits(a),
        fits(b),
        size(b) <= size(a),
        rounds(a + b),
    ensures
        rounds(fl(a + b) - a),
        fl(fl(a + b) - a) == fl(a + b) - a,
        rounds(b - fl(fl(a + b) - a)),
        fl(b - fl(fl(a + b) - a)) == a + b - fl(a + b),
{
    lemma_dekker(a, b);
    lemma_error_fits(a, b);
}

/// The six operations of `two_sum` on integers: with `x` the rounded sum of
/// `a` and `b`, and provided that `x - a` does not overflow either, none of
/// the others overflows and the last one gives the rounding error of `x`.
pub proof fn lemma_two_sum_int(a: int, b: int)
    requires
        fits(a),
        fits(b),
        rounds(a + b),
        rounds(fl(a + b) - a),
    ensures
        ({
            let x = fl(a + b);
            let bv = fl(x - a);
            let av = fl(x - bv);
            let br = fl(b - bv);
            let ar = fl(a - av);
            &&& rounds(x - bv)
            &&& rounds(b - bv)
            &&& rounds(a - av)
            &&& rounds(ar + br)
            &&& fl(ar + br) == a + b - x
        }),
{
    let s = a + b;
    let x = fl(s);
    let e = s - x;
    let bv = fl(x - a);
    let d = bv - (x - a);
    lemma_fl_props(s);
    lemma_fl_props(x - a);
    lemma_error_fits(a, b);
    lemma_error_fits(x, -a);
    assert(size(d) == size(x + (-a) - fl(x + (-a))));
    assert(fits(d));
    if size(b) <= size(a) {
        lemma_dekker(a, b);
        assert(d == 0);
    } else {
        lemma_fl_nearest(s, b);
        assert(b + (-e) == x - a);
        lemma_dekker(b, -e);
        assert(size(b - bv) == size(fl(b + (-e)) - b));
        assert(fits(b - bv));
        if size(x) >= size(a) {
            lemma_dekker(x, -a);
            assert(size(x - bv) == size(fl(x + (-a)) - x));
        } else {
            let z = if s >= 0 {
                size(a) as int
            } else {
                -(size(a) as int)
            };
            lemma_fl_nearest(s, z);
            assert(size(s) <= size(a));
            let ga = grid_of(a);
            lemma_shift_monotone(size(a), size(b));
            lemma_fits_grid_props(a);
            lemma_fits_grid_props(b);
            lemma_grid_coarser(b, grid_of(b), ga);
            lemma_grid_combine(a, b, ga);
            lemma_fits_from_grid(s, ga);
            assert(x == s);
            assert(bv == b);
        }
        assert(fits(x - bv));
    }
    let av = fl(x - bv);
    assert(av == x - bv);
    assert(a - av == d);
    let ar = fl(a - av);
    let br = fl(b - bv);
    assert(br == e - d);
    assert(ar + br == e);
}

/// A finite bit pattern stands for a finite number.
pub proof fn lemma_finite_fits(x: u64)
    requires
        is_finite(x),
    ensures
        fits(quanta(x)),
        size(quanta(x)) == mag_quanta(magnitude(x) as nat),
{
    lemma_round_exact(magnitude(x) as nat);
}

/// The larger magnitude stands for the larger number.
pub proof fn lemma_quanta_monotone(a: u64, b: u64)
    requires
        is_finite(a),
        is_finite(b),
        magnitude(a) <= magnitude(b),
    ensures
        size(quanta(a)) <= size(quanta(b)),
{
    let ma = magnitude(a) as nat;
    let mb = magnitude(b) as nat;
    lemma_finite_fits(a);
    lemma_finite_fits(b);
    let va = mag_quanta(ma);
    let vb = mag_quanta(mb);
    if va > vb {
        // Rounding is the inverse of `mag_quanta`, and the scale grows with the
        // number: so would the magnitude.
        lemma_round_exact(ma);
        lemma_round_exact(mb);
        lemma_shift_monotone(vb, va);
        lemma_fits_props(va);
        lemma_fits_props(vb);
        let ka = shift_of(va);
        let kb = shift_of(vb);
        let pa = pow2(ka);
        let pb = pow2(kb);
        lemma_pow2_pos(ka);
        lemma_pow2_pos(kb);
        if va < 2 * HIDDEN_BIT {
            lemma_round_small(va);
            lemma_round_small(vb);
        } else if vb < 2 * HIDDEN_BIT {
            lemma_round_small(vb);
            crate::nearest::lemma_shift_bounds(va);
            assert(ka * HIDDEN_BIT >= HIDDEN_BIT) by (nonlinear_arith)
                requires
                    ka >= 1,
            ;
            assert(va / pa >= HIDDEN_BIT);
        } else {
            crate::nearest::lemma_shift_bounds(va);
            crate::nearest::lemma_shift_bounds(vb);
            let qa = va / pa;
            let qb = vb / pb;
            if ka == kb {
                assert(qa >= qb) by (nonlinear_arith)
                    requires
                        va == qa * pa + 0,
                        vb == qb * pa + 0,
                        va > vb,
                        pa > 0,
                ;
            } else {
                assert(ka * HIDDEN_BIT >= kb * HIDDEN_BIT + HIDDEN_BIT) by (nonlinear_arith)
                    requires
                        ka >= kb + 1,
                ;
            }
            assert(ka * HIDDEN_BIT + qa >= kb * HIDDEN_BIT + qb);
        }
        assert(false);
    }
}

/// The sum of two finite bit patterns is finite exactly where rounding the
/// exact sum does not overflow, and then stands for the rounded exact sum.
pub proof fn lemma_plus_value(a: u64, b: u64)
    requires
        is_finite(a),
        is_finite(b),
    ensures
        is_finite(spec_plus(a, b)) <==> rounds(quanta(a) + quanta(b)),
        is_finite(spec_plus(a, b)) ==> quanta(spec_plus(a, b)) == fl(quanta(a) + quanta(b)),
{
    lemma_round_small(0);
    lemma_small_quanta(0);
}

/// The difference of two finite bit patterns is finite exactly where
/// rounding the exact difference does not overflow, and then stands for the
/// rounded exact difference.
pub proof fn lemma_minus_value(a: u64, b: u64)
    requires
        is_finite(a),
        is_finite(b),
    ensures
        is_finite(spec_minus(a, b)) <==> rounds(quanta(a) - quanta(b)),
        is_finite(spec_minus(a, b)) ==> quanta(spec_minus(a, b)) == fl(quanta(a) - quanta(b)),
{
    lemma_plus_value(a, negated(b));
}

/// `two_sum` is free of error: where the operands, their rounded sum `x`
/// and the rounded `x - a` are finite, the two results are finite, add up to
/// the exact sum of the operands, and the error lies below the sum.
pub proof fn lemma_two_sum_error_free(a: u64, b: u64)
    requires
        is_finite(a),
        is_finite(b),
        is_finite(spec_plus(a, b)),
        is_finite(spec_minus(spec_plus(a, b), a)),
    ensures
        is_finite(spec_two_sum(a, b).0),
        quanta(spec_two_sum(a, b).0) + quanta(spec_two_sum(a, b).1) == quanta(a) + quanta(b),
        quanta(spec_two_sum(a, b).1) == fl(quanta(a) + quanta(b)),
        lies_below(quanta(spec_two_sum(a, b).0), quanta(spec_two_sum(a, b).1)),
{
    let x = spec_plus(a, b);
    let bv = spec_minus(x, a);
    let av = spec_minus(x, bv);
    let br = spec_minus(b, bv);
    let ar = spec_minus(a, av);
    let na = quanta(a);
    let nb = quanta(b);
    lemma_finite_fits(a);
    lemma_finite_fits(b);
    lemma_plus_value(a, b);
    lemma_minus_value(x, a);
    lemma_two_sum_int(na, nb);
    lemma_minus_value(x, bv);
    lemma_minus_value(b, bv);
    lemma_minus_value(a, av);
    lemma_plus_value(ar, br);
    lemma_fl_props(na + nb);
    let k = grid_of(na + nb);
    lemma_pow2_pos(k);
    assert(on_grid(quanta(x), k));
}

/// `fast_two_sum` is free of error where the first operand is at least as
/// large as the second, in magnitude or in the size of what it stands for: if the operands and their rounded sum
/// are finite, the two results are finite, add up to the exact sum of the
/// operands, and the error lies below the sum.
pub proof fn lemma_fast_two_sum_error_free(a: u64, b: u64)
    requires
        is_finite(a),
        is_finite(b),
        magnitude(b) <= magnitude(a) || size(quanta(b)) <= size(quanta(a)),
        is_finite(spec_plus(a, b)),
    ensures
        is_finite(spec_fast_two_sum(a, b).0),
        quanta(spec_fast_two_sum(a, b).0) + quanta(spec_fast_two_sum(a, b).1) == quanta(a) + quanta(b),
        quanta(spec_fast_two_sum(a, b).1) == fl(quanta(a) + quanta(b)),
        lies_below(quanta(spec_fast_two_sum(a, b).0), quanta(spec_fast_two_sum(a, b).1)),
{
    let x = spec_plus(a, b);
    let bv = spec_minus(x, a);
    let na = quanta(a);
    let nb = quanta(b);
    lemma_finite_fits(a);
    lemma_finite_fits(b);
    if magnitude(b) <= magnitude(a) {
        lemma_quanta_monotone(b, a);
    }
    lemma_plus_value(a, b);
    lemma_fast_two_sum_int(na, nb);
    lemma_minus_value(x, a);
    lemma_minus_value(b, bv);
    lemma_fl_props(na + nb);
    let k = grid_of(na + nb);
    lemma_pow2_pos(k);
    assert(on_grid(quanta(x), k));
}

} // verus!
