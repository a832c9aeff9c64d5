//! One step of the summation, on integers: what the running sum and the
//! components given out keep from one term to the next.

use vstd::prelude::*;
use vstd::arithmetic::power2::{pow2, lemma_pow2_pos, lemma_pow2_unfold, lemma_pow2_adds, lemma2_to64, lemma2_to64_rest};
use crate::binary64::HIDDEN_BIT;
use crate::grid::{on_grid, size, lemma_pow2_monotone, lemma_pow2_order, lemma_grid_multiple, lemma_grid_coarser, lemma_grid_combine};
use crate::nearest::{lemma_shift_below, lemma_rounds_bounded};
use crate::nonoverlap::{chain, lemma_room, lemma_chain_push};
use crate::exactness::{fl, fits, rounds, grid_of, lemma_fl_props, lemma_fl_nearest, lemma_fl_grid, lemma_fits_from_grid, lemma_fits_grid_props, lemma_error_fits};

verus! {

/// A state of the summation that is in order: the components given out are
/// a chain without a zero, the last of them is smaller than 2^floor, both
/// words of the running sum are multiples of 2^floor, and the high word is
/// the rounded sum of both.
pub open spec fn settled(out: Seq<int>, q0: int, q1: int, floor: nat) -> bool {
    &&& chain(out)
    &&& forall|i: int| 0 <= i < out.len() ==> #[trigger] out[i] != 0
    &&& out.len() > 0 ==> size(out.last()) < pow2(floor)
    &&& on_grid(q0, floor)
    &&& on_grid(q1, floor)
    &&& fits(q0)
    &&& fits(q1)
    &&& rounds(q0 + q1)
    &&& q1 == fl(q0 + q1)
}

/// What a step with the term `a` gives out, if anything.
pub open spec fn stepped_out(out: Seq<int>, q0: int, a: int) -> Seq<int> {
    let y = a + q0 - fl(a + q0);
    if y != 0 {
        out.push(y)
    } else {
        out
    }
}

/// The low word of a state whose sum is below 2^(54+g), with `g` the
/// scale of the next term `a`, is at most 2^g, and so at most as large as
/// `a`.
pub proof fn lemma_low_word_small(q0: int, q1: int, a: int)
    requires
        rounds(q0 + q1),
        q1 == fl(q0 + q1),
        fits(a),
        a != 0,
        size(q0 + q1) < 4 * HIDDEN_BIT * pow2(grid_of(a)),
    ensures
        size(q0) <= pow2(grid_of(a)) <= size(a),
        pow2(grid_of(a)) + size(a) <= 2 * HIDDEN_BIT * pow2(grid_of(a)),
        2 * size(q0) <= pow2(grid_of(q0 + q1)),
        size(q1) < 4 * HIDDEN_BIT * pow2(grid_of(a)) + pow2(grid_of(a)),
{
    let g = grid_of(a);
    let pg = pow2(g);
    let t = q0 + q1;
    let k = grid_of(t);
    let pk = pow2(k);
    lemma2_to64();
    lemma2_to64_rest();
    lemma_pow2_pos(g);
    lemma_pow2_pos(k);
    lemma_fl_props(t);
    if size(t) >= 2 * HIDDEN_BIT {
        lemma_pow2_unfold(g + 1);
        lemma_pow2_unfold(g + 2);
        assert(pk < pow2(g + 2)) by (nonlinear_arith)
            requires
                HIDDEN_BIT * pk <= size(t),
                size(t) < 4 * HIDDEN_BIT * pg,
                pow2(g + 2) == 4 * pg,
        ;
        lemma_pow2_order(k, g + 2);
        lemma_pow2_monotone(k, g + 1);
    }
    assert(size(q0) <= pg);
    lemma_fits_grid_props(a);
    lemma_pow2_adds(53, g);
    assert(pow2(53 + g) == 2 * HIDDEN_BIT * pg) by (nonlinear_arith)
        requires
            pow2(53 + g) == pow2(53) * pg,
            pow2(53) == 2 * HIDDEN_BIT,
    ;
    lemma_room(a, g, 53 + g);
}

/// A rounded sum of two finite numbers, of sizes that add up to less than
/// 2^(55+g): the sum does not overflow, its error is a finite number and at
/// most as large as either operand.
pub proof fn lemma_sum_sizes(a: int, b: int, g: nat)
    requires
        fits(a),
        fits(b),
        size(a) + size(b) < 8 * HIDDEN_BIT * pow2(g),
        g <= 2042,
    ensures
        rounds(a + b),
        fits(fl(a + b)),
        fits(a + b - fl(a + b)),
        size(a + b - fl(a + b)) <= size(a),
        size(a + b - fl(a + b)) <= size(b),
{
    let s = a + b;
    lemma_rounds_bounded(size(s), g);
    lemma_fl_props(s);
    lemma_error_fits(a, b);
    lemma_fl_nearest(s, a);
    lemma_fl_nearest(s, b);
}

/// The sizes at a step: the low word is at most as large as the term, and
/// no operation of the step overflows.
pub proof fn lemma_step_sizes(q0: int, q1: int, a: int)
    requires
        fits(q0),
        fits(q1),
        rounds(q0 + q1),
        q1 == fl(q0 + q1),
        fits(a),
        a != 0,
        grid_of(a) <= 2042,
        size(q0 + q1) < 4 * HIDDEN_BIT * pow2(grid_of(a)),
    ensures
        size(q0) <= pow2(grid_of(a)) <= size(a),
        pow2(grid_of(a)) + size(a) <= 2 * HIDDEN_BIT * pow2(grid_of(a)),
        2 * size(q0) <= pow2(grid_of(q0 + q1)),
        rounds(a + q0),
        size(a + q0) < 8 * HIDDEN_BIT * pow2(grid_of(a)),
        rounds(q1 + fl(a + q0)),
        rounds(fl(q1 + fl(a + q0)) - q1),
        fits(a + q0 - fl(a + q0)),
        fits(q1 + fl(a + q0) - fl(q1 + fl(a + q0))),
        size(a + q0 - fl(a + q0)) <= size(q0),
{
    let g = grid_of(a);
    let pg = pow2(g);
    lemma_pow2_pos(g);
    lemma_low_word_small(q0, q1, a);
    let hp = HIDDEN_BIT * pg;
    assert(hp >= pg && 2 * HIDDEN_BIT * pg == 2 * hp && 4 * HIDDEN_BIT * pg == 4 * hp && 8 * HIDDEN_BIT * pg
        == 8 * hp) by (nonlinear_arith)
        requires
            pg > 0,
            hp == HIDDEN_BIT * pg,
    ;
    assert(size(a) + size(q0) <= 2 * hp);
    lemma_sum_sizes(a, q0, g);
    let x = fl(a + q0);
    assert(size(x) <= 2 * hp + pg);
    assert(size(q1) + size(x) < 8 * hp);
    lemma_sum_sizes(q1, x, g);
    let n1 = fl(q1 + x);
    let n0 = q1 + x - n1;
    assert(size(n0) <= size(x));
    assert(n1 - q1 == x - n0);
    assert(size(n1 - q1) <= 6 * hp);
    lemma_rounds_bounded(size(n1 - q1), g);
}

/// A rounded sum of two multiples of 2^f, and its error, are multiples of
/// 2^f.
pub proof fn lemma_sum_on_grid(a: int, b: int, f: nat)
    requires
        on_grid(a, f),
        on_grid(b, f),
        rounds(a + b),
    ensures
        on_grid(fl(a + b), f),
        on_grid(a + b - fl(a + b), f),
{
    lemma_grid_combine(a, b, f);
    lemma_fl_grid(a + b, f);
    lemma_grid_combine(a + b, fl(a + b), f);
}

/// Where the sum of the term `a` and a low word of at most 2^g, with `g`
/// the scale of `a`, is not exact, the sum has a scale of at most `g`.
pub proof fn lemma_inexact_scale(a: int, q0: int)
    requires
        fits(a),
        size(q0) <= pow2(grid_of(a)),
        pow2(grid_of(a)) + size(a) <= 2 * HIDDEN_BIT * pow2(grid_of(a)),
        grid_of(a) <= 2042,
        rounds(a + q0),
        fl(a + q0) != a + q0,
    ensures
        grid_of(a + q0) <= grid_of(a),
{
    let g = grid_of(a);
    let pg = pow2(g);
    let s = a + q0;
    lemma_pow2_pos(g);
    if size(s) >= 2 * HIDDEN_BIT * pg {
        lemma_grid_multiple(2 * HIDDEN_BIT, g);
        lemma_grid_multiple(-2 * HIDDEN_BIT, g);
        assert((-2 * HIDDEN_BIT) * pg == -(2 * HIDDEN_BIT * pg)) by (nonlinear_arith);
        assert(2 * HIDDEN_BIT * pg < 8 * HIDDEN_BIT * pg) by (nonlinear_arith)
            requires
                pg > 0,
        ;
        lemma_rounds_bounded(size(s), g);
        lemma_fits_from_grid(s, g);
        assert(false);
    }
    lemma_shift_below(size(s), g);
}

/// One step keeps the state in order: after the term `a`, which is a
/// multiple of 2^floor and not smaller in scale, the new state is in order
/// with a floor that is at most the scale of `a`.
pub proof fn lemma_step_settled(out: Seq<int>, q0: int, q1: int, floor: nat, a: int)
    requires
        settled(out, q0, q1, floor),
        fits(a),
        a != 0,
        on_grid(a, floor),
        floor <= grid_of(a),
        grid_of(a) <= 2042,
        size(q0 + q1) < 4 * HIDDEN_BIT * pow2(grid_of(a)),
    ensures
        exists|f2: nat|
            f2 <= grid_of(a) && #[trigger] settled(
                stepped_out(out, q0, a),
                q1 + fl(a + q0) - fl(q1 + fl(a + q0)),
                fl(q1 + fl(a + q0)),
                f2,
            ),
{
    let g = grid_of(a);
    let k = grid_of(q0 + q1);
    let s = a + q0;
    let ks = grid_of(s);
    let x = fl(s);
    let y = s - x;
    let t2 = q1 + x;
    let n1 = fl(t2);
    let n0 = t2 - n1;
    let out2 = stepped_out(out, q0, a);
    lemma_step_sizes(q0, q1, a);
    lemma_fl_props(t2);
    lemma_sum_on_grid(a, q0, floor);
    if y == 0 {
        lemma_sum_on_grid(q1, x, floor);
        assert(settled(out2, n0, n1, floor));
    } else {
        lemma_inexact_scale(a, q0);
        lemma_fl_props(q0 + q1);
        lemma_fl_props(s);
        lemma_pow2_pos(k);
        lemma_pow2_pos(ks);
        let f2 = if k <= ks {
            k
        } else {
            ks
        };
        assert(size(y) < pow2(f2));
        lemma_grid_coarser(q1, k, f2);
        lemma_grid_coarser(x, ks, f2);
        lemma_sum_on_grid(q1, x, f2);
        lemma_chain_push(out, y, floor);
        assert(out2.last() == y);
        assert forall|i: int| 0 <= i < out2.len() implies #[trigger] out2[i] != 0 by {
            if i < out.len() {
                assert(out2[i] == out[i]);
            }
        }
        assert(settled(out2, n0, n1, f2));
    }
}

} // verus!
