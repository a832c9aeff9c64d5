//! Expansions, and why the sum of two expansions is an expansion of the
//! exact sum.

use vstd::prelude::*;
use vstd::arithmetic::power2::{pow2, lemma_pow2_pos, lemma_pow2_adds, lemma2_to64, lemma2_to64_rest};
use crate::binary64::{HIDDEN_BIT, magnitude, is_finite, is_zero, quanta, mag_quanta};
use crate::rounding::{shift_of, lemma_round_exact};
use crate::arith::{spec_plus, spec_minus};
use crate::two_sum::{spec_two_sum, spec_fast_two_sum};
use crate::expansion::{Partial, emit, absorb, finish, takes_left, merged_from, merged, partial_sum, spec_scalar_scalar, spec_robust_sum};
use crate::grid::{on_grid, size, lemma_pow2_monotone, lemma_grid_coarser};
use crate::nearest::{lemma_shift_bounds, lemma_shift_monotone, lemma_rounds_bounded};
use crate::nonoverlap::{chain, total, total_size, steps_up, lemma_chain_push, lemma_chain_take, lemma_chain_bound, lemma_total_bound, lemma_room};
use crate::exactness::{fl, fits, grid_of, lemma_fl_props, lemma_fl_nearest, lemma_finite_fits, lemma_fits_grid_props, lemma_quanta_monotone, lemma_plus_value, lemma_minus_value, lemma_two_sum_error_free, lemma_fast_two_sum_error_free};
use crate::summation::{settled, stepped_out, lemma_step_sizes, lemma_step_settled};
use crate::laws::{lemma_quanta_zero, lemma_scalar_shape};

verus! {

/// The magnitude, as a bit pattern, from which a component is too large for
/// the guarantees of this module: 2^1021.
pub const RANGE_LIMIT: u64 = 0x7fc0_0000_0000_0000;

/// The numbers that the components stand for, in units of 2^-1074.
pub open spec fn values(e: Seq<u64>) -> Seq<int> {
    Seq::new(e.len(), |i: int| quanta(e[i]))
}

/// Every component is finite.
pub open spec fn all_finite(e: Seq<u64>) -> bool {
    forall|i: int| 0 <= i < e.len() ==> is_finite(#[trigger] e[i])
}

/// Every component is smaller in magnitude than 2^1021.
pub open spec fn in_range(e: Seq<u64>) -> bool {
    forall|i: int| 0 <= i < e.len() ==> magnitude(#[trigger] e[i]) < RANGE_LIMIT
}

/// `e` is an expansion: its components are finite, none but the first is a
/// zero, and each lies below the next, so that they increase in magnitude
/// and no two of them overlap.
pub open spec fn is_expansion(e: Seq<u64>) -> bool {
    all_finite(e) && chain(values(e))
}

/// The exact value of an expansion, in units of 2^-1074.
pub open spec fn expansion_value(e: Seq<u64>) -> int {
    total(values(e))
}

/// A state of the summation that is in order, as `settled` says it of the
/// numbers that the bit patterns stand for.
pub open spec fn in_order(st: Partial, floor: nat) -> bool {
    &&& all_finite(st.out)
    &&& is_finite(st.q0)
    &&& is_finite(st.q1)
    &&& settled(values(st.out), quanta(st.q0), quanta(st.q1), floor)
}

/// What a state stands for: the components given out and the running sum.
pub open spec fn state_value(st: Partial) -> int {
    total(values(st.out)) + quanta(st.q0) + quanta(st.q1)
}

/// The values of a sequence with one more component.
pub proof fn lemma_values_push(e: Seq<u64>, x: u64)
    ensures
        values(e.push(x)) == values(e).push(quanta(x)),
        total(values(e.push(x))) == total(values(e)) + quanta(x),
{
    assert(values(e.push(x)) =~= values(e).push(quanta(x)));
    assert(values(e).push(quanta(x)).drop_last() =~= values(e));
}

/// A finite component in range has a scale of at most 2042.
pub proof fn lemma_range_scale(a: u64)
    requires
        magnitude(a) < RANGE_LIMIT,
    ensures
        is_finite(a),
        grid_of(quanta(a)) <= 2042,
{
    let m = magnitude(a) as nat;
    lemma_finite_fits(a);
    lemma_round_exact(m);
    let v = mag_quanta(m);
    if v >= 2 * HIDDEN_BIT {
        lemma_shift_bounds(v);
        let k = shift_of(v);
        lemma_pow2_pos(k);
        assert(k <= 2042) by {
            if k >= 2043 {
                assert(k * HIDDEN_BIT >= 2043 * HIDDEN_BIT) by (nonlinear_arith)
                    requires
                        k >= 2043,
                ;
            }
        }
    }
}

/// One step on bit patterns keeps the state in order and adds the term to
/// what the state stands for.
pub proof fn lemma_absorb_in_order(st: Partial, floor: nat, a: u64)
    requires
        in_order(st, floor),
        is_finite(a),
        !is_zero(a),
        on_grid(quanta(a), floor),
        floor <= grid_of(quanta(a)),
        grid_of(quanta(a)) <= 2042,
        size(quanta(st.q0) + quanta(st.q1)) < 4 * HIDDEN_BIT * pow2(grid_of(quanta(a))),
    ensures
        exists|f2: nat| f2 <= grid_of(quanta(a)) && #[trigger] in_order(absorb(st, a), f2),
        state_value(absorb(st, a)) == state_value(st) + quanta(a),
{
    let na = quanta(a);
    let n0 = quanta(st.q0);
    let n1 = quanta(st.q1);
    let x = spec_fast_two_sum(a, st.q0).1;
    let y = spec_fast_two_sum(a, st.q0).0;
    lemma_finite_fits(a);
    lemma_quanta_zero(a);
    lemma_step_sizes(n0, n1, na);
    lemma_plus_value(a, st.q0);
    lemma_fast_two_sum_error_free(a, st.q0);
    lemma_quanta_zero(y);
    lemma_plus_value(st.q1, x);
    lemma_minus_value(spec_plus(st.q1, x), st.q1);
    lemma_two_sum_error_free(st.q1, x);
    lemma_step_settled(values(st.out), n0, n1, floor, na);
    let f2 = choose|f2: nat|
        f2 <= grid_of(na) && #[trigger] settled(
            stepped_out(values(st.out), n0, na),
            n1 + fl(na + n0) - fl(n1 + fl(na + n0)),
            fl(n1 + fl(na + n0)),
            f2,
        );
    let st2 = absorb(st, a);
    lemma_values_push(st.out, y);
    assert(values(st2.out) == stepped_out(values(st.out), n0, na));
    assert(all_finite(st2.out)) by {
        assert forall|i: int| 0 <= i < st2.out.len() implies is_finite(#[trigger] st2.out[i]) by {
            if i < st.out.len() {
                assert(st2.out[i] == st.out[i]);
            }
        }
    }
    assert(in_order(st2, f2));
}

/// At the end, what the state stands for is given out as an expansion.
pub proof fn lemma_finish_expansion(st: Partial, floor: nat)
    requires
        in_order(st, floor),
    ensures
        is_expansion(finish(st)),
        expansion_value(finish(st)) == state_value(st),
        finish(st).len() >= 1,
{
    let n0 = quanta(st.q0);
    let n1 = quanta(st.q1);
    let t = n0 + n1;
    let k = grid_of(t);
    lemma_quanta_zero(st.q0);
    lemma_quanta_zero(st.q1);
    lemma_quanta_zero(0);
    lemma_fl_props(t);
    lemma_pow2_pos(k);
    lemma_pow2_pos(floor);
    let mid = emit(st.out, st.q0);
    let end = emit(mid, st.q1);
    lemma_values_push(st.out, st.q0);
    lemma_values_push(mid, st.q1);
    if n1 == 0 {
        assert(n0 == 0);
    }
    if n0 != 0 {
        lemma_chain_push(values(st.out), n0, floor);
        assert(values(mid).last() == n0);
        if n1 != 0 {
            lemma_chain_push(values(mid), n1, k);
        }
    } else if n1 != 0 {
        lemma_chain_push(values(st.out), n1, floor);
    }
    assert(all_finite(end)) by {
        assert forall|i: int| 0 <= i < end.len() implies is_finite(#[trigger] end[i]) by {
            if i < st.out.len() {
                assert(end[i] == st.out[i]);
            }
        }
    }
    if end.len() == 0 {
        let z = seq![0u64];
        assert(values(z) =~= seq![0int]);
        assert(seq![0int].drop_last() =~= Seq::<int>::empty());
        assert(total(Seq::<int>::empty()) == 0);
        assert(seq![0int].last() == 0);
        assert(total(seq![0int]) == 0);
        assert(total(values(st.out)) == 0);
    }
}

/// 2^(52+g) and 2^(53+g), written with the weight of the hidden bit.
pub proof fn lemma_scale_powers(g: nat)
    ensures
        pow2(52 + g) == HIDDEN_BIT * pow2(g),
        pow2(53 + g) == 2 * HIDDEN_BIT * pow2(g),
        pow2(g) > 0,
{
    lemma2_to64();
    lemma2_to64_rest();
    lemma_pow2_pos(g);
    lemma_pow2_adds(52, g);
    lemma_pow2_adds(53, g);
    assert(pow2(53) * pow2(g) == 2 * HIDDEN_BIT * pow2(g)) by (nonlinear_arith)
        requires
            pow2(53) == 2 * HIDDEN_BIT,
    ;
}

/// The larger of two finite numbers is a multiple of every power of two up
/// to the scale of the smaller.
pub proof fn lemma_head_ready(a: int, z: int, floor: nat)
    requires
        fits(a),
        fits(z),
        size(a) <= size(z),
        floor <= grid_of(a),
    ensures
        on_grid(z, floor),
        floor <= grid_of(z),
{
    lemma_shift_monotone(size(a), size(z));
    lemma_fits_grid_props(z);
    lemma_grid_coarser(z, grid_of(z), floor);
}

/// In a chain, a finite term is larger than the one before it.
pub proof fn lemma_step_order(low: int, high: int)
    requires
        steps_up(low, high),
        fits(high),
    ensures
        size(low) < size(high),
{
    let w = choose|w: nat| size(low) < pow2(w) && #[trigger] on_grid(high, w);
    let g = grid_of(high);
    lemma_fits_grid_props(high);
    lemma_scale_powers(g);
    lemma_room(high, w, 53 + g);
}

/// The terms of a chain before a finite term `a` are together smaller than
/// 2^(52+g), with `g` the scale of `a`.
pub proof fn lemma_part_below(s: Seq<int>, n: nat, a: int)
    requires
        chain(s),
        n < s.len(),
        a == s[n as int],
        fits(a),
        a != 0 || n == 0,
    ensures
        total_size(s.take(n as int)) < HIDDEN_BIT * pow2(grid_of(a)),
{
    let g = grid_of(a);
    lemma_scale_powers(g);
    assert(HIDDEN_BIT * pow2(g) > 0) by (nonlinear_arith)
        requires
            pow2(g) > 0,
    ;
    let t = s.take(n as int);
    if n == 0 {
        assert(total_size(t) == 0);
    } else {
        assert(steps_up(s[n - 1], s[n - 1 + 1]));
        let w = choose|w: nat| size(s[n - 1]) < pow2(w) && #[trigger] on_grid(a, w);
        lemma_chain_take(s, n as int);
        assert(t.last() == s[n - 1]);
        lemma_chain_bound(t, w);
        lemma_fits_grid_props(a);
        lemma_room(a, w, 53 + g);
        lemma_pow2_monotone(w, 52 + g);
    }
}

/// The first `n` terms of a chain, the last of them finite and at most as
/// large as the finite number `a`, are together smaller than 2^(53+g), with
/// `g` the scale of `a`.
pub proof fn lemma_part_beside(s: Seq<int>, n: nat, a: int)
    requires
        chain(s),
        n <= s.len(),
        fits(a),
        n >= 1 ==> fits(s[n - 1]) && size(s[n - 1]) <= size(a),
    ensures
        total_size(s.take(n as int)) < 2 * HIDDEN_BIT * pow2(grid_of(a)),
{
    let g = grid_of(a);
    lemma_scale_powers(g);
    let t = s.take(n as int);
    if n == 0 {
        assert(total_size(t) == 0);
        assert(2 * HIDDEN_BIT * pow2(g) > 0) by (nonlinear_arith)
            requires
                pow2(g) > 0,
        ;
    } else {
        let z = s[n - 1];
        let gz = grid_of(z);
        lemma_fits_grid_props(z);
        lemma_scale_powers(gz);
        lemma_shift_monotone(size(z), size(a));
        lemma_chain_take(s, n as int);
        assert(t.last() == z);
        lemma_chain_bound(t, 53 + gz);
        lemma_pow2_monotone(53 + gz, 53 + g);
    }
}

/// The values of the first `n + 1` components are those of the first `n`,
/// and one more.
pub proof fn lemma_values_take(e: Seq<u64>, n: nat)
    requires
        n < e.len(),
    ensures
        total(values(e).take(n as int + 1)) == total(values(e).take(n as int)) + quanta(e[n as int]),
        values(e)[n as int] == quanta(e[n as int]),
{
    let v = values(e);
    assert(v.take(n as int + 1).drop_last() =~= v.take(n as int));
}

/// Taking the term `s[n]`, with `n` terms of `s` and `m` terms of `o`
/// behind it and none of those larger than it, keeps the state in order.
/// The floor that it gives is at most the scale of the term.
pub proof fn lemma_take_term(st: Partial, floor: nat, s: Seq<u64>, n: nat, o: Seq<u64>, m: nat) -> (f2:
    nat)
    requires
        is_expansion(s),
        is_expansion(o),
        in_range(s),
        n < s.len(),
        m <= o.len(),
        n + m >= 2,
        in_order(st, floor),
        state_value(st) == total(values(s).take(n as int)) + total(values(o).take(m as int)),
        on_grid(quanta(s[n as int]), floor),
        floor <= grid_of(quanta(s[n as int])),
        m >= 1 ==> size(quanta(o[m - 1])) <= size(quanta(s[n as int])),
    ensures
        f2 <= grid_of(quanta(s[n as int])),
        in_order(absorb(st, s[n as int]), f2),
        state_value(absorb(st, s[n as int])) == total(values(s).take(n as int + 1)) + total(
            values(o).take(m as int),
        ),
{
    let a = s[n as int];
    let na = quanta(a);
    let g = grid_of(na);
    let vs = values(s);
    let vo = values(o);
    lemma_range_scale(a);
    lemma_finite_fits(a);
    lemma_quanta_zero(a);
    lemma_values_take(s, n);
    lemma_scale_powers(g);
    if n >= 1 {
        assert(steps_up(vs[n - 1], vs[n - 1 + 1]));
    }
    if m >= 1 {
        assert(is_finite(o[m - 1]));
        lemma_finite_fits(o[m - 1]);
        assert(vo[m - 1] == quanta(o[m - 1]));
        if m >= 2 {
            assert(steps_up(vo[m - 2], vo[m - 2 + 1]));
        }
    }
    assert(na != 0);
    lemma_part_below(vs, n, na);
    lemma_part_beside(vo, m, na);
    lemma_chain_bound(values(st.out), floor);
    lemma_pow2_monotone(floor, g);
    lemma_total_bound(vs.take(n as int));
    lemma_total_bound(vo.take(m as int));
    lemma_total_bound(values(st.out));
    let hp = HIDDEN_BIT * pow2(g);
    assert(pow2(g) <= hp && 2 * HIDDEN_BIT * pow2(g) == 2 * hp && 4 * HIDDEN_BIT * pow2(g) == 4 * hp)
        by (nonlinear_arith)
        requires
            pow2(g) > 0,
            hp == HIDDEN_BIT * pow2(g),
    ;
    assert(size(quanta(st.q0) + quanta(st.q1)) < 4 * hp);
    lemma_absorb_in_order(st, floor, a);
    let f2 = choose|f2: nat| f2 <= grid_of(quanta(a)) && #[trigger] in_order(absorb(st, a), f2);
    f2
}

/// The summation from the cursors `i` and `j` on, starting from the state
/// `st`: each term of the merge is taken in turn.
pub open spec fn run(e: Seq<u64>, f: Seq<u64>, i: nat, j: nat, st: Partial) -> Partial
    decreases e.len() - i + f.len() - j,
{
    if i > e.len() || j > f.len() || (i == e.len() && j == f.len()) {
        st
    } else if takes_left(e, f, i, j) {
        run(e, f, i + 1, j, absorb(st, e[i as int]))
    } else {
        run(e, f, i, j + 1, absorb(st, f[j as int]))
    }
}

/// The next term of the merge, and the cursors behind it.
pub open spec fn next_pick(e: Seq<u64>, f: Seq<u64>, i: nat, j: nat) -> (u64, nat, nat) {
    if takes_left(e, f, i, j) {
        (e[i as int], i + 1, j)
    } else {
        (f[j as int], i, j + 1)
    }
}

/// A term in front of a sequence is a term behind what precedes it.
pub proof fn lemma_concat_push(p: Seq<u64>, a: u64, rest: Seq<u64>)
    ensures
        p + (seq![a] + rest) == p.push(a) + rest,
        p.push(a).drop_last() == p,
        p.push(a).last() == a,
{
    assert(p + (seq![a] + rest) =~= p.push(a) + rest);
    assert(p.push(a).drop_last() =~= p);
}

/// Summing the terms `p` and then the rest of the merge is running the
/// summation from the state after `p`.
pub proof fn lemma_run_is_fold(e: Seq<u64>, f: Seq<u64>, i: nat, j: nat, p: Seq<u64>)
    requires
        p.len() >= 2,
        i <= e.len(),
        j <= f.len(),
    ensures
        partial_sum(p + merged_from(e, f, i, j)) == run(e, f, i, j, partial_sum(p)),
    decreases e.len() - i + f.len() - j,
{
    if i == e.len() && j == f.len() {
        assert(merged_from(e, f, i, j) == Seq::<u64>::empty());
        assert(p + Seq::<u64>::empty() =~= p);
    } else {
        let (a, i2, j2) = next_pick(e, f, i, j);
        let rest = merged_from(e, f, i2, j2);
        let p2 = p.push(a);
        assert(merged_from(e, f, i, j) == seq![a] + rest);
        lemma_concat_push(p, a, rest);
        assert(partial_sum(p2) == absorb(partial_sum(p), a));
        assert(run(e, f, i, j, partial_sum(p)) == run(e, f, i2, j2, absorb(partial_sum(p), a)));
        lemma_run_is_fold(e, f, i2, j2, p2);
    }
}

/// The merge has taken its terms in order: the last term taken from either
/// operand is at most as large as the next term of the other.
pub open spec fn merge_ordered(e: Seq<u64>, f: Seq<u64>, i: nat, j: nat) -> bool {
    &&& i >= 1 && j < f.len() ==> size(quanta(e[i - 1])) <= size(quanta(f[j as int]))
    &&& j >= 1 && i < e.len() ==> size(quanta(f[j - 1])) <= size(quanta(e[i as int]))
}

/// Both next terms are multiples of 2^floor, and not smaller in scale.
pub open spec fn heads_ready(e: Seq<u64>, f: Seq<u64>, i: nat, j: nat, floor: nat) -> bool {
    &&& i < e.len() ==> on_grid(quanta(e[i as int]), floor) && floor <= grid_of(quanta(e[i as int]))
    &&& j < f.len() ==> on_grid(quanta(f[j as int]), floor) && floor <= grid_of(quanta(f[j as int]))
}

/// In an expansion, each component is smaller than the next.
pub proof fn lemma_expansion_order(e: Seq<u64>, i: nat)
    requires
        is_expansion(e),
        i + 1 < e.len(),
    ensures
        size(quanta(e[i as int])) < size(quanta(e[i as int + 1])),
        quanta(e[i as int + 1]) != 0,
{
    let v = values(e);
    assert(steps_up(v[i as int], v[i as int + 1]));
    assert(is_finite(e[i as int + 1]));
    lemma_finite_fits(e[i as int + 1]);
    lemma_step_order(v[i as int], v[i as int + 1]);
}

/// Where the merge takes its next term from `e`, that term is at most as
/// large as the next term of either operand, and the merge stays in order.
pub proof fn lemma_pick_left(e: Seq<u64>, f: Seq<u64>, i: nat, j: nat)
    requires
        is_expansion(e),
        is_expansion(f),
        i < e.len(),
        j <= f.len(),
        takes_left(e, f, i, j),
        merge_ordered(e, f, i, j),
    ensures
        merge_ordered(e, f, i + 1, j),
        i + 1 < e.len() ==> size(quanta(e[i as int])) <= size(quanta(e[i as int + 1])),
        j < f.len() ==> size(quanta(e[i as int])) <= size(quanta(f[j as int])),
{
    assert(is_finite(e[i as int]));
    if i + 1 < e.len() {
        lemma_expansion_order(e, i);
    }
    if j < f.len() {
        assert(is_finite(f[j as int]));
        lemma_quanta_monotone(e[i as int], f[j as int]);
    }
}

/// Where the merge takes its next term from `f`, that term is at most as
/// large as the next term of either operand, and the merge stays in order.
pub proof fn lemma_pick_right(e: Seq<u64>, f: Seq<u64>, i: nat, j: nat)
    requires
        is_expansion(e),
        is_expansion(f),
        i <= e.len(),
        j < f.len(),
        !takes_left(e, f, i, j),
        merge_ordered(e, f, i, j),
    ensures
        merge_ordered(e, f, i, j + 1),
        j + 1 < f.len() ==> size(quanta(f[j as int])) <= size(quanta(f[j as int + 1])),
        i < e.len() ==> size(quanta(f[j as int])) <= size(quanta(e[i as int])),
{
    assert(is_finite(f[j as int]));
    if j + 1 < f.len() {
        lemma_expansion_order(f, j);
    }
    if i < e.len() {
        assert(is_finite(e[i as int]));
        lemma_quanta_monotone(f[j as int], e[i as int]);
    }
}

/// The heads that are ready for the floor `floor` are ready for a floor
/// `f2` that is at most the scale of a finite term `a` which neither of
/// them is smaller than.
pub proof fn lemma_heads_after(e: Seq<u64>, f: Seq<u64>, i: nat, j: nat, a: u64, f2: nat)
    requires
        all_finite(e),
        all_finite(f),
        is_finite(a),
        f2 <= grid_of(quanta(a)),
        i < e.len() ==> size(quanta(a)) <= size(quanta(e[i as int])),
        j < f.len() ==> size(quanta(a)) <= size(quanta(f[j as int])),
    ensures
        heads_ready(e, f, i, j, f2),
{
    lemma_finite_fits(a);
    if i < e.len() {
        assert(is_finite(e[i as int]));
        lemma_finite_fits(e[i as int]);
        lemma_head_ready(quanta(a), quanta(e[i as int]), f2);
    }
    if j < f.len() {
        assert(is_finite(f[j as int]));
        lemma_finite_fits(f[j as int]);
        lemma_head_ready(quanta(a), quanta(f[j as int]), f2);
    }
}

/// From a state in order that stands for the terms taken so far, the
/// summation ends on an expansion of the exact sum of both operands.
pub proof fn lemma_run_expansion(e: Seq<u64>, f: Seq<u64>, i: nat, j: nat, st: Partial, floor: nat)
    requires
        is_expansion(e),
        is_expansion(f),
        in_range(e),
        in_range(f),
        i <= e.len(),
        j <= f.len(),
        i + j >= 2,
        in_order(st, floor),
        state_value(st) == total(values(e).take(i as int)) + total(values(f).take(j as int)),
        heads_ready(e, f, i, j, floor),
        merge_ordered(e, f, i, j),
    ensures
        is_expansion(finish(run(e, f, i, j, st))),
        expansion_value(finish(run(e, f, i, j, st))) == expansion_value(e) + expansion_value(f),
    decreases e.len() - i + f.len() - j,
{
    if i == e.len() && j == f.len() {
        lemma_finish_expansion(st, floor);
        assert(values(e).take(i as int) =~= values(e));
        assert(values(f).take(j as int) =~= values(f));
    } else if takes_left(e, f, i, j) {
        let a = e[i as int];
        assert(is_finite(a));
        lemma_pick_left(e, f, i, j);
        let f2 = lemma_take_term(st, floor, e, i, f, j);
        lemma_heads_after(e, f, i + 1, j, a, f2);
        lemma_run_expansion(e, f, i + 1, j, absorb(st, a), f2);
    } else {
        let a = f[j as int];
        assert(is_finite(a));
        lemma_pick_right(e, f, i, j);
        let f2 = lemma_take_term(st, floor, f, j, e, i);
        lemma_heads_after(e, f, i, j + 1, a, f2);
        lemma_run_expansion(e, f, i, j + 1, absorb(st, a), f2);
    }
}

/// What holds of the next term of the merge, whichever operand it comes
/// from.
pub proof fn lemma_next_pick(e: Seq<u64>, f: Seq<u64>, i: nat, j: nat)
    requires
        is_expansion(e),
        is_expansion(f),
        i <= e.len(),
        j <= f.len(),
        i < e.len() || j < f.len(),
        merge_ordered(e, f, i, j),
    ensures
        ({
            let (a, i2, j2) = next_pick(e, f, i, j);
            &&& i2 <= e.len()
            &&& j2 <= f.len()
            &&& i2 + j2 == i + j + 1
            &&& is_finite(a)
            &&& merged_from(e, f, i, j) == seq![a] + merged_from(e, f, i2, j2)
            &&& merge_ordered(e, f, i2, j2)
            &&& i2 < e.len() ==> size(quanta(a)) <= size(quanta(e[i2 as int]))
            &&& j2 < f.len() ==> size(quanta(a)) <= size(quanta(f[j2 as int]))
            &&& total(values(e).take(i2 as int)) + total(values(f).take(j2 as int)) == total(
                values(e).take(i as int),
            ) + total(values(f).take(j as int)) + quanta(a)
            &&& in_range(e) && in_range(f) ==> magnitude(a) < RANGE_LIMIT
        }),
{
    if takes_left(e, f, i, j) {
        assert(is_finite(e[i as int]));
        lemma_pick_left(e, f, i, j);
        lemma_values_take(e, i);
    } else {
        assert(is_finite(f[j as int]));
        lemma_pick_right(e, f, i, j);
        lemma_values_take(f, j);
    }
}

/// Two numbers in range add up without overflow, and so does the rounded
/// sum less the first of them.
pub proof fn lemma_range_sum(a: u64, b: u64)
    requires
        magnitude(a) < RANGE_LIMIT,
        magnitude(b) < RANGE_LIMIT,
    ensures
        is_finite(a),
        is_finite(b),
        is_finite(spec_plus(a, b)),
        is_finite(spec_minus(spec_plus(a, b), a)),
{
    let na = quanta(a);
    let nb = quanta(b);
    lemma_range_scale(a);
    lemma_range_scale(b);
    lemma_finite_fits(a);
    lemma_finite_fits(b);
    lemma_fits_grid_props(na);
    lemma_fits_grid_props(nb);
    lemma_pow2_monotone(grid_of(na), 2042);
    lemma_pow2_monotone(grid_of(nb), 2042);
    let top = 2 * HIDDEN_BIT * pow2(2042);
    assert(size(na) < top && size(nb) < top && 4 * top == 8 * HIDDEN_BIT * pow2(2042)) by (nonlinear_arith)
        requires
            size(na) < 2 * HIDDEN_BIT * pow2(grid_of(na)),
            size(nb) < 2 * HIDDEN_BIT * pow2(grid_of(nb)),
            pow2(grid_of(na)) <= pow2(2042),
            pow2(grid_of(nb)) <= pow2(2042),
            top == 2 * HIDDEN_BIT * pow2(2042),
    ;
    lemma_rounds_bounded(size(na + nb), 2042);
    lemma_plus_value(a, b);
    lemma_fl_nearest(na + nb, na);
    lemma_rounds_bounded(size(fl(na + nb) - na), 2042);
    lemma_minus_value(spec_plus(a, b), a);
}

/// The sum of two expansions of one component each is an expansion of
/// their exact sum.
pub proof fn lemma_scalar_expansion(a: u64, b: u64)
    requires
        magnitude(a) < RANGE_LIMIT,
        magnitude(b) < RANGE_LIMIT,
    ensures
        is_expansion(spec_scalar_scalar(a, b)),
        expansion_value(spec_scalar_scalar(a, b)) == quanta(a) + quanta(b),
{
    let y = spec_two_sum(a, b).0;
    let x = spec_two_sum(a, b).1;
    let r = spec_scalar_scalar(a, b);
    lemma_range_sum(a, b);
    lemma_two_sum_error_free(a, b);
    lemma_scalar_shape(a, b);
    lemma_quanta_zero(y);
    lemma_quanta_zero(x);
    let none = Seq::<u64>::empty();
    assert(values(none) =~= Seq::<int>::empty());
    assert(total(values(none)) == 0);
    lemma_values_push(none, x);
    lemma_values_push(none, y);
    lemma_values_push(none.push(y), x);
    if is_zero(y) {
        assert(r =~= none.push(x));
        assert(chain(values(r)));
    } else {
        assert(r =~= none.push(y).push(x));
        assert(values(r)[0] == quanta(y) && values(r)[1] == quanta(x));
        assert(chain(values(r))) by {
            assert forall|i: int| 0 <= i < values(r).len() - 1 implies steps_up(
                #[trigger] values(r)[i],
                values(r)[i + 1],
            ) by {
                assert(i == 0);
            }
        }
    }
}

/// The sum of two expansions is an expansion of their exact sum: where the
/// operands are expansions, with every component smaller in magnitude than
/// 2^1021, the components of the sum are finite, none but possibly a single
/// one is a zero, each lies below the next, and together they stand for
/// exactly what the components of both operands stand for together.
pub proof fn lemma_sum_is_expansion(e: Seq<u64>, f: Seq<u64>)
    requires
        e.len() >= 1,
        f.len() >= 1,
        is_expansion(e),
        is_expansion(f),
        in_range(e),
        in_range(f),
    ensures
        is_expansion(spec_robust_sum(e, f)),
        expansion_value(spec_robust_sum(e, f)) == expansion_value(e) + expansion_value(f),
{
    let ve = values(e);
    let vf = values(f);
    if e.len() == 1 && f.len() == 1 {
        lemma_scalar_expansion(e[0], f[0]);
        assert(ve.drop_last() =~= Seq::<int>::empty());
        assert(vf.drop_last() =~= Seq::<int>::empty());
        assert(total(Seq::<int>::empty()) == 0);
    } else {
        assert(ve.take(0) =~= Seq::<int>::empty());
        assert(vf.take(0) =~= Seq::<int>::empty());
        assert(total(Seq::<int>::empty()) == 0);
        lemma_next_pick(e, f, 0, 0);
        let (b, i1, j1) = next_pick(e, f, 0, 0);
        lemma_next_pick(e, f, i1, j1);
        let (a, i2, j2) = next_pick(e, f, i1, j1);
        let p = seq![b, a];
        assert(merged(e, f) =~= p + merged_from(e, f, i2, j2));
        lemma_run_is_fold(e, f, i2, j2, p);
        let st = partial_sum(p);
        let y = spec_fast_two_sum(a, b).0;
        let x = spec_fast_two_sum(a, b).1;
        assert(st.q0 == y && st.q1 == x && st.out =~= Seq::<u64>::empty());
        lemma_range_sum(a, b);
        lemma_fast_two_sum_error_free(a, b);
        lemma_finite_fits(y);
        lemma_finite_fits(x);
        lemma_plus_value(a, b);
        lemma2_to64();
        assert(values(st.out) =~= Seq::<int>::empty());
        assert(in_order(st, 0));
        lemma_heads_after(e, f, i2, j2, a, 0);
        lemma_run_expansion(e, f, i2, j2, st, 0);
    }
}

/// Adding is commutative in value: the sums of two expansions in either
/// order are expansions of the same exact value, though their components
/// may differ.
pub proof fn lemma_sum_commutes(e: Seq<u64>, f: Seq<u64>)
    requires
        e.len() >= 1,
        f.len() >= 1,
        is_expansion(e),
        is_expansion(f),
        in_range(e),
        in_range(f),
    ensures
        is_expansion(spec_robust_sum(e, f)),
        is_expansion(spec_robust_sum(f, e)),
        expansion_value(spec_robust_sum(e, f)) == expansion_value(spec_robust_sum(f, e)),
{
    lemma_sum_is_expansion(e, f);
    lemma_sum_is_expansion(f, e);
}

/// The components of an expansion increase in magnitude.
pub proof fn lemma_expansion_increases(e: Seq<u64>, i: nat, j: nat)
    requires
        is_expansion(e),
        i < j < e.len(),
    ensures
        magnitude(e[i as int]) < magnitude(e[j as int]),
    decreases j - i,
{
    lemma_expansion_order(e, (j - 1) as nat);
    assert(is_finite(e[j - 1]) && is_finite(e[j as int]));
    if magnitude(e[j as int]) <= magnitude(e[j - 1]) {
        lemma_quanta_monotone(e[j as int], e[j - 1]);
    }
    if i < j - 1 {
        lemma_expansion_increases(e, i, (j - 1) as nat);
    }
}

} // verus!
