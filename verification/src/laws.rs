//! What holds of every sum: the shape of the result, and the sums that come
//! out exact in a single component.

use vstd::prelude::*;
use vstd::arithmetic::power2::{pow2, lemma_pow2_pos, lemma_pow2_unfold, lemma2_to64};
use crate::binary64::{SIGN_BIT, INFINITY, HIDDEN_BIT, magnitude, is_negative, is_finite, is_zero, negated, quanta};
use crate::rounding::{round_mag, shift_of, lemma_round_small, lemma_round_exact};
use crate::arith::{spec_plus, spec_minus};
use crate::two_sum::{spec_two_sum};
use crate::expansion::{partial_sum, merged, merged_from, takes_left, spec_scalar_scalar, spec_robust_sum};

verus! {

/// A magnitude other than zero rounds to a magnitude other than zero.
pub proof fn lemma_round_positive(m: nat)
    requires
        m > 0,
    ensures
        0 < round_mag(m) <= INFINITY,
{
    if m < 2 * HIDDEN_BIT {
        lemma_round_small(m);
    } else {
        let k = shift_of(m);
        assert(k >= 1);
        lemma_pow2_pos(k);
        assert(m / pow2(k) >= 0);
        assert(k * HIDDEN_BIT >= HIDDEN_BIT) by (nonlinear_arith)
            requires
                k >= 1,
        ;
    }
}

/// Among the finite numbers, the two zeros and no others stand for 0.
pub proof fn lemma_quanta_zero(x: u64)
    requires
        is_finite(x),
    ensures
        quanta(x) == 0 <==> is_zero(x),
        is_negative(x) ==> quanta(x) <= 0,
        !is_negative(x) ==> quanta(x) >= 0,
{
    let m = magnitude(x) as nat;
    let s = crate::binary64::significand(m);
    let p = pow2(crate::binary64::scale(m));
    lemma_pow2_pos(crate::binary64::scale(m));
    assert(s * p >= 0 && (s > 0 ==> s * p > 0) && (s == 0 ==> s * p == 0)) by (nonlinear_arith)
        requires
            p > 0,
            s >= 0,
    ;
}

/// Where the exact sum of two finite numbers is a binary64 number `c`, the
/// rounded sum is that number (up to the sign of a zero).
pub proof fn lemma_plus_exact(a: u64, b: u64, c: u64)
    requires
        is_finite(a),
        is_finite(b),
        is_finite(c),
        quanta(a) + quanta(b) == quanta(c),
    ensures
        is_finite(spec_plus(a, b)),
        quanta(spec_plus(a, b)) == quanta(c),
        !is_zero(c) ==> spec_plus(a, b) == c,
{
    lemma_round_exact(magnitude(c) as nat);
    lemma_quanta_zero(c);
    lemma_quanta_zero(0);
    lemma_quanta_zero(SIGN_BIT);
}

/// Where the exact difference of two finite numbers is a binary64 number
/// `c`, the rounded difference is that number (up to the sign of a zero).
pub proof fn lemma_minus_exact(a: u64, b: u64, c: u64)
    requires
        is_finite(a),
        is_finite(b),
        is_finite(c),
        quanta(a) - quanta(b) == quanta(c),
    ensures
        is_finite(spec_minus(a, b)),
        quanta(spec_minus(a, b)) == quanta(c),
        !is_zero(c) ==> spec_minus(a, b) == c,
{
    lemma_plus_exact(a, negated(b), c);
}

/// Where the exact sum of two finite numbers is a binary64 number `c`,
/// `two_sum` finds a zero error.
pub proof fn lemma_two_sum_exact(a: u64, b: u64, c: u64)
    requires
        is_finite(a),
        is_finite(b),
        is_finite(c),
        quanta(a) + quanta(b) == quanta(c),
    ensures
        is_zero(spec_two_sum(a, b).0),
        spec_two_sum(a, b).1 == spec_plus(a, b),
        is_finite(spec_plus(a, b)),
        quanta(spec_plus(a, b)) == quanta(c),
        !is_zero(c) ==> spec_plus(a, b) == c,
{
    let x = spec_plus(a, b);
    lemma_plus_exact(a, b, c);
    let bv = spec_minus(x, a);
    lemma_minus_exact(x, a, b);
    let av = spec_minus(x, bv);
    lemma_minus_exact(x, bv, a);
    let br = spec_minus(b, bv);
    lemma_quanta_zero(0);
    lemma_minus_exact(b, bv, 0);
    let ar = spec_minus(a, av);
    lemma_minus_exact(a, av, 0);
    lemma_plus_exact(ar, br, 0);
    lemma_quanta_zero(spec_plus(ar, br));
}

/// A rounded sum is a zero only where the operands are finite and cancel.
pub proof fn lemma_zero_sum(a: u64, b: u64)
    requires
        is_zero(spec_plus(a, b)),
    ensures
        is_finite(a),
        is_finite(b),
        quanta(a) + quanta(b) == 0,
{
    let n = quanta(a) + quanta(b);
    if is_finite(a) && is_finite(b) && n != 0 {
        if n < 0 {
            lemma_round_positive((-n) as nat);
        } else {
            lemma_round_positive(n as nat);
        }
    }
}

/// The sum of two single numbers has one or two components, and two only
/// where neither is a zero.
pub proof fn lemma_scalar_shape(a: u64, b: u64)
    ensures
        1 <= spec_scalar_scalar(a, b).len() <= 2,
        spec_scalar_scalar(a, b).len() == 2 ==> !is_zero(spec_scalar_scalar(a, b)[0]) && !is_zero(
            spec_scalar_scalar(a, b)[1],
        ),
{
    if is_zero(spec_plus(a, b)) {
        lemma_zero_sum(a, b);
        lemma_quanta_zero(0);
        lemma_two_sum_exact(a, b, 0);
    }
}

/// The merge hands out every term that is left, once.
pub proof fn lemma_merged_len(e: Seq<u64>, f: Seq<u64>, i: nat, j: nat)
    requires
        i <= e.len(),
        j <= f.len(),
    ensures
        merged_from(e, f, i, j).len() == e.len() - i + f.len() - j,
    decreases e.len() - i + f.len() - j,
{
    if i == e.len() && j == f.len() {
    } else if takes_left(e, f, i, j) {
        lemma_merged_len(e, f, i + 1, j);
    } else {
        lemma_merged_len(e, f, i, j + 1);
    }
}

/// A summation gives out no zero, and at most one component for each term
/// after the second.
pub proof fn lemma_partial_shape(g: Seq<u64>)
    requires
        g.len() >= 2,
    ensures
        partial_sum(g).out.len() + 2 <= g.len(),
        forall|k: int| 0 <= k < partial_sum(g).out.len() ==> !is_zero(#[trigger] partial_sum(g).out[k]),
    decreases g.len(),
{
    if g.len() > 2 {
        lemma_partial_shape(g.drop_last());
    }
}

/// A sum of two expansions has at least one component and at most as many
/// as both operands together, and where it has several, none of them is a
/// zero.
pub proof fn lemma_sum_shape(e: Seq<u64>, f: Seq<u64>)
    requires
        e.len() >= 1,
        f.len() >= 1,
    ensures
        1 <= spec_robust_sum(e, f).len() <= e.len() + f.len(),
        spec_robust_sum(e, f).len() > 1 ==> forall|k: int|
            0 <= k < spec_robust_sum(e, f).len() ==> !is_zero(#[trigger] spec_robust_sum(e, f)[k]),
{
    if e.len() == 1 && f.len() == 1 {
        lemma_scalar_shape(e[0], f[0]);
    } else {
        lemma_merged_len(e, f, 0, 0);
        lemma_partial_shape(merged(e, f));
    }
}

/// Two single numbers whose exact sum is a binary64 number other than zero
/// add up to that number alone.
pub proof fn lemma_exact_scalar_sum(a: u64, b: u64, c: u64)
    requires
        is_finite(a),
        is_finite(b),
        is_finite(c),
        !is_zero(c),
        quanta(a) + quanta(b) == quanta(c),
    ensures
        spec_robust_sum(seq![a], seq![b]) == seq![c],
{
    lemma_two_sum_exact(a, b, c);
    assert(spec_robust_sum(seq![a], seq![b]) =~= seq![c]);
}

/// The bit pattern `x` holds the integer `i`; the integer 0 is held by `+0`.
pub open spec fn holds_integer(x: u64, i: int) -> bool {
    &&& is_finite(x)
    &&& quanta(x) == i * pow2(1074)
    &&& i == 0 ==> x == 0
}

/// Integers add exactly: where `a`, `b` and `c` hold the integers `i`, `j`
/// and `i + j`, the sum of `[a]` and `[b]` is `[c]`.
pub proof fn lemma_integer_sum(a: u64, b: u64, c: u64, i: int, j: int)
    requires
        holds_integer(a, i),
        holds_integer(b, j),
        holds_integer(c, i + j),
    ensures
        spec_robust_sum(seq![a], seq![b]) == seq![c],
{
    let u = pow2(1074);
    lemma_pow2_pos(1074);
    assert(i * u + j * u == (i + j) * u) by (nonlinear_arith);
    lemma_two_sum_exact(a, b, c);
    if i + j == 0 {
        lemma_quanta_zero(a);
        lemma_quanta_zero(b);
        assert(!(is_negative(a) && is_negative(b))) by {
            if is_negative(a) && is_negative(b) {
                assert(i * u <= 0 && j * u <= 0);
                assert(i == 0 && j == 0) by (nonlinear_arith)
                    requires
                        i * u <= 0,
                        j * u <= 0,
                        i + j == 0,
                        u > 0,
                ;
            }
        }
        assert((i + j) * u == 0) by (nonlinear_arith)
            requires
                i + j == 0,
        ;
        assert(spec_plus(a, b) == 0);
    } else {
        lemma_quanta_zero(c);
        assert((i + j) * u != 0) by (nonlinear_arith)
            requires
                i + j != 0,
                u > 0,
        ;
    }
    assert(spec_robust_sum(seq![a], seq![b]) =~= seq![c]);
}

/// Zero is neutral: `+0` added to a finite number other than zero, on
/// either side, gives that number alone, and added to itself gives `+0`.
pub proof fn lemma_zero_identity(x: u64)
    requires
        is_finite(x),
        !is_zero(x),
    ensures
        spec_robust_sum(seq![0u64], seq![x]) == seq![x],
        spec_robust_sum(seq![x], seq![0u64]) == seq![x],
        spec_robust_sum(seq![0u64], seq![0u64]) == seq![0u64],
{
    lemma_quanta_zero(0);
    lemma_exact_scalar_sum(0, x, x);
    lemma_exact_scalar_sum(x, 0, x);
    lemma_two_sum_exact(0, 0, 0);
    assert(spec_robust_sum(seq![0u64], seq![0u64]) =~= seq![0u64]);
}

/// A normal power of two, which has the exponent field `e` and no fraction
/// bit, added to itself gives the next power of two alone.
pub proof fn lemma_power_of_two_doubles(e: nat)
    requires
        1 <= e <= 2045,
    ensures
        spec_robust_sum(seq![(e * HIDDEN_BIT) as u64], seq![(e * HIDDEN_BIT) as u64]) == seq![
            ((e + 1) * HIDDEN_BIT) as u64,
        ],
{
    let a = (e * HIDDEN_BIT) as u64;
    let c = ((e + 1) * HIDDEN_BIT) as u64;
    assert(e * HIDDEN_BIT <= 2045 * HIDDEN_BIT && e * HIDDEN_BIT >= HIDDEN_BIT && (e + 1) * HIDDEN_BIT
        == e * HIDDEN_BIT + HIDDEN_BIT) by (nonlinear_arith)
        requires
            1 <= e <= 2045,
    ;
    lemma_pow2_unfold(e);
    let p = pow2((e - 1) as nat);
    assert(HIDDEN_BIT * (2 * p) == HIDDEN_BIT * p + HIDDEN_BIT * p) by (nonlinear_arith);
    assert(quanta(a) == HIDDEN_BIT * p);
    assert(quanta(c) == HIDDEN_BIT * pow2(e));
    lemma_exact_scalar_sum(a, a, c);
}

/// A positive subnormal number, a power of two or not, added to itself
/// gives its double alone.
pub proof fn lemma_subnormal_doubles(m: u64)
    requires
        0 < m < HIDDEN_BIT,
    ensures
        spec_robust_sum(seq![m], seq![m]) == seq![(2 * m) as u64],
{
    lemma2_to64();
    let c = (2 * m) as u64;
    assert(m * 1 == m) by (nonlinear_arith);
    assert(c * 1 == c) by (nonlinear_arith);
    lemma_exact_scalar_sum(m, m, c);
}

} // verus!
