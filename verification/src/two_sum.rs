//! Error-free transformations: a rounded sum together with its rounding
//! error.

use vstd::prelude::*;
use crate::binary64::{is_finite, magnitude, quanta};
use crate::arith::{spec_plus, spec_minus, plus, minus};
use crate::nonoverlap::lies_below;
use crate::exactness::{lemma_two_sum_error_free, lemma_fast_two_sum_error_free};

verus! {

/// What `two_sum` computes, as `(error, sum)`: six rounded operations that
/// need no comparison of the operands.
pub open spec fn spec_two_sum(a: u64, b: u64) -> (u64, u64) {
    let x = spec_plus(a, b);
    let bv = spec_minus(x, a);
    let av = spec_minus(x, bv);
    let br = spec_minus(b, bv);
    let ar = spec_minus(a, av);
    (spec_plus(ar, br), x)
}

/// What `fast_two_sum` computes, as `(error, sum)`: three rounded
/// operations, meant for `|a| >= |b|`.
pub open spec fn spec_fast_two_sum(a: u64, b: u64) -> (u64, u64) {
    let x = spec_plus(a, b);
    let bv = spec_minus(x, a);
    (spec_minus(b, bv), x)
}

/// The rounded sum of `a` and `b` and the error of that rounding, whatever
/// the magnitudes of `a` and `b`. Unless `a + b` or `(a + b) - a` overflows,
/// error and sum together stand for the exact sum of `a` and `b`.
pub fn two_sum(a: u64, b: u64) -> (r: (u64, u64))
    ensures
        r == spec_two_sum(a, b),
        is_finite(a) && is_finite(b) && is_finite(r.1) && is_finite(spec_minus(r.1, a)) ==> is_finite(r.0)
            && quanta(r.0) + quanta(r.1) == quanta(a) + quanta(b) && lies_below(quanta(r.0), quanta(r.1)),
{
    proof {
        if is_finite(a) && is_finite(b) && is_finite(spec_plus(a, b)) && is_finite(
            spec_minus(spec_plus(a, b), a),
        ) {
            lemma_two_sum_error_free(a, b);
        }
    }
    let x = plus(a, b);
    let bv = minus(x, a);
    let av = minus(x, bv);
    let br = minus(b, bv);
    let ar = minus(a, av);
    (plus(ar, br), x)
}

/// The rounded sum of `a` and `b` and the error of that rounding, for a
/// caller who knows that `a` is at least as large in magnitude as `b`: then,
/// unless `a + b` overflows, error and sum together stand for the exact sum
/// of `a` and `b`.
pub fn fast_two_sum(a: u64, b: u64) -> (r: (u64, u64))
    ensures
        r == spec_fast_two_sum(a, b),
        is_finite(a) && is_finite(b) && magnitude(b) <= magnitude(a) && is_finite(r.1) ==> is_finite(r.0)
            && quanta(r.0) + quanta(r.1) == quanta(a) + quanta(b) && lies_below(quanta(r.0), quanta(r.1)),
{
    proof {
        if is_finite(a) && is_finite(b) && magnitude(b) <= magnitude(a) && is_finite(spec_plus(a, b)) {
            lemma_fast_two_sum_error_free(a, b);
        }
    }
    let x = plus(a, b);
    let bv = minus(x, a);
    (minus(b, bv), x)
}

} // verus!
