//! The sum of two expansions.

use vstd::prelude::*;
use crate::binary64::{magnitude, quanta, is_zero, spec_abs_lt, abs_lt, is_nonzero};
use crate::two_sum::{spec_two_sum, spec_fast_two_sum, two_sum, fast_two_sum};
use crate::laws::{lemma_scalar_shape, lemma_sum_shape};
use crate::closure::{RANGE_LIMIT, is_expansion, in_range, expansion_value, lemma_sum_is_expansion, lemma_scalar_expansion};

verus! {

/// Why a sum was refused.
#[derive(Clone, Copy, Debug, PartialEq, Eq)]
pub enum SumError {
    /// One of the operands has no component.
    EmptyExpansion,
}

/// The merge takes its next term from `e`, at `i`, rather than from `f`, at
/// `j`: where `f` is used up, or where the term of `e` is strictly smaller
/// in magnitude. A tie goes to `f`.
pub open spec fn takes_left(e: Seq<u64>, f: Seq<u64>, i: nat, j: nat) -> bool {
    j >= f.len() || (i < e.len() && spec_abs_lt(e[i as int], f[j as int]))
}

/// The terms of `e` from `i` on and of `f` from `j` on, in the order in
/// which the merge takes them.
pub open spec fn merged_from(e: Seq<u64>, f: Seq<u64>, i: nat, j: nat) -> Seq<u64>
    decreases e.len() - i + f.len() - j,
{
    if i > e.len() || j > f.len() || (i == e.len() && j == f.len()) {
        Seq::empty()
    } else if takes_left(e, f, i, j) {
        seq![e[i as int]] + merged_from(e, f, i + 1, j)
    } else {
        seq![f[j as int]] + merged_from(e, f, i, j + 1)
    }
}

/// All terms of `e` and `f`, merged by magnitude.
pub open spec fn merged(e: Seq<u64>, f: Seq<u64>) -> Seq<u64> {
    merged_from(e, f, 0, 0)
}

/// The state of a summation: the components given out so far, and the
/// running sum as a low word `q0` and a high word `q1`.
pub ghost struct Partial {
    pub out: Seq<u64>,
    pub q0: u64,
    pub q1: u64,
}

/// `out` with `y` behind it, unless `y` is a zero.
pub open spec fn emit(out: Seq<u64>, y: u64) -> Seq<u64> {
    if is_zero(y) {
        out
    } else {
        out.push(y)
    }
}

/// The state after one more term `a`: `a` meets the low word, the error of
/// that is given out, and the sum meets the high word.
pub open spec fn absorb(s: Partial, a: u64) -> Partial {
    let (y, x) = spec_fast_two_sum(a, s.q0);
    let (q0, q1) = spec_two_sum(s.q1, x);
    Partial { out: emit(s.out, y), q0, q1 }
}

/// The state after all terms of `g`, which has two terms at least.
pub open spec fn partial_sum(g: Seq<u64>) -> Partial
    decreases g.len(),
{
    if g.len() <= 2 {
        let (y, x) = spec_fast_two_sum(g[1], g[0]);
        Partial { out: Seq::empty(), q0: y, q1: x }
    } else {
        absorb(partial_sum(g.drop_last()), g.last())
    }
}

/// The expansion that a final state stands for: what was given out, then
/// the two words, zeros left out; a single `+0` where nothing is left.
pub open spec fn finish(s: Partial) -> Seq<u64> {
    let out = emit(emit(s.out, s.q0), s.q1);
    if out.len() == 0 {
        seq![0u64]
    } else {
        out
    }
}

/// The sum of two single numbers: the rounded sum, with the rounding error
/// in front of it unless that is zero.
pub open spec fn spec_scalar_scalar(a: u64, b: u64) -> Seq<u64> {
    let (y, x) = spec_two_sum(a, b);
    if is_zero(y) {
        seq![x]
    } else {
        seq![y, x]
    }
}

/// The sum of the expansions `e` and `f`, neither of them empty.
pub open spec fn spec_robust_sum(e: Seq<u64>, f: Seq<u64>) -> Seq<u64> {
    if e.len() == 1 && f.len() == 1 {
        spec_scalar_scalar(e[0], f[0])
    } else {
        finish(partial_sum(merged(e, f)))
    }
}

/// Adds two single numbers. Where both are smaller in magnitude than
/// 2^1021, the result is an expansion that stands for their sum exactly.
pub fn scalar_scalar(a: u64, b: u64) -> (g: Vec<u64>)
    ensures
        g@ == spec_scalar_scalar(a, b),
        1 <= g.len() <= 2,
        g.len() == 2 ==> !is_zero(g[0]) && !is_zero(g[1]),
        magnitude(a) < RANGE_LIMIT && magnitude(b) < RANGE_LIMIT ==> is_expansion(g@) && expansion_value(
            g@,
        ) == quanta(a) + quanta(b),
{
    proof {
        lemma_scalar_shape(a, b);
        if magnitude(a) < RANGE_LIMIT && magnitude(b) < RANGE_LIMIT {
            lemma_scalar_expansion(a, b);
        }
    }
    let (y, x) = two_sum(a, b);
    let mut g: Vec<u64> = Vec::new();
    if is_nonzero(y) {
        g.push(y);
    }
    g.push(x);
    assert(g@ =~= spec_scalar_scalar(a, b));
    g
}

/// Takes the next term of the merge: the term, and the two cursors behind
/// it.
fn next_term(e: &[u64], f: &[u64], i: usize, j: usize) -> (r: (u64, usize, usize))
    requires
        i <= e.len(),
        j <= f.len(),
        i < e.len() || j < f.len(),
    ensures
        r.1 <= e.len(),
        r.2 <= f.len(),
        r.1 + r.2 == i + j + 1,
        merged_from(e@, f@, i as nat, j as nat) == seq![r.0] + merged_from(
            e@,
            f@,
            r.1 as nat,
            r.2 as nat,
        ),
{
    if j >= f.len() || (i < e.len() && abs_lt(e[i], f[j])) {
        (e[i], i + 1, j)
    } else {
        (f[j], i, j + 1)
    }
}

/// Takes one more term `a` into the running sum `(q0, q1)`: `a` meets the low
/// word, what that addition loses is given out unless it is a zero, and the
/// sum meets the high word. Returns the new running sum.
fn absorb_term(out: &mut Vec<u64>, q0: u64, q1: u64, a: u64) -> (r: (u64, u64))
    ensures
        (Partial { out: final(out)@, q0: r.0, q1: r.1 }) == absorb(
            (Partial { out: old(out)@, q0, q1 }),
            a,
        ),
{
    let (y, x) = fast_two_sum(a, q0);
    if is_nonzero(y) {
        out.push(y);
    }
    let r = two_sum(q1, x);
    assert(out@ =~= emit(old(out)@, y));
    r
}

/// Adds two expansions by one merge of their terms: the terms of both are
/// taken by increasing magnitude, each is added to the low word of a running
/// sum of two words, and what that addition loses is given out.
pub fn linear_expansion(e: &[u64], f: &[u64]) -> (g: Vec<u64>)
    requires
        e.len() >= 1,
        f.len() >= 1,
    ensures
        g@ == spec_robust_sum(e@, f@),
        1 <= g.len() <= e.len() + f.len(),
        g.len() > 1 ==> forall|k: int| 0 <= k < g.len() ==> !is_zero(#[trigger] g[k]),
        is_expansion(e@) && is_expansion(f@) && in_range(e@) && in_range(f@) ==> is_expansion(g@)
            && expansion_value(g@) == expansion_value(e@) + expansion_value(f@),
{
    proof {
        lemma_sum_shape(e@, f@);
        if is_expansion(e@) && is_expansion(f@) && in_range(e@) && in_range(f@) {
            lemma_sum_is_expansion(e@, f@);
        }
    }
    let ne = e.len();
    let nf = f.len();
    if ne == 1 && nf == 1 {
        return scalar_scalar(e[0], f[0]);
    }
    let (b, i, j) = next_term(e, f, 0, 0);
    let (a, i, j) = next_term(e, f, i, j);
    let (q0, q1) = fast_two_sum(a, b);
    let mut i = i;
    let mut j = j;
    let mut q0 = q0;
    let mut q1 = q1;
    // No sum has more components than both operands together.
    let mut out: Vec<u64> = if nf <= usize::MAX - ne {
        Vec::with_capacity(ne + nf)
    } else {
        Vec::new()
    };
    let ghost mut seen: Seq<u64> = seq![b, a];
    proof {
        assert(merged(e@, f@) =~= seen + merged_from(e@, f@, i as nat, j as nat));
    }
    while i < ne || j < nf
        invariant
            ne == e.len(),
            nf == f.len(),
            i <= ne,
            j <= nf,
            seen.len() == i + j,
            seen.len() >= 2,
            merged(e@, f@) == seen + merged_from(e@, f@, i as nat, j as nat),
            partial_sum(seen) == (Partial { out: out@, q0, q1 }),
        decreases ne - i + nf - j,
    {
        let (a, i2, j2) = next_term(e, f, i, j);
        let (n0, n1) = absorb_term(&mut out, q0, q1, a);
        proof {
            let longer = seen.push(a);
            assert(longer.drop_last() =~= seen);
            assert(merged(e@, f@) =~= longer + merged_from(e@, f@, i2 as nat, j2 as nat));
            seen = longer;
        }
        q0 = n0;
        q1 = n1;
        i = i2;
        j = j2;
    }
    proof {
        assert(seen =~= merged(e@, f@));
    }
    let ghost state = Partial { out: out@, q0, q1 };
    if is_nonzero(q0) {
        out.push(q0);
    }
    if is_nonzero(q1) {
        out.push(q1);
    }
    if out.len() == 0 {
        out.push(0);
    }
    assert(out@ =~= finish(state));
    out
}

/// Adds two expansions.
///
/// The result is what the merge of both operands sums up to, whatever the
/// operands hold. Where both are expansions, with every component smaller in
/// magnitude than 2^1021, the result is an expansion that stands for their
/// sum exactly. Infinities and NaN are not refused: they go through the
/// additions as IEEE 754 has it (every NaN that comes out is the quiet NaN
/// `0x7ff8_0000_0000_0000`), and what comes out is then no expansion.
pub fn robust_sum(e: &[u64], f: &[u64]) -> (g: Vec<u64>)
    requires
        e.len() >= 1,
        f.len() >= 1,
    ensures
        g@ == spec_robust_sum(e@, f@),
        1 <= g.len() <= e.len() + f.len(),
        g.len() > 1 ==> forall|k: int| 0 <= k < g.len() ==> !is_zero(#[trigger] g[k]),
        is_expansion(e@) && is_expansion(f@) && in_range(e@) && in_range(f@) ==> is_expansion(g@)
            && expansion_value(g@) == expansion_value(e@) + expansion_value(f@),
{
    linear_expansion(e, f)
}

/// Adds two expansions, or says that one of them is empty.
pub fn try_robust_sum(e: &[u64], f: &[u64]) -> (r: Result<Vec<u64>, SumError>)
    ensures
        (e.len() == 0 || f.len() == 0) <==> r == Err::<Vec<u64>, SumError>(SumError::EmptyExpansion),
        e.len() >= 1 && f.len() >= 1 <==> r is Ok,
        r is Ok ==> r->Ok_0@ == spec_robust_sum(e@, f@),
        r is Ok ==> 1 <= r->Ok_0.len() <= e.len() + f.len(),
        r is Ok && r->Ok_0.len() > 1 ==> forall|k: int|
            0 <= k < r->Ok_0.len() ==> !is_zero(#[trigger] r->Ok_0[k]),
        r is Ok && is_expansion(e@) && is_expansion(f@) && in_range(e@) && in_range(f@) ==> is_expansion(
            r->Ok_0@,
        ) && expansion_value(r->Ok_0@) == expansion_value(e@) + expansion_value(f@),
{
    if e.len() == 0 || f.len() == 0 {
        Err(SumError::EmptyExpansion)
    } else {
        Ok(robust_sum(e, f))
    }
}

} // verus!
