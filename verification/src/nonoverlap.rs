//! Sequences of integers in which each term lies below the next: no two
//! terms have a bit at the same place.

use vstd::prelude::*;
use vstd::arithmetic::power2::{pow2, lemma_pow2_pos, lemma_pow2_adds};
use crate::grid::{on_grid, size, lemma_pow2_order, lemma_grid_witness, lemma_grid_multiple, lemma_grid_combine, lemma_grid_step};

verus! {

/// The first of two numbers lies below the second: it is smaller than a
/// power of two of which the second is a multiple, so that no bit of the one
/// is at the place of a bit of the other.
pub open spec fn lies_below(low: int, high: int) -> bool {
    exists|j: nat| size(low) < pow2(j) && #[trigger] on_grid(high, j)
}

/// The second number is other than zero, and the first lies below it.
pub open spec fn steps_up(low: int, high: int) -> bool {
    high != 0 && lies_below(low, high)
}

/// Each term but the first is other than zero, and each term lies below the
/// next.
pub open spec fn chain(s: Seq<int>) -> bool {
    forall|i: int| 0 <= i < s.len() - 1 ==> steps_up(#[trigger] s[i], s[i + 1])
}

/// The sum of the terms.
pub open spec fn total(s: Seq<int>) -> int
    decreases s.len(),
{
    if s.len() == 0 {
        0
    } else {
        total(s.drop_last()) + s.last()
    }
}

/// The sum of the sizes of the terms.
pub open spec fn total_size(s: Seq<int>) -> nat
    decreases s.len(),
{
    if s.len() == 0 {
        0
    } else {
        total_size(s.drop_last()) + size(s.last())
    }
}

/// A sum is at most as large as the sum of the sizes.
pub proof fn lemma_total_bound(s: Seq<int>)
    ensures
        size(total(s)) <= total_size(s),
    decreases s.len(),
{
    if s.len() > 0 {
        lemma_total_bound(s.drop_last());
    }
}

/// A multiple of 2^w other than zero has at least that size, and below a
/// larger power of two it leaves room for 2^w.
pub proof fn lemma_room(z: int, w: nat, j: nat)
    requires
        z != 0,
        on_grid(z, w),
        size(z) < pow2(j),
    ensures
        pow2(w) <= size(z),
        w < j,
        pow2(w) + size(z) <= pow2(j),
{
    let p = pow2(w) as int;
    lemma_pow2_pos(w);
    lemma_grid_witness(z, w);
    let c = z / p;
    assert(p <= size(z)) by (nonlinear_arith)
        requires
            z == c * p,
            z != 0,
            p > 0,
            size(z) == if z < 0 {
                -z
            } else {
                z
            },
    ;
    lemma_pow2_order(w, j);
    lemma_pow2_adds((j - w) as nat, w);
    lemma_grid_multiple(pow2((j - w) as nat) as int, w);
    lemma_grid_combine(z, z, w);
    lemma_grid_combine(pow2(j) as int, p, w);
    lemma_grid_step(size(z) as int, pow2(j) - p, w);
}

/// A chain whose last term is smaller than 2^j has all its terms together
/// smaller than 2^j.
pub proof fn lemma_chain_bound(s: Seq<int>, j: nat)
    requires
        chain(s),
        s.len() > 0 ==> size(s.last()) < pow2(j),
    ensures
        total_size(s) < pow2(j),
    decreases s.len(),
{
    lemma_pow2_pos(j);
    if s.len() == 1 {
        assert(total_size(s.drop_last()) == 0);
    } else if s.len() > 1 {
        let t = s.drop_last();
        let z = s.last();
        assert(t.last() == s[s.len() - 2]);
        assert(steps_up(s[s.len() - 2], s[s.len() - 2 + 1]));
        let w = choose|w: nat| size(t.last()) < pow2(w) && #[trigger] on_grid(z, w);
        assert(chain(t)) by {
            assert forall|i: int| 0 <= i < t.len() - 1 implies steps_up(#[trigger] t[i], t[i + 1]) by {
                assert(t[i] == s[i] && t[i + 1] == s[i + 1]);
            }
        }
        lemma_chain_bound(t, w);
        lemma_room(z, w, j);
    }
}

/// A chain stays a chain with one more term behind it that is other than
/// zero and a multiple of a power of two above the last term.
pub proof fn lemma_chain_push(s: Seq<int>, z: int, w: nat)
    requires
        chain(s),
        s.len() > 0 ==> size(s.last()) < pow2(w),
        on_grid(z, w),
        z != 0,
    ensures
        chain(s.push(z)),
{
    let t = s.push(z);
    assert forall|i: int| 0 <= i < t.len() - 1 implies steps_up(#[trigger] t[i], t[i + 1]) by {
        if i < s.len() - 1 {
            assert(t[i] == s[i] && t[i + 1] == s[i + 1]);
            assert(steps_up(s[i], s[i + 1]));
        } else {
            assert(t[i] == s.last() && t[i + 1] == z);
            assert(on_grid(t[i + 1], w));
        }
    }
}

/// The start of a chain is a chain.
pub proof fn lemma_chain_take(s: Seq<int>, n: int)
    requires
        chain(s),
        0 <= n <= s.len(),
    ensures
        chain(s.take(n)),
{
    let t = s.take(n);
    assert forall|i: int| 0 <= i < t.len() - 1 implies steps_up(#[trigger] t[i], t[i + 1]) by {
        assert(t[i] == s[i] && t[i + 1] == s[i + 1]);
    }
}

} // verus!
