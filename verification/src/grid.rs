//! Multiples of powers of two.

use vstd::prelude::*;
use vstd::arithmetic::power2::{pow2, lemma_pow2_pos, lemma_pow2_adds, lemma_pow2_strictly_increases};
use vstd::arithmetic::div_mod::{lemma_fundamental_div_mod, lemma_mod_multiples_basic};

verus! {

/// `n` is a multiple of 2^g.
pub open spec fn on_grid(n: int, g: nat) -> bool {
    n % (pow2(g) as int) == 0
}

/// The size of an integer, without its sign.
pub open spec fn size(n: int) -> nat {
    if n < 0 {
        (-n) as nat
    } else {
        n as nat
    }
}

/// Powers of two grow with the exponent.
pub proof fn lemma_pow2_monotone(a: nat, b: nat)
    requires
        a <= b,
    ensures
        pow2(a) <= pow2(b),
{
    if a < b {
        lemma_pow2_strictly_increases(a, b);
    }
}

/// The smaller power of two has the smaller exponent.
pub proof fn lemma_pow2_order(a: nat, b: nat)
    requires
        pow2(a) < pow2(b),
    ensures
        a < b,
{
    if a >= b {
        lemma_pow2_monotone(b, a);
    }
}

/// A multiple of 2^g is its quotient by 2^g, times 2^g.
pub proof fn lemma_grid_witness(n: int, g: nat)
    requires
        on_grid(n, g),
    ensures
        n == (n / (pow2(g) as int)) * pow2(g),
{
    let p = pow2(g) as int;
    lemma_pow2_pos(g);
    lemma_fundamental_div_mod(n, p);
    assert(p * (n / p) == (n / p) * p) by (nonlinear_arith);
}

/// Every product with 2^g is a multiple of 2^g.
pub proof fn lemma_grid_multiple(c: int, g: nat)
    ensures
        on_grid(c * pow2(g), g),
{
    lemma_pow2_pos(g);
    lemma_mod_multiples_basic(c, pow2(g) as int);
}

/// Sums, differences and negatives of multiples of 2^g are multiples of
/// 2^g.
pub proof fn lemma_grid_combine(a: int, b: int, g: nat)
    requires
        on_grid(a, g),
        on_grid(b, g),
    ensures
        on_grid(a + b, g),
        on_grid(a - b, g),
        on_grid(-a, g),
{
    let p = pow2(g) as int;
    let qa = a / p;
    let qb = b / p;
    lemma_grid_witness(a, g);
    lemma_grid_witness(b, g);
    assert(a + b == (qa + qb) * p && a - b == (qa - qb) * p && -a == (-qa) * p) by (nonlinear_arith)
        requires
            a == qa * p,
            b == qb * p,
    ;
    lemma_grid_multiple(qa + qb, g);
    lemma_grid_multiple(qa - qb, g);
    lemma_grid_multiple(-qa, g);
}

/// A multiple of 2^g is a multiple of every smaller power of two.
pub proof fn lemma_grid_coarser(n: int, g: nat, j: nat)
    requires
        on_grid(n, g),
        j <= g,
    ensures
        on_grid(n, j),
{
    let p = pow2(g) as int;
    let pj = pow2(j) as int;
    let pd = pow2((g - j) as nat) as int;
    lemma_pow2_adds(j, (g - j) as nat);
    lemma_grid_witness(n, g);
    let c = n / p;
    assert(n == (c * pd) * pj) by (nonlinear_arith)
        requires
            n == c * p,
            p == pj * pd,
    ;
    lemma_grid_multiple(c * pd, j);
}

/// Two multiples of 2^g less than 2^g apart are in order.
pub proof fn lemma_grid_step(n: int, x: int, g: nat)
    requires
        on_grid(n, g),
        on_grid(x, g),
        n < x + pow2(g),
    ensures
        n <= x,
{
    let p = pow2(g) as int;
    lemma_pow2_pos(g);
    lemma_grid_witness(n, g);
    lemma_grid_witness(x, g);
    let qn = n / p;
    let qx = x / p;
    assert(n <= x) by (nonlinear_arith)
        requires
            n == qn * p,
            x == qx * p,
            n < x + p,
            p > 0,
    ;
}

} // verus!
