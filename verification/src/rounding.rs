//! Rounding an exact magnitude to the nearest binary64 number, ties to even.

use vstd::prelude::*;
use vstd::arithmetic::power2::{pow2, lemma_pow2_pos, lemma_pow2_unfold, lemma_pow2_adds, lemma_pow2_strictly_increases, lemma2_to64, lemma2_to64_rest};
use vstd::arithmetic::div_mod::lemma_fundamental_div_mod_converse;
use vstd::bits::lemma_u64_shr_is_div;
use crate::binary64::{HIDDEN_BIT, INFINITY, mag_quanta};

verus! {

/// How many low bits a magnitude loses when it is cut to 53 bits.
pub open spec fn shift_of(m: nat) -> nat
    decreases m,
{
    if m < 2 * HIDDEN_BIT {
        0
    } else {
        1 + shift_of(m / 2)
    }
}

/// 1 where the remainder `r` of a division by `p` rounds the quotient `q`
/// upwards: more than half, or half with an odd quotient.
pub open spec fn tie_up(q: nat, r: nat, p: nat) -> nat {
    if 2 * r > p || (2 * r == p && q % 2 == 1) {
        1
    } else {
        0
    }
}

/// Magnitudes from `INFINITY` on all stand for infinity.
pub open spec fn cap(m: nat) -> nat {
    if m >= INFINITY {
        INFINITY as nat
    } else {
        m
    }
}

/// The magnitude of the binary64 number nearest to `m` units of 2^-1074
/// (ties to even; infinity from 2^1024 - 2^970 on).
///
/// With `k = shift_of(m)`, the 53 leading bits `q` of `m` are the significand
/// and `k` is the scale, which the format writes as `k * 2^52 + q`. Rounding
/// upwards adds one to that number: a carry out of the significand thereby
/// reaches the exponent, and one out of the largest exponent gives infinity.
pub open spec fn round_mag(m: nat) -> nat {
    let k = shift_of(m);
    let p = pow2(k);
    cap((k * HIDDEN_BIT + m / p + tie_up(m / p, m % p, p)) as nat)
}

/// A magnitude written as 53 leading bits `q` and `k` lower bits `r` has
/// shift `k`, quotient `q` and remainder `r`.
pub proof fn lemma_decompose(q: nat, k: nat, r: nat)
    requires
        HIDDEN_BIT <= q < 2 * HIDDEN_BIT,
        r < pow2(k),
    ensures
        shift_of(q * pow2(k) + r) == k,
        (q * pow2(k) + r) / pow2(k) == q,
        (q * pow2(k) + r) % pow2(k) == r,
    decreases k,
{
    let m = q * pow2(k) + r;
    lemma_pow2_pos(k);
    lemma_fundamental_div_mod_converse(m as int, pow2(k) as int, q as int, r as int);
    if k == 0 {
        lemma2_to64();
        assert(q * 1 == q) by (nonlinear_arith);
    } else {
        lemma_pow2_unfold(k);
        let h = pow2((k - 1) as nat);
        lemma_pow2_pos((k - 1) as nat);
        assert(q * pow2(k) == 2 * (q * h)) by (nonlinear_arith)
            requires
                pow2(k) == 2 * h,
        ;
        assert(q * h >= HIDDEN_BIT) by (nonlinear_arith)
            requires
                q >= HIDDEN_BIT,
                h >= 1,
        ;
        assert(m / 2 == q * h + r / 2);
        lemma_decompose(q, (k - 1) as nat, r / 2);
    }
}

/// The rounding of a magnitude given by its 53 leading bits and the rest.
pub proof fn lemma_round_decomposed(q: nat, k: nat, r: nat)
    requires
        HIDDEN_BIT <= q < 2 * HIDDEN_BIT,
        r < pow2(k),
    ensures
        round_mag(q * pow2(k) + r) == cap((k * HIDDEN_BIT + q + tie_up(q, r, pow2(k))) as nat),
{
    lemma_decompose(q, k, r);
}

/// A magnitude below 2^53 is its own rounding.
pub proof fn lemma_round_small(m: nat)
    requires
        m < 2 * HIDDEN_BIT,
    ensures
        round_mag(m) == m,
{
    lemma2_to64();
    assert(shift_of(m) == 0);
    assert(m / 1 == m);
    assert(m % 1 == 0);
}

/// Rounding leaves a binary64 number as it is: the number that the
/// magnitude `m` stands for rounds to `m`.
pub proof fn lemma_round_exact(m: nat)
    requires
        m <= INFINITY,
    ensures
        round_mag(mag_quanta(m)) == m,
{
    lemma2_to64();
    if m < HIDDEN_BIT {
        assert(m * 1 == m) by (nonlinear_arith);
        lemma_round_small(m);
    } else {
        let q = m % (HIDDEN_BIT as nat) + HIDDEN_BIT as nat;
        let k = (m / (HIDDEN_BIT as nat) - 1) as nat;
        lemma_pow2_pos(k);
        lemma_round_decomposed(q, k, 0);
        assert(k * HIDDEN_BIT + q == m) by (nonlinear_arith)
            requires
                q == m % (HIDDEN_BIT as nat) + HIDDEN_BIT as nat,
                k == m / (HIDDEN_BIT as nat) - 1,
                m >= HIDDEN_BIT,
        ;
    }
}

proof fn lemma_shl_is_pow2(k: u32)
    requires
        k < 128,
    ensures
        (1u128 << k) == pow2(k as nat),
    decreases k,
{
    if k == 0 {
        assert(1u128 << 0u32 == 1u128) by (bit_vector);
        lemma2_to64();
    } else {
        let j: u32 = (k - 1) as u32;
        lemma_shl_is_pow2(j);
        assert((1u128 << k) == 2 * (1u128 << j)) by (bit_vector)
            requires
                0 < k < 128,
                j == k - 1,
        ;
        lemma_pow2_unfold(k as nat);
    }
}

/// The power of two with exponent `k`.
pub fn two_pow(k: u32) -> (p: u128)
    requires
        k < 128,
    ensures
        p == pow2(k as nat),
{
    proof {
        lemma_shl_is_pow2(k);
    }
    1u128 << k
}

/// The number of bits of a 64-bit number.
fn bit_length_u64(x: u64) -> (n: u32)
    ensures
        n <= 64,
        x < pow2(n as nat),
        n > 0 ==> pow2((n - 1) as nat) <= x,
{
    let lz = x.leading_zeros();
    proof {
        vstd::std_specs::bits::axiom_u64_leading_zeros(x);
        lemma2_to64();
        let z = lz as u64;
        if lz < 64 {
            let top: u64 = (63 - z) as u64;
            let y = x >> top;
            assert(y & 1 != 0 ==> y >= 1) by (bit_vector);
            lemma_u64_shr_is_div(x, top);
            let pt = pow2(top as nat);
            lemma_pow2_pos(top as nat);
            assert(x >= pt) by (nonlinear_arith)
                requires
                    x as nat / pt >= 1,
                    pt > 0,
            ;
            if lz > 0 {
                let all: u64 = (64 - z) as u64;
                lemma_u64_shr_is_div(x, all);
                let pa = pow2(all as nat);
                lemma_pow2_pos(all as nat);
                assert(x < pa) by (nonlinear_arith)
                    requires
                        x as nat / pa == 0,
                        pa > 0,
                ;
            }
        }
    }
    64 - lz
}

/// The number of bits of `x`: the least `n` with `x < 2^n`.
pub fn bit_length(x: u128) -> (n: u32)
    ensures
        n <= 128,
        x < pow2(n as nat),
        n > 0 ==> pow2((n - 1) as nat) <= x,
{
    let hi: u64 = (x / 0x1_0000_0000_0000_0000) as u64;
    let lo: u64 = (x % 0x1_0000_0000_0000_0000) as u64;
    if hi != 0 {
        let m = bit_length_u64(hi);
        proof {
            lemma2_to64();
            lemma_pow2_adds((m - 1) as nat, 64);
            lemma_pow2_adds(m as nat, 64);
            assert(pow2((m - 1) as nat) * pow2(64) <= x < pow2(m as nat) * pow2(64)) by (nonlinear_arith)
                requires
                    x == hi * pow2(64) + lo,
                    lo < pow2(64),
                    pow2((m - 1) as nat) <= hi < pow2(m as nat),
            ;
        }
        m + 64
    } else {
        bit_length_u64(lo)
    }
}

/// Rounds `total * 2^e` units of 2^-1074 to the nearest binary64 magnitude.
pub fn round_pack(total: u128, e: u32) -> (m: u64)
    requires
        e <= 2045,
    ensures
        m == round_mag(total as nat * pow2(e as nat)),
{
    let len = bit_length(total);
    proof {
        lemma2_to64();
        lemma2_to64_rest();
        lemma_pow2_pos(e as nat);
    }
    if total == 0 {
        proof {
            assert(0 * pow2(e as nat) == 0) by (nonlinear_arith);
            lemma_round_small(0);
        }
        return 0;
    }
    if len <= 53 {
        let room: u32 = 53 - len;
        if e <= room {
            let pe = two_pow(e);
            proof {
                lemma_pow2_adds(len as nat, e as nat);
                if len + e < 53 {
                    lemma_pow2_strictly_increases((len + e) as nat, 53);
                }
                assert(total * pe < pow2((len + e) as nat)) by (nonlinear_arith)
                    requires
                        total < pow2(len as nat),
                        pe > 0,
                        pow2((len + e) as nat) == pow2(len as nat) * pe,
                ;
                lemma_round_small(total as nat * pe as nat);
            }
            (total * pe) as u64
        } else {
            let pr = two_pow(room);
            let k: u32 = e - room;
            proof {
                lemma_pow2_adds(len as nat, room as nat);
                lemma_pow2_adds((len - 1) as nat, room as nat);
                lemma_pow2_adds(room as nat, k as nat);
                lemma_pow2_pos(k as nat);
                let pk = pow2(k as nat);
                assert(pow2(52) <= total * pr < pow2(53)) by (nonlinear_arith)
                    requires
                        pow2((len - 1) as nat) <= total < pow2(len as nat),
                        pr > 0,
                        pow2(53) == pow2(len as nat) * pr,
                        pow2(52) == pow2((len - 1) as nat) * pr,
                ;
                assert(total as nat * pow2(e as nat) == (total * pr) as nat * pk + 0) by (nonlinear_arith)
                    requires
                        pow2(e as nat) == pr * pk,
                ;
                lemma_round_decomposed((total * pr) as nat, k as nat, 0);
                assert((k as nat) * (HIDDEN_BIT as nat) <= 2045 * HIDDEN_BIT) by (nonlinear_arith)
                    requires
                        k <= 2045,
                ;
            }
            let q: u64 = (total * pr) as u64;
            (k as u64) * HIDDEN_BIT + q
        }
    } else {
        let s: u32 = len - 53;
        let p = two_pow(s);
        proof {
            lemma_pow2_pos(s as nat);
        }
        let q: u128 = total / p;
        let r: u128 = total % p;
        let k: u32 = e + s;
        proof {
            let pe = pow2(e as nat);
            lemma_pow2_adds(53, s as nat);
            lemma_pow2_adds(52, s as nat);
            lemma_pow2_adds(s as nat, e as nat);
            assert(total == q * p + r && 0 <= r < p) by (nonlinear_arith)
                requires
                    q == total / p,
                    r == total % p,
                    p > 0,
            ;
            assert(pow2(52) <= q < pow2(53)) by (nonlinear_arith)
                requires
                    pow2(52) * p <= total < pow2(53) * p,
                    total == q * p + r,
                    0 <= r < p,
            ;
            assert(total as nat * pe == (q as nat) * pow2(k as nat) + (r as nat) * pe
                && (r as nat) * pe < pow2(k as nat)
                && tie_up(q as nat, (r as nat) * pe, pow2(k as nat)) == tie_up(q as nat, r as nat, p as nat))
                by (nonlinear_arith)
                requires
                    total == q * p + r,
                    0 <= r < p,
                    pe > 0,
                    pow2(k as nat) == p * pe,
            ;
            lemma_round_decomposed(q as nat, k as nat, (r as nat) * pe);
            assert((k as nat) * (HIDDEN_BIT as nat) >= 2047 * HIDDEN_BIT || (k as nat) * (HIDDEN_BIT as nat) <= 2046 * HIDDEN_BIT) by (nonlinear_arith);
            assert(k >= 2047 ==> (k as nat) * (HIDDEN_BIT as nat) >= 2047 * HIDDEN_BIT) by (nonlinear_arith);
            assert(k <= 2046 ==> (k as nat) * (HIDDEN_BIT as nat) <= 2046 * HIDDEN_BIT) by (nonlinear_arith);
        }
        if k >= 2047 {
            return INFINITY;
        }
        let up: u64 = if 2 * r > p || (2 * r == p && q % 2 == 1) {
            1
        } else {
            0
        };
        let enc: u64 = (k as u64) * HIDDEN_BIT + (q as u64) + up;
        if enc >= INFINITY {
            INFINITY
        } else {
            enc
        }
    }
}

} // verus!
