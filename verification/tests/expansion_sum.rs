use rand::random;
use robust_sum::expansion::{linear_expansion, scalar_scalar};
use robust_sum::{robust_sum, try_robust_sum, SumError};

fn bits(v: &[f64]) -> Vec<u64> {
    v.iter().map(|x| x.to_bits()).collect()
}

fn floats(v: &[u64]) -> Vec<f64> {
    v.iter().map(|x| f64::from_bits(*x)).collect()
}

fn sum(e: &[f64], f: &[f64]) -> Vec<f64> {
    floats(&robust_sum(&bits(e), &bits(f)))
}

/// Exponent of the highest set bit of a finite nonzero number.
fn top_bit(x: f64) -> i64 {
    let m = x.to_bits() & 0x7fff_ffff_ffff_ffff;
    let e = (m >> 52) as i64;
    let frac = m & 0x000f_ffff_ffff_ffff;
    if e == 0 {
        63 - (frac.leading_zeros() as i64) - 1074
    } else {
        e - 1023
    }
}

/// Exponent of the lowest set bit of a finite nonzero number.
fn low_bit(x: f64) -> i64 {
    let m = x.to_bits() & 0x7fff_ffff_ffff_ffff;
    let e = (m >> 52) as i64;
    let frac = m & 0x000f_ffff_ffff_ffff;
    if e == 0 {
        (frac.trailing_zeros() as i64) - 1074
    } else {
        let sig = frac | 0x0010_0000_0000_0000;
        (sig.trailing_zeros() as i64) + e - 1075
    }
}

/// Finite, increasing in magnitude, and no two neighbours share a bit
/// position; a zero only alone.
fn validate(seq: &[f64]) -> bool {
    if seq.is_empty() {
        return false;
    }
    if seq.len() == 1 {
        return seq[0].is_finite();
    }
    for x in seq {
        if !x.is_finite() || *x == 0.0 {
            return false;
        }
    }
    for i in 1..seq.len() {
        if top_bit(seq[i - 1]) >= low_bit(seq[i]) {
            return false;
        }
    }
    true
}

fn cmp(va: Vec<f64>, vb: Vec<f64>) -> bool {
    (va.len() == vb.len()) && va.iter().zip(vb).all(|(a, b)| *a == b)
}

fn rnd() -> f64 {
    random::<f64>()
}

#[test]
fn test_robust_sum() {
    assert_eq!(sum(&vec![1., 64.0], &vec![-1e-64, 1e64]), [-1e-64, 65., 1e64]);
    assert_eq!(sum(&vec![0.], &vec![0.]), [0.]);
    assert_eq!(sum(&vec![0.], &vec![1.]), [1.]);
    assert_eq!(sum(&vec![1., 1e64], &vec![1e-64, 2.]), [1e-64, 3., 1e64]);
    assert_eq!(sum(&vec![1.], &vec![1e-64, 1e-16]), [1e-64, 1e-16, 1.]);

    for i in -10..(10 + 1) {
        for j in -10..(10 + 1) {
            assert_eq!(sum(&vec![i as f64], &vec![j as f64]), [(i + j) as f64]);
        }
    }

    assert!(validate(&sum(
        &vec![5.711861227349496e-133, 1e-116],
        &vec![5.711861227349496e-133, 1e-116],
    )));

    let mut nois = Vec::<f64>::with_capacity(10);
    let mut expect = Vec::<f64>::with_capacity(10);
    for i in 0..10 {
        nois.push(2f64.powi(-1000 + 53 * i));
        expect.push(2f64.powi(-999 + 53 * i));
    }
    let x = sum(&nois, &nois);
    assert!(cmp(x.clone(), expect));
    assert!(validate(&x));

    assert!(cmp(sum(&vec![0.], &vec![1., 1e64]), vec![1., 1e64]));

    let mut s = vec![0.0];
    for _ in 0..1000 {
        s = sum(&s, &vec![rnd() * 2f64.powf(rnd() * 1800. - 900.)]);
        assert!(validate(&s))
    }
}

#[test]
fn scalar_sums_of_integers_are_exact() {
    for i in -300i64..=300 {
        for j in -300i64..=300 {
            assert_eq!(sum(&[i as f64], &[j as f64]), [(i + j) as f64]);
        }
    }
    let big = 9007199254740992i64;
    assert_eq!(sum(&[(big - 1) as f64], &[1.0]), [big as f64]);
    assert_eq!(sum(&[-(big as f64)], &[1.0]), [(1 - big) as f64]);
}

#[test]
fn zero_is_neutral() {
    assert_eq!(robust_sum(&[0], &[0]), vec![0u64]);
    for x in [1.0f64, -1.0, 1e-300, 5e-324, -5e-324, 1.7976931348623157e308, 3.5, -0.1] {
        assert_eq!(robust_sum(&[0], &[x.to_bits()]), vec![x.to_bits()]);
        assert_eq!(robust_sum(&[x.to_bits()], &[0]), vec![x.to_bits()]);
    }
}

#[test]
fn signed_zeros_follow_ieee() {
    let nz = (-0.0f64).to_bits();
    assert_eq!(robust_sum(&[nz], &[nz]), vec![nz]);
    assert_eq!(robust_sum(&[nz], &[0]), vec![0u64]);
    assert_eq!(robust_sum(&[1.5f64.to_bits()], &[(-1.5f64).to_bits()]), vec![0u64]);
    assert_eq!(robust_sum(&[nz, 1.0f64.to_bits()], &[nz, (-1.0f64).to_bits()]), vec![0u64]);
}

#[test]
fn powers_of_two_double() {
    // Subnormal powers of two: one bit set in the fraction.
    for k in 0..52u32 {
        assert_eq!(robust_sum(&[1u64 << k], &[1u64 << k]), vec![1u64 << (k + 1)]);
    }
    // Normal ones: the exponent field alone.
    for e in 1..2046u64 {
        assert_eq!(robust_sum(&[e << 52], &[e << 52]), vec![(e + 1) << 52]);
    }
    assert_eq!(sum(&[2f64.powi(10)], &[2f64.powi(10)]), [2f64.powi(11)]);
    assert_eq!(sum(&[-0.25], &[-0.25]), [-0.5]);
}

#[test]
fn scalar_sum_keeps_the_rounding_error() {
    assert_eq!(sum(&[1.0], &[1e-64]), [1e-64, 1.0]);
    assert_eq!(sum(&[1e-64], &[1.0]), [1e-64, 1.0]);
    // 1 + 2^-53 is a tie and rounds to the even neighbour 1.
    assert_eq!(sum(&[1.0], &[2f64.powi(-53)]), [2f64.powi(-53), 1.0]);
    // 1 + 3 * 2^-53 is a tie as well; the even neighbour is 1 + 2^-51.
    assert_eq!(
        sum(&[1.0 + 2f64.powi(-52)], &[2f64.powi(-53)]),
        [-2f64.powi(-53), 1.0 + 2f64.powi(-51)]
    );
    assert_eq!(sum(&[0.1], &[0.2]), [-2.7755575615628914e-17, 0.30000000000000004]);
}

#[test]
fn both_orders_give_the_same_value() {
    let cases: Vec<(Vec<f64>, Vec<f64>)> = vec![
        (vec![1.0, 64.0], vec![-1e-64, 1e64]),
        (vec![1e-64, 1e-16], vec![1.0]),
        (vec![0.1], vec![0.2]),
        (vec![2f64.powi(-60), 1.0], vec![2f64.powi(-60), 1.0]),
        (vec![3.0, 2f64.powi(80)], vec![-5.0, 2f64.powi(70)]),
    ];
    for (e, f) in cases {
        let ef = sum(&e, &f);
        let fe = sum(&f, &e);
        assert!(validate(&ef));
        assert!(validate(&fe));
        let minus_fe: Vec<f64> = fe.iter().map(|x| -x).collect();
        assert_eq!(sum(&ef, &minus_fe), [0.0]);
    }
}

#[test]
fn ties_in_magnitude_go_to_the_second_operand() {
    // Both operands start with magnitude 1: the merge takes f's term first,
    // so the seed adds e's 1 to f's -1.
    assert_eq!(sum(&[1.0, 4.0], &[-1.0, 1e40]), [4.0, 1e40]);
    assert_eq!(sum(&[-1.0, 1e40], &[1.0, 4.0]), [4.0, 1e40]);
}

#[test]
fn no_zero_among_several_components() {
    let mut s = vec![0.0f64];
    let mut seed: u64 = 0x9e37_79b9_7f4a_7c15;
    for _ in 0..2000 {
        seed = seed.wrapping_mul(6364136223846793005).wrapping_add(1442695040888963407);
        let frac = ((seed >> 11) as f64) / 9007199254740992.0;
        seed = seed.wrapping_mul(6364136223846793005).wrapping_add(1442695040888963407);
        let e = ((seed >> 33) % 1200) as i32 - 600;
        let sign = if seed & 1 == 0 { 1.0 } else { -1.0 };
        let t = sign * frac * 2f64.powi(e);
        let n = s.len();
        s = sum(&s, &[t]);
        assert!(s.len() >= 1 && s.len() <= n + 1);
        assert!(validate(&s));
        if s.len() > 1 {
            assert!(s.iter().all(|x| *x != 0.0));
        }
    }
}

#[test]
fn result_is_never_longer_than_both_operands() {
    let e = [2f64.powi(-400), 2f64.powi(-200), 1.0, 2f64.powi(200)];
    let f = [2f64.powi(-500), 2f64.powi(-300), 2f64.powi(-100), 2f64.powi(100)];
    let g = sum(&e, &f);
    assert_eq!(g.len(), 8);
    assert_eq!(
        g,
        [
            2f64.powi(-500),
            2f64.powi(-400),
            2f64.powi(-300),
            2f64.powi(-200),
            2f64.powi(-100),
            1.0,
            2f64.powi(100),
            2f64.powi(200)
        ]
    );
    assert_eq!(sum(&[1.0, 2f64.powi(60)], &[-1.0, -2f64.powi(60)]), [0.0]);
}

#[test]
fn empty_operands_are_refused() {
    assert_eq!(try_robust_sum(&[], &[1]), Err(SumError::EmptyExpansion));
    assert_eq!(try_robust_sum(&[1], &[]), Err(SumError::EmptyExpansion));
    assert_eq!(try_robust_sum(&[], &[]), Err(SumError::EmptyExpansion));
    assert_eq!(
        try_robust_sum(&bits(&[1.0, 64.0]), &bits(&[-1e-64, 1e64])),
        Ok(bits(&[-1e-64, 65.0, 1e64]))
    );
}

#[test]
fn non_finite_terms_pass_through() {
    let inf = f64::INFINITY;
    assert_eq!(sum(&[inf], &[1.0])[1], inf);
    assert!(sum(&[inf], &[-inf]).iter().all(|x| x.is_nan()));
    assert!(sum(&[f64::NAN], &[1.0]).iter().all(|x| x.is_nan()));
    assert_eq!(sum(&[1.7976931348623157e308], &[1.7976931348623157e308])[1], inf);
}

fn next(seed: &mut u64) -> u64 {
    *seed ^= *seed << 13;
    *seed ^= *seed >> 7;
    *seed ^= *seed << 17;
    *seed
}

/// An integer of up to 53 bits, shifted left by up to 60 places, with a sign.
fn integer_term(seed: &mut u64) -> f64 {
    let m = (next(seed) >> 11) as f64;
    let k = (next(seed) % 61) as i32;
    let t = m * 2f64.powi(k);
    if next(seed) & 1 == 0 {
        t
    } else {
        -t
    }
}

fn integer_expansion(seed: &mut u64, terms: usize) -> (Vec<f64>, i128) {
    let mut s = vec![0.0f64];
    let mut exact: i128 = 0;
    for _ in 0..terms {
        let t = integer_term(seed);
        exact += t as i128;
        s = sum(&s, &[t]);
    }
    (s, exact)
}

fn exact_value(e: &[f64]) -> i128 {
    e.iter().map(|x| *x as i128).sum()
}

#[test]
fn sum_stands_for_the_exact_value() {
    let mut seed: u64 = 0x0123_4567_89ab_cdef;
    let mut s = vec![0.0f64];
    let mut exact: i128 = 0;
    for _ in 0..3000 {
        let t = integer_term(&mut seed);
        exact += t as i128;
        s = sum(&s, &[t]);
        assert!(validate(&s));
        assert_eq!(exact_value(&s), exact);
    }
}

#[test]
fn sum_of_two_expansions_is_an_expansion_of_the_exact_sum() {
    let mut seed: u64 = 0xfeed_beef_cafe_f00d;
    let mut longest = 0;
    for round in 0..300 {
        let (e, ve) = integer_expansion(&mut seed, 1 + round % 7);
        let (f, vf) = integer_expansion(&mut seed, 1 + round % 5);
        assert!(validate(&e) && validate(&f));
        let ef = sum(&e, &f);
        let fe = sum(&f, &e);
        assert!(validate(&ef));
        assert!(validate(&fe));
        assert!(ef.len() <= e.len() + f.len());
        assert_eq!(exact_value(&ef), ve + vf);
        assert_eq!(exact_value(&fe), ve + vf);
        if ef.len() > longest {
            longest = ef.len();
        }
    }
    assert!(longest >= 3);
}

#[test]
fn components_of_a_sum_increase_in_magnitude() {
    let mut seed: u64 = 0x1357_9bdf_0246_8ace;
    for _ in 0..200 {
        let (e, _) = integer_expansion(&mut seed, 6);
        let (f, _) = integer_expansion(&mut seed, 6);
        let g = sum(&e, &f);
        for i in 1..g.len() {
            assert!(g[i - 1].abs() < g[i].abs());
        }
    }
}

#[test]
fn largest_numbers_are_beyond_the_exact_range() {
    // Two components of the largest finite magnitude overflow: what comes
    // out is not an expansion.
    let max = 1.7976931348623157e308f64;
    let g = sum(&[max], &[max]);
    assert!(!validate(&g));
    // Below 2^1021 every sum is exact.
    let big = 2f64.powi(1020);
    assert_eq!(sum(&[big], &[big]), [2f64.powi(1021)]);
}

#[test]
fn scalar_and_merge_entry_points_agree_with_the_sum() {
    let a = 0.1f64.to_bits();
    let b = 0.2f64.to_bits();
    assert_eq!(scalar_scalar(a, b), bits(&[-2.7755575615628914e-17, 0.30000000000000004]));
    assert_eq!(scalar_scalar(a, b), robust_sum(&[a], &[b]));
    assert_eq!(scalar_scalar(1f64.to_bits(), 2f64.to_bits()), bits(&[3.0]));
    let e = bits(&[1.0, 64.0]);
    let f = bits(&[-1e-64, 1e64]);
    assert_eq!(linear_expansion(&e, &f), bits(&[-1e-64, 65.0, 1e64]));
    assert_eq!(linear_expansion(&e, &f), robust_sum(&e, &f));
}
