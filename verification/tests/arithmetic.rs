use robust_sum::arith::{minus, plus};
use robust_sum::binary64::{abs_bits, abs_lt, decode, is_nonzero, negate};
use robust_sum::rounding::{bit_length, round_pack, two_pow};
use robust_sum::two_sum::{fast_two_sum, two_sum};

fn same(got: u64, want: f64) -> bool {
    if want.is_nan() {
        f64::from_bits(got).is_nan()
    } else {
        got == want.to_bits()
    }
}

fn samples() -> Vec<f64> {
    let mut v = vec![
        0.0,
        -0.0,
        1.0,
        -1.0,
        2.0,
        3.0,
        0.1,
        0.2,
        -0.3,
        1e-64,
        1e64,
        65.0,
        5e-324,
        -5e-324,
        1e-323,
        2.2250738585072014e-308,
        2.225073858507201e-308,
        -2.2250738585072014e-308,
        4.450147717014403e-308,
        1.7976931348623157e308,
        -1.7976931348623157e308,
        8.98846567431158e307,
        9.979201547673598e291,
        1.9958403095347198e292,
        f64::INFINITY,
        f64::NEG_INFINITY,
        f64::NAN,
        9007199254740992.0,
        9007199254740993.0,
        9007199254740991.0,
        4503599627370496.0,
        4503599627370495.5,
        1.0 + f64::EPSILON,
        1.0 - f64::EPSILON / 2.0,
        f64::EPSILON,
        f64::EPSILON / 2.0,
        f64::EPSILON / 4.0,
        3.0 * f64::EPSILON / 2.0,
    ];
    let mut seed: u64 = 0x2545_f491_4f6c_dd1d;
    for _ in 0..160 {
        seed ^= seed << 13;
        seed ^= seed >> 7;
        seed ^= seed << 17;
        v.push(f64::from_bits(seed));
    }
    for k in [1u64, 2, 3, 52, 53, 54, 55, 56, 59, 60, 61, 64, 100] {
        let base = seed & 0x000f_ffff_ffff_ffff;
        v.push(f64::from_bits((k << 52) | base));
        v.push(f64::from_bits(((k + 1) << 52) | (base >> 3)));
        v.push(f64::from_bits(k << 52));
        v.push(f64::from_bits((k << 52) - 1));
    }
    v
}

#[test]
fn plus_agrees_with_the_hardware() {
    let v = samples();
    for a in &v {
        for b in &v {
            assert!(
                same(plus(a.to_bits(), b.to_bits()), a + b),
                "{:e} + {:e}",
                a,
                b
            );
        }
    }
}

#[test]
fn minus_agrees_with_the_hardware() {
    let v = samples();
    for a in &v {
        for b in &v {
            assert!(
                same(minus(a.to_bits(), b.to_bits()), a - b),
                "{:e} - {:e}",
                a,
                b
            );
        }
    }
}

#[test]
fn plus_agrees_with_the_hardware_on_near_operands() {
    let mut seed: u64 = 0x1234_5678_9abc_def1;
    for _ in 0..200000 {
        seed ^= seed << 13;
        seed ^= seed >> 7;
        seed ^= seed << 17;
        let a = seed & 0xbfff_ffff_ffff_ffff;
        seed ^= seed << 13;
        seed ^= seed >> 7;
        seed ^= seed << 17;
        let shift = (seed >> 58) % 64;
        let eb = ((a >> 52) & 0x7ff).saturating_sub(shift);
        let b = (seed & 0x800f_ffff_ffff_ffff) | (eb << 52);
        let (fa, fb) = (f64::from_bits(a), f64::from_bits(b));
        assert!(same(plus(a, b), fa + fb), "{:e} + {:e}", fa, fb);
        assert!(same(minus(b, a), fb - fa), "{:e} - {:e}", fb, fa);
    }
}

#[test]
fn nan_results_are_the_quiet_nan() {
    let inf = f64::INFINITY.to_bits();
    let ninf = f64::NEG_INFINITY.to_bits();
    assert_eq!(plus(inf, ninf), 0x7ff8_0000_0000_0000);
    assert_eq!(minus(inf, inf), 0x7ff8_0000_0000_0000);
    assert_eq!(plus(0xfff0_0000_0000_0001, 1), 0x7ff8_0000_0000_0000);
    assert_eq!(plus(inf, inf), inf);
    assert_eq!(minus(ninf, inf), ninf);
}

#[test]
fn rounding_goes_to_the_nearest_and_breaks_ties_to_even() {
    // 2^53 + 1 lies between 2^53 and 2^53 + 2: the tie goes to 2^53.
    assert_eq!(plus(9007199254740992f64.to_bits(), 1f64.to_bits()), 9007199254740992f64.to_bits());
    // 2^53 + 3 goes to 2^53 + 4.
    assert_eq!(plus(9007199254740992f64.to_bits(), 3f64.to_bits()), 9007199254740996f64.to_bits());
    assert_eq!(plus(9007199254740994f64.to_bits(), 1f64.to_bits()), 9007199254740996f64.to_bits());
    // The largest finite number plus half of its last place overflows.
    let max = 1.7976931348623157e308f64;
    assert_eq!(plus(max.to_bits(), 2f64.powi(970).to_bits()), f64::INFINITY.to_bits());
    assert_eq!(plus(max.to_bits(), 2f64.powi(969).to_bits()), max.to_bits());
}

#[test]
fn round_pack_writes_magnitudes() {
    assert_eq!(round_pack(0, 17), 0);
    assert_eq!(round_pack(1, 0), 1);
    assert_eq!(round_pack(1, 1074), 1f64.to_bits());
    assert_eq!(round_pack(3, 1073), 1.5f64.to_bits());
    assert_eq!(round_pack((1u128 << 53) + 1, 1074), 9007199254740992f64.to_bits());
    assert_eq!(round_pack((1u128 << 53) + 3, 1074), 9007199254740996f64.to_bits());
    assert_eq!(round_pack((1u128 << 54) - 1, 1074), 18014398509481984f64.to_bits());
    assert_eq!(round_pack((1u128 << 53) + 1, 0), 2u64 << 52);
    assert_eq!(round_pack((1u128 << 53) + 3, 0), (2u64 << 52) + 2);
    assert_eq!(round_pack((1u128 << 53) - 1, 2045), 0x7fef_ffff_ffff_ffff);
    assert_eq!(round_pack(1u128 << 53, 2045), 0x7ff0_0000_0000_0000);
    assert_eq!(round_pack(u128::MAX, 2045), 0x7ff0_0000_0000_0000);
}

#[test]
fn bit_length_counts_bits() {
    assert_eq!(bit_length(0), 0);
    assert_eq!(bit_length(1), 1);
    assert_eq!(bit_length(2), 2);
    assert_eq!(bit_length(255), 8);
    assert_eq!(bit_length(256), 9);
    assert_eq!(bit_length(u128::MAX), 128);
    for k in 0..128u32 {
        assert_eq!(two_pow(k), 1u128 << k);
        assert_eq!(bit_length(two_pow(k)), k + 1);
    }
}

#[test]
fn decode_splits_magnitudes() {
    assert_eq!(decode(0), (0, 0));
    assert_eq!(decode(5), (5, 0));
    assert_eq!(decode(1f64.to_bits()), (1u64 << 52, 1022));
    assert_eq!(decode(1.5f64.to_bits()), (3u64 << 51, 1022));
    assert_eq!(decode(2.2250738585072014e-308f64.to_bits()), (1u64 << 52, 0));
    assert_eq!(decode(0x7fef_ffff_ffff_ffff), ((1u64 << 53) - 1, 2045));
}

#[test]
fn signs_and_comparisons() {
    assert_eq!(abs_bits((-2.5f64).to_bits()), 2.5f64.to_bits());
    assert_eq!(abs_bits(2.5f64.to_bits()), 2.5f64.to_bits());
    assert_eq!(negate(2.5f64.to_bits()), (-2.5f64).to_bits());
    assert_eq!(negate((-0.0f64).to_bits()), 0);
    assert!(abs_lt(1f64.to_bits(), (-2f64).to_bits()));
    assert!(!abs_lt((-2f64).to_bits(), 1f64.to_bits()));
    assert!(!abs_lt(1f64.to_bits(), (-1f64).to_bits()));
    assert!(!abs_lt(f64::NAN.to_bits(), 1f64.to_bits()));
    assert!(!abs_lt(1f64.to_bits(), f64::NAN.to_bits()));
    assert!(abs_lt(1f64.to_bits(), f64::INFINITY.to_bits()));
    assert!(!is_nonzero(0));
    assert!(!is_nonzero((-0.0f64).to_bits()));
    assert!(is_nonzero(1));
    assert!(is_nonzero(f64::NAN.to_bits()));
}

#[test]
fn two_sum_gives_sum_and_error() {
    let (err, sum) = two_sum(0.1f64.to_bits(), 0.2f64.to_bits());
    assert_eq!(f64::from_bits(sum), 0.30000000000000004);
    assert_eq!(f64::from_bits(err), -2.7755575615628914e-17);
    let (err, sum) = two_sum(1e-64f64.to_bits(), 1f64.to_bits());
    assert_eq!((f64::from_bits(err), f64::from_bits(sum)), (1e-64, 1.0));
    let (err, sum) = fast_two_sum(1f64.to_bits(), 1e-64f64.to_bits());
    assert_eq!((f64::from_bits(err), f64::from_bits(sum)), (1e-64, 1.0));
    // With the operands the wrong way round the short form loses the error.
    let (err, sum) = fast_two_sum(1e-64f64.to_bits(), 1f64.to_bits());
    assert_eq!((f64::from_bits(err), f64::from_bits(sum)), (0.0, 1.0));
}

#[test]
fn two_sum_agrees_with_the_hardware() {
    let v = samples();
    for a in &v {
        for b in &v {
            let x = a + b;
            let bv = x - a;
            let av = x - bv;
            let br = b - bv;
            let ar = a - av;
            let y = ar + br;
            let (err, sum) = two_sum(a.to_bits(), b.to_bits());
            assert!(same(sum, x) && same(err, y), "{:e} {:e}", a, b);
            let (err, sum) = fast_two_sum(a.to_bits(), b.to_bits());
            assert!(same(sum, x) && same(err, b - bv), "{:e} {:e}", a, b);
        }
    }
}
