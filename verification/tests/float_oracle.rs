use robust_sum::robust_sum;

/// The same summation carried out with the machine's own `f64` arithmetic.
fn float_sum(e: &[f64], f: &[f64]) -> Vec<f64> {
    let (ne, nf) = (e.len(), f.len());
    let two = |a: f64, b: f64| {
        let x = a + b;
        let bv = x - a;
        let av = x - bv;
        (a - av + (b - bv), x)
    };
    if ne == 1 && nf == 1 {
        let (y, x) = two(e[0], f[0]);
        return if y != 0.0 { vec![y, x] } else { vec![x] };
    }
    let (mut i, mut j) = (0, 0);
    let mut g = Vec::new();
    let mut terms = Vec::new();
    while i < ne || j < nf {
        if j >= nf || (i < ne && e[i].abs() < f[j].abs()) {
            terms.push(e[i]);
            i += 1;
        } else {
            terms.push(f[j]);
            j += 1;
        }
    }
    let (b, a) = (terms[0], terms[1]);
    let mut q1 = a + b;
    let mut q0 = b - (q1 - a);
    for a in &terms[2..] {
        let x = a + q0;
        let y = q0 - (x - a);
        if y != 0.0 {
            g.push(y);
        }
        let (lo, hi) = two(q1, x);
        q0 = lo;
        q1 = hi;
    }
    if q0 != 0.0 {
        g.push(q0);
    }
    if q1 != 0.0 {
        g.push(q1);
    }
    if g.is_empty() {
        g.push(0.0);
    }
    g
}

/// The summation with the six-operation form at every step.
fn float_sum_long(e: &[f64], f: &[f64]) -> Vec<f64> {
    let two = |a: f64, b: f64| {
        let x = a + b;
        let bv = x - a;
        let av = x - bv;
        (a - av + (b - bv), x)
    };
    let (mut i, mut j) = (0, 0);
    let mut terms = Vec::new();
    while i < e.len() || j < f.len() {
        if j >= f.len() || (i < e.len() && e[i].abs() < f[j].abs()) {
            terms.push(e[i]);
            i += 1;
        } else {
            terms.push(f[j]);
            j += 1;
        }
    }
    let (mut q0, mut q1) = two(terms[1], terms[0]);
    let mut g = Vec::new();
    for a in &terms[2..] {
        let (y, x) = two(*a, q0);
        if y != 0.0 {
            g.push(y);
        }
        let (lo, hi) = two(q1, x);
        q0 = lo;
        q1 = hi;
    }
    if q0 != 0.0 {
        g.push(q0);
    }
    if q1 != 0.0 {
        g.push(q1);
    }
    if g.is_empty() {
        g.push(0.0);
    }
    g
}

fn same(got: &[u64], want: &[f64]) -> bool {
    got.len() == want.len()
        && got.iter().zip(want).all(|(g, w)| {
            if w.is_nan() {
                f64::from_bits(*g).is_nan()
            } else {
                *g == w.to_bits()
            }
        })
}

fn next(seed: &mut u64) -> u64 {
    *seed ^= *seed << 13;
    *seed ^= *seed >> 7;
    *seed ^= *seed << 17;
    *seed
}

fn term(seed: &mut u64) -> f64 {
    let frac = (next(seed) >> 11) as f64 / 9007199254740992.0;
    let e = (next(seed) % 400) as i32 - 200;
    let t = frac * 2f64.powi(e);
    if next(seed) & 1 == 0 {
        t
    } else {
        -t
    }
}

#[test]
fn agrees_with_floating_point_on_expansions() {
    let mut seed: u64 = 0x0f0f_1234_5678_9abc;
    for round in 0..400 {
        let mut e = vec![0.0f64];
        let mut f = vec![0.0f64];
        for _ in 0..(1 + round % 9) {
            e = float_sum(&e, &[term(&mut seed)]);
        }
        for _ in 0..(1 + round % 6) {
            f = float_sum(&f, &[term(&mut seed)]);
        }
        let eb: Vec<u64> = e.iter().map(|x| x.to_bits()).collect();
        let fb: Vec<u64> = f.iter().map(|x| x.to_bits()).collect();
        assert!(same(&robust_sum(&eb, &fb), &float_sum(&e, &f)));
        assert!(same(&robust_sum(&fb, &eb), &float_sum(&f, &e)));
        // On expansions the short form of the first addition loses nothing, so
        // the long form gives the same components.
        if e.len() + f.len() > 2 {
            assert!(same(&robust_sum(&eb, &fb), &float_sum_long(&e, &f)));
        }
    }
}

#[test]
fn agrees_with_floating_point_on_any_sequences() {
    // Operands that are no expansions: unsorted, overlapping, with zeros,
    // infinities and NaN. The result is still what the same steps give in
    // floating point.
    let mut seed: u64 = 0x7777_dead_beef_0001;
    let special = [0.0, -0.0, f64::INFINITY, f64::NEG_INFINITY, f64::NAN, 1.0, -1.0, 1.7976931348623157e308, 5e-324];
    for round in 0..3000 {
        let ne = 1 + (next(&mut seed) % 5) as usize;
        let nf = 1 + (next(&mut seed) % 5) as usize;
        let mut pick = |seed: &mut u64| {
            if round % 3 == 0 && next(seed) % 4 == 0 {
                special[(next(seed) % special.len() as u64) as usize]
            } else if round % 2 == 0 {
                f64::from_bits(next(seed))
            } else {
                term(seed)
            }
        };
        let e: Vec<f64> = (0..ne).map(|_| pick(&mut seed)).collect();
        let f: Vec<f64> = (0..nf).map(|_| pick(&mut seed)).collect();
        let eb: Vec<u64> = e.iter().map(|x| x.to_bits()).collect();
        let fb: Vec<u64> = f.iter().map(|x| x.to_bits()).collect();
        assert!(same(&robust_sum(&eb, &fb), &float_sum(&e, &f)), "{:?} {:?}", e, f);
    }
}
