use rgbm::double::{Double, Single};

fn d(x: f64) -> Double {
    Double { bits: x.to_bits() }
}

fn agrees(r: Double, x: f64) -> bool {
    let y = f64::from_bits(r.bits);
    (y.is_nan() && x.is_nan()) || r.bits == x.to_bits()
}

/// A small generator of bit patterns, so that the cases are the same in every run.
fn next(state: &mut u64) -> u64 {
    *state = state.wrapping_mul(6364136223846793005).wrapping_add(1442695040888963407);
    let x = *state;
    (x ^ (x >> 33)).wrapping_mul(0xff51afd7ed558ccd) ^ (x >> 29)
}

fn patterns() -> Vec<f64> {
    let mut v = vec![
        0.0, -0.0, 1.0, -1.0, 0.5, 2.0, 3.0, 0.1, 1e-3, f64::MIN_POSITIVE, f64::MAX, f64::MIN,
        f64::INFINITY, f64::NEG_INFINITY, f64::NAN, 5e-324, -5e-324, 1e308, 1.5e308, 1e-308,
        2.2250738585072011e-308, 9007199254740992.0, 9007199254740993.0, 1.0 + f64::EPSILON,
        1.0 - f64::EPSILON / 2.0, 4503599627370496.5, 0.3, 1.0 / 3.0,
    ];
    let mut s: u64 = 7;
    for _ in 0..120 {
        v.push(f64::from_bits(next(&mut s)));
    }
    // Exponents near one another, where rounding and cancellation show.
    for _ in 0..120 {
        let bits = (next(&mut s) & 0x800F_FFFF_FFFF_FFFF) | ((1020 + next(&mut s) % 8) << 52);
        v.push(f64::from_bits(bits));
    }
    // Tiny numbers.
    for _ in 0..40 {
        v.push(f64::from_bits(next(&mut s) & 0x803F_FFFF_FFFF_FFFF));
    }
    v
}

#[test]
fn arithmetic_matches_the_machine() {
    let v = patterns();
    for &a in &v {
        for &b in &v {
            assert!(agrees(d(a).plus(d(b)), a + b), "{a:e} + {b:e}");
            assert!(agrees(d(a).minus(d(b)), a - b), "{a:e} - {b:e}");
            assert!(agrees(d(a).times(d(b)), a * b), "{a:e} * {b:e}");
            assert!(agrees(d(a).over(d(b)), a / b), "{a:e} / {b:e}");
            assert_eq!(d(a).lt(d(b)), a < b);
            assert_eq!(d(a).le(d(b)), a <= b);
            assert_eq!(d(a).same(d(b)), a == b);
            assert_eq!(
                d(a).total_order_key() < d(b).total_order_key(),
                a.total_cmp(&b) == std::cmp::Ordering::Less
            );
            let m = f64::from_bits(d(a).max(d(b)).bits);
            let n = a.max(b);
            assert!(m == n || (m.is_nan() && n.is_nan()));
            let m = f64::from_bits(d(a).min(d(b)).bits);
            let n = a.min(b);
            assert!(m == n || (m.is_nan() && n.is_nan()));
            // Sums and products of either order are the same.
            assert_eq!(d(a).plus(d(b)), d(b).plus(d(a)));
            assert_eq!(d(a).times(d(b)), d(b).times(d(a)));
        }
    }
}

#[test]
fn results_that_are_numbers_are_exact() {
    assert_eq!(d(0.5).plus(d(0.25)), d(0.75));
    assert_eq!(d(-3.0).times(d(0.5)), d(-1.5));
    assert_eq!(d(7.0).over(d(-4.0)), d(-1.75));
    assert_eq!(d(1.0).minus(d(1.0)), d(0.0));
}

#[test]
fn unary_operations_match_the_machine() {
    for &a in &patterns() {
        assert_eq!(d(a).is_nan(), a.is_nan());
        assert!(agrees(d(a).neg(), -a));
        assert!(agrees(d(a).abs(), a.abs()));
        assert!(agrees(d(a).signum(), a.signum()));
        assert!(agrees(d(a).next_up(), a.next_up()));
        assert!(agrees(d(a).clamp(d(-0.5), d(1e9)), a.clamp(-0.5, 1e9)));
        let s = d(a).narrow();
        let t = a as f32;
        assert!(s.bits == t.to_bits() || (t.is_nan() && f32::from_bits(s.bits).is_nan()));
        assert!(agrees(Single { bits: t.to_bits() }.widen(), t as f64));
        if !a.is_nan() {
            assert!(f64::from_bits(Double::from_order_key(d(a).order_key()).bits) == a);
        }
    }
    let mut s: u64 = 11;
    for _ in 0..1000 {
        let x = f32::from_bits(next(&mut s) as u32);
        assert!(agrees(Single { bits: x.to_bits() }.widen(), x as f64));
        let n = (next(&mut s) >> (next(&mut s) % 64)) as usize;
        assert!(agrees(Double::from_count(n), n as f64));
    }
}
