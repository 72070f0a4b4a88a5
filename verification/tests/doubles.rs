use captu::double::Double;

fn float(d: &Double) -> f64 {
    let (negative, digits, power) = d.parts();
    let size = digits as f64 * 2f64.powi(power);
    if negative {
        -size
    } else {
        size
    }
}

fn next(seed: &mut u64) -> u64 {
    *seed = seed
        .wrapping_mul(6_364_136_223_846_793_005)
        .wrapping_add(1_442_695_040_888_963_407);
    let x = *seed ^ (*seed >> 33);
    x.wrapping_mul(0xff51_afd7_ed55_8ccd) ^ (x >> 29)
}

/// A number of up to 64 bits, of either sign.
fn any(seed: &mut u64) -> i64 {
    let bits = next(seed) % 64;
    let n = next(seed) as i64;
    n >> bits
}

#[test]
fn whole_numbers() {
    let mut seed = 1;
    for _ in 0..5_000 {
        let n = any(&mut seed);
        assert_eq!(float(&Double::whole(n)), n as f64);
    }
    for n in [0, 1, -1, i64::MAX, i64::MIN, 9_007_199_254_740_993, 9_007_199_254_740_995] {
        assert_eq!(float(&Double::whole(n)), n as f64);
    }
    assert_eq!(float(&Double::halves(3)), 1.5);
    assert_eq!(float(&Double::halves(u32::MAX)), 2_147_483_647.5);
    // Digits are kept in full, and zero has no sign.
    assert_eq!(Double::whole(1).parts(), (false, 4_503_599_627_370_496, -52));
    assert_eq!(Double::whole(0).negated().parts(), (false, 0, 0));
}

#[test]
fn operations_as_in_floats() {
    let mut seed = 2;
    for _ in 0..5_000 {
        let (m, n, d) = (any(&mut seed), any(&mut seed), any(&mut seed).max(1));
        let a = Double::whole(m).over(&Double::whole(d));
        let b = Double::whole(n);
        let (x, y) = (m as f64 / d as f64, n as f64);
        assert_eq!(float(&a), x);
        assert_eq!(float(&a.plus(&b)), x + y);
        assert_eq!(float(&a.minus(&b)), x - y);
        assert_eq!(float(&a.times(&b)), x * y);
        assert_eq!(a.is_above(&b), x > y);
        assert_eq!(a.is_negative(), x < 0.0);
        assert_eq!(float(&a.at_least_zero()), x.max(0.0));
        let c = a.at_least_zero();
        assert_eq!(c.rounded(), float(&c).round() as u64);
        assert_eq!(c.times(&c).rounded(), (float(&c) * float(&c)).round() as u64);
    }
}

#[test]
fn halves_are_rounded_upwards() {
    assert_eq!(Double::halves(1).rounded(), 1);
    assert_eq!(Double::halves(5).rounded(), 3);
    assert_eq!(Double::whole(i64::MAX).times(&Double::whole(4)).rounded(), u64::MAX);
}

#[test]
fn millionths_go_to_the_even_one() {
    // 1/2^7 is 7812.5 millionths, 3/2^7 is 23437.5.
    let part = |n: i64| Double::whole(n).over(&Double::whole(128)).size_in_millionths();
    assert_eq!(part(1), 7_812);
    assert_eq!(part(3), 23_438);
    assert_eq!(part(-3), 23_438);
    let mut seed = 3;
    for _ in 0..5_000 {
        let (m, d) = (any(&mut seed), any(&mut seed).max(1));
        let us = Double::whole(m).over(&Double::whole(d)).size_in_millionths();
        assert_eq!(
            format!("{}.{:06}", us / 1_000_000, us % 1_000_000),
            format!("{:.6}", (m as f64 / d as f64).abs())
        );
    }
}

#[test]
fn order_is_kept_and_small_numbers_are_exact() {
    let mut seed = 4;
    for _ in 0..2_000 {
        let n = any(&mut seed);
        let more = n.saturating_add(1);
        let seven = Double::whole(7);
        let (a, b) = (Double::whole(n).over(&seven), Double::whole(more).over(&seven));
        assert!(!a.is_above(&b));
        let small = n >> 11;
        let (_, digits, power) = Double::whole(small).parts();
        let size = digits as f64 * 2f64.powi(power);
        assert_eq!(size as u64, small.unsigned_abs());
    }
}
