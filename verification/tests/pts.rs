use captu::ts::pts::{
    is_plausible_pts, PtsNormalizer, MAX_PLAUSIBLE_PTS_MS, PTS_FORWARD_LIMIT, PTS_MASK, PTS_WRAP,
};

const SEC: u64 = 90_000;

#[test]
fn normalizer_first_sample_is_zero() {
    let mut n = PtsNormalizer::new();
    let s = n.push(123_456);
    assert_eq!(s.ms, 0);
    assert!(!s.discontinuity);
}

#[test]
fn normalizer_monotonic_stream() {
    let mut n = PtsNormalizer::new();
    let out: Vec<i64> = [0, SEC, 2 * SEC].iter().map(|&p| n.push(p).ms).collect();
    assert_eq!(out, vec![0, 1000, 2000]);
    assert_eq!(n.discontinuities(), 0);
}

#[test]
fn normalizer_unwraps_rollover() {
    let mut n = PtsNormalizer::new();
    let out: Vec<i64> = [PTS_WRAP - SEC, 0, SEC]
        .iter()
        .map(|&p| n.push(p).ms)
        .collect();
    assert_eq!(out, vec![0, 1000, 2000]);
    assert_eq!(n.discontinuities(), 0);
}

#[test]
fn normalizer_max_33bit_to_zero() {
    let mut n = PtsNormalizer::new();
    assert_eq!(n.push(PTS_MASK).ms, 0);
    let s = n.push(0);
    assert_eq!(s.ms, 0);
    assert!(!s.discontinuity);
    assert_eq!(n.discontinuities(), 0);
}

#[test]
fn normalizer_reproduces_reported_bug() {
    let epoch = PTS_WRAP - 51_162_976;
    let mut n = PtsNormalizer::new();
    assert_eq!(n.push(epoch).ms, 0);
    let s = n.push(0);
    assert_eq!(s.ms, 568_477);
    assert!(!s.discontinuity);
    assert!(s.ms < MAX_PLAUSIBLE_PTS_MS);
}

#[test]
fn normalizer_tolerates_backward_jitter() {
    let mut n = PtsNormalizer::new();
    assert_eq!(n.push(10 * SEC).ms, 0);
    let s = n.push(10 * SEC - SEC / 2);
    assert_eq!(s.ms, -500);
    assert!(!s.discontinuity);
    assert_eq!(n.discontinuities(), 0);
}

#[test]
fn normalizer_flags_large_backward_jump() {
    let mut n = PtsNormalizer::new();
    assert_eq!(n.push(4000 * SEC).ms, 0);
    let s = n.push(4000 * SEC - 3600 * SEC);
    assert!(s.discontinuity);
    assert_eq!(s.ms, 1000);
    assert_eq!(n.discontinuities(), 1);
}

#[test]
fn normalizer_flags_large_forward_jump() {
    let mut n = PtsNormalizer::new();
    assert_eq!(n.push(SEC).ms, 0);
    let s = n.push(SEC + 5 * 3600 * SEC);
    assert!(s.discontinuity);
    assert_eq!(s.ms, 1000);
    assert_eq!(n.discontinuities(), 1);
}

#[test]
fn normalizer_long_caption_free_gap_is_real() {
    let mut n = PtsNormalizer::new();
    assert_eq!(n.push(SEC).ms, 0);
    let s = n.push(SEC + 2 * 3600 * SEC);
    assert!(!s.discontinuity);
    assert_eq!(s.ms, 2 * 3600 * 1000);
}

#[test]
fn normalizer_masks_high_bits() {
    let mut a = PtsNormalizer::new();
    let mut b = PtsNormalizer::new();
    for &p in &[7 * SEC, 8 * SEC, 9 * SEC] {
        assert_eq!(a.push(p).ms, b.push(p | (1 << 40)).ms);
    }
}

#[test]
fn normalizer_counts_discontinuities() {
    let mut n = PtsNormalizer::new();
    n.push(0);
    for i in 1..=3 {
        n.push(i * 5 * 3600 * SEC);
    }
    assert_eq!(n.discontinuities(), 3);
}

#[test]
fn normalizer_step_is_always_bounded() {
    const MAX_STEP_MS: i64 = PTS_FORWARD_LIMIT / 90;
    let mut state: u64 = 0x2545_F491_4F6C_DD1D;
    let mut n = PtsNormalizer::new();
    let mut prev = 0i64;
    for _ in 0..10_000 {
        state = state
            .wrapping_mul(6_364_136_223_846_793_005)
            .wrapping_add(1_442_695_040_888_963_407);
        let s = n.push(state >> 20);
        assert!(
            (s.ms - prev).abs() <= MAX_STEP_MS + 1,
            "step too large: {} -> {}",
            prev,
            s.ms
        );
        prev = s.ms;
    }
}

#[test]
fn is_plausible_pts_boundaries() {
    assert!(is_plausible_pts(0, 1));
    assert!(is_plausible_pts(0, MAX_PLAUSIBLE_PTS_MS));
    assert!(!is_plausible_pts(-1, 100));
    assert!(!is_plausible_pts(0, 0));
    assert!(!is_plausible_pts(100, 100));
    assert!(!is_plausible_pts(0, MAX_PLAUSIBLE_PTS_MS + 1));
    assert!(!is_plausible_pts(i64::MIN, 0));
    assert!(!is_plausible_pts(0, i64::MAX));
}
