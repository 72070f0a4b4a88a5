use captu::double::Double;
use captu::media::capture::{
    build_ffmpeg_args, build_preview_args, caption_window, decode_window, frame_indices,
    preview_target_sec, CaptureParams, FPS_DEN, FPS_NUM,
};
use captu::ts::pts::MAX_PLAUSIBLE_PTS_MS;

fn float(d: &Double) -> f64 {
    let (negative, digits, power) = d.parts();
    let size = digits as f64 * 2f64.powi(power);
    if negative {
        -size
    } else {
        size
    }
}

fn next(seed: &mut u64) -> u64 {
    *seed = seed
        .wrapping_mul(6_364_136_223_846_793_005)
        .wrapping_add(1_442_695_040_888_963_407);
    let x = *seed ^ (*seed >> 33);
    x.wrapping_mul(0xff51_afd7_ed55_8ccd) ^ (x >> 29)
}

/// A number of up to 64 bits, of either sign.
fn any(seed: &mut u64) -> i64 {
    let bits = next(seed) % 64;
    let n = next(seed) as i64;
    n >> bits
}

fn float_window(start_ms: i64, end_ms: i64) -> (f64, f64, f64) {
    let start = start_ms.min(MAX_PLAUSIBLE_PTS_MS) as f64 / 1000.0;
    let end = end_ms.min(MAX_PLAUSIBLE_PTS_MS) as f64 / 1000.0;
    let first = start + 1.5;
    let last = if end > first { end } else { first + 0.5 };
    ((start - 6.0).max(0.0), first, last)
}

fn float_sample(first: f64, last: f64, k: u32, count: u32) -> f64 {
    if count <= 1 {
        first
    } else {
        first + k as f64 * (last - first) / (count - 1) as f64
    }
}

fn float_indices(start_ms: i64, end_ms: i64, count: u32, fps: f64) -> Vec<u64> {
    let (pre, first, last) = float_window(start_ms, end_ms);
    (0..count)
        .map(|k| {
            let since = float_sample(first, last, k, count) - pre;
            (since.max(0.0) * fps).round() as u64
        })
        .collect()
}

fn same_as_floats(start_ms: i64, end_ms: i64, count: u32, num: u32, den: u32) {
    let (pre, first, last) = caption_window(start_ms, end_ms);
    let expected = float_window(start_ms, end_ms);
    assert_eq!((float(&pre), float(&first), float(&last)), expected);
    assert_eq!(
        frame_indices(start_ms, end_ms, count, num, den),
        float_indices(start_ms, end_ms, count, num as f64 / den as f64)
    );
    let target = preview_target_sec(start_ms, end_ms, count);
    let float_target = float_sample(expected.1, expected.2, count / 2, count);
    assert_eq!(float(&target), float_target);
    assert_eq!(
        build_preview_args("a.ts", target, 1, 1, 1, "b.jpg")[2],
        format!("{:.6}", float_target)
    );
    let (from, length) = decode_window(start_ms, end_ms);
    let p = CaptureParams {
        ts_path: "a.ts",
        pre_seek: from,
        dur: length,
        frame_nums: &[1],
        sub_png: None,
        width: 1,
        height: 1,
        quality: 1,
        out_pattern: "b.jpg",
    };
    let args = build_ffmpeg_args(&p);
    assert_eq!(args[2], format!("{:.6}", expected.0));
    assert_eq!(args[4], format!("{:.6}", (expected.2 - expected.0) + 0.5));
}

#[test]
fn frames_of_a_caption() {
    // From 7.5 s to 16 s after the start of decoding, at 30000/1001 frames a second.
    let (pre, first, last) = caption_window(10_000, 20_000);
    assert_eq!((float(&pre), float(&first), float(&last)), (4.0, 11.5, 20.0));
    assert_eq!(
        frame_indices(10_000, 20_000, 6, FPS_NUM, FPS_DEN),
        vec![225, 276, 327, 378, 429, 480]
    );
    assert_eq!(frame_indices(10_000, 20_000, 1, FPS_NUM, FPS_DEN), vec![225]);
    assert_eq!(frame_indices(i64::MIN, i64::MIN, 2, FPS_NUM, FPS_DEN), vec![0, 0]);
    // A half is rounded upwards.
    assert_eq!(frame_indices(0, 0, 1, 1, 1), vec![2]);
    assert_eq!(frame_indices(0, 2_500, 2, 1, 1), vec![2, 3]);
}

#[test]
fn a_half_that_falls_short() {
    // The second frame lies 7.75775 s into the decoded part, which is 232.5 frames;
    // in double precision it is a little less.
    assert_eq!(frame_indices(600_000, 602_531, 5, FPS_NUM, FPS_DEN)[1], 232);
    same_as_floats(600_000, 602_531, 5, FPS_NUM, FPS_DEN);
}

#[test]
fn the_time_of_the_middle_frame() {
    assert_eq!(float(&preview_target_sec(10_000, 20_000, 6)), 16.6);
    assert_eq!(float(&preview_target_sec(10_000, 20_000, 0)), 11.5);
    assert_eq!(float(&preview_target_sec(-10_000, -9_000, 2)), -8.0);
    // 1.5 s and two thirds of one second.
    let target = preview_target_sec(0, 2_500, 4);
    assert_eq!(build_preview_args("a.ts", target, 1, 1, 1, "b.jpg")[2], "2.166667");
}

#[test]
fn captions_of_a_recording_as_in_floats() {
    let mut seed = 1;
    for i in 0..3_000 {
        let start = (next(&mut seed) % 10_800_000) as i64 - 5_000;
        let end = start + (next(&mut seed) % 20_000) as i64 - 1_000;
        same_as_floats(start, end, i % 9, FPS_NUM, FPS_DEN);
    }
}

#[test]
fn damaged_timestamps_as_in_floats() {
    let mut seed = 2;
    for i in 0..3_000 {
        let start = any(&mut seed);
        let end = any(&mut seed);
        let num = next(&mut seed) as u32 >> (i % 32);
        let den = (next(&mut seed) as u32 >> (i % 31)).max(1);
        same_as_floats(start, end, i % 7, num, den);
    }
    let ends = [i64::MIN, -1_501, -1_500, -1_499, -1, 0, 1, 6_000, 86_400_000, i64::MAX];
    for start in ends {
        for end in ends {
            same_as_floats(start, end, 4, FPS_NUM, FPS_DEN);
            same_as_floats(start, end, 3, u32::MAX, 1);
        }
    }
}

#[test]
fn later_frames_come_later() {
    let mut seed = 3;
    for _ in 0..500 {
        let start = any(&mut seed);
        let end = any(&mut seed);
        let frames = frame_indices(start, end, 12, FPS_NUM, FPS_DEN);
        assert!(frames.windows(2).all(|w| w[0] <= w[1]));
        let (pre, first, last) = caption_window(start, end);
        assert!(!first.is_above(&last));
        assert!(!pre.is_negative());
        assert!(!last.is_above(&Double::whole(86_402)));
    }
}

#[test]
fn the_window_is_not_empty_where_half_a_second_counts() {
    let (_, first, last) = caption_window(-4_503_599_627_370_497_500, 0);
    assert_eq!(float(&first), -4_503_599_627_370_496.0);
    assert!(last.is_above(&first));
    let (_, first, last) = caption_window(i64::MIN, i64::MIN);
    assert_eq!(float(&first), float(&last));
}

#[test]
fn frames_before_the_decoded_part() {
    assert_eq!(frame_indices(-1_500, -1_400, 1, FPS_NUM, FPS_DEN), vec![0]);
    assert_eq!(frame_indices(-3_000, -2_000, 2, FPS_NUM, FPS_DEN), vec![0, 0]);
}

#[test]
fn frames_lie_evenly_in_the_window() {
    // One frame a microsecond, so that the frames tell the times.
    let frames = frame_indices(0, 8_500, 8, 1_000_000, 1);
    for (k, frame) in frames.iter().enumerate() {
        let even = 1_500_000.0 + k as f64 * 1_000_000.0;
        assert!((*frame as f64 - even).abs() <= 1.0);
    }
    let mut seed = 4;
    for _ in 0..500 {
        let start = (next(&mut seed) % 172_800_000) as i64 - 86_400_000;
        let end = start + (next(&mut seed) % 1_000_000) as i64;
        let (_, first, last) = caption_window(start, end);
        assert_eq!(float(&preview_target_sec(start, end, 1)), float(&first));
        // The middle one of two frames is the last.
        let target = preview_target_sec(start, end, 2);
        assert!((float(&target) - float(&last)).abs() <= 1e-6);
    }
}
