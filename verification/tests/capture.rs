use captu::double::Double;
use captu::media::capture::{
    build_ffmpeg_args, build_preview_args, build_select_expr, caption_window, frame_indices,
    full_path, preview_path, preview_target_sec, thumb_path, ts_stem, CaptureParams, FPS_DEN,
    FPS_NUM,
};
use captu::ts::pts::MAX_PLAUSIBLE_PTS_MS;
use std::path::Path;

fn float(d: &Double) -> f64 {
    let (negative, digits, power) = d.parts();
    let size = digits as f64 * 2f64.powi(power);
    if negative {
        -size
    } else {
        size
    }
}

fn tenths(n: i64) -> Double {
    Double::whole(n).over(&Double::whole(10))
}

fn window_sec(start_ms: i64, end_ms: i64) -> (f64, f64, f64) {
    let (pre_seek, start, end) = caption_window(start_ms, end_ms);
    (float(&pre_seek), float(&start), float(&end))
}

fn preview_sec(start_ms: i64, end_ms: i64, count: u32) -> f64 {
    float(&preview_target_sec(start_ms, end_ms, count))
}

#[test]
fn thumb_path_format() {
    let p = thumb_path("/cache", "ep01", 42, 3);
    assert_eq!(Path::new(&p), Path::new("/cache/ep01/thumbs/42_03.jpg"));
}

#[test]
fn thumb_path_zero_padded_n() {
    let p = thumb_path("/cache", "ep01", 1, 0);
    assert_eq!(Path::new(&p), Path::new("/cache/ep01/thumbs/1_00.jpg"));
}

#[test]
fn full_path_format() {
    let p = full_path("/cache", "ep01", 42, 3);
    assert_eq!(Path::new(&p), Path::new("/cache/ep01/full/42_03.jpg"));
}

#[test]
fn full_path_zero_padded_n() {
    let p = full_path("/cache", "ep01", 1, 0);
    assert_eq!(Path::new(&p), Path::new("/cache/ep01/full/1_00.jpg"));
}

#[test]
fn preview_path_format() {
    let p = preview_path("/cache", "ep01", 42);
    assert_eq!(Path::new(&p), Path::new("/cache/ep01/preview/42.jpg"));
}

#[test]
fn preview_path_different_ids() {
    let p1 = preview_path("/cache", "ep01", 1);
    let p2 = preview_path("/cache", "ep01", 999);
    assert_eq!(Path::new(&p1), Path::new("/cache/ep01/preview/1.jpg"));
    assert_eq!(Path::new(&p2), Path::new("/cache/ep01/preview/999.jpg"));
}

#[test]
fn ts_stem_normal() {
    assert_eq!(ts_stem("/nas/video/ep01.ts"), "ep01");
}

#[test]
fn ts_stem_no_extension() {
    assert_eq!(ts_stem("/nas/video/ep01"), "ep01");
}

#[test]
fn ts_stem_no_file_component_fallback() {
    assert_eq!(ts_stem(""), "unknown");
}

#[test]
fn frame_indices_empty_when_count_zero() {
    assert!(frame_indices(10_000, 15_000, 0, FPS_NUM, FPS_DEN).is_empty());
}

#[test]
fn frame_indices_count_one() {
    let frames = frame_indices(10_000, 15_000, 1, FPS_NUM, FPS_DEN);
    assert_eq!(frames.len(), 1);
}

#[test]
fn frame_indices_count_three_sorted() {
    let frames = frame_indices(10_000, 20_000, 3, FPS_NUM, FPS_DEN);
    assert_eq!(frames.len(), 3);
    assert!(frames[0] <= frames[1] && frames[1] <= frames[2]);
}

#[test]
fn frame_indices_first_and_last_differ_for_wide_window() {
    let frames = frame_indices(10_000, 15_000, 3, FPS_NUM, FPS_DEN);
    assert!(frames[0] < frames[2], "first and last frames should differ");
}

#[test]
fn frame_indices_negative_pts_clamps_to_zero() {
    let frames = frame_indices(-10_000, -5_000, 3, FPS_NUM, FPS_DEN);
    for f in &frames {
        assert_eq!(
            *f, 0,
            "frame index must clamp to 0 for negative relative time"
        );
    }
}

#[test]
fn frame_indices_zero_pts() {
    let frames = frame_indices(0, 5_000, 3, FPS_NUM, FPS_DEN);
    assert!(frames[0] > 0);
}

#[test]
fn caption_window_normal() {
    let (pre_seek, win_start, win_end) = window_sec(10_000, 20_000);
    assert!((pre_seek - 4.0).abs() < 1e-9);
    assert!((win_start - 11.5).abs() < 1e-9);
    assert!((win_end - 20.0).abs() < 1e-9);
}

#[test]
fn caption_window_pre_seek_clamped_to_zero() {
    let (pre_seek, _, _) = window_sec(2_000, 8_000);
    assert_eq!(pre_seek, 0.0);
}

#[test]
fn caption_window_short_caption_min_width() {
    let (_, win_start, win_end) = window_sec(10_000, 10_500);
    assert!((win_end - (win_start + 0.5)).abs() < 1e-9);
}

#[test]
fn caption_window_clamps_huge_pts() {
    let max_sec = MAX_PLAUSIBLE_PTS_MS as f64 / 1000.0;
    let (pre_seek, win_start, win_end) = window_sec(204_963_822_946_342_000, i64::MAX);
    for v in [pre_seek, win_start, win_end] {
        assert!(v.is_finite(), "component must stay finite");
        assert!(
            v >= 0.0 && v <= max_sec + 2.0,
            "component out of range: {v}"
        );
    }
    assert!(pre_seek <= max_sec);
}

#[test]
fn frame_indices_huge_pts_bounded() {
    let idx = frame_indices(204_963_822_946_342_000, i64::MAX, 6, 30, 1);
    let limit = (MAX_PLAUSIBLE_PTS_MS / 1000) as u64 * 30;
    assert!(
        idx.iter().all(|&i| i <= limit),
        "frame index escaped: {idx:?}"
    );
}

#[test]
fn preview_target_sec_huge_pts_bounded() {
    let t = preview_sec(204_963_822_946_342_000, i64::MAX, 6);
    let max_sec = MAX_PLAUSIBLE_PTS_MS as f64 / 1000.0;
    assert!(
        t.is_finite() && t >= 0.0 && t <= max_sec + 2.0,
        "target: {t}"
    );
}

#[test]
fn preview_target_is_middle_sample() {
    let t = preview_sec(10_000, 20_000, 6);
    let expected = 11.5 + 3.0 * (20.0 - 11.5) / 5.0;
    assert!((t - expected).abs() < 1e-9);
}

#[test]
fn preview_target_count_one_is_win_start() {
    let t = preview_sec(10_000, 20_000, 1);
    assert!((t - 11.5).abs() < 1e-9);
}

#[test]
fn select_expr_empty_frames() {
    assert_eq!(build_select_expr(&[]), "");
}

#[test]
fn select_expr_single_frame() {
    assert_eq!(build_select_expr(&[5]), "eq(n\\,5)");
}

#[test]
fn select_expr_multiple_frames_joined_with_plus() {
    assert_eq!(
        build_select_expr(&[0, 3, 7]),
        "eq(n\\,0)+eq(n\\,3)+eq(n\\,7)"
    );
}

#[test]
fn ffmpeg_args_ss_before_input() {
    let ts = "/mnt/video.ts";
    let p = CaptureParams {
        ts_path: ts,
        pre_seek: Double::whole(10),
        dur: Double::whole(5),
        frame_nums: &[0],
        sub_png: None,
        width: 640,
        height: 360,
        quality: 4,
        out_pattern: "/tmp/out.jpg",
    };
    let args = build_ffmpeg_args(&p);
    let ss_pos = args
        .iter()
        .position(|a| a == "-ss")
        .expect("-ss must be present");
    let i_pos = args
        .iter()
        .position(|a| a == "-i")
        .expect("-i must be present");
    assert!(ss_pos < i_pos, "-ss must come before -i");
}

#[test]
fn ffmpeg_args_no_sub_uses_vf() {
    let ts = "/mnt/video.ts";
    let p = CaptureParams {
        ts_path: ts,
        pre_seek: Double::whole(10),
        dur: Double::whole(5),
        frame_nums: &[0, 3],
        sub_png: None,
        width: 640,
        height: 360,
        quality: 4,
        out_pattern: "/tmp/out%d.jpg",
    };
    let args = build_ffmpeg_args(&p);
    assert!(
        args.contains(&"-vf".to_string()),
        "no-sub path must use -vf"
    );
    assert!(!args.contains(&"-filter_complex".to_string()));
    assert!(!args.contains(&"-i".to_string().repeat(2)));
    let vf_idx = args.iter().position(|a| a == "-vf").unwrap();
    assert!(
        args[vf_idx + 1].contains("eq(n\\,0)+eq(n\\,3)"),
        "select expr must be embedded in -vf"
    );
    let frames_idx = args
        .iter()
        .position(|a| a == "-frames:v")
        .expect("-frames:v must be present");
    assert_eq!(args[frames_idx + 1], "2");
}

#[test]
fn ffmpeg_args_filter_order_bwdif_select_scale() {
    let p = CaptureParams {
        ts_path: "/mnt/video.ts",
        pre_seek: Double::whole(10),
        dur: Double::whole(5),
        frame_nums: &[0, 3],
        sub_png: None,
        width: 640,
        height: 360,
        quality: 4,
        out_pattern: "/tmp/out%d.jpg",
    };
    let args = build_ffmpeg_args(&p);
    let vf_idx = args.iter().position(|a| a == "-vf").unwrap();
    let vf = &args[vf_idx + 1];
    let bwdif_pos = vf.find("bwdif").expect("bwdif in filter");
    let select_pos = vf.find("select").expect("select in filter");
    let scale_pos = vf.find("scale").expect("scale in filter");
    assert!(bwdif_pos < select_pos, "bwdif must precede select");
    assert!(select_pos < scale_pos, "select must precede scale");
}

#[test]
fn ffmpeg_args_with_sub_uses_filter_complex() {
    let ts = "/mnt/video.ts";
    let sub = "/tmp/sub.png";
    let p = CaptureParams {
        ts_path: ts,
        pre_seek: Double::whole(10),
        dur: Double::whole(5),
        frame_nums: &[2],
        sub_png: Some(sub),
        width: 1920,
        height: 1080,
        quality: 2,
        out_pattern: "/tmp/out.jpg",
    };
    let args = build_ffmpeg_args(&p);
    assert!(
        args.contains(&"-filter_complex".to_string()),
        "sub path must use -filter_complex"
    );
    assert!(!args.contains(&"-vf".to_string()));
    assert_eq!(args.iter().filter(|a| a.as_str() == "-i").count(), 2);
    assert!(args.contains(&"-map".to_string()));
    let frames_idx = args
        .iter()
        .position(|a| a == "-frames:v")
        .expect("-frames:v must be present");
    assert_eq!(args[frames_idx + 1], "1");
}

#[test]
fn preview_args_ss_before_input() {
    let args = build_preview_args("/mnt/video.ts", tenths(548), 640, 360, 4, "/tmp/p.jpg");
    let ss_pos = args.iter().position(|a| a == "-ss").expect("-ss present");
    let i_pos = args.iter().position(|a| a == "-i").expect("-i present");
    assert!(ss_pos < i_pos, "-ss must come before -i");
    assert_eq!(args[ss_pos + 1], "54.800000");
}

#[test]
fn preview_args_single_frame_no_select() {
    let args = build_preview_args("/mnt/video.ts", tenths(548), 640, 360, 4, "/tmp/p.jpg");
    let frames_idx = args
        .iter()
        .position(|a| a == "-frames:v")
        .expect("-frames:v must be present");
    assert_eq!(args[frames_idx + 1], "1");
    assert!(!args.iter().any(|a| a.contains("select")));
    assert!(!args.iter().any(|a| a.contains("setpts")));
    assert!(!args.contains(&"-t".to_string()));
}

#[test]
fn preview_args_scale_and_quality() {
    let args = build_preview_args("/mnt/video.ts", Double::whole(1), 640, 360, 4, "/tmp/p.jpg");
    let vf_idx = args.iter().position(|a| a == "-vf").expect("-vf present");
    assert!(args[vf_idx + 1].contains("scale=640:360"));
    assert!(args[vf_idx + 1].contains("bwdif=mode=send_frame"));
    let q_idx = args.iter().position(|a| a == "-q:v").expect("-q:v present");
    assert_eq!(args[q_idx + 1], "4");
    assert_eq!(args.last().unwrap(), "/tmp/p.jpg");
}
