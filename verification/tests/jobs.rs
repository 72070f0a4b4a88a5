use captu::config::Config;
use captu::media::capture::{
    clear_caption_cache, full_image_path, full_job, pes_blob_path, preview_job, sub_path,
    thumbnail_job, SubMode,
};

#[test]
fn the_thumbnails_of_a_caption() {
    let cfg = Config::default_dev().capture;
    let job = thumbnail_job(&cfg, "/c", "/nas/ep.ts", 7, 10_000, 20_000, Some("/c/ep/sub/7.png"));
    assert_eq!(job.dir, "/c/ep/thumbs");
    assert_eq!(
        job.args,
        vec![
            "-y",
            "-ss",
            "4.000000",
            "-t",
            "16.500000",
            "-i",
            "file:/nas/ep.ts",
            "-i",
            "/c/ep/sub/7.png",
            "-filter_complex",
            "[0:v]bwdif=mode=send_frame,select='eq(n\\,225)+eq(n\\,276)+eq(n\\,327)+eq(n\\,378)\
             +eq(n\\,429)+eq(n\\,480)',setpts=N/FRAME_RATE/TB,scale=640:360,setsar=1[v];\
             [1:v]scale=640:360[s];[v][s]overlay=eof_action=repeat[out]",
            "-map",
            "[out]",
            "-fps_mode",
            "vfr",
            "-frames:v",
            "6",
            "-q:v",
            "4",
            "/c/ep/thumbs/_tmp_%d.jpg"
        ]
    );
    assert_eq!(job.temporary[0], "/c/ep/thumbs/_tmp_1.jpg");
    assert_eq!(job.outputs[0], "/c/ep/thumbs/7_00.jpg");
    assert_eq!(job.temporary.len(), 6);
    assert_eq!(job.outputs[5], "/c/ep/thumbs/7_05.jpg");
}

#[test]
fn full_images() {
    let cfg = Config::default_dev().capture;
    let sub = Some("/c/ep/sub/7.png");
    let burned = full_job(&cfg, "/c", "/nas/ep.ts", 7, 10_000, 20_000, 2, SubMode::Burned, sub);
    assert_eq!(burned.dir, "/c/ep/full");
    assert_eq!(burned.output, "/c/ep/full/7_02.jpg");
    assert!(burned.args.contains(&"-filter_complex".to_string()));
    assert!(burned.args.iter().any(|a| a.contains("'eq(n\\,327)'")));
    assert!(burned.args.iter().any(|a| a.contains("scale=1920:1080")));
    let raw = full_job(&cfg, "/c", "/nas/ep.ts", 7, 10_000, 20_000, 2, SubMode::Raw, sub);
    assert_eq!(raw.output, "/c/ep/full/7_02_nosub.jpg");
    assert!(!raw.args.contains(&"-filter_complex".to_string()));
    assert_eq!(raw.args.last(), Some(&raw.output));
    assert_eq!(
        full_image_path("/c", "ep", 7, 2, SubMode::Raw),
        "/c/ep/full/7_02_nosub.jpg"
    );
    // A frame that the caption does not have.
    let beyond = full_job(&cfg, "/c", "/nas/ep.ts", 7, 10_000, 20_000, 9, SubMode::Raw, None);
    assert!(beyond.args.iter().any(|a| a.contains("'eq(n\\,0)'")));
}

#[test]
fn the_image_that_stands_for_a_caption() {
    let cfg = Config::default_dev().capture;
    let job = preview_job(&cfg, "/c", "/", -7, 10_000, 20_000);
    assert_eq!(job.dir, "/c/unknown/preview");
    assert_eq!(job.output, "/c/unknown/preview/-7.jpg");
    assert_eq!(job.args[2], "16.600000");
    assert_eq!(job.args.last(), Some(&job.output));
}

#[test]
fn what_is_removed_to_make_images_again() {
    let doomed = clear_caption_cache("/c", "ep", 4);
    assert_eq!(doomed.patterns, vec!["/c/ep/thumbs/4_*.jpg", "/c/ep/full/4_*.jpg"]);
    assert_eq!(doomed.files, vec!["/c/ep/sub/4.png", "/c/ep/preview/4.jpg"]);
    assert_eq!(sub_path("/c", "ep", 4), "/c/ep/sub/4.png");
    assert_eq!(pes_blob_path("/c", "ep"), "/c/ep/captions.pes");
    let pattern = glob::Pattern::new(&doomed.patterns[1]).unwrap();
    assert!(pattern.matches("/c/ep/full/4_03.jpg"));
    assert!(pattern.matches("/c/ep/full/4_03_nosub.jpg"));
    assert!(!pattern.matches("/c/ep/full/42_03.jpg"));
    assert!(!pattern.matches("/c/ep/full/14_03.jpg"));
}
