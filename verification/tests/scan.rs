use captu::cli::{apply_args, has_flag, option_value};
use captu::config::{Config, IngestConfig};
use captu::ingest::{
    file_label, filter_path, ingest_record, may_reconcile, missing_ids, needs_caption_file,
    normalize_title, program_key, scan_pattern, scan_verdict, schedule, worker_count, ScanAction,
    ScanRun, ScanVerdict,
};
use captu::ts::airtime::AirDateTime;
use captu::ts::epg::EpgInfo;

fn strings(list: &[&str]) -> Vec<String> {
    list.iter().map(|s| s.to_string()).collect()
}

#[test]
fn verdicts_on_files() {
    let some = |v: &[bool]| v.iter().map(|b| Some(*b)).collect::<Vec<_>>();
    assert_eq!(scan_verdict(true, &[], &[]), ScanVerdict::Processed);
    assert_eq!(scan_verdict(false, &[], &[]), ScanVerdict::Accepted);
    assert_eq!(
        scan_verdict(false, &some(&[false, true]), &some(&[true])),
        ScanVerdict::Excluded
    );
    assert_eq!(
        scan_verdict(false, &some(&[false]), &some(&[false])),
        ScanVerdict::NotIncluded
    );
    assert_eq!(
        scan_verdict(false, &[None], &some(&[false, true])),
        ScanVerdict::Accepted
    );
    // Patterns that are none do not count, not even as being there.
    assert_eq!(scan_verdict(false, &[], &[None]), ScanVerdict::Accepted);
}

#[test]
fn patterns_and_paths() {
    let path = "/nas/anime/skip_me.ts";
    let filter = |exclude: &[&str], only: &[&str]| {
        filter_path(
            path,
            "/nas",
            &strings(&["/nas/other.ts"]),
            &strings(exclude),
            &strings(only),
        )
    };
    assert_eq!(filter(&[], &[]), ScanVerdict::Accepted);
    // Patterns to exclude files match whole paths.
    assert_eq!(filter(&["**/*skip*.ts"], &[]), ScanVerdict::Excluded);
    assert_eq!(filter(&["/nas/anime/*"], &[]), ScanVerdict::Excluded);
    assert_eq!(filter(&["anime/*"], &[]), ScanVerdict::Accepted);
    // Patterns to include files match paths below the mounted folder.
    assert_eq!(filter(&[], &["anime/*"]), ScanVerdict::Accepted);
    assert_eq!(filter(&["skip*.ts"], &["**/anime/*"]), ScanVerdict::Accepted);
    assert_eq!(filter(&[], &["/nas/anime/*"]), ScanVerdict::NotIncluded);
    assert_eq!(filter(&[], &["**/drama/*"]), ScanVerdict::NotIncluded);
    assert_eq!(filter(&["**/*skip*.ts"], &["drama/*"]), ScanVerdict::NotIncluded);
    assert_eq!(filter(&["***"], &["a**b"]), ScanVerdict::Accepted);
    assert_eq!(
        filter_path(path, "/nas", &strings(&[path]), &[].to_vec(), &[].to_vec()),
        ScanVerdict::Processed
    );
}

#[test]
fn files_at_the_top_of_the_folder() {
    let verdict = |name: &str, exclude: &[&str], only: &[&str]| {
        filter_path(
            &format!("/tmp/nas/{}", name),
            "/tmp/nas/",
            &strings(&[]),
            &strings(exclude),
            &strings(only),
        )
    };
    assert_eq!(verdict("accept.ts", &[], &["**/*accept*"]), ScanVerdict::Accepted);
    assert_eq!(verdict("reject.ts", &[], &["**/*accept*"]), ScanVerdict::NotIncluded);
    assert_eq!(verdict("keep.ts", &["**/*skip*.ts"], &[]), ScanVerdict::Accepted);
    assert_eq!(verdict("skip_me.ts", &["**/*skip*.ts"], &[]), ScanVerdict::Excluded);
}

#[test]
fn a_second_scan_queues_nothing() {
    let mut known: Vec<String> = strings(&["/n/a.ts"]);
    for expected in [2, 0] {
        let mut run = ScanRun::new(
            strings(&["/n/a.ts", "/n/b.ts", "/n/no.ts", "/n/c.ts"]),
            "/n",
            Vec::new(),
            &settings(false),
        );
        let count = loop {
            match run.next() {
                ScanAction::Queue { path, .. } => {
                    let new = !known.contains(&path);
                    if new {
                        known.push(path);
                    }
                    run.queued(new as u64);
                }
                ScanAction::Done { queued } => break queued,
                ScanAction::FindCaptions { .. } => panic!("captions are not asked for"),
            }
        };
        assert_eq!(count, expected);
        assert_eq!(known, strings(&["/n/a.ts", "/n/b.ts", "/n/c.ts"]));
    }
}

fn settings(require_captions: bool) -> IngestConfig {
    IngestConfig {
        require_captions,
        filter_exclude: strings(&["**/no*.ts"]),
        ..Config::default_dev().ingest
    }
}

#[test]
fn a_scan_without_need_of_captions() {
    let mut run = ScanRun::new(
        strings(&["/n/a.ts", "/n/no.ts", "/n/done.ts", "/n/b.ts"]),
        "/n",
        strings(&["/n/done.ts"]),
        &settings(false),
    );
    let mut queued = Vec::new();
    loop {
        match run.next() {
            ScanAction::Queue { path, filename } => {
                assert!(path.ends_with(&filename));
                // The first file is known already.
                run.queued(if queued.is_empty() { 0 } else { 1 });
                queued.push(path);
            }
            ScanAction::Done { queued } => {
                assert_eq!(queued, 1);
                break;
            }
            ScanAction::FindCaptions { .. } => panic!("captions are not asked for"),
        }
    }
    assert_eq!(queued, vec!["/n/a.ts", "/n/b.ts"]);
}

#[test]
fn a_scan_that_needs_captions() {
    let mut run = ScanRun::new(
        strings(&["/n/a.ts", "/n/b.ts"]),
        "/n",
        Vec::new(),
        &settings(true),
    );
    match run.next() {
        ScanAction::FindCaptions { path } => assert_eq!(path, "/n/a.ts"),
        _ => panic!("captions are asked for"),
    }
    assert!(run.searched(None).is_none());
    match run.next() {
        ScanAction::FindCaptions { path } => assert_eq!(path, "/n/b.ts"),
        _ => panic!("captions are asked for"),
    }
    match run.searched(Some(0x130)) {
        Some(ScanAction::Queue { path, filename }) => {
            assert_eq!((path.as_str(), filename.as_str()), ("/n/b.ts", "b.ts"))
        }
        _ => panic!("the file has captions"),
    }
    run.queued(1);
    assert!(matches!(run.next(), ScanAction::Done { queued: 1 }));
}

#[test]
fn files_that_are_gone() {
    assert!(!may_reconcile(false, 5));
    assert!(!may_reconcile(true, 0));
    assert!(may_reconcile(true, 1));
    assert_eq!(missing_ids(&[(1, true), (2, false), (3, true), (4, false)]), vec![2, 4]);
    assert!(missing_ids(&[]).is_empty());
    assert!(needs_caption_file(true, true, true, false));
    assert!(!needs_caption_file(false, true, true, false));
    assert!(!needs_caption_file(true, false, true, false));
    assert!(!needs_caption_file(true, true, false, false));
    assert!(!needs_caption_file(true, true, true, true));
}

fn epg(series: &str, title: &str) -> EpgInfo {
    EpgInfo {
        title: title.to_string(),
        series_title: series.to_string(),
        sub_title: Some("サブ".to_string()),
        episode_number: Some(4095),
        last_episode: None,
        series_name: None,
        air_datetime: Some(AirDateTime {
            year: 2024,
            month: 2,
            day: 29,
            hour: 23,
            minute: 0,
            second: 0,
        }),
        detail: None,
    }
}

#[test]
fn what_is_recorded_of_a_file() {
    let r = ingest_record(&epg("ＡＢＣ", "ＡＢＣ #1"));
    assert_eq!(r.program, Some(("ＡＢＣ".to_string(), "abc".to_string())));
    assert_eq!(r.episode_number, Some(4095));
    assert_eq!(r.episode_title.as_deref(), Some("サブ"));
    assert_eq!(r.air_date.as_deref(), Some("2024-02-29"));
    assert_eq!(program_key(&epg("", "Title")).as_deref(), Some("Title"));
    assert_eq!(program_key(&epg("", "(unknown)")), None);
    assert_eq!(program_key(&epg("", "")), None);
}

#[test]
fn titles_in_one_form() {
    assert_eq!(normalize_title("ｶﾞンダム Ⅱ"), "ガンダム ii");
    assert_eq!(normalize_title("ÀÉ"), "àé");
}

#[test]
fn small_settings() {
    assert_eq!(worker_count(0), 1);
    assert_eq!(worker_count(4), 4);
    assert_eq!(scan_pattern(&Config::default_dev().paths), "./**/*.ts");
    assert_eq!(schedule("  "), None);
    assert_eq!(schedule(" 0 0 * * * * ").as_deref(), Some("0 0 * * * *"));
    assert_eq!(file_label("/a/b.ts"), "b.ts");
    assert_eq!(file_label("/"), "");
}

#[test]
fn the_command_line() {
    let args = strings(&[
        "ingest", "--scan", "/nas", "--db", "--cache-dir", "/c", "--concurrency", "7", "--scan",
        "/late", "--config",
    ]);
    assert_eq!(option_value(&args, "--scan").map(String::as_str), Some("/nas"));
    assert_eq!(option_value(&args, "--db").map(String::as_str), Some("--cache-dir"));
    assert_eq!(option_value(&args, "--config"), None);
    assert!(has_flag(&args, "--config"));
    assert!(!has_flag(&args, "--help"));
    let mut c = Config::default_dev();
    apply_args(&mut c, &args);
    assert_eq!(c.paths.nas_mount, "/nas");
    assert_eq!(c.paths.db_path, "--cache-dir");
    assert_eq!(c.paths.cache_dir, "/c");
    assert_eq!(c.ingest.concurrency, 7);
    apply_args(&mut c, &strings(&["--concurrency", "many"]));
    assert_eq!(c.ingest.concurrency, 7);
}
