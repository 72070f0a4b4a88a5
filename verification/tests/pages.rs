use captu::config::{db_url, default_concurrency, pool_size, Config, PathOverrides};
use captu::routes::capture::{check_caption, CaptionError};
use captu::routes::contact::{contact_page, middle_frame_number, ContactRow};
use captu::routes::episodes::{
    chosen_program, episodes_page, needs_subtitles, no_episodes, EpisodeItem, EpisodesParams,
    SubtitleItem,
};
use captu::routes::ingest::{
    file_list_item, file_page, files_page, files_plan, files_request, status_page, ErrorEntry,
    FileRow, FilesParams,
};
use captu::routes::search::{index_page, ProgramItem};
use captu::routes::statement::Bind;
use captu::routes::tags::{tag_to_add, tag_to_delete, TagForm};
use captu::routes::{fmt_bytes, fmt_ms, fmt_span, like_escape};

#[test]
fn sizes_as_floats_print_them() {
    fn by_float(bytes: u64) -> String {
        let units = ["B", "KiB", "MiB", "GiB"];
        let mut v = bytes as f64;
        let mut unit = 0;
        while v >= 1024.0 && unit < units.len() - 1 {
            v /= 1024.0;
            unit += 1;
        }
        if unit == 0 {
            format!("{} B", bytes)
        } else {
            format!("{:.1} {}", v, units[unit])
        }
    }
    let mut cases = vec![0, 1, 1023, 1024, 1280, 1792, 1075, 1_048_575, 1_073_741_823, u64::MAX];
    for shift in 10..64 {
        let b = 1u64 << shift;
        cases.extend([b - 1, b, b + 1, b + b / 4, b + b / 2 + 1, b / 20 * 21, b + 1025]);
    }
    let mut state = 88_172_645_463_325_252u64;
    for _ in 0..2000 {
        state ^= state << 13;
        state ^= state >> 7;
        state ^= state << 17;
        cases.push(state);
        cases.push(state >> (state % 60));
    }
    // Just below a tie that rounding to 53 bits reaches.
    cases.push((1u64 << 60) + (1 << 28) - 1);
    cases.push((3u64 << 60) + (3 << 28) - 1);
    for bytes in cases {
        assert_eq!(fmt_bytes(bytes), by_float(bytes), "{}", bytes);
    }
}

#[test]
fn times_and_spans() {
    assert_eq!(fmt_span(-1, 59_999), "00:00 – 00:59");
    for ms in [i64::MIN, -1, 0, 3_599_999, 3_600_000, 86_400_000, 86_400_001, i64::MAX] {
        let len = fmt_ms(ms).len();
        assert!(len == 5 || len == 8);
    }
}

#[test]
fn escaped_text_has_no_bare_wildcard() {
    let s = "\\%_\\\\_%a";
    let escaped: Vec<char> = like_escape(s).chars().collect();
    let mut plain = String::new();
    let mut i = 0;
    while i < escaped.len() {
        if escaped[i] == '\\' {
            i += 1;
        } else {
            assert!(escaped[i] != '%' && escaped[i] != '_');
        }
        plain.push(escaped[i]);
        i += 1;
    }
    assert_eq!(plain, s);
}

#[test]
fn captions_that_images_can_be_made_of() {
    assert_eq!(check_caption(None), Err(CaptionError::NotFound));
    assert_eq!(check_caption(Some((0, 1))), Ok((0, 1)));
    assert_eq!(check_caption(Some((0, 86_400_000))), Ok((0, 86_400_000)));
    for times in [(-1, 5), (5, 5), (6, 5), (0, 86_400_001), (0, i64::MAX)] {
        assert_eq!(
            check_caption(Some(times)),
            Err(CaptionError::ImplausibleTimes)
        );
    }
}

#[test]
fn the_page_of_a_caption() {
    let row = ContactRow {
        ts_file_id: 9,
        pts_start: 1_000,
        pts_end: 2_000,
        text: "字幕".to_string(),
        title: "".to_string(),
        episode_number: None,
        episode_title: Some("名".to_string()),
        selected_frame: 4,
    };
    let page = contact_page(5, row, 3, vec!["t".to_string()]);
    assert_eq!((page.caption_id, page.ts_file_id), (5, 9));
    assert_eq!(page.display_title, "名");
    assert_eq!(page.time_str, "00:01 – 00:02");
    assert_eq!(page.text, "字幕");
    assert_eq!(page.frames, vec![0, 1, 2]);
    assert_eq!(page.selected_frame, 4);
    assert_eq!(page.tags, vec!["t"]);
    assert_eq!(middle_frame_number(6), 3);
    assert_eq!(middle_frame_number(7), 3);
}

fn episode(n: Option<i64>) -> EpisodeItem {
    EpisodeItem {
        episode_number: n,
        episode_title: None,
        air_date: None,
    }
}

fn name(title: &str) -> SubtitleItem {
    SubtitleItem {
        title: title.to_string(),
        air_date: None,
    }
}

#[test]
fn episodes_or_their_names() {
    for (id, chosen) in [(None, None), (Some(0), None), (Some(-1), None), (Some(3), Some(3))] {
        assert_eq!(chosen_program(&EpisodesParams { program_id: id }), chosen);
    }
    let none = no_episodes();
    assert!(none.episodes.expect("a list").is_empty());
    assert!(none.subtitles.is_none());

    assert!(needs_subtitles(&[]));
    assert!(needs_subtitles(&[episode(None), episode(None)]));
    assert!(!needs_subtitles(&[episode(None), episode(Some(1))]));

    let numbered = episodes_page(vec![episode(None), episode(Some(1))], vec![name("x")]);
    assert_eq!(numbered.episodes.expect("episodes").len(), 2);
    assert!(numbered.subtitles.is_none());
    let named = episodes_page(vec![episode(None)], vec![name("x")]);
    assert!(named.episodes.is_none());
    assert_eq!(named.subtitles.expect("names")[0].title, "x");
    let bare = episodes_page(vec![episode(None)], Vec::new());
    assert!(bare.episodes.is_none() && bare.subtitles.is_none());
}

#[test]
fn how_far_reading_has_come() {
    let counts: Vec<(String, i64)> = [("done", 5), ("error", 1), ("odd", 9), ("pending", 2), ("done", 7)]
        .iter()
        .map(|(s, n)| (s.to_string(), *n))
        .collect();
    let page = status_page(
        &counts,
        vec!["a.ts".to_string()],
        vec![ErrorEntry {
            filename: "b.ts".to_string(),
            error_msg: "?".to_string(),
        }],
    );
    assert_eq!((page.pending, page.ingesting, page.done, page.error), (2, 0, 7, 1));
    assert_eq!(page.total, 10);
    assert_eq!(page.ingesting_files, vec!["a.ts"]);
    assert_eq!(page.recent_errors[0].filename, "b.ts");
}

fn values(binds: &[Bind]) -> Vec<String> {
    binds
        .iter()
        .map(|b| match b {
            Bind::Int(n) => n.to_string(),
            Bind::Text(s) => s.clone(),
        })
        .collect()
}

#[test]
fn the_list_of_recordings() {
    let request = files_request(FilesParams {
        q: Some(" a% ".to_string()),
        status: Some(" done ".to_string()),
        page: Some(3),
    });
    let plan = files_plan(&request);
    let conditions = "WHERE f.filename LIKE ? ESCAPE '\\' AND f.status = ?";
    assert!(plan.count_sql.ends_with(conditions));
    assert!(plan.main_sql.contains(conditions));
    assert_eq!(values(&plan.count_binds), ["%a\\%%", "done"]);
    assert_eq!(values(&plan.main_binds), ["%a\\%%", "done", "50", "150"]);
    assert_eq!(plan.main_sql.matches('?').count(), plan.main_binds.len());
    assert_eq!(plan.count_sql.matches('?').count(), plan.count_binds.len());
    let page = files_page(request, Vec::new(), 201);
    assert_eq!((page.q.as_str(), page.status_filter.as_str()), ("a%", "done"));
    assert!(page.has_prev && page.has_next);

    let request = files_request(FilesParams {
        q: None,
        status: None,
        page: Some(-1),
    });
    let plan = files_plan(&request);
    assert!(!plan.count_sql.contains("WHERE"));
    assert_eq!(values(&plan.main_binds), ["50", "0"]);
    let page = files_page(request, Vec::new(), 50);
    assert_eq!((page.page, page.total), (0, 50));
    assert!(!page.has_prev && !page.has_next);
}

fn file_row() -> FileRow {
    FileRow {
        id: 1,
        filename: "a.ts".to_string(),
        path: "/nas/a.ts".to_string(),
        status: "done".to_string(),
        error_msg: None,
        ingested_at: Some("2024-01-01 00:00:00".to_string()),
        episode_number: Some(2),
        episode_title: None,
        air_date: Some("2024-01-01".to_string()),
        title: "番組".to_string(),
        caption_count: 12,
    }
}

#[test]
fn what_is_shown_of_a_recording() {
    let item = file_list_item(file_row());
    assert_eq!(item.display_title, "番組 #2");
    assert_eq!((item.id, item.caption_count), (1, 12));
    assert_eq!(item.filename, "a.ts");
    let page = file_page(file_row());
    assert_eq!(page.file.display_title, "番組 #2");
    assert_eq!(page.file.path, "/nas/a.ts");
    assert_eq!(page.file.ingested_at.as_deref(), Some("2024-01-01 00:00:00"));
}

#[test]
fn tags_from_forms() {
    let form = |s: &str| TagForm { tag: s.to_string() };
    assert_eq!(tag_to_add(&form("  猫 ")).as_deref(), Some("猫"));
    assert_eq!(tag_to_add(&form(" \u{3000}")), None);
    assert_eq!(tag_to_delete(&form(" 猫")), "猫");
    assert_eq!(tag_to_delete(&form("  ")), "");
}

#[test]
fn the_page_to_search_from() {
    let page = index_page(vec![ProgramItem {
        id: 1,
        title: "a".to_string(),
    }]);
    assert_eq!(page.query, "");
    assert_eq!(page.programs[0].title, "a");
}

#[test]
fn settings() {
    let mut c = Config::default_dev();
    assert_eq!(c.paths.nas_mount, ".");
    assert_eq!(c.paths.ts_glob, "**/*.ts");
    assert_eq!(c.paths.cache_dir, "/tmp/captu_cache");
    assert_eq!(c.paths.db_path, "./data/captions.db");
    assert_eq!(c.capture.thumb_count, 6);
    assert_eq!((c.capture.width, c.capture.height, c.capture.jpeg_quality), (1920, 1080, 2));
    assert_eq!(c.ingest.schedule_cron, "0 * * * * *");
    assert!(c.ingest.run_on_startup && !c.ingest.require_captions);
    assert_eq!(c.ingest.concurrency, default_concurrency());
    assert_eq!(c.server.address(), "0.0.0.0:8000");
    c.apply_env(PathOverrides {
        nas_mount: Some("/nas".to_string()),
        ts_glob: None,
        db_path: Some("/db".to_string()),
        cache_dir: None,
    });
    assert_eq!(c.paths.nas_mount, "/nas");
    assert_eq!(c.paths.ts_glob, "**/*.ts");
    assert_eq!(c.paths.db_path, "/db");
    assert_eq!(c.paths.cache_dir, "/tmp/captu_cache");
    assert_eq!(db_url("/db"), "sqlite:///db?mode=rwc");
    assert_eq!(pool_size(3), 8);
}
