use captu::routes::search::{
    attach_tags, empty_as_none_i64, search_plan, search_request, search_result, tags_sql,
    QueryError, SearchParams, SearchRow, SearchRun, SearchStep,
};
use captu::routes::statement::Bind;

fn params() -> SearchParams {
    SearchParams {
        q: None,
        program_id: None,
        ep: None,
        sub: None,
        date_from: None,
        date_to: None,
        tags: None,
        filter: None,
        page: None,
    }
}

fn shown(binds: &[Bind]) -> Vec<String> {
    binds
        .iter()
        .map(|b| match b {
            Bind::Int(n) => n.to_string(),
            Bind::Text(s) => format!("'{}'", s),
        })
        .collect()
}

fn row(id: i64) -> SearchRow {
    SearchRow {
        caption_id: id,
        text: "こんにちは".to_string(),
        pts_start_ms: 61_000,
        pts_end_ms: 3_600_000,
        air_date: Some("2024-01-02".to_string()),
        episode_number: Some(3),
        episode_title: Some(" 黒 ".to_string()),
        title: "番組".to_string(),
        has_thumb: 1,
        preview_frame: 2,
    }
}

#[test]
fn every_condition_in_its_place() {
    let request = search_request(
        SearchParams {
            q: Some(" 50% ".to_string()),
            program_id: Some(4),
            ep: Some(-1),
            sub: Some("a_b".to_string()),
            date_from: Some("2024-01-01".to_string()),
            date_to: Some("2024-12-31".to_string()),
            tags: Some("x\n\n y ".to_string()),
            filter: Some("pending".to_string()),
            page: Some(2),
        },
        6,
    );
    assert!(request.asks());
    let plan = search_plan(&request);
    let conditions = "WHERE c.text LIKE ? ESCAPE '\\' AND f.program_id = ? \
        AND f.episode_number = ? AND f.episode_title LIKE ? ESCAPE '\\' AND f.air_date >= ? \
        AND f.air_date <= ? \
        AND EXISTS(SELECT 1 FROM tags tg WHERE tg.caption_id = c.id AND tg.tag = ?) \
        AND EXISTS(SELECT 1 FROM tags tg WHERE tg.caption_id = c.id AND tg.tag = ?) \
        AND NOT EXISTS(SELECT 1 FROM thumbnails th WHERE th.caption_id = c.id)";
    assert_eq!(
        plan.count_sql,
        format!(
            "SELECT COUNT(*) FROM captions c JOIN ts_files f ON c.ts_file_id = f.id \
             LEFT JOIN programs p ON f.program_id = p.id {}",
            conditions
        )
    );
    assert!(plan.main_sql.contains(conditions));
    assert!(plan
        .main_sql
        .ends_with(" ORDER BY f.air_date DESC, f.episode_number, c.pts_start LIMIT ? OFFSET ?"));
    let values = [
        "'%50\\%%'",
        "4",
        "-1",
        "'%a\\_b%'",
        "'2024-01-01'",
        "'2024-12-31'",
        "'x'",
        "'y'",
    ];
    assert_eq!(shown(&plan.count_binds), values);
    let mut all = vec!["3"];
    all.extend_from_slice(&values);
    all.extend_from_slice(&["50", "100"]);
    assert_eq!(shown(&plan.main_binds), all);
    assert_eq!(plan.count_sql.matches('?').count(), plan.count_binds.len());
    assert_eq!(plan.main_sql.matches('?').count(), plan.main_binds.len());
}

#[test]
fn no_condition_at_all() {
    let request = search_request(
        SearchParams {
            filter: Some("whatever".to_string()),
            ..params()
        },
        6,
    );
    assert!(request.asks());
    let plan = search_plan(&request);
    assert!(!plan.count_sql.contains("WHERE"));
    assert!(plan.count_binds.is_empty());
    assert_eq!(shown(&plan.main_binds), ["3", "50", "0"]);
}

#[test]
fn a_blank_episode_name_filters_nothing() {
    let request = search_request(
        SearchParams {
            sub: Some("  ".to_string()),
            ..params()
        },
        6,
    );
    assert!(request.asks());
    assert!(search_plan(&request).count_binds.is_empty());
}

#[test]
fn nothing_asked_nothing_searched() {
    for p in [
        params(),
        SearchParams {
            q: Some(" a ".to_string()),
            tags: Some(" \n ".to_string()),
            filter: Some("all".to_string()),
            page: Some(9),
            ..params()
        },
    ] {
        let (_, step) = SearchRun::start(p, 6);
        match step {
            SearchStep::Done(page) => {
                assert!(page.results.is_empty());
                assert_eq!((page.page, page.total, page.loaded), (0, 0, 0));
                assert!(!page.has_next);
            }
            _ => panic!("nothing was asked for"),
        }
    }
}

#[test]
fn a_search_from_start_to_page() {
    let (mut run, step) = SearchRun::start(
        SearchParams {
            q: Some("あ".to_string()),
            page: Some(1),
            ..params()
        },
        6,
    );
    assert!(matches!(step, SearchStep::Count { .. }));
    let step = run.counted(101);
    assert!(matches!(step, SearchStep::Rows { .. }));
    match run.found(vec![row(7), row(8)]) {
        SearchStep::Tags { sql } => assert_eq!(
            sql,
            "SELECT caption_id, tag FROM tags WHERE caption_id IN (7,8) ORDER BY tag"
        ),
        _ => panic!("tags come next"),
    }
    let page = run.tagged(&[(8, "a".to_string()), (7, "b".to_string()), (8, "c".to_string())]);
    assert_eq!((page.page, page.total, page.loaded), (1, 101, 100));
    assert!(page.has_next);
    assert_eq!(page.results[0].tags, vec!["b"]);
    assert_eq!(page.results[1].tags, vec!["a", "c"]);
    let r = &page.results[0];
    assert_eq!(r.id, 7);
    assert_eq!(r.time_str, "01:01 – 01:00:00");
    assert_eq!(r.display_title, "番組 #3 黒");
    assert_eq!(r.air_date.as_deref(), Some("2024-01-02"));
    assert!(r.has_thumb);
    assert_eq!(r.preview_frame, 2);
}

#[test]
fn a_search_that_finds_nothing() {
    let ask = SearchParams {
        ep: Some(1),
        ..params()
    };
    let (mut run, _) = SearchRun::start(ask.clone(), 6);
    match run.counted(0) {
        SearchStep::Done(page) => {
            assert!(page.results.is_empty());
            assert_eq!((page.total, page.loaded), (0, 0));
        }
        _ => panic!("nothing was counted"),
    }
    let (mut run, _) = SearchRun::start(
        SearchParams {
            page: Some(50),
            ..ask
        },
        6,
    );
    run.counted(3);
    match run.found(Vec::new()) {
        SearchStep::Done(page) => {
            assert_eq!((page.page, page.total, page.loaded), (50, 3, 3));
            assert!(!page.has_next);
        }
        _ => panic!("nothing was found"),
    }
}

#[test]
fn pages_are_held_within_bounds() {
    for (given, page) in [(None, 0), (Some(-5), 0), (Some(7), 7), (Some(i64::MAX), 1_000_000)] {
        let request = search_request(
            SearchParams {
                page: given,
                ..params()
            },
            5,
        );
        assert_eq!(request.page, page);
        assert_eq!(request.rep_frame, 2);
    }
}

#[test]
fn tags_of_captions() {
    assert_eq!(
        tags_sql(&[]),
        "SELECT caption_id, tag FROM tags WHERE caption_id IN () ORDER BY tag"
    );
    assert_eq!(
        tags_sql(&[-3]),
        "SELECT caption_id, tag FROM tags WHERE caption_id IN (-3) ORDER BY tag"
    );
    let results = vec![search_result(row(1)), search_result(row(2)), search_result(row(1))];
    let tagged = attach_tags(results, &[(1, "x".to_string())]);
    assert_eq!(tagged[0].tags, vec!["x"]);
    assert!(tagged[1].tags.is_empty());
    assert!(tagged[2].tags.is_empty());
}

#[test]
fn numbers_that_are_none() {
    assert_eq!(empty_as_none_i64(Some("1e3")), Err(QueryError::NotANumber));
    assert_eq!(empty_as_none_i64(Some(" ")), Err(QueryError::NotANumber));
    assert_eq!(
        empty_as_none_i64(Some("9223372036854775808")),
        Err(QueryError::NotANumber)
    );
    assert_eq!(empty_as_none_i64(Some("+5")), Ok(Some(5)));
}
