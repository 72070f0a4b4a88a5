use captu::routes::search::{
    active_q, empty_as_none_i64, empty_as_none_string, page_window, tag_list, MAX_PAGE, PAGE_SIZE,
};

fn de_i64(opt: Option<&str>) -> Option<i64> {
    empty_as_none_i64(opt).expect("a number")
}

#[test]
fn empty_i64_absent_gives_none() {
    assert_eq!(de_i64(None), None);
}

#[test]
fn empty_i64_empty_string_gives_none() {
    assert_eq!(de_i64(Some("")), None);
}

#[test]
fn empty_i64_valid_number() {
    assert_eq!(de_i64(Some("42")), Some(42));
}

#[test]
fn empty_i64_negative() {
    assert_eq!(de_i64(Some("-1")), Some(-1));
}

#[test]
fn empty_i64_parse_error() {
    assert!(empty_as_none_i64(Some("abc")).is_err());
}

fn de_str(opt: Option<&str>) -> Option<String> {
    empty_as_none_string(opt)
}

#[test]
fn empty_string_absent_gives_none() {
    assert_eq!(de_str(None), None);
}

#[test]
fn empty_string_gives_none() {
    assert_eq!(de_str(Some("")), None);
}

#[test]
fn blank_string_gives_none() {
    assert_eq!(de_str(Some("   ")), None);
}

#[test]
fn trimmed_string_returned() {
    assert_eq!(de_str(Some("  abc  ")), Some("abc".to_string()));
}

#[test]
fn nonempty_string_passthrough() {
    assert_eq!(de_str(Some("hello")), Some("hello".to_string()));
}

#[test]
fn active_q_single_ascii_char_inactive() {
    let q = "a";
    assert!(q.len() < 2, "single ASCII char should have len < 2");
    assert!(active_q(q).is_none());
}

#[test]
fn active_q_single_japanese_char_active() {
    let q = "あ";
    assert!(q.len() >= 2, "single Japanese char should have len >= 2");
    assert_eq!(active_q(q).as_deref(), Some("あ"));
}

#[test]
fn active_q_two_ascii_chars_active() {
    let q = "ab";
    assert!(q.len() >= 2);
    assert_eq!(active_q(q).as_deref(), Some("ab"));
}

#[test]
fn tag_list_splits_on_newline() {
    assert_eq!(tag_list("a\nb\nc"), vec!["a", "b", "c"]);
}

#[test]
fn tag_list_trims_whitespace() {
    assert_eq!(tag_list(" tag1 \n  tag2  "), vec!["tag1", "tag2"]);
}

#[test]
fn tag_list_drops_empty_lines() {
    assert_eq!(tag_list("a\n\nb"), vec!["a", "b"]);
}

#[test]
fn tag_list_empty_input() {
    let result: Vec<String> = tag_list("");
    assert!(result.is_empty());
}

#[test]
fn page_window_first_page() {
    let total = 120;
    let (loaded, has_next, offset) = page_window(0, total);
    assert_eq!(loaded, PAGE_SIZE);
    assert!(has_next);
    assert_eq!(offset, 0);
}

#[test]
fn page_window_last_page() {
    let total = 120;
    let (loaded, has_next, offset) = page_window(2, total);
    assert_eq!(loaded, total);
    assert!(!has_next);
    assert_eq!(offset, 2 * PAGE_SIZE);
}

#[test]
fn page_window_partial_last_page() {
    let total = 75;
    let (loaded, has_next, offset) = page_window(1, total);
    assert_eq!(loaded, total);
    assert!(!has_next);
    assert_eq!(offset, PAGE_SIZE);
}

#[test]
fn page_window_page_beyond_total() {
    let total = 10;
    let (loaded, has_next, offset) = page_window(100, total);
    assert_eq!(loaded, total);
    assert!(!has_next);
    assert_eq!(offset, 100 * PAGE_SIZE);
}

#[test]
fn page_window_max_page_no_overflow() {
    let total = i64::MAX;
    let (loaded, has_next, offset) = page_window(MAX_PAGE, total);
    assert!(loaded > 0);
    assert!(offset >= 0, "offset must not wrap to negative");
    let _ = has_next;
}

#[test]
fn page_window_huge_page_no_overflow() {
    let total = 100;
    let (loaded, has_next, offset) = page_window(i64::MAX, total);
    assert_eq!(loaded, total);
    assert!(!has_next);
    assert!(offset >= 0, "offset must not wrap to negative");
}
