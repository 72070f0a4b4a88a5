use captu::routes::{display_title, fmt_bytes, fmt_ms, like_escape};
use captu::ts::pts::MAX_PLAUSIBLE_PTS_MS;

#[test]
fn fmt_bytes_plain_bytes() {
    assert_eq!(fmt_bytes(0), "0 B");
    assert_eq!(fmt_bytes(1023), "1023 B");
}

#[test]
fn fmt_bytes_kib_mib_gib() {
    assert_eq!(fmt_bytes(1024), "1.0 KiB");
    assert_eq!(fmt_bytes(1536), "1.5 KiB");
    assert_eq!(fmt_bytes(5 * 1024 * 1024), "5.0 MiB");
    assert_eq!(fmt_bytes(3 * 1024 * 1024 * 1024), "3.0 GiB");
}

#[test]
fn fmt_bytes_caps_at_gib() {
    assert_eq!(fmt_bytes(2048 * 1024 * 1024 * 1024), "2048.0 GiB");
}

#[test]
fn fmt_ms_zero() {
    assert_eq!(fmt_ms(0), "00:00");
}

#[test]
fn fmt_ms_negative_clamped_to_zero() {
    assert_eq!(fmt_ms(-1000), "00:00");
    assert_eq!(fmt_ms(i64::MIN), "00:00");
}

#[test]
fn fmt_ms_under_one_hour() {
    assert_eq!(fmt_ms(90_000), "01:30");
}

#[test]
fn fmt_ms_exactly_one_hour() {
    assert_eq!(fmt_ms(3_600_000), "01:00:00");
}

#[test]
fn fmt_ms_with_hours() {
    let ms = 2 * 3_600_000 + 5 * 60_000 + 9 * 1_000;
    assert_eq!(fmt_ms(ms), "02:05:09");
}

#[test]
fn fmt_ms_huge_value_returns_placeholder() {
    assert_eq!(fmt_ms(204_963_822_946_342_000), "--:--");
    assert_eq!(fmt_ms(i64::MAX), "--:--");
}

#[test]
fn fmt_ms_at_plausibility_boundary() {
    assert_eq!(fmt_ms(MAX_PLAUSIBLE_PTS_MS), "24:00:00");
    assert_eq!(fmt_ms(MAX_PLAUSIBLE_PTS_MS + 1), "--:--");
}

#[test]
fn fmt_ms_59s_boundary() {
    assert_eq!(fmt_ms(59_999), "00:59");
    assert_eq!(fmt_ms(60_000), "01:00");
}

#[test]
fn display_title_title_only() {
    assert_eq!(display_title("番組名", None, None), "番組名");
}

#[test]
fn display_title_empty_title() {
    assert_eq!(display_title("", Some(3), Some("タイトル")), "#3 タイトル");
}

#[test]
fn display_title_all_parts() {
    assert_eq!(
        display_title("シリーズ名", Some(12), Some("サブタイトル")),
        "シリーズ名 #12 サブタイトル"
    );
}

#[test]
fn display_title_sub_trimmed() {
    assert_eq!(display_title("番組", None, Some("  サブ  ")), "番組 サブ");
}

#[test]
fn display_title_blank_sub_omitted() {
    assert_eq!(display_title("番組", None, Some("   ")), "番組");
}

#[test]
fn like_escape_percent() {
    assert_eq!(like_escape("100%"), "100\\%");
}

#[test]
fn like_escape_underscore() {
    assert_eq!(like_escape("a_b"), "a\\_b");
}

#[test]
fn like_escape_backslash() {
    assert_eq!(like_escape("a\\b"), "a\\\\b");
}

#[test]
fn like_escape_combined() {
    assert_eq!(like_escape("10% off_\\special"), "10\\% off\\_\\\\special");
}

#[test]
fn like_escape_injection_attempt() {
    assert_eq!(like_escape("%all%"), "\\%all\\%");
}

#[test]
fn like_escape_plain_string() {
    assert_eq!(like_escape("hello"), "hello");
}
