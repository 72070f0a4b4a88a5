use captu::ingest::normalize_title;

#[test]
fn normalize_title_fullwidth_to_halfwidth() {
    assert_eq!(normalize_title("ＡＢＣ１２３"), "abc123");
}

#[test]
fn normalize_title_lowercase() {
    assert_eq!(normalize_title("ABC"), "abc");
}

#[test]
fn normalize_title_mixed() {
    assert_eq!(normalize_title("ＳＨＩＲＯ　the hero"), "shiro the hero");
}

#[test]
fn normalize_title_idempotent() {
    let s = "アニメ abc 123";
    assert_eq!(normalize_title(&normalize_title(s)), normalize_title(s));
}

#[test]
fn normalize_title_empty() {
    assert_eq!(normalize_title(""), "");
}
