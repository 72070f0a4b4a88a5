use captu::ts::airtime::{bcd_byte, decode_mjd_bcd};
use captu::ts::epg::{fill_series_episode, parse_eit_section, EpgInfo};
use captu::ts::title::{
    extract_series_episode, parse_digits_at, strip_arib_icons, strip_broadcast_flags,
};

#[test]
fn bcd_byte_zero() {
    assert_eq!(bcd_byte(0x00), Some(0));
}

#[test]
fn bcd_byte_max() {
    assert_eq!(bcd_byte(0x99), Some(99));
}

#[test]
fn bcd_byte_lo_nibble_invalid() {
    assert_eq!(bcd_byte(0x0A), None);
}

#[test]
fn bcd_byte_hi_nibble_invalid() {
    assert_eq!(bcd_byte(0xA0), None);
}

#[test]
fn parse_digits_at_ascii() {
    assert_eq!(parse_digits_at("12"), Some((12, 2)));
}

#[test]
fn parse_digits_at_fullwidth() {
    assert_eq!(parse_digits_at("１２"), Some((12, 6)));
}

#[test]
fn parse_digits_at_mixed_ascii_fullwidth() {
    assert_eq!(parse_digits_at("1２3"), Some((123, 5)));
}

#[test]
fn parse_digits_at_no_digits() {
    assert_eq!(parse_digits_at("abc"), None);
    assert_eq!(parse_digits_at(""), None);
}

#[test]
fn parse_digits_at_5digit_truncates() {
    assert_eq!(parse_digits_at("12345"), Some((12345, 4)));
}

#[test]
fn strip_arib_icons_removes_boundary_chars() {
    let s = "\u{1F100}テスト\u{1F2FF}";
    assert_eq!(strip_arib_icons(s), "テスト");
}

#[test]
fn strip_arib_icons_outside_range_preserved() {
    let s = "\u{1F0FF}あ\u{1F300}";
    assert_eq!(strip_arib_icons(s), "\u{1F0FF}あ\u{1F300}");
}

#[test]
fn strip_arib_icons_empty() {
    assert_eq!(strip_arib_icons(""), "");
}

fn eit_with_title(title_b24: &[u8]) -> Vec<u8> {
    let name_len = title_b24.len();
    let desc_body_len = 3 + 1 + name_len;
    let desc_total = 2 + desc_body_len;

    let mut buf = Vec::with_capacity(14 + 12 + desc_total + 4);
    buf.extend_from_slice(&[
        0x4E, 0x00, 0x00, 0x00, 0x01, 0x00, 0x00, 0x00, 0x00, 0x00, 0x00, 0x00, 0x00, 0x4E,
    ]);
    buf.extend_from_slice(&[0x00, 0x01]);
    buf.extend_from_slice(&[0xFF, 0xFF, 0x00, 0x00, 0x00]);
    buf.extend_from_slice(&[0x00, 0x10, 0x00]);
    buf.push(((desc_total >> 8) & 0x0F) as u8);
    buf.push((desc_total & 0xFF) as u8);
    buf.push(0x4D);
    buf.push(desc_body_len as u8);
    buf.extend_from_slice(&[0x6A, 0x70, 0x6E]);
    buf.push(name_len as u8);
    buf.extend_from_slice(title_b24);
    buf.extend_from_slice(&[0x00, 0x00, 0x00, 0x00]);
    buf
}

#[test]
fn parse_eit_section_too_short() {
    assert!(parse_eit_section(&[0u8; 17]).is_none());
}

#[test]
fn parse_eit_section_empty_title_returns_none() {
    let buf = vec![0u8; 14 + 12 + 4];
    assert!(parse_eit_section(&buf).is_none());
}

#[test]
fn parse_eit_section_short_event_title() {
    let title_b24: &[u8] = &[0x1B, 0x28, 0x4A, 0x41, 0x42];
    let data = eit_with_title(title_b24);
    let epg = parse_eit_section(&data).expect("should return Some for non-empty title");
    assert_eq!(epg.title, "AB");
}

#[test]
fn parse_eit_section_series_descriptor_ep_bits() {
    let title_b24: &[u8] = &[0x1B, 0x28, 0x4A, 0x58];
    let name_len = title_b24.len();
    let desc_body_4d = 3 + 1 + name_len;
    let desc_total_4d = 2 + desc_body_4d;

    let desc_d5_correct: &[u8] = &[
        0xD5, 0x09,
        0x00, 0x01,
        0x00,
        0x00, 0x00,
        0x00,
        0x50,
        0x0C,
        0x00,
    ];
    let desc_total_d5 = desc_d5_correct.len();
    let desc_loop_len = desc_total_4d + desc_total_d5;

    let mut buf = Vec::new();
    buf.extend_from_slice(&[
        0x4E, 0x00, 0x00, 0x00, 0x01, 0x00, 0x00, 0x00, 0x00, 0x00, 0x00, 0x00, 0x00, 0x4E,
    ]);
    buf.extend_from_slice(&[0x00, 0x01]);
    buf.extend_from_slice(&[0xFF, 0xFF, 0x00, 0x00, 0x00]);
    buf.extend_from_slice(&[0x00, 0x10, 0x00]);
    buf.push(((desc_loop_len >> 8) & 0x0F) as u8);
    buf.push((desc_loop_len & 0xFF) as u8);
    buf.push(0x4D);
    buf.push(desc_body_4d as u8);
    buf.extend_from_slice(&[0x6A, 0x70, 0x6E]);
    buf.push(name_len as u8);
    buf.extend_from_slice(title_b24);
    buf.extend_from_slice(desc_d5_correct);
    buf.extend_from_slice(&[0x00, 0x00, 0x00, 0x00]);

    let epg = parse_eit_section(&buf).expect("should return Some");
    assert_eq!(epg.title, "X");
    assert_eq!(epg.episode_number, Some(5));
    assert_eq!(epg.last_episode, Some(12));
}

#[test]
fn parse_eit_section_desc_len_overflow_no_panic() {
    let mut buf = vec![0u8; 14 + 12 + 5 + 4];
    buf[25] = 0x05;
    buf[26] = 0x4D;
    buf[27] = 0x14;
    assert!(parse_eit_section(&buf).is_none());
}

#[test]
fn fill_series_episode_preserves_episode_from_descriptor() {
    let epg = EpgInfo {
        title: "シリーズ #7 話タイトル".to_string(),
        series_title: String::new(),
        sub_title: None,
        episode_number: Some(3),
        last_episode: None,
        series_name: None,
        air_datetime: None,
        detail: None,
    };
    let filled = fill_series_episode(epg);
    assert_eq!(
        filled.episode_number,
        Some(3),
        "descriptor ep must win over title ep"
    );
    assert_eq!(filled.series_title, "シリーズ");
}

#[test]
fn strip_flags_none() {
    assert_eq!(strip_broadcast_flags("普通のタイトル"), "普通のタイトル");
}

#[test]
fn strip_flags_single() {
    assert_eq!(strip_broadcast_flags("タイトル[字]"), "タイトル");
}

#[test]
fn strip_flags_multiple() {
    assert_eq!(strip_broadcast_flags("タイトル[字][デ][SS]"), "タイトル");
}

#[test]
fn strip_flags_with_spaces() {
    assert_eq!(strip_broadcast_flags("タイトル [字] "), "タイトル");
}

#[test]
fn strip_flags_does_not_strip_mid_bracket() {
    let s = "[special] タイトル";
    assert_eq!(strip_broadcast_flags(s), s.trim());
}

#[test]
fn strip_flags_close_bracket_only() {
    assert_eq!(strip_broadcast_flags("タイトル]"), "タイトル]");
}

#[test]
fn strip_flags_unclosed_open_bracket() {
    assert_eq!(strip_broadcast_flags("タイトル[字"), "タイトル[字");
}

#[test]
fn no_episode_returns_full_title_as_series() {
    let (series, ep, sub) = extract_series_episode("アニメタイトル");
    assert_eq!(series, "アニメタイトル");
    assert_eq!(ep, None);
    assert_eq!(sub, None);
}

#[test]
fn hash_ascii_episode() {
    let (series, ep, sub) = extract_series_episode("シリーズ名 #3 エピソードタイトル");
    assert_eq!(series, "シリーズ名");
    assert_eq!(ep, Some(3));
    assert_eq!(sub, Some("エピソードタイトル".to_string()));
}

#[test]
fn hash_fullwidth_episode() {
    let (series, ep, sub) = extract_series_episode("シリーズ名＃12サブタイトル");
    assert_eq!(series, "シリーズ名");
    assert_eq!(ep, Some(12));
    assert_eq!(sub, Some("サブタイトル".to_string()));
}

#[test]
fn dai_wa_episode() {
    let (series, ep, sub) = extract_series_episode("名探偵 第3話 黒の章");
    assert_eq!(series, "名探偵");
    assert_eq!(ep, Some(3));
    assert_eq!(sub, Some("黒の章".to_string()));
}

#[test]
fn dai_wa_no_sub() {
    let (series, ep, sub) = extract_series_episode("アニメ第5話");
    assert_eq!(series, "アニメ");
    assert_eq!(ep, Some(5));
    assert_eq!(sub, None);
}

#[test]
fn episode_with_broadcast_flags_stripped() {
    let (series, ep, _sub) = extract_series_episode("シリーズ #7 タイトル[字][デ]");
    assert_eq!(series, "シリーズ");
    assert_eq!(ep, Some(7));
}

#[test]
fn no_episode_space_split() {
    let (series, ep, sub) = extract_series_episode("番組名 特別編");
    assert_eq!(series, "番組名");
    assert_eq!(ep, None);
    assert_eq!(sub, Some("特別編".to_string()));
}

#[test]
fn extract_series_episode_dai_no_wa() {
    let (series, ep, sub) = extract_series_episode("アニメ第3");
    assert_eq!(series, "アニメ");
    assert_eq!(ep, Some(3));
    assert_eq!(sub, None);
}

#[test]
fn extract_series_episode_ideographic_space() {
    let (series, ep, sub) = extract_series_episode("番組名\u{3000}サブタイトル");
    assert_eq!(series, "番組名");
    assert_eq!(ep, None);
    assert_eq!(sub, Some("サブタイトル".to_string()));
}

#[test]
fn extract_series_episode_hash_non_digit() {
    let (series, ep, sub) = extract_series_episode("シリーズ #タグ");
    assert_eq!(ep, None);
    assert_eq!(series, "シリーズ");
    assert_eq!(sub, Some("#タグ".to_string()));
}

#[test]
fn extract_series_episode_empty_string() {
    let (series, ep, sub) = extract_series_episode("");
    assert_eq!(series, "");
    assert_eq!(ep, None);
    assert_eq!(sub, None);
}

#[test]
fn decode_mjd_bcd_known_date() {
    let data: [u8; 5] = [
        (51544u16 >> 8) as u8,
        (51544u16 & 0xFF) as u8,
        0x12,
        0x00,
        0x00,
    ];
    let dt = decode_mjd_bcd(&data).expect("should decode");
    assert_eq!(dt.date(), "2000-01-01");
    assert_eq!(dt.hour, 12);
}

#[test]
fn decode_mjd_bcd_too_short() {
    assert!(decode_mjd_bcd(&[0x00, 0x01, 0x12]).is_none());
}

#[test]
fn decode_mjd_bcd_invalid_marker() {
    let data: [u8; 5] = [0xFF, 0xFF, 0x00, 0x00, 0x00];
    assert!(decode_mjd_bcd(&data).is_none());
}

#[test]
fn decode_mjd_bcd_invalid_bcd_byte() {
    let data: [u8; 5] = [0xC8, 0x00, 0x9A, 0x00, 0x00];
    assert!(decode_mjd_bcd(&data).is_none());
}
