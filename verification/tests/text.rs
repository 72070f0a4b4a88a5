use captu::cli::format_ms;
use captu::text::{
    chars_of, is_white_space, parse_i64, parse_u32, push_dec, push_padded_dec, push_signed_dec,
    push_signed_padded_dec, same_text, split_text, string_of, trim_text,
};

#[test]
fn white_space_is_that_of_the_standard_library() {
    for code in 0..=0x10FFFFu32 {
        if let Some(c) = char::from_u32(code) {
            assert_eq!(is_white_space(c), c.is_whitespace(), "{:?}", c);
        }
    }
}

#[test]
fn trimming() {
    for s in ["", " ", "a", " a ", "\u{3000}あ\u{3000}", "\t a b \n", "  \u{2003}  "] {
        assert_eq!(trim_text(s), s.trim());
        assert_eq!(trim_text(&trim_text(s)), s.trim());
    }
}

#[test]
fn characters_and_back() {
    let s = "aあ🈓";
    assert_eq!(chars_of(s), vec!['a', 'あ', '🈓']);
    assert_eq!(string_of(&chars_of(s)), s);
    assert!(same_text(s, "aあ🈓"));
    assert!(!same_text(s, "aあ"));
}

#[test]
fn decimals() {
    for n in [0, 9, 10, 99, 100, 12_345, u64::MAX] {
        let mut s = String::from("<");
        push_dec(&mut s, n);
        assert_eq!(s, format!("<{}", n));
        for width in 0..6 {
            let mut s = String::new();
            push_padded_dec(&mut s, n, width);
            assert_eq!(s, format!("{:0width$}", n, width = width));
        }
    }
    for n in [0, -1, 42, -42, i64::MIN, i64::MAX] {
        let mut s = String::new();
        push_signed_dec(&mut s, n);
        assert_eq!(s, n.to_string());
        assert_eq!(parse_i64(&s), Some(n));
        for width in 1..6 {
            let mut s = String::new();
            push_signed_padded_dec(&mut s, n, width);
            assert_eq!(s, format!("{:0width$}", n, width = width));
        }
    }
}

#[test]
fn reading_numbers_as_the_standard_library_does() {
    for s in [
        "", "-", "+", "0", "-0", "+7", "007", "12a", " 1", "9223372036854775807",
        "9223372036854775808", "-9223372036854775808", "-9223372036854775809", "4294967295",
        "4294967296", "１", "--1", "99999999999999999999999999999999999999999999",
    ] {
        assert_eq!(parse_i64(s), s.parse::<i64>().ok(), "{:?}", s);
        assert_eq!(parse_u32(s), s.parse::<u32>().ok(), "{:?}", s);
    }
}

#[test]
fn times_for_the_command_line() {
    assert_eq!(format_ms(0), "00:00:00.000");
    assert_eq!(format_ms(3_723_450), "01:02:03.045");
    assert_eq!(format_ms(-1_500), "00:00:-1.-50");
    assert_eq!(format_ms(360_000_000), "100:00:00.000");
}

#[test]
fn pieces_of_texts() {
    for s in ["", "/", "a", "a/b", "/a//b/", "日/本"] {
        let expected: Vec<&str> = s.split('/').collect();
        assert_eq!(split_text(s, '/'), expected);
    }
}
