use captu::routes::capture::{FullQuery, SubMode};

#[test]
fn sub_zero_selects_raw_mode() {
    assert_eq!(FullQuery { sub: Some(0) }.sub_mode(), SubMode::Raw);
}

#[test]
fn absent_sub_keeps_burned_mode() {
    assert_eq!(FullQuery { sub: None }.sub_mode(), SubMode::Burned);
}

#[test]
fn sub_one_selects_burned_mode() {
    assert_eq!(FullQuery { sub: Some(1) }.sub_mode(), SubMode::Burned);
}
