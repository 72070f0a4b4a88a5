use captu::ts::airtime::{bcd_byte, decode_mjd_bcd, AirDateTime};
use captu::ts::epg::unknown_epg;

fn at(mjd: u16, time: [u8; 3]) -> Option<AirDateTime> {
    let [hi, lo] = mjd.to_be_bytes();
    decode_mjd_bcd(&[hi, lo, time[0], time[1], time[2]])
}

#[test]
fn every_day_from_march_1900_on_is_the_gregorian_one() {
    let mut day = chrono::NaiveDate::from_ymd_opt(1900, 3, 1).unwrap();
    for mjd in 15_079..=65_534u16 {
        let t = at(mjd, [0x23, 0x59, 0x58]).expect("a day");
        assert_eq!(t.date(), day.to_string(), "day {}", mjd);
        assert_eq!((t.hour, t.minute, t.second), (23, 59, 58));
        day = day.succ_opt().unwrap();
    }
}

#[test]
fn days_before_march_1900_that_the_formula_misses() {
    assert_eq!(at(0, [0, 0, 0]), None);
    assert_eq!(at(15_078, [0, 0, 0]), None);
}

#[test]
fn times_that_no_clock_shows() {
    assert!(at(51_544, [0x23, 0x59, 0x59]).is_some());
    assert_eq!(at(51_544, [0x24, 0x00, 0x00]), None);
    assert_eq!(at(51_544, [0x00, 0x60, 0x00]), None);
    assert_eq!(at(51_544, [0x00, 0x00, 0x60]), None);
    assert_eq!(at(51_544, [0x00, 0x1A, 0x00]), None);
}

#[test]
fn two_digits_of_binary_coded_decimal() {
    for n in 0..100u8 {
        assert_eq!(bcd_byte((n / 10) * 16 + n % 10), Some(n));
    }
}

#[test]
fn a_file_time_in_japan() {
    let epg = unknown_epg(Some(946_695_599));
    let t = epg.air_datetime.expect("a time");
    assert_eq!(t.date(), "2000-01-01");
    assert_eq!((t.hour, t.minute, t.second), (11, 59, 59));
    assert_eq!(epg.title, "(unknown)");
    assert_eq!(epg.series_title, "");

    // Nine hours are enough for the next day.
    let late = unknown_epg(Some(946_738_800)).air_datetime.expect("a time");
    assert_eq!(late.date(), "2000-01-02");
    assert_eq!((late.hour, late.minute, late.second), (0, 0, 0));
}

#[test]
fn file_times_beyond_all_calendars() {
    assert!(unknown_epg(None).air_datetime.is_none());
    assert!(unknown_epg(Some(8_210_266_876_799)).air_datetime.is_some());
    assert!(unknown_epg(Some(8_210_266_876_800)).air_datetime.is_none());
    assert!(unknown_epg(Some(-8_334_601_228_800)).air_datetime.is_some());
    assert!(unknown_epg(Some(-8_334_601_228_801)).air_datetime.is_none());
}

#[test]
fn years_of_other_than_four_digits() {
    let t = AirDateTime {
        year: 12_345,
        month: 6,
        day: 7,
        hour: 0,
        minute: 0,
        second: 0,
    };
    assert_eq!(t.date(), "+12345-06-07");
    assert_eq!(AirDateTime { year: -4, ..t }.date(), "-0004-06-07");
    assert_eq!(AirDateTime { year: 33, ..t }.date(), "0033-06-07");
}
