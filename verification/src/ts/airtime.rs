//! Dates and times of broadcasts, in Japan Standard Time.
use vstd::prelude::*;

use crate::text::{padded_dec, push_padded_dec};
use crate::ts::pts::div_toward_zero;

verus! {

/// A date and time in Japan Standard Time.
#[derive(Debug, Clone, Copy, PartialEq, Eq, Structural)]
pub struct AirDateTime {
    pub year: i32,
    pub month: u32,
    pub day: u32,
    pub hour: u32,
    pub minute: u32,
    pub second: u32,
}

// -------------------------------------------------------------------- calendar

pub open spec fn is_leap(year: int) -> bool {
    year % 4 == 0 && (year % 100 != 0 || year % 400 == 0)
}

pub open spec fn month_len(year: int, month: int) -> int {
    if month == 2 {
        if is_leap(year) {
            29
        } else {
            28
        }
    } else if month == 4 || month == 6 || month == 9 || month == 11 {
        30
    } else {
        31
    }
}

/// Whether there is such a day in the Gregorian calendar.
pub open spec fn is_date(year: int, month: int, day: int) -> bool {
    1 <= month <= 12 && 1 <= day <= month_len(year, month)
}

/// The days of a year before its month.
pub open spec fn days_before_month(year: int, month: int) -> int {
    let leap = if is_leap(year) && month > 2 {
        1int
    } else {
        0
    };
    leap + if month == 1 {
        0
    } else if month == 2 {
        31
    } else if month == 3 {
        59
    } else if month == 4 {
        90
    } else if month == 5 {
        120
    } else if month == 6 {
        151
    } else if month == 7 {
        181
    } else if month == 8 {
        212
    } else if month == 9 {
        243
    } else if month == 10 {
        273
    } else if month == 11 {
        304
    } else {
        334int
    }
}

/// The days from the first of January 1970 to a date.
pub open spec fn day_number(year: int, month: int, day: int) -> int {
    let y = year - 1;
    365 * y + y / 4 - y / 100 + y / 400 + days_before_month(year, month) + day - 719_163
}

pub open spec fn is_time(hour: int, minute: int, second: int) -> bool {
    0 <= hour < 24 && 0 <= minute < 60 && 0 <= second < 60
}

// ------------------------------------------------------------ broadcast format

/// The value of a byte in binary-coded decimal.
pub open spec fn bcd(b: u8) -> Option<u8> {
    if b / 16 > 9 || b % 16 > 9 {
        None
    } else {
        Some(((b / 16) * 10 + b % 16) as u8)
    }
}

pub fn bcd_byte(b: u8) -> (n: Option<u8>)
    ensures
        n == bcd(b),
{
    assert(b >> 4 == b / 16 && b & 0x0F == b % 16) by (bit_vector);
    let hi: u8 = b >> 4;
    let lo: u8 = b & 0x0F;
    if hi > 9 || lo > 9 {
        return None;
    }
    Some(hi * 10 + lo)
}

/// Every number of two digits has its byte.
pub proof fn bcd_reads_two_digits(n: u8)
    requires
        n < 100,
    ensures
        bcd(((n / 10) * 16 + n % 10) as u8) == Some(n),
{
}

/// The year since 1900, of a Modified Julian Day, by the broadcast standard's
/// formula.
pub open spec fn mjd_year(mjd: int) -> int {
    div_toward_zero(100 * mjd - 1_507_820, 36_525)
}

/// The days before that year.
pub open spec fn mjd_year_days(mjd: int) -> int {
    mjd_year(mjd) * 1461 / 4
}

/// The month, counted so that March is 4 and February is 15.
pub open spec fn mjd_month(mjd: int) -> int {
    div_toward_zero((10 * (mjd - mjd_year_days(mjd)) - 149_561) * 1000, 306_001)
}

/// The year, month and day that the formula gives.
pub open spec fn mjd_date(mjd: int) -> (int, int, int) {
    let day = mjd - 14_956 - mjd_year_days(mjd) - mjd_month(mjd) * 306_001 / 10_000;
    if mjd_month(mjd) == 14 || mjd_month(mjd) == 15 {
        (mjd_year(mjd) + 1901, mjd_month(mjd) - 13, day)
    } else {
        (mjd_year(mjd) + 1900, mjd_month(mjd) - 1, day)
    }
}

/// From the first of March 1900 on, the formula gives the Gregorian date (the
/// day 40587 is the first of January 1970).
pub proof fn mjd_date_is_gregorian(mjd: int)
    requires
        15_079 <= mjd <= 65_534,
    ensures
        ({
            let (year, month, day) = mjd_date(mjd);
            is_date(year, month, day) && day_number(year, month, day) + 40_587 == mjd
        }),
{
    let yp = mjd_year(mjd);
    let q = mjd - 14_956 - mjd_year_days(mjd);
    lemma_day_of_year(mjd);
    lemma_month_of_day(q);
    lemma_days_before_year(yp);
    lemma_days_before_year(yp + 1);
    assert(10 * (mjd - mjd_year_days(mjd)) - 149_561 == 10 * q - 1);
}

/// The days counted from the end of October before the year's March, and the
/// year that they belong to.
proof fn lemma_day_of_year(mjd: int)
    requires
        15_079 <= mjd <= 65_534,
    ensures
        0 <= mjd_year(mjd) <= 138,
        mjd_year_days(mjd) == 365 * mjd_year(mjd) + mjd_year(mjd) / 4,
        123 <= mjd - 14_956 - mjd_year_days(mjd) <= 488,
        mjd - 14_956 - mjd_year_days(mjd) == 488 ==> mjd_year(mjd) % 4 == 3,
{
}

/// The formula's month and day of a day between March and February.
proof fn lemma_month_of_day(q: int)
    requires
        123 <= q <= 488,
    ensures
        ({
            let mp = (10 * q - 1) * 1000 / 306_001;
            let day = q - mp * 306_001 / 10_000;
            &&& 122 < q <= 153 ==> mp == 4 && day == q - 122
            &&& 153 < q <= 183 ==> mp == 5 && day == q - 153
            &&& 183 < q <= 214 ==> mp == 6 && day == q - 183
            &&& 214 < q <= 244 ==> mp == 7 && day == q - 214
            &&& 244 < q <= 275 ==> mp == 8 && day == q - 244
            &&& 275 < q <= 306 ==> mp == 9 && day == q - 275
            &&& 306 < q <= 336 ==> mp == 10 && day == q - 306
            &&& 336 < q <= 367 ==> mp == 11 && day == q - 336
            &&& 367 < q <= 397 ==> mp == 12 && day == q - 367
            &&& 397 < q <= 428 ==> mp == 13 && day == q - 397
            &&& 428 < q <= 459 ==> mp == 14 && day == q - 428
            &&& 459 < q <= 488 ==> mp == 15 && day == q - 459
        }),
{
}

proof fn lemma_days_before_year(n: int)
    requires
        0 <= n <= 139,
    ensures
        ({
            let y = 1900 + n - 1;
            365 * y + y / 4 - y / 100 + y / 400 == 693_595 + 365 * n + (n + 3) / 4 - (if n > 0 {
                1int
            } else {
                0
            })
        }),
        is_leap(1900 + n) == (n % 4 == 0 && n != 0),
{
}

/// A start time in the broadcast format: a day in two bytes, and hour, minute
/// and second in binary-coded decimal.  The day 0xFFFF stands for none.
pub open spec fn start_time(data: Seq<u8>) -> Option<AirDateTime> {
    let mjd = data[0] * 256 + data[1];
    let (year, month, day) = mjd_date(mjd);
    if data.len() < 5 || mjd == 0xFFFF || !is_date(year, month, day) {
        None
    } else {
        match (bcd(data[2]), bcd(data[3]), bcd(data[4])) {
            (Some(hour), Some(minute), Some(second)) if is_time(
                hour as int,
                minute as int,
                second as int,
            ) => Some(
                AirDateTime {
                    year: year as i32,
                    month: month as u32,
                    day: day as u32,
                    hour: hour as u32,
                    minute: minute as u32,
                    second: second as u32,
                },
            ),
            _ => None,
        }
    }
}

/// `chrono::NaiveDate::from_ymd_opt` gives a date exactly where the Gregorian
/// calendar has it, in the years that `chrono` covers.
#[verifier::external_body]
fn chrono_has_date(year: i32, month: u32, day: u32) -> (b: bool)
    ensures
        b == (is_date(year as int, month as int, day as int) && -262_143 <= year <= 262_142),
{
    chrono::NaiveDate::from_ymd_opt(year, month, day).is_some()
}

/// `chrono::NaiveTime::from_hms_opt` gives a time exactly for the hours,
/// minutes and seconds of a day.
#[verifier::external_body]
fn chrono_has_time(hour: u32, minute: u32, second: u32) -> (b: bool)
    ensures
        b == is_time(hour as int, minute as int, second as int),
{
    chrono::NaiveTime::from_hms_opt(hour, minute, second).is_some()
}

/// Rounds towards zero.
fn divide(a: i64, b: i64) -> (q: i64)
    requires
        b > 1,
    ensures
        q == div_toward_zero(a as int, b as int),
{
    a / b
}

/// Decodes a start time.
pub fn decode_mjd_bcd(data: &[u8]) -> (time: Option<AirDateTime>)
    ensures
        time == start_time(data@),
{
    if data.len() < 5 {
        return None;
    }
    let mjd: i64 = data[0] as i64 * 256 + data[1] as i64;
    if mjd == 0xFFFF {
        return None;
    }
    let yp: i64 = divide(100 * mjd - 1_507_820, 36_525);
    let year_days: i64 = if yp >= 0 {
        divide(yp * 1461, 4)
    } else {
        -divide(-yp * 1461 + 3, 4)
    };
    let mp: i64 = divide((10 * (mjd - year_days) - 149_561) * 1000, 306_001);
    let month_days: i64 = if mp >= 0 {
        divide(mp * 306_001, 10_000)
    } else {
        -divide(-mp * 306_001 + 9_999, 10_000)
    };
    let day: i64 = mjd - 14_956 - year_days - month_days;
    let (year, month): (i64, i64) = if mp == 14 || mp == 15 {
        (yp + 1901, mp - 13)
    } else {
        (yp + 1900, mp - 1)
    };
    assert(mjd_date(mjd as int) == (year as int, month as int, day as int));
    let hour: u32 = match bcd_byte(data[2]) {
        Some(n) => n as u32,
        None => {
            return None;
        },
    };
    let minute: u32 = match bcd_byte(data[3]) {
        Some(n) => n as u32,
        None => {
            return None;
        },
    };
    let second: u32 = match bcd_byte(data[4]) {
        Some(n) => n as u32,
        None => {
            return None;
        },
    };
    if month < 1 || day < 1 || !chrono_has_date(year as i32, month as u32, day as u32)
        || !chrono_has_time(hour, minute, second) {
        return None;
    }
    Some(
        AirDateTime {
            year: year as i32,
            month: month as u32,
            day: day as u32,
            hour,
            minute,
            second,
        },
    )
}

// ------------------------------------------------------------------ timestamps

/// The seconds that Japan Standard Time is ahead.
pub const JST_OFFSET: i32 = 32_400;

/// Whether a time, in seconds since 1970, lies in the years that `chrono` covers.
pub open spec fn in_chrono_range(secs: int) -> bool {
    -8_334_601_228_800 <= secs <= 8_210_266_876_799
}

/// Whether a date and time is that of `secs` seconds since 1970 began in UTC, where
/// clocks are `offset` seconds ahead.
pub open spec fn is_local_of(time: AirDateTime, secs: int, offset: int) -> bool {
    let local = secs + offset;
    &&& is_date(time.year as int, time.month as int, time.day as int)
    &&& is_time(time.hour as int, time.minute as int, time.second as int)
    &&& day_number(time.year as int, time.month as int, time.day as int) == local / 86_400
    &&& time.hour * 3600 + time.minute * 60 + time.second == local % 86_400
}

/// Whether a date and time is that of `secs` seconds since 1970 began in UTC, in
/// Japan.
pub open spec fn is_jst_of(time: AirDateTime, secs: int) -> bool {
    is_local_of(time, secs, JST_OFFSET as int)
}

/// `chrono::DateTime::from_timestamp`, seen from some way east: the date and time
/// of a timestamp, where it lies in the years that `chrono` covers.
#[verifier::external_body]
pub(crate) fn chrono_local(secs: i64, offset: i32) -> (time: Option<AirDateTime>)
    requires
        0 <= offset < 86_400,
    ensures
        match time {
            Some(t) => in_chrono_range(secs as int) && is_local_of(t, secs as int, offset as int),
            None => !in_chrono_range(secs as int),
        },
{
    let zone = chrono::FixedOffset::east_opt(offset)?;
    let t = chrono::DateTime::from_timestamp(secs, 0)?.with_timezone(&zone);
    Some(AirDateTime {
        year: chrono::Datelike::year(&t),
        month: chrono::Datelike::month(&t),
        day: chrono::Datelike::day(&t),
        hour: chrono::Timelike::hour(&t),
        minute: chrono::Timelike::minute(&t),
        second: chrono::Timelike::second(&t),
    })
}

/// A date, as `2000-01-01`; years of other than four digits carry a sign.
pub open spec fn date_text(t: AirDateTime) -> Seq<char> {
    let year = if 0 <= t.year <= 9999 {
        padded_dec(t.year as nat, 4)
    } else if t.year < 0 {
        seq!['-'] + padded_dec((-t.year) as nat, 4)
    } else {
        seq!['+'] + padded_dec(t.year as nat, 4)
    };
    year + seq!['-'] + padded_dec(t.month as nat, 2) + seq!['-'] + padded_dec(t.day as nat, 2)
}

impl AirDateTime {
    /// The date alone.
    pub fn date(&self) -> (s: String)
        ensures
            s@ == date_text(*self),
    {
        let mut s = String::new();
        if self.year < 0 {
            s.push('-');
            push_padded_dec(&mut s, (-(self.year as i64)) as u64, 4);
        } else {
            if self.year > 9999 {
                s.push('+');
            }
            push_padded_dec(&mut s, self.year as u64, 4);
        }
        s.push('-');
        push_padded_dec(&mut s, self.month as u64, 2);
        s.push('-');
        push_padded_dec(&mut s, self.day as u64, 2);
        assert(s@ =~= date_text(*self));
        s
    }
}

/// Japan Standard Time is nine hours ahead: a day, and the seconds of it.
pub proof fn japan_is_nine_hours_ahead(t: AirDateTime, secs: int)
    requires
        is_jst_of(t, secs),
    ensures
        day_number(t.year as int, t.month as int, t.day as int) * 86_400 + t.hour * 3600 + t.minute
            * 60 + t.second == secs + 9 * 3600,
        t.hour < 24 && t.minute < 60 && t.second < 60,
{
}

/// A date is written by its year, month and day, in four, two and two digits.
pub proof fn a_date_is_written_by_its_parts(t: AirDateTime)
    requires
        0 <= t.year <= 9999,
    ensures
        date_text(t) == padded_dec(t.year as nat, 4) + seq!['-'] + padded_dec(t.month as nat, 2)
            + seq!['-'] + padded_dec(t.day as nat, 2),
{
}

/// Days are counted one by one: the first of January 1970 is day 0, and from a day to the
/// next, through the ends of months and years, the count goes up by one.
pub proof fn days_are_counted_one_by_one(year: int, month: int, day: int)
    requires
        is_date(year, month, day),
    ensures
        day_number(1970, 1, 1) == 0,
        is_date(year, month, day + 1) ==> day_number(year, month, day + 1) == day_number(
            year,
            month,
            day,
        ) + 1,
        !is_date(year, month, day + 1) && month < 12 ==> day_number(year, month + 1, 1)
            == day_number(year, month, day) + 1,
        !is_date(year, month, day + 1) && month == 12 ==> day_number(year + 1, 1, 1) == day_number(
            year,
            month,
            day,
        ) + 1,
{
}

} // verus!
