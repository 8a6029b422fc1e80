//! Date arithmetic and timestamp parsing shared by the archive readers.
use vstd::arithmetic::div_mod::{lemma_fundamental_div_mod, lemma_fundamental_div_mod_converse};
use vstd::prelude::*;

use text::{
    all_digits, chars_of, digits_value, find_char, fits_i64, i64_text, integer_text, is_digit,
    is_first, lemma_digits_grow, nth_piece, parse_i64, parse_u32, piece,
    split_first, trim, trim_bounds, trim_end, trim_start, u32_text,
};

pub mod coops;
pub mod isd_lite;
pub mod usgs;
pub mod text;

verus! {

/// Days from 1970-01-01 to a proleptic Gregorian date, by Howard Hinnant's civil-date
/// algorithm: years counted from March, so the leap day ends the year, in 400-year eras.
/// Months and days out of range extend the count linearly.
pub open spec fn civil_days(year: int, month: int, day: int) -> int {
    let y = if month <= 2 { year - 1 } else { year };
    let era = y / 400;
    let year_of_era = y - era * 400;
    let shifted_month = if month > 2 { month - 3 } else { month + 9 };
    let day_of_year = (153 * shifted_month + 2) / 5 + day - 1;
    let day_of_era = year_of_era * 365 + year_of_era / 4 - year_of_era / 100 + day_of_year;
    era * 146_097 + day_of_era - 719_468
}

/// Seconds since the epoch at the start of `hour` on that date.
pub open spec fn epoch_seconds(year: int, month: int, day: int, hour: int) -> int {
    civil_days(year, month, day) * 86_400 + hour * 3_600
}

/// The civil-date computation stays within 64-bit integers.
pub open spec fn civil_in_range(year: int, month: int, day: int) -> bool {
    let y = if month <= 2 { year - 1 } else { year };
    &&& year >= i64::MIN + 400
    &&& fits_i64((y / 400) * 146_097)
    &&& fits_i64(civil_days(year, month, day) + 719_468)
    &&& fits_i64(civil_days(year, month, day))
}

/// The whole timestamp computation stays within 64-bit integers.
pub open spec fn epoch_in_range(year: int, month: int, day: int, hour: int) -> bool {
    &&& civil_in_range(year, month, day)
    &&& fits_i64(civil_days(year, month, day) * 86_400)
    &&& fits_i64(hour * 3_600)
    &&& fits_i64(epoch_seconds(year, month, day, hour))
}

pub open spec fn piece_i64(s: Seq<char>, c: char, n: nat) -> Option<int> {
    match nth_piece(s, c, n) {
        Some(p) => i64_text(p),
        None => None,
    }
}

pub open spec fn piece_u32(s: Seq<char>, c: char, n: nat) -> Option<int> {
    match nth_piece(s, c, n) {
        Some(p) => u32_text(p),
        None => None,
    }
}

/// Year, month, day, hour and minute of a `YYYY-MM-DD HH:MM` field: white space around it
/// is ignored, the date and the time are split at the first space, their parts at `-` and
/// `:` (parts after the third and the second are ignored), and a month outside `1..=12` or
/// a day outside `1..=31` rejects the field.
pub open spec fn datetime_parts(field: Seq<char>) -> Option<(int, int, int, int, int)> {
    match split_first(trim(field), ' ') {
        Some((date, time)) => {
            let year = piece_i64(date, '-', 0);
            let month = piece_u32(date, '-', 1);
            let day = piece_u32(date, '-', 2);
            let hour = piece_i64(time, ':', 0);
            let minute = piece_i64(time, ':', 1);
            if year is Some && month is Some && day is Some && hour is Some && minute is Some
                && 1 <= month->0 <= 12 && 1 <= day->0 <= 31 {
                Some((year->0, month->0, day->0, hour->0, minute->0))
            } else {
                None
            }
        },
        None => None,
    }
}

/// Seconds since the epoch of the instant a `YYYY-MM-DD HH:MM` field names.
pub open spec fn datetime_instant(field: Seq<char>) -> Option<int> {
    match datetime_parts(field) {
        Some((year, month, day, hour, minute)) => Some(
            epoch_seconds(year, month, day, hour) + minute * 60,
        ),
        None => None,
    }
}

/// Splitting at the first `c` of `a`, `c`, `b` gives `a` and `b` when `a` holds no `c`.
proof fn lemma_split_at(a: Seq<char>, c: char, b: Seq<char>)
    requires
        forall|i: int| 0 <= i < a.len() ==> a[i] != c,
    ensures
        split_first(a + seq![c] + b, c) == Some((a, b)),
{
    let s = a + seq![c] + b;
    assert(is_first(s, c, a.len() as int));
    let k = choose|k: int| is_first(s, c, k);
    if k < a.len() {
        assert(s[k] == a[k]);
    } else if k > a.len() {
        assert(s[a.len() as int] == c);
    }
    assert(s.take(a.len() as int) =~= a);
    assert(s.skip(a.len() + 1 as int) =~= b);
}

/// A piece without any `c` is its own first piece.
proof fn lemma_no_separator(a: Seq<char>, c: char)
    requires
        forall|i: int| 0 <= i < a.len() ==> a[i] != c,
    ensures
        nth_piece(a, c, 0) == Some(a),
{
    if exists|k: int| is_first(a, c, k) {
        let k = choose|k: int| is_first(a, c, k);
        assert(a[k] == c);
    }
}

/// A digit string reads as the number it writes.
proof fn lemma_digits_read(s: Seq<char>)
    requires
        s.len() > 0,
        all_digits(s),
    ensures
        integer_text(s, true) == Some(digits_value(s)),
        integer_text(s, false) == Some(digits_value(s)),
        digits_value(s) >= 0,
{
    lemma_digits_grow(s, s.len() as int);
    assert(s.take(s.len() as int) =~= s);
    assert(is_digit(s[0]));
}

/// A field written as digit strings `Y-M-D H:M` (zeros in front allowed) parses exactly when
/// the month is 1 to 12 and the day 1 to 31, to those numbers, and names the instant that many
/// days, hours and minutes from the epoch.
pub proof fn lemma_datetime_of_digits(
    year: Seq<char>,
    month: Seq<char>,
    day: Seq<char>,
    hour: Seq<char>,
    minute: Seq<char>,
)
    requires
        year.len() > 0 && all_digits(year) && digits_value(year) <= i64::MAX,
        month.len() > 0 && all_digits(month),
        day.len() > 0 && all_digits(day),
        hour.len() > 0 && all_digits(hour) && digits_value(hour) <= i64::MAX,
        minute.len() > 0 && all_digits(minute) && digits_value(minute) <= i64::MAX,
    ensures
        ({
            let field = year + seq!['-'] + month + seq!['-'] + day + seq![' '] + hour + seq![':']
                + minute;
            let (y, mo, d, h, mi) = (
                digits_value(year),
                digits_value(month),
                digits_value(day),
                digits_value(hour),
                digits_value(minute),
            );
            &&& datetime_parts(field) == if 1 <= mo <= 12 && 1 <= d <= 31 {
                Some((y, mo, d, h, mi))
            } else {
                None
            }
            &&& datetime_instant(field) == if 1 <= mo <= 12 && 1 <= d <= 31 {
                Some(civil_days(y, mo, d) * 86_400 + h * 3_600 + mi * 60)
            } else {
                None
            }
        }),
{
    lemma_digits_read(year);
    lemma_digits_read(month);
    lemma_digits_read(day);
    lemma_digits_read(hour);
    lemma_digits_read(minute);
    let rest = month + seq!['-'] + day;
    let date = year + seq!['-'] + rest;
    let time = hour + seq![':'] + minute;
    let field = year + seq!['-'] + month + seq!['-'] + day + seq![' '] + hour + seq![':'] + minute;
    assert(field =~= date + seq![' '] + time);
    assert(date =~= year + seq!['-'] + month + seq!['-'] + day);
    // No separator occurs inside a digit string, and the field neither starts nor ends with
    // white space.
    assert forall|i: int| 0 <= i < date.len() implies date[i] != ' ' by {
        if i < year.len() {
            assert(is_digit(year[i]));
        } else if i > year.len() && i < year.len() + 1 + month.len() {
            assert(is_digit(month[i - year.len() - 1]));
        } else if i > year.len() + 1 + month.len() {
            assert(is_digit(day[i - year.len() - 2 - month.len()]));
        }
    }
    assert forall|i: int| 0 <= i < year.len() implies year[i] != '-' by {
        assert(is_digit(year[i]));
    }
    assert forall|i: int| 0 <= i < month.len() implies month[i] != '-' by {
        assert(is_digit(month[i]));
    }
    assert forall|i: int| 0 <= i < day.len() implies day[i] != '-' by {
        assert(is_digit(day[i]));
    }
    assert forall|i: int| 0 <= i < hour.len() implies hour[i] != ':' by {
        assert(is_digit(hour[i]));
    }
    assert forall|i: int| 0 <= i < minute.len() implies minute[i] != ':' by {
        assert(is_digit(minute[i]));
    }
    assert(is_digit(field[0]) && field[0] == year[0]);
    assert(is_digit(minute[minute.len() - 1]) && field.last() == minute.last());
    assert(trim_start(field) == field);
    assert(trim_end(field) == field);
    lemma_split_at(date, ' ', time);
    lemma_split_at(year, '-', rest);
    lemma_split_at(month, '-', day);
    lemma_no_separator(day, '-');
    lemma_split_at(hour, ':', minute);
    lemma_no_separator(minute, ':');
    assert(nth_piece(date, '-', 0) == Some(year));
    assert(nth_piece(rest, '-', 0) == Some(month));
    assert(nth_piece(date, '-', 1) == Some(month));
    assert(nth_piece(rest, '-', 1) == nth_piece(day, '-', 0));
    assert(nth_piece(date, '-', 2) == Some(day));
    assert(nth_piece(time, ':', 0) == Some(hour));
    assert(nth_piece(time, ':', 1) == Some(minute));
}

/// The timestamp computation stays within 64-bit integers for these fields.
pub open spec fn instant_in_range(year: int, month: int, day: int, hour: int, minute: int) -> bool {
    &&& epoch_in_range(year, month, day, hour)
    &&& fits_i64(minute * 60)
    &&& fits_i64(epoch_seconds(year, month, day, hour) + minute * 60)
}

/// The field either does not parse or names an instant within 64-bit integers.
pub open spec fn datetime_in_range(field: Seq<char>) -> bool {
    match datetime_parts(field) {
        Some((year, month, day, hour, minute)) => instant_in_range(year, month, day, hour, minute),
        None => true,
    }
}

/// A Gregorian leap year: divisible by four, and by four hundred where divisible by a hundred.
pub open spec fn is_leap(year: int) -> bool {
    year % 4 == 0 && (year % 100 != 0 || year % 400 == 0)
}

/// Days in a month of a Gregorian year.
pub open spec fn month_days(year: int, month: int) -> int {
    if month == 2 {
        if is_leap(year) {
            29
        } else {
            28
        }
    } else if month == 4 || month == 6 || month == 9 || month == 11 {
        30
    } else {
        31
    }
}

/// Days before March 1 of `year`, counted from March 1 of year zero.
spec fn days_before_march(year: int) -> int {
    let era = year / 400;
    let year_of_era = year - era * 400;
    era * 146_097 + year_of_era * 365 + year_of_era / 4 - year_of_era / 100
}

/// The quotient by `d` steps up exactly where the next number is a multiple of `d`.
proof fn lemma_quotient_step(x: int, d: int)
    requires
        0 < d,
    ensures
        (x + 1) / d == x / d + if (x + 1) % d == 0 {
            1int
        } else {
            0
        },
{
    lemma_fundamental_div_mod(x, d);
    let q = x / d;
    let r = x % d;
    assert(0 <= r < d);
    if r == d - 1 {
        assert(x + 1 == (q + 1) * d + 0) by (nonlinear_arith)
            requires
                x == d * q + r,
                r == d - 1,
        ;
        lemma_fundamental_div_mod_converse(x + 1, d, q + 1, 0);
    } else {
        assert(x + 1 == q * d + (r + 1)) by (nonlinear_arith)
            requires
                x == d * q + r,
        ;
        lemma_fundamental_div_mod_converse(x + 1, d, q, r + 1);
    }
}

/// Whole eras do not change a remainder by a divisor of 400.
proof fn lemma_era_remainder(q: int, s: int, d: int, k: int)
    requires
        0 < d,
        400 == k * d,
    ensures
        (400 * q + s) % d == s % d,
{
    lemma_fundamental_div_mod(s, d);
    assert(400 * q + s == (k * q + s / d) * d + s % d) by (nonlinear_arith)
        requires
            400 == k * d,
            s == d * (s / d) + s % d,
    ;
    lemma_fundamental_div_mod_converse(400 * q + s, d, k * q + s / d, s % d);
}

/// A year counted from March lasts 366 days exactly when the February that ends it is a leap
/// February.
proof fn lemma_march_year(year: int)
    ensures
        days_before_march(year + 1) - days_before_march(year) == if is_leap(year + 1) {
            366int
        } else {
            365
        },
{
    let era = year / 400;
    let yoe = year - era * 400;
    lemma_fundamental_div_mod(year, 400);
    assert(yoe == year % 400);
    if yoe == 399 {
        lemma_fundamental_div_mod_converse(year + 1, 400, era + 1, 0);
    } else {
        lemma_fundamental_div_mod_converse(year + 1, 400, era, yoe + 1);
        lemma_era_remainder(era, yoe + 1, 4, 100);
        lemma_era_remainder(era, yoe + 1, 100, 4);
        lemma_quotient_step(yoe, 4);
        lemma_quotient_step(yoe, 100);
        assert(year + 1 == 400 * era + (yoe + 1));
    }
}

/// The day count follows the Gregorian calendar: each day is one after the day before it, the
/// first of each month follows the first of the month before it by that month's length, and
/// 1970-01-01 is day zero.
pub proof fn lemma_calendar(year: int, month: int, day: int)
    requires
        1 <= month <= 12,
    ensures
        civil_days(year, month, day + 1) == civil_days(year, month, day) + 1,
        month < 12 ==> civil_days(year, month + 1, 1) == civil_days(year, month, 1) + month_days(
            year,
            month,
        ),
        month == 12 ==> civil_days(year + 1, 1, 1) == civil_days(year, 12, 1) + 31,
        civil_days(1970, 1, 1) == 0,
{
    if month == 2 {
        lemma_march_year(year - 1);
    }
}

/// Howard Hinnant's civil-date algorithm, so the crate needs no date dependency.
fn days_from_civil(year: i64, month: u32, day: u32) -> (d: i64)
    requires
        civil_in_range(year as int, month as int, day as int),
    ensures
        d == civil_days(year as int, month as int, day as int),
{
    let year = if month <= 2 {
        year - 1
    } else {
        year
    };
    let era = if year >= 0 {
        year
    } else {
        year - 399
    } / 400;
    assert(era == year / 400);
    let year_of_era = year - era * 400;
    let shifted_month = if month > 2 {
        month as i64 - 3
    } else {
        month as i64 + 9
    };
    let day_of_year = (153 * shifted_month + 2) / 5 + day as i64 - 1;
    let day_of_era = year_of_era * 365 + year_of_era / 4 - year_of_era / 100 + day_of_year;
    era * 146_097 + day_of_era - 719_468
}

/// Seconds since the Unix epoch at the start of `hour` on a date.
pub fn to_epoch(year: i64, month: u32, day: u32, hour: i64) -> (t: i64)
    requires
        epoch_in_range(year as int, month as int, day as int, hour as int),
    ensures
        t == epoch_seconds(year as int, month as int, day as int, hour as int),
{
    days_from_civil(year, month, day) * 86_400 + hour * 3_600
}

/// The `n`th piece of `v[lo..hi]` split at every `c`, read as an `i64`.
fn piece_as_i64(v: &Vec<char>, lo: usize, hi: usize, c: char, n: usize) -> (r: Option<i64>)
    requires
        lo <= hi <= v.len(),
    ensures
        match r {
            Some(x) => piece_i64(v@.subrange(lo as int, hi as int), c, n as nat) == Some(x as int),
            None => piece_i64(v@.subrange(lo as int, hi as int), c, n as nat) is None,
        },
{
    match piece(v, lo, hi, c, n) {
        Some((a, b)) => parse_i64(v, a, b),
        None => None,
    }
}

/// The `n`th piece of `v[lo..hi]` split at every `c`, read as a `u32`.
fn piece_as_u32(v: &Vec<char>, lo: usize, hi: usize, c: char, n: usize) -> (r: Option<u32>)
    requires
        lo <= hi <= v.len(),
    ensures
        match r {
            Some(x) => piece_u32(v@.subrange(lo as int, hi as int), c, n as nat) == Some(x as int),
            None => piece_u32(v@.subrange(lo as int, hi as int), c, n as nat) is None,
        },
{
    match piece(v, lo, hi, c, n) {
        Some((a, b)) => parse_u32(v, a, b),
        None => None,
    }
}

/// Year, month, day, hour and minute of a `YYYY-MM-DD HH:MM` field, the timestamp both
/// water archives use; `None` where the field does not have that shape.
pub fn datetime_fields(field: &str) -> (r: Option<(i64, u32, u32, i64, i64)>)
    ensures
        match r {
            Some((year, month, day, hour, minute)) => datetime_parts(field@) == Some(
                (year as int, month as int, day as int, hour as int, minute as int),
            ),
            None => datetime_parts(field@) is None,
        },
{
    let v = chars_of(field);
    assert(v@.subrange(0, v.len() as int) =~= v@);
    let (lo, hi) = trim_bounds(&v, 0, v.len());
    let space = match find_char(&v, lo, hi, ' ') {
        Some(i) => i,
        None => {
            return None;
        },
    };
    let year = piece_as_i64(&v, lo, space, '-', 0);
    let month = piece_as_u32(&v, lo, space, '-', 1);
    let day = piece_as_u32(&v, lo, space, '-', 2);
    let hour = piece_as_i64(&v, space + 1, hi, ':', 0);
    let minute = piece_as_i64(&v, space + 1, hi, ':', 1);
    match (year, month, day, hour, minute) {
        (Some(year), Some(month), Some(day), Some(hour), Some(minute)) => {
            if !(1 <= month && month <= 12) || !(1 <= day && day <= 31) {
                None
            } else {
                Some((year, month, day, hour, minute))
            }
        },
        _ => None,
    }
}

fn fits_wide(x: i128) -> (b: bool)
    ensures
        b == fits_i64(x as int),
{
    -0x8000_0000_0000_0000 <= x && x <= 0x7fff_ffff_ffff_ffff
}

/// Whether the instant these fields name, and every step of computing it, fits in an `i64`.
pub fn epoch_fits(year: i64, month: u32, day: u32, hour: i64, minute: i64) -> (b: bool)
    ensures
        b == instant_in_range(year as int, month as int, day as int, hour as int, minute as int),
{
    let y: i128 = if month <= 2 {
        year as i128 - 1
    } else {
        year as i128
    };
    let era: i128 = if y >= 0 {
        y
    } else {
        y - 399
    } / 400;
    assert(era == y / 400);
    let year_of_era: i128 = y - era * 400;
    let shifted_month: i128 = if month > 2 {
        month as i128 - 3
    } else {
        month as i128 + 9
    };
    let day_of_year: i128 = (153 * shifted_month + 2) / 5 + day as i128 - 1;
    let day_of_era: i128 = year_of_era * 365 + year_of_era / 4 - year_of_era / 100 + day_of_year;
    let days: i128 = era * 146_097 + day_of_era - 719_468;
    assert(days == civil_days(year as int, month as int, day as int));
    let seconds: i128 = days * 86_400 + hour as i128 * 3_600;
    let instant: i128 = seconds + minute as i128 * 60;
    year >= i64::MIN + 400 && fits_wide(era * 146_097) && fits_wide(days + 719_468) && fits_wide(
        days,
    ) && fits_wide(days * 86_400) && fits_wide(hour as i128 * 3_600) && fits_wide(seconds)
        && fits_wide(minute as i128 * 60) && fits_wide(instant)
}

/// Parses `YYYY-MM-DD HH:MM`, the timestamp both water archives use, to seconds since the
/// Unix epoch.
pub fn parse_datetime(field: &str) -> (r: Option<i64>)
    requires
        datetime_in_range(field@),
    ensures
        match r {
            Some(t) => datetime_instant(field@) == Some(t as int),
            None => datetime_instant(field@) is None,
        },
{
    match datetime_fields(field) {
        Some((year, month, day, hour, minute)) => Some(
            to_epoch(year, month, day, hour) + minute * 60,
        ),
        None => None,
    }
}

/// Whether `parse_datetime` may be called on `field`: it does not parse, or the instant it
/// names is computed within 64-bit integers.
pub fn datetime_fits(field: &str) -> (b: bool)
    ensures
        b == datetime_in_range(field@),
{
    match datetime_fields(field) {
        Some((year, month, day, hour, minute)) => epoch_fits(year, month, day, hour, minute),
        None => true,
    }
}

} // verus!
