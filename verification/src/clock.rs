//! Instants, counted in milliseconds since 1970-01-01 00:00:00 UTC, and the
//! calendar dates and times of day that they fall on.
use chrono::{Datelike, TimeZone, Timelike};
use vstd::prelude::*;
use vstd::string::*;

use crate::text::{
    all_digits, decimal, decimal2, digits_value, lemma_decimal2_len, lemma_decimal2_value, lemma_decimal_value,
    lemma_leading_zero, push_decimal, push_decimal2,
};

verus! {

/// Milliseconds in a day.
pub const DAY_MS: i64 = 86_400_000;

/// The first instant of the year -262143.
pub const FIRST_MS: i64 = -8_334_601_228_800_000;

/// The last millisecond of the year 262142.
pub const LAST_MS: i64 = 8_210_266_876_799_999;

/// The instants whose calendar date has a year between -262143 and 262142.
pub open spec fn representable(ms: int) -> bool {
    FIRST_MS <= ms <= LAST_MS
}

/// A leap year of the Gregorian calendar.
pub open spec fn is_leap(y: int) -> bool {
    y % 4 == 0 && (y % 100 != 0 || y % 400 == 0)
}

/// Days in a month.
pub open spec fn month_len(y: int, m: int) -> int {
    if m == 2 {
        if is_leap(y) {
            29
        } else {
            28
        }
    } else if m == 4 || m == 6 || m == 9 || m == 11 {
        30
    } else {
        31
    }
}

/// Days between the first of January of the year 0 and that of the year `y`.
pub open spec fn days_before_year(y: int) -> int {
    365 * y + (y + 3) / 4 - (y + 99) / 100 + (y + 399) / 400
}

/// Days between the first of January and the first day of the month `m`.
pub open spec fn days_before_month(y: int, m: int) -> int
    decreases m,
{
    if m <= 1 {
        0
    } else {
        days_before_month(y, m - 1) + month_len(y, m - 1)
    }
}

/// Days between 1970-01-01 and a date of the Gregorian calendar, which is
/// carried back before its adoption.
pub open spec fn day_number(y: int, m: int, d: int) -> int {
    days_before_year(y) + days_before_month(y, m) + d - 1 - 719528
}

/// A calendar date and a time of day in UTC.
#[derive(Debug, Clone, Copy, PartialEq, Eq, Structural)]
pub struct UtcFields {
    pub year: i32,
    pub month: u32,
    pub day: u32,
    pub hour: u32,
    pub minute: u32,
    pub second: u32,
    pub milli: u32,
}

impl UtcFields {
    /// The date exists and the time of day is within its ranges.
    pub open spec fn valid(self) -> bool {
        &&& -262143 <= self.year <= 262142
        &&& 1 <= self.month <= 12
        &&& 1 <= self.day <= month_len(self.year as int, self.month as int)
        &&& self.hour < 24
        &&& self.minute < 60
        &&& self.second < 60
        &&& self.milli < 1000
    }

    /// Days since 1970-01-01.
    pub open spec fn unix_day(self) -> int {
        day_number(self.year as int, self.month as int, self.day as int)
    }

    /// Milliseconds since midnight.
    pub open spec fn ms_of_day(self) -> int {
        self.hour * 3_600_000 + self.minute * 60_000 + self.second * 1_000 + self.milli
    }

    /// The instant.
    pub open spec fn unix_ms(self) -> int {
        self.unix_day() * DAY_MS + self.ms_of_day()
    }
}

/// The calendar date and time of day of an instant, by chrono's
/// `Utc.timestamp_millis_opt` and the accessors of the `DateTime` that it
/// returns: `None` outside chrono's range of years, otherwise the fields of the
/// one date and time of day that lie `ms` milliseconds after 1970-01-01
/// 00:00:00 UTC in the proleptic Gregorian calendar without leap seconds.
#[verifier::external_body]
fn chrono_fields(ms: i64) -> (r: Option<UtcFields>)
    ensures
        r is Some <==> representable(ms as int),
        r matches Some(f) ==> f.valid() && f.unix_ms() == ms,
{
    let t = chrono::Utc.timestamp_millis_opt(ms).single()?;
    Some(
        UtcFields {
            year: t.year(),
            month: t.month(),
            day: t.day(),
            hour: t.hour(),
            minute: t.minute(),
            second: t.second(),
            milli: t.timestamp_subsec_millis(),
        },
    )
}

/// The system clock (`std::time::SystemTime::now`) in milliseconds since
/// 1970-01-01 00:00:00 UTC, zero where it stands before that. Nothing is claimed
/// of the reading: it depends on the machine.
#[verifier::external_body]
fn system_ms() -> (ms: i64) {
    std::time::SystemTime::now()
        .duration_since(std::time::UNIX_EPOCH)
        .unwrap_or_default()
        .as_millis() as i64
}

/// The current instant, brought into the representable range where the clock
/// stands outside it.
pub fn utc_ms_now() -> (ms: i64)
    ensures
        representable(ms as int),
{
    let ms: i64 = system_ms();
    if ms < FIRST_MS {
        FIRST_MS
    } else if ms > LAST_MS {
        LAST_MS
    } else {
        ms
    }
}

/// The calendar date and time of day of an instant.
pub open spec fn fields_of(ms: int) -> UtcFields {
    choose|f: UtcFields| f.valid() && f.unix_ms() == ms
}

/// Days in a year.
spec fn year_len(y: int) -> int {
    if is_leap(y) {
        366
    } else {
        365
    }
}

proof fn lemma_year_step(y: int)
    ensures
        days_before_year(y + 1) == days_before_year(y) + year_len(y),
{
    lemma_round_up(y, 4);
    lemma_round_up(y, 100);
    lemma_round_up(y, 400);
    lemma_multiples(y);
}

/// Dividing and rounding up.
proof fn lemma_round_up(y: int, k: int)
    requires
        k > 0,
    ensures
        (y + k - 1) / k == y / k + (if y % k == 0 {
            0int
        } else {
            1
        }),
        (y + k) / k == y / k + 1,
        (y - 1) / k == (y + k - 1) / k - 1,
{
    vstd::arithmetic::div_mod::lemma_fundamental_div_mod(y, k);
    let q = y / k;
    let r = y % k;
    assert(0 <= r < k) by (nonlinear_arith)
        requires
            k > 0,
            r == y % k,
    ;
    assert(y + k == (q + 1) * k + r) by (nonlinear_arith)
        requires
            y == k * q + r,
    ;
    vstd::arithmetic::div_mod::lemma_fundamental_div_mod_converse(y + k, k, q + 1, r);
    if r == 0 {
        assert(y + k - 1 == q * k + (k - 1)) by (nonlinear_arith)
            requires
                y == k * q + r,
                r == 0,
        ;
        vstd::arithmetic::div_mod::lemma_fundamental_div_mod_converse(y + k - 1, k, q, k - 1);
        assert(y - 1 == (q - 1) * k + (k - 1)) by (nonlinear_arith)
            requires
                y == k * q + r,
                r == 0,
        ;
        vstd::arithmetic::div_mod::lemma_fundamental_div_mod_converse(y - 1, k, q - 1, k - 1);
    } else {
        assert(y + k - 1 == (q + 1) * k + (r - 1)) by (nonlinear_arith)
            requires
                y == k * q + r,
        ;
        vstd::arithmetic::div_mod::lemma_fundamental_div_mod_converse(y + k - 1, k, q + 1, r - 1);
        assert(y - 1 == q * k + (r - 1)) by (nonlinear_arith)
            requires
                y == k * q + r,
        ;
        vstd::arithmetic::div_mod::lemma_fundamental_div_mod_converse(y - 1, k, q, r - 1);
    }
}

/// A multiple of 400 is one of 100, and a multiple of 100 is one of 4.
proof fn lemma_multiples(y: int)
    ensures
        y % 400 == 0 ==> y % 100 == 0,
        y % 100 == 0 ==> y % 4 == 0,
{
    assert(y == 100 * (y / 100) + y % 100);
    assert(y == 400 * (y / 400) + y % 400);
    if y % 100 == 0 {
        assert(y == 4 * (25 * (y / 100)));
    }
    if y % 400 == 0 {
        assert(y == 100 * (4 * (y / 400)));
    }
}

proof fn lemma_years_grow(a: int, b: int)
    requires
        a < b,
    ensures
        days_before_year(b) >= days_before_year(a) + year_len(a),
    decreases b - a,
{
    lemma_year_step(b - 1);
    if a < b - 1 {
        lemma_years_grow(a, b - 1);
    }
}

proof fn lemma_months_fill_year(y: int)
    ensures
        days_before_month(y, 13) == year_len(y),
{
    reveal_with_fuel(days_before_month, 14);
}

proof fn lemma_months_grow(y: int, a: int, b: int)
    requires
        1 <= a < b,
    ensures
        days_before_month(y, b) >= days_before_month(y, a) + month_len(y, a),
        days_before_month(y, a) >= 0,
    decreases b - a,
{
    if a < b - 1 {
        lemma_months_grow(y, a, b - 1);
    }
    if a > 1 {
        lemma_month_start(y, a);
    }
}

proof fn lemma_month_start(y: int, m: int)
    ensures
        days_before_month(y, m) >= 0,
    decreases m,
{
    if m > 1 {
        lemma_month_start(y, m - 1);
    }
}

/// No two dates have the same day number.
pub proof fn law_day_number_injective(y1: int, m1: int, d1: int, y2: int, m2: int, d2: int)
    requires
        1 <= m1 <= 12,
        1 <= d1 <= month_len(y1, m1),
        1 <= m2 <= 12,
        1 <= d2 <= month_len(y2, m2),
        day_number(y1, m1, d1) == day_number(y2, m2, d2),
    ensures
        y1 == y2 && m1 == m2 && d1 == d2,
{
    lemma_months_grow(y1, m1, 13);
    lemma_months_grow(y2, m2, 13);
    lemma_months_fill_year(y1);
    lemma_months_fill_year(y2);
    if y1 < y2 {
        lemma_years_grow(y1, y2);
    } else if y2 < y1 {
        lemma_years_grow(y2, y1);
    } else if m1 < m2 {
        lemma_months_grow(y1, m1, m2);
    } else if m2 < m1 {
        lemma_months_grow(y1, m2, m1);
    }
}

proof fn lemma_split_days(a: int, r: int, b: int, t: int)
    requires
        a * DAY_MS + r == b * DAY_MS + t,
        0 <= r < DAY_MS,
        0 <= t < DAY_MS,
    ensures
        a == b,
        r == t,
{
}

proof fn lemma_same_time_of_day(f: UtcFields, g: UtcFields)
    requires
        f.valid(),
        g.valid(),
        f.unix_ms() == g.unix_ms(),
    ensures
        f.unix_day() == g.unix_day(),
        f.hour == g.hour,
        f.minute == g.minute,
        f.second == g.second,
        f.milli == g.milli,
{
    let a = f.unix_day();
    let b = g.unix_day();
    let r = f.ms_of_day();
    let t = g.ms_of_day();
    assert(a == b && r == t) by {
        lemma_split_days(a, r, b, t);
    }
    lemma_time_of_day(
        f.hour as int,
        f.minute as int,
        f.second as int,
        f.milli as int,
        g.hour as int,
        g.minute as int,
        g.second as int,
        g.milli as int,
    );
}

proof fn lemma_time_of_day(h: int, m: int, s: int, l: int, i: int, n: int, t: int, k: int)
    requires
        0 <= m < 60,
        0 <= s < 60,
        0 <= l < 1000,
        0 <= n < 60,
        0 <= t < 60,
        0 <= k < 1000,
        h * 3_600_000 + m * 60_000 + s * 1_000 + l == i * 3_600_000 + n * 60_000 + t * 1_000 + k,
    ensures
        h == i,
        m == n,
        s == t,
        l == k,
{
    assert(h == i);
    assert(m == n);
}

/// No two dates and times of day are the same instant.
pub proof fn law_instant_injective(f: UtcFields, g: UtcFields)
    requires
        f.valid(),
        g.valid(),
        f.unix_ms() == g.unix_ms(),
    ensures
        f == g,
{
    lemma_same_time_of_day(f, g);
    law_day_number_injective(
        f.year as int,
        f.month as int,
        f.day as int,
        g.year as int,
        g.month as int,
        g.day as int,
    );
}

/// The calendar date and time of day of an instant.
pub fn utc_fields(ms: i64) -> (f: UtcFields)
    requires
        representable(ms as int),
    ensures
        f.valid(),
        f.unix_ms() == ms,
        f == fields_of(ms as int),
{
    match chrono_fields(ms) {
        Some(f) => {
            proof {
                law_instant_injective(f, fields_of(ms as int));
            }
            f
        },
        None => UtcFields { year: 1970, month: 1, day: 1, hour: 0, minute: 0, second: 0, milli: 0 },
    }
}

/// Division that rounds toward zero.
pub open spec fn div_to_zero(a: int, b: int) -> int {
    if a >= 0 {
        a / b
    } else {
        -((-a) / b)
    }
}

/// The Julian day number of a date, by the formula of Fliegel and Van Flandern.
pub open spec fn julian_day(y: int, m: int, d: int) -> int {
    let shift = div_to_zero(m - 14, 12);
    div_to_zero(1461 * (y + 4800 + shift), 4) + div_to_zero(367 * (m - 2 - 12 * shift), 12)
        - div_to_zero(3 * div_to_zero(y + 4900 + shift, 100), 4) + d - 32075
}

/// From the year -4799 on the Julian day number counts the days: it is the day
/// number of the Gregorian calendar, shifted so that 1970-01-01 is 2440588.
pub proof fn law_julian_day_counts_days(y: int, m: int, d: int)
    requires
        y >= -4799,
        1 <= m <= 12,
    ensures
        julian_day(y, m, d) == day_number(y, m, d) + 2440588,
{
    let shift = div_to_zero(m - 14, 12);
    assert(shift == (if m <= 2 {
        -1int
    } else {
        0int
    }));
    let yy = y + shift;
    lemma_julian_year(yy);
    lemma_round_up(y, 4);
    lemma_round_up(y, 100);
    lemma_round_up(y, 400);
    lemma_multiples(y);
    lemma_month_days(y, m);
}

/// The part of the Julian day number that depends on the year.
proof fn lemma_julian_year(yy: int)
    requires
        yy >= -4800,
    ensures
        div_to_zero(1461 * (yy + 4800), 4) == 365 * yy + 1753200 + yy / 4,
        div_to_zero(3 * div_to_zero(yy + 4900, 100), 4) == yy / 100 - yy / 400 + 36,
{
    let x = yy + 4800;
    assert((1461 * x) / 4 == 365 * x + x / 4);
    assert(x / 4 == yy / 4 + 1200);
    let c = yy / 100;
    assert((yy + 4900) / 100 == c + 49);
    assert((3 * (c + 49)) / 4 == c - c / 4 + 36);
    assert(c / 4 == yy / 400) by {
        let e = c / 4;
        let rest = 100 * (c % 4) + yy % 100;
        assert(yy == e * 400 + rest);
        vstd::arithmetic::div_mod::lemma_fundamental_div_mod_converse(yy, 400, e, rest);
    }
}

/// The part of the Julian day number that depends on the month.
proof fn lemma_month_days(y: int, m: int)
    requires
        1 <= m <= 12,
    ensures
        days_before_month(y, m) == (if m <= 2 {
            div_to_zero(367 * (m + 10), 12) - 336
        } else {
            div_to_zero(367 * (m - 2), 12) + 29 + month_len(y, 2) - 28
        }),
{
    reveal_with_fuel(days_before_month, 14);
}

/// `n` in decimal with leading zeros up to four digits.
pub open spec fn decimal4(n: nat) -> Seq<char> {
    if n < 100 {
        seq!['0', '0'] + decimal2(n)
    } else if n < 1000 {
        seq!['0'] + decimal(n)
    } else {
        decimal(n)
    }
}

/// A year: four digits, or, outside 0 to 9999, a sign and at least four digits.
pub open spec fn year_text(y: int) -> Seq<char> {
    if 0 <= y <= 9999 {
        decimal4(y as nat)
    } else if y > 9999 {
        seq!['+'] + decimal4(y as nat)
    } else {
        seq!['-'] + decimal4((-y) as nat)
    }
}

/// A date as YYYYMMDD.
pub open spec fn date_text(f: UtcFields) -> Seq<char> {
    year_text(f.year as int) + decimal2(f.month as nat) + decimal2(f.day as nat)
}

/// A time of day as HHMMSS.
pub open spec fn time_text(f: UtcFields) -> Seq<char> {
    decimal2(f.hour as nat) + decimal2(f.minute as nat) + decimal2(f.second as nat)
}

fn push_decimal4(out: &mut String, n: u64)
    ensures
        final(out)@ == old(out)@ + decimal4(n as nat),
{
    if n < 100 {
        out.push('0');
        out.push('0');
        push_decimal2(out, n);
    } else {
        if n < 1000 {
            out.push('0');
        }
        push_decimal(out, n);
    }
    assert(out@ =~= old(out)@ + decimal4(n as nat));
}

/// Writes a year.
pub fn format_year(year: i32) -> (r: String)
    requires
        year > i32::MIN,
    ensures
        r@ == year_text(year as int),
{
    let mut s = String::new();
    if year > 9999 {
        s.push('+');
        push_decimal4(&mut s, year as u64);
    } else if year < 0 {
        s.push('-');
        push_decimal4(&mut s, (-year) as u64);
    } else {
        push_decimal4(&mut s, year as u64);
    }
    assert(s@ =~= year_text(year as int));
    s
}

/// Writes a date as YYYYMMDD.
pub fn format_date(f: &UtcFields) -> (r: String)
    requires
        f.valid(),
    ensures
        r@ == date_text(*f),
{
    let mut s = format_year(f.year);
    push_decimal2(&mut s, f.month as u64);
    push_decimal2(&mut s, f.day as u64);
    s
}

/// Writes a time of day as HHMMSS.
pub fn format_time_of_day(f: &UtcFields) -> (r: String)
    requires
        f.valid(),
    ensures
        r@ == time_text(*f),
{
    let mut s = String::new();
    push_decimal2(&mut s, f.hour as u64);
    assert(s@ =~= decimal2(f.hour as nat));
    push_decimal2(&mut s, f.minute as u64);
    push_decimal2(&mut s, f.second as u64);
    s
}

/// A year between 0 and 9999 has four digits that write it.
pub proof fn law_year_reads_back(y: int)
    requires
        0 <= y <= 9999,
    ensures
        year_text(y).len() == 4,
        all_digits(year_text(y)),
        digits_value(year_text(y)) == y,
{
    let n = y as nat;
    reveal_with_fuel(decimal, 4);
    lemma_decimal_value(n);
    lemma_decimal2_value(n);
    if n < 100 {
        lemma_decimal2_len(n);
        let d = decimal2(n);
        lemma_leading_zero(d);
        lemma_leading_zero(seq!['0'] + d);
        assert(seq!['0', '0'] + d =~= seq!['0'] + (seq!['0'] + d));
    } else if n < 1000 {
        lemma_leading_zero(decimal(n));
    }
}

/// The date as text has the year, the month and the day, in this order, with four,
/// two and two digits.
pub proof fn law_date_reads_back(f: UtcFields)
    requires
        f.valid(),
        0 <= f.year <= 9999,
    ensures
        ({
            let t = date_text(f);
            &&& t.len() == 8
            &&& all_digits(t)
            &&& digits_value(t.subrange(0, 4)) == f.year
            &&& digits_value(t.subrange(4, 6)) == f.month
            &&& digits_value(t.subrange(6, 8)) == f.day
        }),
{
    let (y, m, d) = (year_text(f.year as int), decimal2(f.month as nat), decimal2(f.day as nat));
    law_year_reads_back(f.year as int);
    lemma_decimal2_len(f.month as nat);
    lemma_decimal2_len(f.day as nat);
    lemma_decimal2_value(f.month as nat);
    lemma_decimal2_value(f.day as nat);
    let t = date_text(f);
    assert(t.subrange(0, 4) =~= y);
    assert(t.subrange(4, 6) =~= m);
    assert(t.subrange(6, 8) =~= d);
}

/// The time of day as text has the hour, the minute and the second, in this order,
/// with two digits each.
pub proof fn law_time_reads_back(f: UtcFields)
    requires
        f.valid(),
    ensures
        ({
            let t = time_text(f);
            &&& t.len() == 6
            &&& all_digits(t)
            &&& digits_value(t.subrange(0, 2)) == f.hour
            &&& digits_value(t.subrange(2, 4)) == f.minute
            &&& digits_value(t.subrange(4, 6)) == f.second
        }),
{
    let (h, m, s) = (decimal2(f.hour as nat), decimal2(f.minute as nat), decimal2(f.second as nat));
    lemma_decimal2_len(f.hour as nat);
    lemma_decimal2_len(f.minute as nat);
    lemma_decimal2_len(f.second as nat);
    lemma_decimal2_value(f.hour as nat);
    lemma_decimal2_value(f.minute as nat);
    lemma_decimal2_value(f.second as nat);
    let t = time_text(f);
    assert(t.subrange(0, 2) =~= h);
    assert(t.subrange(2, 4) =~= m);
    assert(t.subrange(4, 6) =~= s);
}

/// A year beyond four digits is written with its sign.
pub proof fn law_far_years(y: int)
    requires
        y < 0 || y > 9999,
    ensures
        ({
            let t = year_text(y);
            &&& t[0] == if y < 0 {
                '-'
            } else {
                '+'
            }
            &&& t.len() >= 5
            &&& all_digits(t.drop_first())
            &&& digits_value(t.drop_first()) == if y < 0 {
                -y
            } else {
                y
            }
        }),
{
    let n = (if y < 0 {
        -y
    } else {
        y
    }) as nat;
    let t = year_text(y);
    assert(t.drop_first() =~= decimal4(n));
    lemma_decimal_value(n);
    if n <= 9999 {
        law_year_reads_back(n as int);
    } else {
        lemma_five_digits(n);
    }
}

proof fn lemma_five_digits(n: nat)
    requires
        n > 9999,
    ensures
        decimal(n).len() >= 5,
    decreases n,
{
    if n >= 100_000 {
        lemma_five_digits(n / 10);
    } else {
        reveal_with_fuel(decimal, 5);
    }
}

} // verus!
