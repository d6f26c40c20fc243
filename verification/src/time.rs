//! Times as ISO 8601 text in UTC.

use vstd::prelude::*;
use vstd::arithmetic::div_mod::{
    lemma_div_denominator, lemma_fundamental_div_mod, lemma_fundamental_div_mod_converse,
};
use crate::text::{decimal, decimal_value, lemma_decimal, to_decimal};

verus! {

/// A day of the Gregorian calendar.
struct Date {
    year: u64,
    /// From 1, for January.
    month: u64,
    /// From 1.
    day: u64,
}

pub open spec fn leap(year: nat) -> bool {
    year % 4 == 0 && (year % 100 != 0 || year % 400 == 0)
}

/// How many days `year` has.
pub open spec fn year_days(year: nat) -> nat {
    if leap(year) {
        366
    } else {
        365
    }
}

/// How many days the `month`th month of `year` has.
pub open spec fn month_days(year: nat, month: nat) -> nat {
    if month == 2 {
        if leap(year) {
            29
        } else {
            28
        }
    } else if month == 4 || month == 6 || month == 9 || month == 11 {
        30
    } else {
        31
    }
}

/// The day that lies `days` days behind the first of the `month`th month of `year`, within
/// that year.
pub open spec fn day_in_year(year: nat, month: nat, days: nat) -> (nat, nat, nat)
    decreases 12 - month,
{
    if month >= 12 || days < month_days(year, month) {
        (year, month, days + 1)
    } else {
        day_in_year(year, month + 1, (days - month_days(year, month)) as nat)
    }
}

/// The year, month and day that lie `days` days behind the first day of `year`.
pub open spec fn day_from(year: nat, days: nat) -> (nat, nat, nat)
    decreases days,
{
    if days < year_days(year) {
        day_in_year(year, 1, days)
    } else {
        day_from(year + 1, (days - year_days(year)) as nat)
    }
}

/// How many days the `count` years from `year` on have together.
spec fn years_days(year: nat, count: nat) -> nat
    decreases count,
{
    if count == 0 {
        0
    } else {
        year_days(year) + years_days(year + 1, (count - 1) as nat)
    }
}

/// How many of the years before `year` are leap years.
spec fn leaps_before(year: nat) -> int {
    (year + 3) / 4 - (year + 99) / 100 + (year + 399) / 400
}

/// Rounding up, one more `d` is counted from `n` to `n + 1` where `n` is a multiple of `d`.
proof fn lemma_multiple(n: int, d: int)
    requires
        0 < d,
    ensures
        (n + d) / d == (n + d - 1) / d + if n % d == 0 {
            1int
        } else {
            0int
        },
{
    let q = n / d;
    let r = n % d;
    lemma_fundamental_div_mod(n, d);
    assert(d * (q + 1) == d * q + d) by (nonlinear_arith);
    assert(q * d == d * q && (q + 1) * d == d * (q + 1)) by (nonlinear_arith);
    lemma_fundamental_div_mod_converse(n + d, d, q + 1, r);
    if r == 0 {
        lemma_fundamental_div_mod_converse(n + d - 1, d, q, d - 1);
    } else {
        lemma_fundamental_div_mod_converse(n + d - 1, d, q + 1, r - 1);
    }
}

proof fn lemma_leap_year(year: nat)
    ensures
        leaps_before(year + 1) == leaps_before(year) + if leap(year) {
            1int
        } else {
            0int
        },
{
    lemma_multiple(year as int, 4);
    lemma_multiple(year as int, 100);
    lemma_multiple(year as int, 400);
    assert(year % 400 == 0 ==> year % 100 == 0);
    assert(year % 100 == 0 ==> year % 4 == 0);
}

proof fn lemma_years_days(year: nat, count: nat)
    ensures
        years_days(year, count) == 365 * count + leaps_before(year + count) - leaps_before(year),
    decreases count,
{
    if count > 0 {
        lemma_years_days(year + 1, (count - 1) as nat);
        lemma_leap_year(year);
        assert((year + 1) + (count - 1) as nat == year + count);
    }
}

/// 400 years have 146097 days, wherever they start.
proof fn lemma_cycle(year: nat)
    ensures
        years_days(year, 400) == 146097,
{
    lemma_years_days(year, 400);
    assert((year + 403) / 4 == (year + 3) / 4 + 100);
    assert((year + 499) / 100 == (year + 99) / 100 + 4);
    assert((year + 799) / 400 == (year + 399) / 400 + 1);
}

proof fn lemma_skip_years(year: nat, count: nat, days: nat)
    requires
        days >= years_days(year, count),
    ensures
        day_from(year, days) == day_from(year + count, (days - years_days(year, count)) as nat),
    decreases count,
{
    if count > 0 {
        lemma_skip_years(
            year + 1,
            (count - 1) as nat,
            (days - year_days(year)) as nat,
        );
        assert((year + 1) + (count - 1) as nat == year + count);
    }
}

proof fn lemma_skip_cycles(year: nat, cycles: nat, days: nat)
    requires
        days >= 146097 * cycles,
    ensures
        day_from(year, days) == day_from(
            year + 400 * cycles,
            (days - 146097 * cycles) as nat,
        ),
    decreases cycles,
{
    if cycles > 0 {
        lemma_cycle(year);
        lemma_skip_years(year, 400, days);
        lemma_skip_cycles(year + 400, (cycles - 1) as nat, (days - 146097) as nat);
        assert((year + 400) + 400 * (cycles - 1) as nat == year + 400 * cycles);
        assert((days - 146097) - 146097 * (cycles - 1) == days - 146097 * cycles);
    }
}

fn is_leap(year: u64) -> (r: bool)
    ensures
        r == leap(year as nat),
{
    year % 4 == 0 && (year % 100 != 0 || year % 400 == 0)
}

fn days_in_month(year: u64, month: u64) -> (n: u64)
    ensures
        n == month_days(year as nat, month as nat),
{
    if month == 2 {
        if is_leap(year) {
            29
        } else {
            28
        }
    } else if month == 4 || month == 6 || month == 9 || month == 11 {
        30
    } else {
        31
    }
}

fn days_in_year(year: u64) -> (n: u64)
    ensures
        n == year_days(year as nat),
{
    if is_leap(year) {
        366
    } else {
        365
    }
}

/// The day that lies `days` days behind the first of January 1970.
fn date_of(days: u64) -> (date: Date)
    requires
        days <= 1_000_000_000_000,
    ensures
        (date.year as nat, date.month as nat, date.day as nat) == day_from(1970, days as nat),
{
    let cycles: u64 = days / 146097;
    let mut year: u64 = 1970 + 400 * cycles;
    let mut rest: u64 = days % 146097;
    proof {
        lemma_skip_cycles(1970, cycles as nat, days as nat);
        assert(days - 146097 * cycles == rest);
    }
    let ghost first = year;
    while rest >= days_in_year(year)
        invariant
            first <= year,
            year - first + rest <= 146097,
            first <= 3_000_000_000,
            day_from(year as nat, rest as nat) == day_from(1970, days as nat),
        decreases rest,
    {
        rest = rest - days_in_year(year);
        year = year + 1;
    }
    let mut month: u64 = 1;
    while month < 12 && rest >= days_in_month(year, month)
        invariant
            1 <= month <= 12,
            rest <= 146097,
            day_in_year(year as nat, month as nat, rest as nat) == day_from(1970, days as nat),
        decreases 12 - month,
    {
        rest = rest - days_in_month(year, month);
        month = month + 1;
    }
    Date { year, month, day: rest + 1 }
}

/// `n` in decimal, with zeros in front of it up to `width` digits.
pub open spec fn padded(n: nat, width: nat) -> Seq<char> {
    Seq::new(
        if decimal(n).len() < width {
            (width - decimal(n).len()) as nat
        } else {
            0
        },
        |i: int| '0',
    ) + decimal(n)
}

fn append_padded(text: &mut String, n: u64, width: usize)
    ensures
        final(text)@ == old(text)@ + padded(n as nat, width as nat),
{
    let digits = to_decimal(n);
    let mut missing: usize = 0;
    let len = digits.as_str().unicode_len();
    if len < width {
        missing = width - len;
    }
    let ghost start = text@;
    let mut i: usize = 0;
    while i < missing
        invariant
            i <= missing,
            text@ == start + Seq::new(i as nat, |k: int| '0'),
        decreases missing - i,
    {
        text.push('0');
        i += 1;
        assert(text@ == start + Seq::new(i as nat, |k: int| '0'));
    }
    text.append(digits.as_str());
    assert(text@ == start + padded(n as nat, width as nat));
}

/// The time `ms` milliseconds behind the start of 1970, as `YYYY-MM-DDThh:mm:ss.mmmZ`.
pub open spec fn iso_text(ms: nat) -> Seq<char> {
    let (year, month, day) = day_from(1970, ms / 86_400_000);
    let rest = ms % 86_400_000;
    padded(year, 4) + "-"@ + padded(month, 2) + "-"@ + padded(day, 2) + "T"@ + padded(
        rest / 3_600_000,
        2,
    ) + ":"@ + padded(rest / 60_000 % 60, 2) + ":"@ + padded(rest / 1000 % 60, 2) + "."@ + padded(
        rest % 1000,
        3,
    ) + "Z"@
}

/// The time `ms` milliseconds behind the start of 1970, as `YYYY-MM-DDThh:mm:ss.mmmZ`.
pub fn iso_from_unix_ms(ms: u64) -> (text: String)
    ensures
        text@ == iso_text(ms as nat),
{
    let date = date_of(ms / 86_400_000);
    let rest: u64 = ms % 86_400_000;
    let mut text = String::new();
    append_padded(&mut text, date.year, 4);
    text.append("-");
    append_padded(&mut text, date.month, 2);
    text.append("-");
    append_padded(&mut text, date.day, 2);
    text.append("T");
    append_padded(&mut text, rest / 3_600_000, 2);
    text.append(":");
    append_padded(&mut text, rest / 60_000 % 60, 2);
    text.append(":");
    append_padded(&mut text, rest / 1000 % 60, 2);
    text.append(".");
    append_padded(&mut text, rest % 1000, 3);
    text.append("Z");
    assert(Seq::<char>::empty() + padded(date.year as nat, 4) == padded(date.year as nat, 4));
    text
}

/// How many days the months of `year` from `month` on have together.
spec fn months_days(year: nat, month: nat) -> nat
    decreases 13 - month,
{
    if month > 12 {
        0
    } else {
        month_days(year, month) + months_days(year, month + 1)
    }
}

proof fn lemma_day_in_year_is_valid(year: nat, month: nat, days: nat)
    requires
        1 <= month <= 12,
        days < months_days(year, month),
    ensures
        ({
            let (y, m, d) = day_in_year(year, month, days);
            &&& y == year
            &&& month <= m <= 12
            &&& 1 <= d <= month_days(y, m)
        }),
    decreases 12 - month,
{
    assert(months_days(year, 13) == 0);
    if month < 12 && days >= month_days(year, month) {
        lemma_day_in_year_is_valid(year, month + 1, (days - month_days(year, month)) as nat);
    }
}

/// The day that counting comes to is a day of the calendar, and none of an earlier year.
pub proof fn lemma_day_is_valid(year: nat, days: nat)
    ensures
        ({
            let (y, m, d) = day_from(year, days);
            &&& year <= y
            &&& 1 <= m <= 12
            &&& 1 <= d <= month_days(y, m)
        }),
    decreases days,
{
    if days < year_days(year) {
        assert(months_days(year, 1) == year_days(year)) by {
            reveal_with_fuel(months_days, 14);
        }
        lemma_day_in_year_is_valid(year, 1, days);
    } else {
        lemma_day_is_valid(year + 1, (days - year_days(year)) as nat);
    }
}

/// How many days a year of 365 days has before its `month`th month.
pub open spec fn days_before_month(month: int) -> int {
    if month == 1 {
        0
    } else if month == 2 {
        31
    } else if month == 3 {
        59
    } else if month == 4 {
        90
    } else if month == 5 {
        120
    } else if month == 6 {
        151
    } else if month == 7 {
        181
    } else if month == 8 {
        212
    } else if month == 9 {
        243
    } else if month == 10 {
        273
    } else if month == 11 {
        304
    } else {
        334
    }
}

/// How many days lie between the start of 1970 and this day: 365 for every year, one more for
/// every leap year that is past or of which February is, and those of the months and the month
/// that are past.
pub open spec fn day_number(year: int, month: int, day: int) -> int {
    let leap_day: int = if month > 2 && year % 4 == 0 && (year % 100 != 0 || year % 400 == 0) {
        1
    } else {
        0
    };
    let before = (year - 1) / 4 - (year - 1) / 100 + (year - 1) / 400;
    365 * (year - 1970) + before - 477 + days_before_month(month) + leap_day + day - 1
}

proof fn lemma_day_in_year_number(year: nat, month: nat, days: nat)
    requires
        1 <= month <= 12,
        days < months_days(year, month),
    ensures
        ({
            let (y, m, d) = day_in_year(year, month, days);
            let feb: int = if leap(year) {
                1
            } else {
                0
            };
            let past = |m: nat|
                days_before_month(m as int) + if m > 2 {
                    feb
                } else {
                    0
                };
            past(month) + days == past(m) + d - 1
        }),
    decreases 12 - month,
{
    assert(months_days(year, 13) == 0);
    if month < 12 && days >= month_days(year, month) {
        lemma_day_in_year_number(year, month + 1, (days - month_days(year, month)) as nat);
    }
}

proof fn lemma_day_from_number(year: nat, days: nat)
    ensures
        ({
            let (y, m, d) = day_from(year, days);
            let feb: int = if leap(y) && m > 2 {
                1
            } else {
                0
            };
            days == 365 * (y - year) + leaps_before(y) - leaps_before(year) + days_before_month(
                m as int,
            ) + feb + d - 1
        }),
    decreases days,
{
    if days < year_days(year) {
        assert(months_days(year, 1) == year_days(year)) by {
            reveal_with_fuel(months_days, 14);
        }
        lemma_day_in_year_is_valid(year, 1, days);
        lemma_day_in_year_number(year, 1, days);
    } else {
        lemma_leap_year(year);
        lemma_day_from_number(year + 1, (days - year_days(year)) as nat);
    }
}

/// The day that counting comes to is the one of that number: a day of the calendar, not before
/// 1970, with that many days before it.
pub proof fn lemma_day_number(days: nat)
    ensures
        ({
            let (y, m, d) = day_from(1970, days);
            &&& y >= 1970
            &&& 1 <= m <= 12
            &&& 1 <= d <= month_days(y, m)
            &&& days == day_number(y as int, m as int, d as int)
        }),
{
    let (y, m, d) = day_from(1970, days);
    lemma_day_is_valid(1970, days);
    lemma_day_from_number(1970, days);
    assert(leaps_before(1970) == 478);
    assert((y + 3) / 4 == (y - 1) / 4 + 1);
    assert((y + 99) / 100 == (y - 1) / 100 + 1);
    assert((y + 399) / 400 == (y - 1) / 400 + 1);
}

proof fn lemma_zeros(n: nat, digits: Seq<char>)
    ensures
        decimal_value(Seq::new(n, |i: int| '0') + digits) == decimal_value(digits),
    decreases n + digits.len(),
{
    let zeros = Seq::new(n, |i: int| '0');
    let all = zeros + digits;
    if digits.len() > 0 {
        lemma_zeros(n, digits.drop_last());
        assert(all.drop_last() == zeros + digits.drop_last());
    } else if n > 0 {
        let m = (n - 1) as nat;
        lemma_zeros(m, digits);
        assert(all.drop_last() == Seq::new(m, |i: int| '0') + digits);
        assert(all.last() == '0');
    } else {
        assert(all == digits);
    }
}

/// A padded number has as many digits as asked for, or as the number needs, and reads back as
/// the number.
pub proof fn lemma_padded(n: nat, width: nat)
    ensures
        decimal_value(padded(n, width)) == n,
        padded(n, width).len() >= width,
        padded(n, width).len() == width || padded(n, width)[0] != '0' || n == 0,
        forall|i: int|
            0 <= i < padded(n, width).len() ==> '0' <= #[trigger] padded(n, width)[i]
                && padded(n, width)[i] <= '9',
        n < 100 && width == 2 ==> padded(n, width).len() == 2,
        n < 1000 && width == 3 ==> padded(n, width).len() == 3,
        n < 10000 && width == 4 ==> padded(n, width).len() == 4,
{
    lemma_decimal(n);
    let zeros = if decimal(n).len() < width {
        (width - decimal(n).len()) as nat
    } else {
        0
    };
    lemma_zeros(zeros, decimal(n));
    reveal_with_fuel(decimal, 5);
    if zeros == 0 {
        assert(padded(n, width) == decimal(n));
    }
}

/// The text of a time reads back as the time: at fixed places from its end stand the day of the
/// calendar and the time of day, each in decimal, that lie that many milliseconds behind the
/// start of 1970. A year below 10000 has four digits.
pub proof fn lemma_iso_text(ms: nat)
    ensures
        ({
            let text = iso_text(ms);
            let n = text.len() as int;
            let year = decimal_value(text.take(n - 20));
            let month = decimal_value(text.subrange(n - 19, n - 17));
            let day = decimal_value(text.subrange(n - 16, n - 14));
            let hour = decimal_value(text.subrange(n - 13, n - 11));
            let minute = decimal_value(text.subrange(n - 10, n - 8));
            let second = decimal_value(text.subrange(n - 7, n - 5));
            let milli = decimal_value(text.subrange(n - 4, n - 1));
            &&& n >= 24
            &&& year < 10000 ==> n == 24
            &&& n > 24 ==> text[0] != '0'
            &&& forall|i: int|
                0 <= i < n && i != n - 20 && i != n - 17 && i != n - 14 && i != n - 11 && i != n - 8
                    && i != n - 5 && i != n - 1 ==> '0' <= #[trigger] text[i] && text[i] <= '9'
            &&& text[n - 20] == '-' && text[n - 17] == '-' && text[n - 14] == 'T'
            &&& text[n - 11] == ':' && text[n - 8] == ':' && text[n - 5] == '.' && text[n - 1]
                == 'Z'
            &&& year >= 1970 && 1 <= month <= 12 && 1 <= day <= month_days(
                year as nat,
                month as nat,
            )
            &&& 0 <= hour < 24 && 0 <= minute < 60 && 0 <= second < 60 && 0 <= milli < 1000
            &&& ms == (((day_number(year, month, day) * 24 + hour) * 60 + minute) * 60 + second)
                * 1000 + milli
        }),
{
    let days = ms / 86_400_000;
    let rest = ms % 86_400_000;
    let (year, month, day) = day_from(1970, days);
    let hour = rest / 3_600_000;
    let minute = rest / 60_000 % 60;
    let second = rest / 1000 % 60;
    let milli = rest % 1000;
    lemma_day_number(days);
    lemma_padded(year, 4);
    lemma_padded(month, 2);
    lemma_padded(day, 2);
    lemma_padded(hour, 2);
    lemma_padded(minute, 2);
    lemma_padded(second, 2);
    lemma_padded(milli, 3);
    reveal_strlit("-");
    reveal_strlit("T");
    reveal_strlit(":");
    reveal_strlit(".");
    reveal_strlit("Z");
    let text = iso_text(ms);
    let n = text.len() as int;
    assert(n == padded(year, 4).len() + 20);
    assert(text.take(n - 20) == padded(year, 4));
    assert(text.subrange(n - 19, n - 17) == padded(month, 2));
    assert(text.subrange(n - 16, n - 14) == padded(day, 2));
    assert(text.subrange(n - 13, n - 11) == padded(hour, 2));
    assert(text.subrange(n - 10, n - 8) == padded(minute, 2));
    assert(text.subrange(n - 7, n - 5) == padded(second, 2));
    assert(text.subrange(n - 4, n - 1) == padded(milli, 3));
    lemma_time_of_day(rest);
    assert(ms == days * 86_400_000 + rest);
}

proof fn lemma_time_of_day(rest: nat)
    requires
        rest < 86_400_000,
    ensures
        rest / 3_600_000 < 24,
        rest == ((rest / 3_600_000 * 60 + rest / 60_000 % 60) * 60 + rest / 1000 % 60) * 1000
            + rest % 1000,
{
    lemma_div_denominator(rest as int, 1000, 60);
    lemma_div_denominator(rest as int, 60_000, 60);
    lemma_fundamental_div_mod(rest as int, 1000);
    lemma_fundamental_div_mod(rest as int / 1000, 60);
    lemma_fundamental_div_mod(rest as int / 60_000, 60);
}

} // verus!
