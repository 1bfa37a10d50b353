//! Dates of the civil calendar, counted in days from 1970-01-01.
use vstd::prelude::*;

use crate::text;
use crate::text::decimal_text;

verus! {

/// Whether a year has a twenty-ninth of February.
pub open spec fn is_leap(y: int) -> bool {
    y % 4 == 0 && (y % 100 != 0 || y % 400 == 0)
}

/// How many days a month has.
pub open spec fn days_in_month(y: int, m: int) -> int {
    if m == 2 {
        if is_leap(y) {
            29
        } else {
            28
        }
    } else if m == 4 || m == 6 || m == 9 || m == 11 {
        30
    } else {
        31
    }
}

/// Whether there is such a day.
pub open spec fn is_date(y: int, m: int, d: int) -> bool {
    1 <= m <= 12 && 1 <= d <= days_in_month(y, m)
}

/// The number of a day. Years are taken to start in March, so that the leap
/// day is the last of its year.
pub open spec fn day_number(y: int, m: int, d: int) -> int {
    let year = if m <= 2 {
        y - 1
    } else {
        y
    };
    let month = if m > 2 {
        m - 3
    } else {
        m + 9
    };
    365 * year + year / 4 - year / 100 + year / 400 + (153 * month + 2) / 5 + d - 1 - 719_468
}

/// The day after a day.
pub open spec fn next_day(y: int, m: int, d: int) -> (int, int, int) {
    if d < days_in_month(y, m) {
        (y, m, d + 1)
    } else if m < 12 {
        (y, m + 1, 1)
    } else {
        (y + 1, 1, 1)
    }
}

/// Day numbers count the days of the calendar: the first of January 1970 has
/// number zero, and every day has the number after that of the day before.
pub proof fn law_day_numbers_count_days(y: int, m: int, d: int)
    requires
        is_date(y, m, d),
    ensures
        day_number(1970, 1, 1) == 0,
        ({
            let n = next_day(y, m, d);
            is_date(n.0, n.1, n.2) && day_number(n.0, n.1, n.2) == day_number(y, m, d) + 1
        }),
{
    assert(1 <= m <= 12);
    assert(m == 1 || m == 2 || m == 3 || m == 4 || m == 5 || m == 6 || m == 7 || m == 8 || m == 9
        || m == 10 || m == 11 || m == 12);
}

/// Where a year within four centuries starts.
spec fn year_start(k: int) -> int {
    365 * k + k / 4 - k / 100
}

/// Which year within four centuries a day falls into.
proof fn lemma_year_of_era(doe: int, yoe: int)
    requires
        0 <= doe <= 146_096,
        yoe == (doe - doe / 1460 + doe / 36_524 - doe / 146_096) / 365,
    ensures
        0 <= yoe <= 399,
        year_start(yoe) <= doe,
        doe <= year_start(yoe) + 365,
        doe == year_start(yoe) + 365 ==> (yoe + 1) % 4 == 0 && ((yoe + 1) % 100 != 0 || (yoe + 1)
            % 400 == 0),
{
    let century = doe / 36_524;
    let rest = doe - century * 36_524;
    assert(0 <= century <= 4);
    assert(century == 0 || century == 1 || century == 2 || century == 3 || century == 4);
    let a = doe / 1460;
    assert(a * 1460 <= doe < a * 1460 + 1460);
    let c = doe / 146_096;
    assert(c == 0 || c == 1);
    let n = doe - a + century - c;
    assert(yoe * 365 <= n < yoe * 365 + 365);
    let q = yoe / 4;
    assert(q * 4 <= yoe < q * 4 + 4);
    let h = yoe / 100;
    assert(h * 100 <= yoe < h * 100 + 100);
}

/// Which month a day of a year that starts in March falls into.
proof fn lemma_month_of_year(doy: int, mp: int, day: int)
    requires
        0 <= doy <= 365,
        mp == (5 * doy + 2) / 153,
        day == doy - (153 * mp + 2) / 5 + 1,
    ensures
        0 <= mp <= 11,
        1 <= day <= 31,
        mp == 1 || mp == 3 || mp == 6 || mp == 8 ==> day <= 30,
        mp == 11 ==> day <= 29,
        mp == 11 && doy < 365 ==> day <= 28,
{
    assert(0 <= mp <= 11);
    assert(mp == 0 || mp == 1 || mp == 2 || mp == 3 || mp == 4 || mp == 5 || mp == 6 || mp == 7
        || mp == 8 || mp == 9 || mp == 10 || mp == 11);
}

/// Years repeat after four centuries.
proof fn lemma_year_of_calendar(yoe: int, era: int)
    requires
        0 <= yoe <= 399,
    ensures
        (yoe + 400 * era) / 4 == yoe / 4 + 100 * era,
        (yoe + 400 * era) / 100 == yoe / 100 + 4 * era,
        (yoe + 400 * era) / 400 == era,
        is_leap(yoe + 1 + 400 * era) == ((yoe + 1) % 4 == 0 && ((yoe + 1) % 100 != 0 || (yoe + 1)
            % 400 == 0)),
{
}

/// Finds the date of a day.
pub fn civil_from_days(z: i64) -> (r: (i64, u32, u32))
    requires
        z <= i64::MAX - 719_468,
    ensures
        is_date(r.0 as int, r.1 as int, r.2 as int),
        day_number(r.0 as int, r.1 as int, r.2 as int) == z,
{
    let shifted: i128 = z as i128 + 719_468;
    let era: i128 = if shifted >= 0 {
        shifted / 146_097
    } else {
        -((146_096 - shifted) / 146_097)
    };
    assert(era == shifted as int / 146_097);
    let doe: i128 = shifted - era * 146_097;
    let yoe: i128 = (doe - doe / 1460 + doe / 36_524 - doe / 146_096) / 365;
    proof {
        lemma_year_of_era(doe as int, yoe as int);
    }
    let year: i128 = yoe + era * 400;
    let doy: i128 = doe - (365 * yoe + yoe / 4 - yoe / 100);
    let mp: i128 = (5 * doy + 2) / 153;
    let day: i128 = doy - (153 * mp + 2) / 5 + 1;
    let month: i128 = if mp < 10 {
        mp + 3
    } else {
        mp - 9
    };
    let y: i128 = if month <= 2 {
        year + 1
    } else {
        year
    };
    proof {
        lemma_month_of_year(doy as int, mp as int, day as int);
        lemma_year_of_calendar(yoe as int, era as int);
        assert(month > 2 ==> y == year && month - 3 == mp);
        assert(month <= 2 ==> y - 1 == year && month + 9 == mp);
        assert(day_number(y as int, month as int, day as int) == 365 * year + year as int / 4
            - year as int / 100 + year as int / 400 + doy - 719_468);
    }
    (y as i64, month as u32, day as u32)
}

/// No two dates have the same number.
pub proof fn law_day_numbers_are_distinct(y: int, m: int, d: int, y2: int, m2: int, d2: int)
    requires
        is_date(y, m, d),
        is_date(y2, m2, d2),
        day_number(y, m, d) == day_number(y2, m2, d2),
    ensures
        y == y2 && m == m2 && d == d2,
{
    if y < y2 || (y == y2 && (m < m2 || (m == m2 && d < d2))) {
        lemma_later(y, m, d, y2, m2, d2);
    } else if y2 < y || (y == y2 && (m2 < m || (m == m2 && d2 < d))) {
        lemma_later(y2, m2, d2, y, m, d);
    }
}

proof fn lemma_years_apart(y: int, y2: int)
    requires
        y < y2,
    ensures
        365 * y + y / 4 - y / 100 + y / 400 + 365 <= 365 * y2 + y2 / 4 - y2 / 100 + y2 / 400,
    decreases y2 - y,
{
    lemma_leap_step(y);
    if y + 1 < y2 {
        lemma_years_apart(y + 1, y2);
    }
}

proof fn lemma_leap_step(y: int)
    ensures
        (y + 1) / 4 - (y + 1) / 100 + (y + 1) / 400 >= y / 4 - y / 100 + y / 400,
{
    let n = y + 1;
    assert(n / 4 == y / 4 + (if n % 4 == 0 {
        1int
    } else {
        0int
    }));
    assert(n / 100 == y / 100 + (if n % 100 == 0 {
        1int
    } else {
        0int
    }));
    assert(n / 400 >= y / 400);
    assert(n % 100 == 0 ==> n % 4 == 0);
}

proof fn lemma_later(y: int, m: int, d: int, y2: int, m2: int, d2: int)
    requires
        is_date(y, m, d),
        is_date(y2, m2, d2),
        y < y2 || (y == y2 && (m < m2 || (m == m2 && d < d2))),
    ensures
        day_number(y, m, d) < day_number(y2, m2, d2),
{
    let a = if m <= 2 {
        y - 1
    } else {
        y
    };
    let b = if m2 <= 2 {
        y2 - 1
    } else {
        y2
    };
    if a < b {
        lemma_years_apart(a, b);
        if b == a + 1 {
            assert(is_leap(b) ==> b / 4 == a / 4 + 1);
        } else {
            lemma_years_apart(a + 1, b);
        }
    }
}

// ---------------------------------------------------------------------------
// In words
// ---------------------------------------------------------------------------

/// A number in decimal, with zeros in front up to a width.
pub open spec fn padded(n: nat, width: nat) -> Seq<char> {
    let s = text::decimal(n);
    if s.len() < width {
        text::repeated('0', (width - s.len()) as nat) + s
    } else {
        s
    }
}

fn padded_text(n: u64, width: usize) -> (r: String)
    ensures
        r@ == padded(n as nat, width as nat),
{
    let s = decimal_text(n);
    let len: usize = text::chars_of(s.as_str()).len();
    let mut out = String::new();
    if len < width {
        text::push_repeated(&mut out, '0', width - len);
    }
    out.push_str(s.as_str());
    assert(out@ =~= padded(n as nat, width as nat));
    out
}

/// A date as year, month and day.
pub open spec fn date_text(y: nat, m: nat, d: nat) -> Seq<char> {
    padded(y, 4) + "-"@ + padded(m, 2) + "-"@ + padded(d, 2)
}

/// Whether a text is the date of a day.
pub open spec fn is_date_of(s: Seq<char>, days: int) -> bool {
    exists|y: int, m: int, d: int|
        #![trigger day_number(y, m, d)]
        y >= 0 && is_date(y, m, d) && day_number(y, m, d) == days && s == date_text(
            y as nat,
            m as nat,
            d as nat,
        )
}

/// The text that is the date of a day.
pub open spec fn day_text(days: int) -> Seq<char> {
    choose|s: Seq<char>| is_date_of(s, days)
}

/// A day has one date.
pub proof fn law_days_have_one_date(s: Seq<char>, days: int)
    requires
        is_date_of(s, days),
    ensures
        day_text(days) == s,
{
    let other = day_text(days);
    assert(is_date_of(other, days));
    let (y, m, d) = choose|y: int, m: int, d: int|
        #![trigger day_number(y, m, d)]
        y >= 0 && is_date(y, m, d) && day_number(y, m, d) == days && s == date_text(
            y as nat,
            m as nat,
            d as nat,
        );
    let (y2, m2, d2) = choose|y: int, m: int, d: int|
        #![trigger day_number(y, m, d)]
        y >= 0 && is_date(y, m, d) && day_number(y, m, d) == days && other == date_text(
            y as nat,
            m as nat,
            d as nat,
        );
    law_day_numbers_are_distinct(y, m, d, y2, m2, d2);
}

/// Writes the date of a moment, given in seconds from the start of 1970.
pub fn date_of_seconds(seconds: u64) -> (r: String)
    ensures
        is_date_of(r@, seconds as int / 86_400),
{
    let days: u64 = seconds / 86_400;
    let (y, m, d) = civil_from_days(days as i64);
    proof {
        if y < 1970 {
            law_day_numbers_count_days(1970, 1, 1);
            lemma_later(y as int, m as int, d as int, 1970, 1, 1);
        }
    }
    let mut out = padded_text(y as u64, 4);
    out.push_str("-");
    out.push_str(padded_text(m as u64, 2).as_str());
    out.push_str("-");
    out.push_str(padded_text(d as u64, 2).as_str());
    assert(out@ =~= date_text(y as nat, m as nat, d as nat));
    assert(day_number(y as int, m as int, d as int) == days);
    out
}

/// Writes the date of a moment, given in milliseconds from the start of
/// 1970.
pub fn date_ymd(millis: u64) -> (r: String)
    ensures
        is_date_of(r@, millis as int / 1000 / 86_400),
        r@ == day_text(millis as int / 1000 / 86_400),
{
    let r = date_of_seconds(millis / 1000);
    proof {
        law_days_have_one_date(r@, millis as int / 1000 / 86_400);
    }
    r
}

/// The calendar repeats after four hundred years, that is after 146097 days.
pub proof fn law_the_calendar_repeats(y: int, m: int, d: int)
    ensures
        day_number(y + 400, m, d) == day_number(y, m, d) + 146_097,
        is_date(y + 400, m, d) == is_date(y, m, d),
        days_in_month(2000, 2) == 29,
        days_in_month(1900, 2) == 28,
        days_in_month(2024, 2) == 29,
{
}

/// Numbers in dates are filled up with zeros in front, and lose nothing.
pub proof fn law_numbers_are_filled_up_in_front(n: nat, width: nat)
    ensures
        padded(n, width).len() >= width,
        text::decimal(n).len() <= width ==> padded(n, width).len() == width,
        padded(n, width).skip(padded(n, width).len() - text::decimal(n).len()) == text::decimal(n),
        forall|k: int|
            0 <= k < padded(n, width).len() - text::decimal(n).len() ==> (#[trigger] padded(
                n,
                width,
            )[k]) == '0',
{
    let p = padded(n, width);
    let s = text::decimal(n);
    assert(p.skip(p.len() - s.len()) =~= s);
}

/// A date is written with the year first, in four digits, and month and day
/// in two each.
pub proof fn law_dates_have_ten_characters(y: nat, m: nat, d: nat)
    requires
        y < 10_000,
        1 <= m <= 12,
        1 <= d <= 31,
    ensures
        date_text(y, m, d).len() == 10,
        date_text(y, m, d)[4] == '-',
        date_text(y, m, d)[7] == '-',
        date_text(y, m, d).take(4) == padded(y, 4),
        date_text(y, m, d).subrange(5, 7) == padded(m, 2),
        date_text(y, m, d).skip(8) == padded(d, 2),
{
    reveal_with_fuel(text::decimal, 5);
    reveal_strlit("-");
    assert(text::decimal(y).len() <= 4);
    assert(text::decimal(m).len() <= 2);
    assert(text::decimal(d).len() <= 2);
    law_numbers_are_filled_up_in_front(y, 4);
    law_numbers_are_filled_up_in_front(m, 2);
    law_numbers_are_filled_up_in_front(d, 2);
    let t = date_text(y, m, d);
    assert(t.take(4) =~= padded(y, 4));
    assert(t.subrange(5, 7) =~= padded(m, 2));
    assert(t.skip(8) =~= padded(d, 2));
}

} // verus!
