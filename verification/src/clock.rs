use vstd::prelude::*;

use crate::output::{decimal_string, decimal_text, digit_char};
use crate::text::{push_char, push_str};

verus! {

/// A UTC date and time of day.
#[derive(Debug, Clone, Copy, PartialEq, Eq)]
pub struct CivilTime {
    pub year: u64,
    pub month: u64,
    pub day: u64,
    pub hour: u64,
    pub minute: u64,
    pub second: u64,
}

/// Gregorian leap years.
pub open spec fn is_leap(y: int) -> bool {
    (y % 4 == 0 && y % 100 != 0) || y % 400 == 0
}

/// The number of days in year `y`.
pub open spec fn year_days(y: int) -> int {
    if is_leap(y) {
        366
    } else {
        365
    }
}

/// The number of days in month `m` (1 to 12) of year `y`.
pub open spec fn month_days(y: int, m: int) -> int {
    if m == 2 {
        if is_leap(y) {
            29
        } else {
            28
        }
    } else if m == 4 || m == 6 || m == 9 || m == 11 {
        30
    } else {
        31
    }
}

/// Days from 1970-01-01 to the first day of year `y`.
pub open spec fn days_before_year(y: int) -> int
    decreases y - 1970,
{
    if y <= 1970 {
        0
    } else {
        days_before_year(y - 1) + year_days(y - 1)
    }
}

/// Days from the first of January to the first day of month `m` in year `y`.
pub open spec fn days_before_month(y: int, m: int) -> int
    decreases m,
{
    if m <= 1 {
        0
    } else {
        days_before_month(y, m - 1) + month_days(y, m - 1)
    }
}

/// `t` is the UTC time `secs` seconds after 1970-01-01T00:00:00.
pub open spec fn civil_time_of(t: CivilTime, secs: int) -> bool {
    &&& t.year >= 1970
    &&& 1 <= t.month <= 12
    &&& 1 <= t.day <= month_days(t.year as int, t.month as int)
    &&& t.hour < 24
    &&& t.minute < 60
    &&& t.second < 60
    &&& days_before_year(t.year as int) + days_before_month(t.year as int, t.month as int) + t.day
        - 1 == secs / 86400
    &&& t.hour * 3600 + t.minute * 60 + t.second == secs % 86400
}

proof fn lemma_days_before_year_grows(y: int)
    requires
        y >= 1970,
    ensures
        days_before_year(y) >= 365 * (y - 1970),
    decreases y - 1970,
{
    if y > 1970 {
        lemma_days_before_year_grows(y - 1);
    }
}

fn leap(y: u64) -> (b: bool)
    ensures
        b == is_leap(y as int),
{
    (y % 4 == 0 && y % 100 != 0) || y % 400 == 0
}

fn days_in_month(y: u64, m: u64) -> (d: u64)
    ensures
        d == month_days(y as int, m as int),
{
    if m == 2 {
        if leap(y) {
            29
        } else {
            28
        }
    } else if m == 4 || m == 6 || m == 9 || m == 11 {
        30
    } else {
        31
    }
}

proof fn lemma_month_fits_year(y: int, m: int)
    requires
        1 <= m <= 12,
    ensures
        days_before_month(y, m) + month_days(y, m) <= year_days(y),
{
    reveal_with_fuel(days_before_month, 13);
    if m == 1 {
    } else if m == 2 {
    } else if m == 3 {
    } else if m == 4 {
    } else if m == 5 {
    } else if m == 6 {
    } else if m == 7 {
    } else if m == 8 {
    } else if m == 9 {
    } else if m == 10 {
    } else if m == 11 {
    } else {
    }
}

proof fn lemma_days_before_month_nonneg(y: int, m: int)
    ensures
        days_before_month(y, m) >= 0,
    decreases m,
{
    if m > 1 {
        lemma_days_before_month_nonneg(y, m - 1);
    }
}

proof fn lemma_later_month(y: int, m1: int, m2: int)
    requires
        1 <= m1 < m2,
    ensures
        days_before_month(y, m1) + month_days(y, m1) <= days_before_month(y, m2),
    decreases m2,
{
    if m2 > m1 + 1 {
        lemma_later_month(y, m1, m2 - 1);
    }
}

proof fn lemma_later_year(y1: int, y2: int)
    requires
        1970 <= y1 < y2,
    ensures
        days_before_year(y1) + year_days(y1) <= days_before_year(y2),
    decreases y2,
{
    if y2 > y1 + 1 {
        lemma_later_year(y1, y2 - 1);
    }
}

/// Each instant has one calendar reading: two civil times of the same
/// second are the same.
pub proof fn lemma_civil_time_unique(t1: CivilTime, t2: CivilTime, secs: int)
    requires
        secs >= 0,
        civil_time_of(t1, secs),
        civil_time_of(t2, secs),
    ensures
        t1 == t2,
{
    let y1 = t1.year as int;
    let y2 = t2.year as int;
    let m1 = t1.month as int;
    let m2 = t2.month as int;
    lemma_month_fits_year(y1, m1);
    lemma_month_fits_year(y2, m2);
    lemma_days_before_month_nonneg(y1, m1);
    lemma_days_before_month_nonneg(y2, m2);
    if y1 < y2 {
        lemma_later_year(y1, y2);
    } else if y2 < y1 {
        lemma_later_year(y2, y1);
    }
    assert(y1 == y2);
    if m1 < m2 {
        lemma_later_month(y1, m1, m2);
    } else if m2 < m1 {
        lemma_later_month(y1, m2, m1);
    }
    assert(m1 == m2);
    assert(t1.day == t2.day);
    assert(t1.hour == t2.hour && t1.minute == t2.minute && t1.second == t2.second) by (
    nonlinear_arith)
        requires
            t1.hour * 3600 + t1.minute * 60 + t1.second == t2.hour * 3600 + t2.minute * 60
                + t2.second,
            t1.minute < 60,
            t1.second < 60,
            t2.minute < 60,
            t2.second < 60,
    ;
}

/// The UTC date and time `secs` seconds after the Unix epoch.
pub fn civil_from_unix(secs: u64) -> (t: CivilTime)
    ensures
        civil_time_of(t, secs as int),
{
    let total = secs / 86400;
    let mut days = total;
    let mut year: u64 = 1970;
    loop
        invariant
            total == secs / 86400,
            year >= 1970,
            days_before_year(year as int) + days == total,
        ensures
            year >= 1970,
            days_before_year(year as int) + days == total,
            days < year_days(year as int),
        decreases days,
    {
        let yd: u64 = if leap(year) {
            366
        } else {
            365
        };
        if days < yd {
            break;
        }
        proof {
            lemma_days_before_year_grows(year + 1);
        }
        days -= yd;
        year += 1;
    }
    let mut month: u64 = 1;
    loop
        invariant
            total == secs / 86400,
            year >= 1970,
            days_before_year(year as int) + days_before_month(year as int, month as int) + days
                == total,
            1 <= month <= 12,
            days_before_month(year as int, month as int) + days < year_days(year as int),
        ensures
            year >= 1970,
            1 <= month <= 12,
            days_before_year(year as int) + days_before_month(year as int, month as int) + days
                == total,
            days < month_days(year as int, month as int),
        decreases 12 - month,
    {
        let md = days_in_month(year, month);
        if days < md {
            break;
        }
        assert(month < 12) by {
            if month == 12 {
                reveal_with_fuel(days_before_month, 13);
                assert(days_before_month(year as int, 12) + 31 == year_days(year as int));
            }
        }
        days -= md;
        month += 1;
    }
    let rem = secs % 86400;
    let hour = rem / 3600;
    let minute = (rem % 3600) / 60;
    let second = rem % 60;
    CivilTime { year, month, day: days + 1, hour, minute, second }
}

/// `n` written with at least `width` digits, padded with leading zeros.
pub open spec fn padded(n: nat, width: nat) -> Seq<char> {
    let digits = decimal_text(n);
    if digits.len() >= width {
        digits
    } else {
        Seq::new((width - digits.len()) as nat, |i: int| '0') + digits
    }
}

/// `n` written with at least `width` digits.
fn padded_string(n: u64, width: usize) -> (s: String)
    ensures
        s@ == padded(n as nat, width as nat),
{
    let digits = decimal_string(n);
    let len = digits.as_str().unicode_len();
    let mut s = String::new();
    if len < width {
        let mut k: usize = 0;
        while k < width - len
            invariant
                len < width,
                k <= width - len,
                s@ == Seq::new(k as nat, |i: int| '0'),
            decreases width - len - k,
        {
            push_char(&mut s, '0');
            k += 1;
            assert(s@ =~= Seq::new(k as nat, |i: int| '0'));
        }
    }
    push_str(&mut s, digits.as_str());
    proof {
        if len >= width {
            assert(s@ =~= digits@);
        }
    }
    s
}

/// The calendar date `YYYY-MM-DD`.
pub open spec fn date_text(t: CivilTime) -> Seq<char> {
    padded(t.year as nat, 4) + "-"@ + padded(t.month as nat, 2) + "-"@ + padded(t.day as nat, 2)
}

/// The timestamp `YYYY-MM-DDTHH:MM:SS+00:00`.
pub open spec fn timestamp_text(t: CivilTime) -> Seq<char> {
    date_text(t) + "T"@ + padded(t.hour as nat, 2) + ":"@ + padded(t.minute as nat, 2) + ":"@
        + padded(t.second as nat, 2) + "+00:00"@
}

/// The calendar date `YYYY-MM-DD` of `t`.
pub fn format_date(t: &CivilTime) -> (s: String)
    ensures
        s@ == date_text(*t),
{
    let mut s = padded_string(t.year, 4);
    push_str(&mut s, "-");
    push_str(&mut s, padded_string(t.month, 2).as_str());
    push_str(&mut s, "-");
    push_str(&mut s, padded_string(t.day, 2).as_str());
    s
}

/// The timestamp `YYYY-MM-DDTHH:MM:SS+00:00` of `t`, in UTC.
pub fn format_timestamp(t: &CivilTime) -> (s: String)
    ensures
        s@ == timestamp_text(*t),
{
    let mut s = format_date(t);
    push_str(&mut s, "T");
    push_str(&mut s, padded_string(t.hour, 2).as_str());
    push_str(&mut s, ":");
    push_str(&mut s, padded_string(t.minute, 2).as_str());
    push_str(&mut s, ":");
    push_str(&mut s, padded_string(t.second, 2).as_str());
    push_str(&mut s, "+00:00");
    s
}


/// The two decimal digits of `n` (below 100), the tens first.
pub open spec fn two_digits(n: int) -> Seq<char> {
    seq![digit_char(n / 10), digit_char(n % 10)]
}

/// The four decimal digits of `n` (below 10000), the thousands first.
pub open spec fn four_digits(n: int) -> Seq<char> {
    seq![digit_char(n / 1000), digit_char((n / 100) % 10), digit_char((n / 10) % 10), digit_char(n % 10)]
}

proof fn lemma_padded_two(n: nat)
    requires
        n < 100,
    ensures
        padded(n, 2) == two_digits(n as int),
{
    if n < 10 {
        assert(decimal_text(n) == seq![digit_char(n as int)]);
        assert(digit_char(0) == '0');
        assert(Seq::new(1, |i: int| '0') + seq![digit_char(n as int)] =~= two_digits(n as int));
    } else {
        assert(decimal_text(n / 10) == seq![digit_char((n / 10) as int)]);
        assert(decimal_text(n) == decimal_text(n / 10).push(digit_char((n % 10) as int)));
        assert(decimal_text(n) =~= two_digits(n as int));
    }
}

proof fn lemma_padded_four(n: nat)
    requires
        n < 10000,
    ensures
        padded(n, 4) == four_digits(n as int),
{
    let a = n / 1000;
    let b = (n / 100) % 10;
    let c = (n / 10) % 10;
    let d = n % 10;
    assert(digit_char(0) == '0');
    if n < 10 {
        assert(decimal_text(n) == seq![digit_char(n as int)]);
        assert(Seq::new(3, |i: int| '0') + seq![digit_char(n as int)] =~= four_digits(n as int));
    } else if n < 100 {
        assert(decimal_text(n / 10) == seq![digit_char((n / 10) as int)]);
        assert(decimal_text(n) == decimal_text(n / 10).push(digit_char(d as int)));
        assert(Seq::new(2, |i: int| '0') + decimal_text(n) =~= four_digits(n as int));
    } else if n < 1000 {
        assert(n / 10 / 10 == n / 100);
        assert(decimal_text(n / 100) == seq![digit_char((n / 100) as int)]);
        assert(decimal_text(n / 10) == decimal_text(n / 10 / 10).push(digit_char(((n / 10) % 10) as int)));
        assert(decimal_text(n) == decimal_text(n / 10).push(digit_char(d as int)));
        assert(Seq::new(1, |i: int| '0') + decimal_text(n) =~= four_digits(n as int));
    } else {
        assert(n / 10 / 10 == n / 100);
        assert(n / 100 / 10 == n / 1000);
        assert(decimal_text(n / 1000) == seq![digit_char((n / 1000) as int)]);
        assert(decimal_text(n / 100) == decimal_text(n / 100 / 10).push(digit_char(((n / 100) % 10) as int)));
        assert(decimal_text(n / 10) == decimal_text(n / 10 / 10).push(digit_char(((n / 10) % 10) as int)));
        assert(decimal_text(n) == decimal_text(n / 10).push(digit_char(d as int)));
        assert(decimal_text(n) =~= four_digits(n as int));
    }
}

/// A record's timestamp is fixed-width, `YYYY-MM-DDTHH:MM:SS+00:00`: for a
/// time of day and a year of at most four digits it has 25 characters, the
/// year is four digits and month, day, hour, minute and second are each two
/// digits, with leading zeros, at fixed positions.
pub proof fn lemma_timestamp_fixed_width(t: CivilTime)
    requires
        t.year <= 9999,
        1 <= t.month <= 12,
        1 <= t.day <= 31,
        t.hour < 24,
        t.minute < 60,
        t.second < 60,
    ensures
        timestamp_text(t).len() == 25,
        timestamp_text(t).subrange(0, 4) == four_digits(t.year as int),
        timestamp_text(t)[4] == '-',
        timestamp_text(t).subrange(5, 7) == two_digits(t.month as int),
        timestamp_text(t)[7] == '-',
        timestamp_text(t).subrange(8, 10) == two_digits(t.day as int),
        timestamp_text(t)[10] == 'T',
        timestamp_text(t).subrange(11, 13) == two_digits(t.hour as int),
        timestamp_text(t)[13] == ':',
        timestamp_text(t).subrange(14, 16) == two_digits(t.minute as int),
        timestamp_text(t)[16] == ':',
        timestamp_text(t).subrange(17, 19) == two_digits(t.second as int),
        timestamp_text(t).subrange(19, 25) == "+00:00"@,
{
    reveal_strlit("-");
    reveal_strlit("T");
    reveal_strlit(":");
    reveal_strlit("+00:00");
    lemma_padded_four(t.year as nat);
    lemma_padded_two(t.month as nat);
    lemma_padded_two(t.day as nat);
    lemma_padded_two(t.hour as nat);
    lemma_padded_two(t.minute as nat);
    lemma_padded_two(t.second as nat);
    let s = timestamp_text(t);
    let built = four_digits(t.year as int) + seq!['-'] + two_digits(t.month as int) + seq!['-']
        + two_digits(t.day as int) + seq!['T'] + two_digits(t.hour as int) + seq![':'] + two_digits(
        t.minute as int,
    ) + seq![':'] + two_digits(t.second as int) + "+00:00"@;
    assert(s =~= built);
    assert(s.subrange(0, 4) =~= four_digits(t.year as int));
    assert(s.subrange(5, 7) =~= two_digits(t.month as int));
    assert(s.subrange(8, 10) =~= two_digits(t.day as int));
    assert(s.subrange(11, 13) =~= two_digits(t.hour as int));
    assert(s.subrange(14, 16) =~= two_digits(t.minute as int));
    assert(s.subrange(17, 19) =~= two_digits(t.second as int));
    assert(s.subrange(19, 25) =~= "+00:00"@);
}

} // verus!
