//! Civil calendar dates at day granularity: the keys of the deletion
//! ledger's buckets. Dates are kept as plain year/month/day values and
//! measured by their index in the sequence of supported days, so that
//! adding days, comparing dates and formatting bucket names are all
//! verified against one arithmetic model.
use crate::strutil::push_char;
use vstd::arithmetic::div_mod::lemma_fundamental_div_mod_converse;
use vstd::prelude::*;

verus! {

/// A calendar date (UTC, day granularity) within the supported range.
#[derive(Clone, Copy, Debug, PartialEq, Eq, Structural)]
pub struct Date {
    pub year: u32,
    pub month: u32,
    pub day: u32,
}

pub open spec fn is_leap_year(y: int) -> bool {
    (y % 4 == 0 && y % 100 != 0) || y % 400 == 0
}

pub open spec fn days_in_year_of(y: int) -> int {
    if is_leap_year(y) {
        366
    } else {
        365
    }
}

pub open spec fn days_in_month_of(y: int, m: int) -> int {
    if m == 2 {
        if is_leap_year(y) {
            29
        } else {
            28
        }
    } else if m == 4 || m == 6 || m == 9 || m == 11 {
        30
    } else {
        31
    }
}

/// The supported range: the Unix epoch up to the last four-digit year.
pub open spec fn valid_date(d: Date) -> bool {
    &&& 1970 <= d.year <= 9999
    &&& 1 <= d.month <= 12
    &&& 1 <= d.day <= days_in_month_of(d.year as int, d.month as int)
}

/// Days in all years since 1970 before year `y`.
pub open spec fn days_before_year(y: int) -> int
    decreases y,
{
    if y <= 1970 {
        0
    } else {
        days_before_year(y - 1) + days_in_year_of(y - 1)
    }
}

/// Days in all months of year `y` before month `m`.
pub open spec fn days_before_month(y: int, m: int) -> int
    decreases m,
{
    if m <= 1 {
        0
    } else {
        days_before_month(y, m - 1) + days_in_month_of(y, m - 1)
    }
}

/// The position of `d` in the sequence of days: 1970-01-01 is day 0.
pub open spec fn day_index(d: Date) -> int {
    days_before_year(d.year as int) + days_before_month(d.year as int, d.month as int) + (
    d.day as int - 1)
}

pub open spec fn last_supported_date() -> Date {
    Date { year: 9999, month: 12, day: 31 }
}

pub open spec fn max_day_index() -> int {
    day_index(last_supported_date())
}

/// The months of one year sum to its length.
proof fn lemma_months_sum(y: int)
    ensures
        days_before_month(y, 13) == days_in_year_of(y),
{
    let l: int = if is_leap_year(y) {
        1
    } else {
        0
    };
    assert(days_before_month(y, 1) == 0);
    assert(days_before_month(y, 2) == 31);
    assert(days_before_month(y, 3) == 59 + l);
    assert(days_before_month(y, 4) == 90 + l);
    assert(days_before_month(y, 5) == 120 + l);
    assert(days_before_month(y, 6) == 151 + l);
    assert(days_before_month(y, 7) == 181 + l);
    assert(days_before_month(y, 8) == 212 + l);
    assert(days_before_month(y, 9) == 243 + l);
    assert(days_before_month(y, 10) == 273 + l);
    assert(days_before_month(y, 11) == 304 + l);
    assert(days_before_month(y, 12) == 334 + l);
    assert(days_before_month(y, 13) == 365 + l);
}

proof fn lemma_days_before_month_mono(y: int, m1: int, m2: int)
    requires
        m1 <= m2,
    ensures
        days_before_month(y, m1) <= days_before_month(y, m2),
    decreases m2 - m1,
{
    if m1 < m2 {
        lemma_days_before_month_mono(y, m1, m2 - 1);
        assert(days_in_month_of(y, m2 - 1) > 0);
    }
}

proof fn lemma_days_before_year_mono(y1: int, y2: int)
    requires
        y1 <= y2,
    ensures
        days_before_year(y1) <= days_before_year(y2),
    decreases y2 - y1,
{
    if y1 < y2 {
        lemma_days_before_year_mono(y1, y2 - 1);
        assert(days_in_year_of(y2 - 1) > 0);
    }
}

/// A valid date's index stays inside its year.
proof fn lemma_day_index_in_year(d: Date)
    requires
        valid_date(d),
    ensures
        days_before_year(d.year as int) <= day_index(d),
        day_index(d) < days_before_year(d.year as int + 1),
{
    let y = d.year as int;
    let m = d.month as int;
    lemma_days_before_month_mono(y, 1, m);
    lemma_days_before_month_mono(y, m + 1, 13);
    lemma_months_sum(y);
    assert(days_before_month(y, m + 1) == days_before_month(y, m) + days_in_month_of(y, m));
}

/// Two valid dates compare by index exactly as they compare
/// lexicographically by year, month and day.
proof fn lemma_day_index_order(a: Date, b: Date)
    requires
        valid_date(a),
        valid_date(b),
    ensures
        (day_index(a) < day_index(b)) <==> (a.year < b.year || (a.year == b.year && a.month
            < b.month) || (a.year == b.year && a.month == b.month && a.day < b.day)),
{
    lemma_day_index_in_year(a);
    lemma_day_index_in_year(b);
    if a.year == b.year {
        let y = a.year as int;
        if a.month < b.month {
            lemma_days_before_month_mono(y, a.month as int + 1, b.month as int);
            assert(days_before_month(y, a.month as int + 1) == days_before_month(
                y,
                a.month as int,
            ) + days_in_month_of(y, a.month as int));
        } else if b.month < a.month {
            lemma_days_before_month_mono(y, b.month as int + 1, a.month as int);
            assert(days_before_month(y, b.month as int + 1) == days_before_month(
                y,
                b.month as int,
            ) + days_in_month_of(y, b.month as int));
        }
    } else if a.year < b.year {
        lemma_days_before_year_mono(a.year as int + 1, b.year as int);
    } else {
        lemma_days_before_year_mono(b.year as int + 1, a.year as int);
    }
}

/// A valid date never stands before the epoch.
pub proof fn lemma_day_index_nonneg(d: Date)
    requires
        valid_date(d),
    ensures
        day_index(d) >= 0,
{
    lemma_days_before_year_mono(1970, d.year as int);
    lemma_days_before_month_mono(d.year as int, 1, d.month as int);
}

/// Valid dates with one index are one date.
pub proof fn lemma_day_index_injective(a: Date, b: Date)
    requires
        valid_date(a),
        valid_date(b),
        day_index(a) == day_index(b),
    ensures
        a == b,
{
    lemma_day_index_order(a, b);
    lemma_day_index_order(b, a);
}

impl Date {
    /// Checks validity of plain year/month/day values, as handed in by
    /// the clock or a caller.
    pub fn from_ymd(year: u32, month: u32, day: u32) -> (r: Option<Date>)
        ensures
            r is Some ==> r->0 == (Date { year, month, day }) && valid_date(r->0),
            r is None ==> !valid_date(Date { year, month, day }),
    {
        let d = Date { year, month, day };
        if 1970 <= year && year <= 9999 && 1 <= month && month <= 12 && 1 <= day && day
            <= days_in_month(year, month) {
            Some(d)
        } else {
            None
        }
    }
}

pub fn days_in_month(y: u32, m: u32) -> (r: u32)
    requires
        1 <= m <= 12,
    ensures
        r == days_in_month_of(y as int, m as int),
{
    if m == 2 {
        if (y % 4 == 0 && y % 100 != 0) || y % 400 == 0 {
            29
        } else {
            28
        }
    } else if m == 4 || m == 6 || m == 9 || m == 11 {
        30
    } else {
        31
    }
}

/// The date one day later.
pub fn next_date(d: Date) -> (r: Date)
    requires
        valid_date(d),
        day_index(d) < max_day_index(),
    ensures
        valid_date(r),
        day_index(r) == day_index(d) + 1,
{
    let y = d.year;
    let m = d.month;
    if d.day < days_in_month(y, m) {
        Date { year: y, month: m, day: d.day + 1 }
    } else if m < 12 {
        let r = Date { year: y, month: m + 1, day: 1 };
        proof {
            assert(days_before_month(y as int, m as int + 1) == days_before_month(
                y as int,
                m as int,
            ) + days_in_month_of(y as int, m as int));
        }
        r
    } else {
        proof {
            if y == 9999 {
                lemma_day_index_injective(d, last_supported_date());
            }
            lemma_months_sum(y as int);
            assert(days_before_month(y as int, 13) == days_before_month(y as int, 12)
                + days_in_month_of(y as int, 12));
        }
        Date { year: y + 1, month: 1, day: 1 }
    }
}

/// The date one day earlier.
pub fn prev_date(d: Date) -> (r: Date)
    requires
        valid_date(d),
        day_index(d) > 0,
    ensures
        valid_date(r),
        day_index(r) == day_index(d) - 1,
{
    let y = d.year;
    let m = d.month;
    if d.day > 1 {
        Date { year: y, month: m, day: d.day - 1 }
    } else if m > 1 {
        let r = Date { year: y, month: m - 1, day: days_in_month(y, m - 1) };
        proof {
            assert(days_before_month(y as int, m as int) == days_before_month(y as int, m as int
                - 1) + days_in_month_of(y as int, m as int - 1));
        }
        r
    } else {
        let r = Date { year: y - 1, month: 12, day: 31 };
        proof {
            lemma_months_sum(y as int - 1);
            assert(days_before_month(y as int - 1, 13) == days_before_month(y as int - 1, 12)
                + days_in_month_of(y as int - 1, 12));
        }
        r
    }
}

/// The date `n` days away (either direction), within the supported range.
pub fn date_add_days(d: Date, n: i64) -> (r: Date)
    requires
        valid_date(d),
        0 <= day_index(d) + n <= max_day_index(),
    ensures
        valid_date(r),
        day_index(r) == day_index(d) + n,
{
    let mut cur = d;
    if n >= 0 {
        let mut k: i64 = 0;
        while k < n
            invariant
                0 <= k <= n,
                valid_date(cur),
                day_index(cur) == day_index(d) + k,
                day_index(d) + n <= max_day_index(),
            decreases n - k,
        {
            cur = next_date(cur);
            k = k + 1;
        }
    } else {
        let mut k: i64 = 0;
        while k > n
            invariant
                n <= k <= 0,
                valid_date(cur),
                day_index(cur) == day_index(d) + k,
                0 <= day_index(d) + n,
            decreases k - n,
        {
            cur = prev_date(cur);
            k = k - 1;
        }
    }
    cur
}

/// Whether `a` is on or before `b`.
pub fn date_le(a: Date, b: Date) -> (r: bool)
    requires
        valid_date(a),
        valid_date(b),
    ensures
        r == (day_index(a) <= day_index(b)),
{
    proof {
        lemma_day_index_order(a, b);
        lemma_day_index_order(b, a);
    }
    a.year < b.year || (a.year == b.year && (a.month < b.month || (a.month == b.month && a.day
        <= b.day)))
}

/// The decimal digit `x` as a character; digits above nine never occur.
pub open spec fn digit_char(x: int) -> char {
    if x == 0 {
        '0'
    } else if x == 1 {
        '1'
    } else if x == 2 {
        '2'
    } else if x == 3 {
        '3'
    } else if x == 4 {
        '4'
    } else if x == 5 {
        '5'
    } else if x == 6 {
        '6'
    } else if x == 7 {
        '7'
    } else if x == 8 {
        '8'
    } else if x == 9 {
        '9'
    } else {
        '?'
    }
}

/// The value of a decimal digit character, or -1.
pub open spec fn digit_val(c: char) -> int {
    if c == '0' {
        0
    } else if c == '1' {
        1
    } else if c == '2' {
        2
    } else if c == '3' {
        3
    } else if c == '4' {
        4
    } else if c == '5' {
        5
    } else if c == '6' {
        6
    } else if c == '7' {
        7
    } else if c == '8' {
        8
    } else if c == '9' {
        9
    } else {
        -1
    }
}

pub fn digit_to_char(x: u32) -> (r: char)
    requires
        x < 10,
    ensures
        r == digit_char(x as int),
{
    match x {
        0 => '0',
        1 => '1',
        2 => '2',
        3 => '3',
        4 => '4',
        5 => '5',
        6 => '6',
        7 => '7',
        8 => '8',
        _ => '9',
    }
}

pub fn char_to_digit(c: char) -> (r: Option<u32>)
    ensures
        r is Some ==> digit_val(c) == r->0 as int && r->0 < 10,
        r is None ==> digit_val(c) == -1,
{
    match c {
        '0' => Some(0),
        '1' => Some(1),
        '2' => Some(2),
        '3' => Some(3),
        '4' => Some(4),
        '5' => Some(5),
        '6' => Some(6),
        '7' => Some(7),
        '8' => Some(8),
        '9' => Some(9),
        _ => None,
    }
}

/// A date as the ledger writes it: `YYYY-MM-DD`, zero padded.
pub open spec fn spec_format_date(d: Date) -> Seq<char> {
    let y = d.year as int;
    let m = d.month as int;
    let dd = d.day as int;
    seq![
        digit_char(y / 1000),
        digit_char((y / 100) % 10),
        digit_char((y / 10) % 10),
        digit_char(y % 10),
        '-',
        digit_char(m / 10),
        digit_char(m % 10),
        '-',
        digit_char(dd / 10),
        digit_char(dd % 10),
    ]
}

pub fn format_date(d: Date) -> (r: String)
    requires
        valid_date(d),
    ensures
        r@ == spec_format_date(d),
{
    let mut s = String::new();
    push_char(&mut s, digit_to_char(d.year / 1000));
    push_char(&mut s, digit_to_char((d.year / 100) % 10));
    push_char(&mut s, digit_to_char((d.year / 10) % 10));
    push_char(&mut s, digit_to_char(d.year % 10));
    push_char(&mut s, '-');
    push_char(&mut s, digit_to_char(d.month / 10));
    push_char(&mut s, digit_to_char(d.month % 10));
    push_char(&mut s, '-');
    push_char(&mut s, digit_to_char(d.day / 10));
    push_char(&mut s, digit_to_char(d.day % 10));
    proof {
        assert(s@ =~= spec_format_date(d));
    }
    s
}

/// What `parse_date` accepts: exactly the zero-padded form of a valid date.
pub open spec fn spec_parse_date(s: Seq<char>) -> Option<Date> {
    if s.len() == 10 && s[4] == '-' && s[7] == '-' && digit_val(s[0]) >= 0 && digit_val(s[1]) >= 0
        && digit_val(s[2]) >= 0 && digit_val(s[3]) >= 0 && digit_val(s[5]) >= 0 && digit_val(s[6])
        >= 0 && digit_val(s[8]) >= 0 && digit_val(s[9]) >= 0 {
        let y = digit_val(s[0]) * 1000 + digit_val(s[1]) * 100 + digit_val(s[2]) * 10 + digit_val(
            s[3],
        );
        let m = digit_val(s[5]) * 10 + digit_val(s[6]);
        let dd = digit_val(s[8]) * 10 + digit_val(s[9]);
        let d = Date { year: y as u32, month: m as u32, day: dd as u32 };
        if valid_date(d) {
            Some(d)
        } else {
            None
        }
    } else {
        None
    }
}

pub fn parse_date(s: &str) -> (r: Option<Date>)
    ensures
        r == spec_parse_date(s@),
{
    if s.unicode_len() != 10 {
        return None;
    }
    if s.get_char(4) != '-' || s.get_char(7) != '-' {
        return None;
    }
    let d0 = char_to_digit(s.get_char(0));
    let d1 = char_to_digit(s.get_char(1));
    let d2 = char_to_digit(s.get_char(2));
    let d3 = char_to_digit(s.get_char(3));
    let d5 = char_to_digit(s.get_char(5));
    let d6 = char_to_digit(s.get_char(6));
    let d8 = char_to_digit(s.get_char(8));
    let d9 = char_to_digit(s.get_char(9));
    match (d0, d1, d2, d3, d5, d6, d8, d9) {
        (
            Some(a),
            Some(b),
            Some(c),
            Some(d),
            Some(e),
            Some(f),
            Some(g),
            Some(h),
        ) => {
            let y = a * 1000 + b * 100 + c * 10 + d;
            let m = e * 10 + f;
            let dd = g * 10 + h;
            Date::from_ymd(y, m, dd)
        },
        _ => None,
    }
}

pub proof fn lemma_digit_roundtrip(x: int)
    requires
        0 <= x < 10,
    ensures
        digit_val(digit_char(x)) == x,
{
}

/// Formatting then parsing gives the date back.
#[verifier::rlimit(50)]
pub proof fn lemma_format_parse_date(d: Date)
    requires
        valid_date(d),
    ensures
        spec_parse_date(spec_format_date(d)) == Some(d),
{
    let y = d.year as int;
    let m = d.month as int;
    let dd = d.day as int;
    let s = spec_format_date(d);
    assert(0 <= y / 1000 < 10 && 0 <= (y / 100) % 10 < 10 && 0 <= (y / 10) % 10 < 10 && 0 <= y % 10
        < 10);
    lemma_digit_roundtrip(y / 1000);
    lemma_digit_roundtrip((y / 100) % 10);
    lemma_digit_roundtrip((y / 10) % 10);
    lemma_digit_roundtrip(y % 10);
    lemma_digit_roundtrip(m / 10);
    lemma_digit_roundtrip(m % 10);
    lemma_digit_roundtrip(dd / 10);
    lemma_digit_roundtrip(dd % 10);
    assert(y == (y / 1000) * 1000 + ((y / 100) % 10) * 100 + ((y / 10) % 10) * 10 + y % 10) by {
        lemma_fundamental_div_mod_converse(y, 1000, y / 1000, y % 1000);
        lemma_fundamental_div_mod_converse(y % 1000, 100, (y / 100) % 10, y % 100);
        lemma_fundamental_div_mod_converse(y % 100, 10, (y / 10) % 10, y % 10);
    };
    assert(m == (m / 10) * 10 + m % 10);
    assert(dd == (dd / 10) * 10 + dd % 10);
    assert(digit_val(s[0]) * 1000 + digit_val(s[1]) * 100 + digit_val(s[2]) * 10 + digit_val(s[3])
        == y);
    assert(digit_val(s[5]) * 10 + digit_val(s[6]) == m);
    assert(digit_val(s[8]) * 10 + digit_val(s[9]) == dd);
}

/// Days covered by `s` seconds, rounded up to whole days (toward
/// positive infinity also for negative values).
pub open spec fn ceil_div_86400(s: int) -> int {
    if s % 86400 == 0 {
        s / 86400
    } else {
        s / 86400 + 1
    }
}

pub fn days_for_seconds(s: i64) -> (r: i64)
    ensures
        r == ceil_div_86400(s as int),
{
    if s >= 0 {
        let u: u64 = s as u64;
        let q = u / 86400;
        let rem = u % 86400;
        if rem > 0 {
            (q + 1) as i64
        } else {
            q as i64
        }
    } else {
        let mag: u64 = (-(s as i128)) as u64;
        let q = mag / 86400;
        let si = Ghost(s as int);
        proof {
            let qq = si@ / 86400;
            let rr = si@ % 86400;
            if rr == 0 {
                lemma_fundamental_div_mod_converse(mag as int, 86400, -qq, 0);
            } else {
                lemma_fundamental_div_mod_converse(mag as int, 86400, -qq - 1, 86400 - rr);
            }
        }
        if q == 0 {
            0
        } else {
            -(q as i64)
        }
    }
}

/// The index of `d` in the sequence of supported days, as a runtime value.
pub fn day_index_exec(d: Date) -> (r: i64)
    requires
        valid_date(d),
    ensures
        r == day_index(d),
{
    let mut sum: i64 = 0;
    let mut y: u32 = 1970;
    while y < d.year
        invariant
            1970 <= y <= d.year <= 9999,
            sum == days_before_year(y as int),
            sum <= 366 * (y - 1970),
        decreases d.year - y,
    {
        if (y % 4 == 0 && y % 100 != 0) || y % 400 == 0 {
            sum = sum + 366;
        } else {
            sum = sum + 365;
        }
        y = y + 1;
    }
    let mut m: u32 = 1;
    while m < d.month
        invariant
            valid_date(d),
            1 <= m <= d.month,
            sum == days_before_year(d.year as int) + days_before_month(d.year as int, m as int),
            sum <= 366 * (d.year - 1970) + 31 * (m - 1),
        decreases d.month - m,
    {
        sum = sum + days_in_month(d.year, m) as i64;
        m = m + 1;
    }
    sum + (d.day - 1) as i64
}

/// Whether `d` moved by `n` days stays inside the supported range:
/// the runtime check behind `date_add_days`'s precondition.
pub fn add_days_in_range(d: Date, n: i64) -> (r: bool)
    requires
        valid_date(d),
    ensures
        r == (0 <= day_index(d) + n <= max_day_index()),
{
    let idx = day_index_exec(d);
    let last = Date { year: 9999, month: 12, day: 31 };
    let max = day_index_exec(last);
    let total: i128 = idx as i128 + n as i128;
    0 <= total && total <= max as i128
}

} // verus!

