//! Calendar dates as plain year, month and day values, with the arithmetic
//! the rolling window needs: the previous and next day, the date fourteen
//! days back, and the canonical `YYYY-MM-DD` rendering whose lexicographic
//! order agrees with the calendar order.
use crate::text::digit_char;
use crate::text::digit_char_of;
use crate::text::lex_lt;
use crate::text::lemma_lex_lt_at;
use crate::text::push_char;
use vstd::arithmetic::div_mod::lemma_div_is_ordered;
use vstd::arithmetic::div_mod::lemma_fundamental_div_mod;
use vstd::prelude::*;

verus! {

/// A calendar date in the proleptic Gregorian calendar.
#[derive(Debug, Clone, Copy, PartialEq, Eq, Structural)]
pub struct Date {
    pub year: u32,
    pub month: u32,
    pub day: u32,
}

pub open spec fn is_leap_year(y: int) -> bool {
    y % 4 == 0 && (y % 100 != 0 || y % 400 == 0)
}

pub open spec fn days_in_month(y: int, m: int) -> int {
    if m == 2 {
        if is_leap_year(y) {
            29
        } else {
            28
        }
    } else if m == 4 || m == 6 || m == 9 || m == 11 {
        30
    } else {
        31
    }
}

/// Valid dates; the years are those whose rendering has exactly four digits.
pub open spec fn date_wf(d: Date) -> bool {
    &&& 1 <= d.year <= 9999
    &&& 1 <= d.month <= 12
    &&& 1 <= d.day <= days_in_month(d.year as int, d.month as int)
}

/// Calendar order on dates.
pub open spec fn date_lt(a: Date, b: Date) -> bool {
    ||| a.year < b.year
    ||| (a.year == b.year && a.month < b.month)
    ||| (a.year == b.year && a.month == b.month && a.day < b.day)
}

pub open spec fn date_le(a: Date, b: Date) -> bool {
    date_lt(a, b) || a == b
}

/// The first date the library models.
pub open spec fn first_date() -> Date {
    Date { year: 1, month: 1, day: 1 }
}

/// The last date the library models.
pub open spec fn last_date() -> Date {
    Date { year: 9999, month: 12, day: 31 }
}

/// The day after `d`.
pub open spec fn next_date(d: Date) -> Date {
    if d.day < days_in_month(d.year as int, d.month as int) {
        Date { year: d.year, month: d.month, day: (d.day + 1) as u32 }
    } else if d.month < 12 {
        Date { year: d.year, month: (d.month + 1) as u32, day: 1 }
    } else {
        Date { year: (d.year + 1) as u32, month: 1, day: 1 }
    }
}

/// The day before `d`, stopping at the first modelled date.
pub open spec fn prev_date(d: Date) -> Date {
    if d.day > 1 {
        Date { year: d.year, month: d.month, day: (d.day - 1) as u32 }
    } else if d.month > 1 {
        Date {
            year: d.year,
            month: (d.month - 1) as u32,
            day: days_in_month(d.year as int, d.month as int - 1) as u32,
        }
    } else if d.year > 1 {
        Date { year: (d.year - 1) as u32, month: 12, day: 31 }
    } else {
        d
    }
}

/// The date `n` days before `d`, stopping at the first modelled date.
pub open spec fn days_before(d: Date, n: nat) -> Date
    decreases n,
{
    if n == 0 {
        d
    } else {
        prev_date(days_before(d, (n - 1) as nat))
    }
}

/// The start of the trailing two-week window: fourteen days before today.
pub open spec fn window_start(today: Date) -> Date {
    days_before(today, 14)
}

pub proof fn lemma_next_date_wf(d: Date)
    requires
        date_wf(d),
        d != last_date(),
    ensures
        date_wf(next_date(d)),
        date_lt(d, next_date(d)),
{
}

pub proof fn lemma_prev_date_wf(d: Date)
    requires
        date_wf(d),
    ensures
        date_wf(prev_date(d)),
        date_le(prev_date(d), d),
        d != first_date() ==> date_lt(prev_date(d), d),
{
}

/// No valid date lies strictly between a date and its next day.
pub proof fn lemma_next_date_successor(a: Date, b: Date)
    requires
        date_wf(a),
        date_wf(b),
        date_lt(a, b),
    ensures
        date_le(next_date(a), b),
{
}

pub proof fn lemma_days_before_wf(d: Date, n: nat)
    requires
        date_wf(d),
    ensures
        date_wf(days_before(d, n)),
        date_le(days_before(d, n), d),
    decreases n,
{
    if n > 0 {
        lemma_days_before_wf(d, (n - 1) as nat);
        lemma_prev_date_wf(days_before(d, (n - 1) as nat));
    }
}

/// The canonical rendering of a date: zero-padded `YYYY-MM-DD`.
pub open spec fn date_str(d: Date) -> Seq<char> {
    seq![
        digit_char(d.year as int / 1000),
        digit_char((d.year as int / 100) % 10),
        digit_char((d.year as int / 10) % 10),
        digit_char(d.year as int % 10),
        '-',
        digit_char(d.month as int / 10),
        digit_char(d.month as int % 10),
        '-',
        digit_char(d.day as int / 10),
        digit_char(d.day as int % 10),
    ]
}

/// The two decimal digits of a value below one hundred, compared.
proof fn lemma_two_digit_lt(v1: int, v2: int)
    requires
        0 <= v1 < v2 < 100,
    ensures
        v1 / 10 < v2 / 10 || (v1 / 10 == v2 / 10 && v1 % 10 < v2 % 10),
{
    lemma_div_is_ordered(v1, v2, 10);
    lemma_fundamental_div_mod(v1, 10);
    lemma_fundamental_div_mod(v2, 10);
}

/// The four decimal digits of a value below ten thousand, compared.
proof fn lemma_four_digit_lt(v1: int, v2: int)
    requires
        0 <= v1 < v2 < 10000,
    ensures
        v1 / 1000 < v2 / 1000 || (v1 / 1000 == v2 / 1000 && ((v1 / 100) % 10 < (v2 / 100) % 10 || (
        (v1 / 100) % 10 == (v2 / 100) % 10 && ((v1 / 10) % 10 < (v2 / 10) % 10 || ((v1 / 10) % 10
            == (v2 / 10) % 10 && v1 % 10 < v2 % 10))))),
{
    lemma_div_is_ordered(v1, v2, 1000);
    lemma_div_is_ordered(v1, v2, 100);
    lemma_div_is_ordered(v1, v2, 10);
    lemma_fundamental_div_mod(v1, 10);
    lemma_fundamental_div_mod(v2, 10);
    lemma_fundamental_div_mod(v1 / 10, 10);
    lemma_fundamental_div_mod(v2 / 10, 10);
    lemma_fundamental_div_mod(v1 / 100, 10);
    lemma_fundamental_div_mod(v2 / 100, 10);
    assert((v1 / 10) / 10 == v1 / 100) by (nonlinear_arith);
    assert((v2 / 10) / 10 == v2 / 100) by (nonlinear_arith);
    assert((v1 / 100) / 10 == v1 / 1000) by (nonlinear_arith);
    assert((v2 / 100) / 10 == v2 / 1000) by (nonlinear_arith);
}

/// The rendering respects the calendar order.
pub proof fn lemma_date_str_lt(a: Date, b: Date)
    requires
        date_wf(a),
        date_wf(b),
        date_lt(a, b),
    ensures
        lex_lt(date_str(a), date_str(b)),
{
    let sa = date_str(a);
    let sb = date_str(b);
    let y1 = a.year as int;
    let y2 = b.year as int;
    if y1 < y2 {
        lemma_four_digit_lt(y1, y2);
        if y1 / 1000 < y2 / 1000 {
            lemma_lex_lt_at(sa, sb, 0);
        } else if (y1 / 100) % 10 < (y2 / 100) % 10 {
            lemma_lex_lt_at(sa, sb, 1);
        } else if (y1 / 10) % 10 < (y2 / 10) % 10 {
            lemma_lex_lt_at(sa, sb, 2);
        } else {
            lemma_lex_lt_at(sa, sb, 3);
        }
    } else if a.month < b.month {
        lemma_two_digit_lt(a.month as int, b.month as int);
        if a.month as int / 10 < b.month as int / 10 {
            lemma_lex_lt_at(sa, sb, 5);
        } else {
            lemma_lex_lt_at(sa, sb, 6);
        }
    } else {
        lemma_two_digit_lt(a.day as int, b.day as int);
        if a.day as int / 10 < b.day as int / 10 {
            lemma_lex_lt_at(sa, sb, 8);
        } else {
            lemma_lex_lt_at(sa, sb, 9);
        }
    }
}

/// Distinct valid dates render to distinct strings, in the calendar order.
pub proof fn lemma_date_str_order(a: Date, b: Date)
    requires
        date_wf(a),
        date_wf(b),
    ensures
        date_lt(a, b) ==> lex_lt(date_str(a), date_str(b)),
        a == b ==> date_str(a) == date_str(b),
        date_lt(b, a) ==> lex_lt(date_str(b), date_str(a)),
        date_str(a) == date_str(b) ==> a == b,
{
    if date_lt(a, b) {
        lemma_date_str_lt(a, b);
        crate::text::lemma_lex_lt_irreflexive(date_str(a));
    } else if date_lt(b, a) {
        lemma_date_str_lt(b, a);
        crate::text::lemma_lex_lt_irreflexive(date_str(a));
    }
}

/// Days in the given month, computed.
pub fn days_in_month_of(y: u32, m: u32) -> (r: u32)
    requires
        1 <= m <= 12,
    ensures
        r as int == days_in_month(y as int, m as int),
{
    if m == 2 {
        if y % 4 == 0 && (y % 100 != 0 || y % 400 == 0) {
            29
        } else {
            28
        }
    } else if m == 4 || m == 6 || m == 9 || m == 11 {
        30
    } else {
        31
    }
}

/// The day after `d`, computed.
pub fn succ(d: Date) -> (r: Date)
    requires
        date_wf(d),
        d != last_date(),
    ensures
        r == next_date(d),
        date_wf(r),
        date_lt(d, r),
{
    proof {
        lemma_next_date_wf(d);
    }
    let dim = days_in_month_of(d.year, d.month);
    if d.day < dim {
        Date { year: d.year, month: d.month, day: d.day + 1 }
    } else if d.month < 12 {
        Date { year: d.year, month: d.month + 1, day: 1 }
    } else {
        Date { year: d.year + 1, month: 1, day: 1 }
    }
}

/// The day before `d`, computed; the first modelled date is its own yesterday.
pub fn pred(d: Date) -> (r: Date)
    requires
        date_wf(d),
    ensures
        r == prev_date(d),
        date_wf(r),
{
    proof {
        lemma_prev_date_wf(d);
    }
    if d.day > 1 {
        Date { year: d.year, month: d.month, day: d.day - 1 }
    } else if d.month > 1 {
        let dim = days_in_month_of(d.year, d.month - 1);
        Date { year: d.year, month: d.month - 1, day: dim }
    } else if d.year > 1 {
        Date { year: d.year - 1, month: 12, day: 31 }
    } else {
        d
    }
}

/// The start of the trailing two-week window for the given day.
pub fn two_weeks_before(d: Date) -> (r: Date)
    requires
        date_wf(d),
    ensures
        r == window_start(d),
        date_wf(r),
        date_le(r, d),
{
    let mut cur = d;
    let mut i: u32 = 0;
    while i < 14
        invariant
            i <= 14,
            date_wf(d),
            cur == days_before(d, i as nat),
            date_wf(cur),
        decreases 14 - i,
    {
        cur = pred(cur);
        i = i + 1;
    }
    proof {
        lemma_days_before_wf(d, 14);
    }
    cur
}

/// Whether `a` is on or before `b`.
pub fn date_le_of(a: Date, b: Date) -> (r: bool)
    ensures
        r == date_le(a, b),
{
    if a.year != b.year {
        a.year < b.year
    } else if a.month != b.month {
        a.month < b.month
    } else {
        a.day <= b.day
    }
}

/// The canonical `YYYY-MM-DD` rendering of a date, computed.
pub fn date_string(d: Date) -> (s: String)
    requires
        date_wf(d),
    ensures
        s@ == date_str(d),
{
    let mut s = String::new();
    push_char(&mut s, digit_char_of(d.year / 1000));
    push_char(&mut s, digit_char_of((d.year / 100) % 10));
    push_char(&mut s, digit_char_of((d.year / 10) % 10));
    push_char(&mut s, digit_char_of(d.year % 10));
    push_char(&mut s, '-');
    push_char(&mut s, digit_char_of(d.month / 10));
    push_char(&mut s, digit_char_of(d.month % 10));
    push_char(&mut s, '-');
    push_char(&mut s, digit_char_of(d.day / 10));
    push_char(&mut s, digit_char_of(d.day % 10));
    proof {
        assert(s@ =~= date_str(d));
    }
    s
}

/// Relies on chrono's `Local::now` and `NaiveDate`'s `Datelike` accessors:
/// the current civil date in the local time zone, as plain year, month and
/// day values. Chrono only constructs valid dates, so the month is 1 to 12
/// and the day 1 to 31.
#[verifier::external_body]
fn local_today_raw() -> (r: (i64, u32, u32))
    ensures
        1 <= r.1 <= 12,
        1 <= r.2 <= 31,
{
    let d = chrono::Local::now().date_naive();
    (chrono::Datelike::year(&d) as i64, chrono::Datelike::month(&d), chrono::Datelike::day(&d))
}

/// The date a raw clock triple names, exactly when it lies in the modelled
/// range: a year of one through four digits whose day fits the month.
pub fn date_from_triple(year: i64, month: u32, day: u32) -> (r: Option<Date>)
    requires
        1 <= month <= 12,
        1 <= day <= 31,
    ensures
        r is Some <==> (1 <= year <= 9999 && day as int <= days_in_month(
            year as int,
            month as int,
        )),
        r matches Some(d) ==> d == (Date { year: year as u32, month, day }) && date_wf(d),
{
    if 1 <= year && year <= 9999 {
        let yy: u32 = year as u32;
        let dim = days_in_month_of(yy, month);
        if day <= dim {
            Some(Date { year: yy, month, day })
        } else {
            None
        }
    } else {
        None
    }
}

/// Today's date from the system clock, when it lies in the modelled range.
pub fn today() -> (r: Option<Date>)
    ensures
        r matches Some(d) ==> date_wf(d),
{
    let (y, m, dd) = local_today_raw();
    date_from_triple(y, m, dd)
}

} // verus!
