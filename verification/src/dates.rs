//! Calendar dates, and the time stamps in the names of files.

use crate::text::{
    digit, lemma_four_digits, lemma_sorts_at, lemma_two_digits, padded, push_padded, sorts_before,
};
use vstd::prelude::*;
use vstd::string::*;

verus! {

/// Whether a year has a leap day.
pub open spec fn leap(y: int) -> bool {
    y % 4 == 0 && (y % 100 != 0 || y % 400 == 0)
}

/// How many days a month has.
pub open spec fn month_days(y: int, m: int) -> int {
    if m == 2 {
        if leap(y) {
            29
        } else {
            28
        }
    } else if m == 4 || m == 6 || m == 9 || m == 11 {
        30
    } else {
        31
    }
}

/// How many days of a year lie before a month.
pub open spec fn before_month(y: int, m: int) -> int
    decreases m,
{
    if m <= 1 {
        0
    } else {
        before_month(y, m - 1) + month_days(y, m - 1)
    }
}

/// The day number of the first of January, counted from the year 1970.
pub open spec fn year_start(y: int) -> int
    decreases y,
{
    if y <= 1970 {
        0
    } else {
        year_start(y - 1) + (if leap(y - 1) {
            366int
        } else {
            365
        })
    }
}

/// A date of the calendar.
pub open spec fn is_date(y: int, m: int, d: int) -> bool {
    1970 <= y && 1 <= m <= 12 && 1 <= d <= month_days(y, m)
}

/// The day number of a date, counted from the first of January 1970.
pub open spec fn day_number(y: int, m: int, d: int) -> int {
    year_start(y) + before_month(y, m) + d - 1
}

proof fn lemma_year_start(y: int)
    requires
        1970 <= y,
    ensures
        year_start(y) == 365 * (y - 1970) + (y - 1) / 4 - (y - 1) / 100 + (y - 1) / 400 - 477,
    decreases y,
{
    if y > 1970 {
        lemma_year_start(y - 1);
    }
}

proof fn lemma_before_month(y: int)
    ensures
        before_month(y, 1) == 0,
        before_month(y, 2) == 31,
        before_month(y, 3) == (if leap(y) {
            60int
        } else {
            59
        }),
        before_month(y, 4) == before_month(y, 3) + 31,
        before_month(y, 5) == before_month(y, 3) + 61,
        before_month(y, 6) == before_month(y, 3) + 92,
        before_month(y, 7) == before_month(y, 3) + 122,
        before_month(y, 8) == before_month(y, 3) + 153,
        before_month(y, 9) == before_month(y, 3) + 184,
        before_month(y, 10) == before_month(y, 3) + 214,
        before_month(y, 11) == before_month(y, 3) + 245,
        before_month(y, 12) == before_month(y, 3) + 275,
{
    reveal_with_fuel(before_month, 13);
}

proof fn lemma_year_order(y: int, w: int)
    requires
        1970 <= y < w,
    ensures
        year_start(y) + (if leap(y) {
            366int
        } else {
            365
        }) <= year_start(w),
    decreases w,
{
    if w > y + 1 {
        lemma_year_order(y, w - 1);
    }
}

/// A day of the calendar has one date.
pub proof fn one_date_a_day(y: int, m: int, d: int, y2: int, m2: int, d2: int)
    requires
        is_date(y, m, d),
        is_date(y2, m2, d2),
        day_number(y, m, d) == day_number(y2, m2, d2),
    ensures
        y == y2,
        m == m2,
        d == d2,
{
    lemma_before_month(y);
    lemma_before_month(y2);
    if y < y2 {
        lemma_year_order(y, y2);
    } else if y2 < y {
        lemma_year_order(y2, y);
    }
}

/// The date of a day counted from the first of January 1970.
pub fn civil(days: u64) -> (r: (u64, u64, u64))
    requires
        days <= 0x0100_0000_0000_0000,
    ensures
        is_date(r.0 as int, r.1 as int, r.2 as int),
        day_number(r.0 as int, r.1 as int, r.2 as int) == days,
{
    // Years here begin in March, so that a leap day is the last day of its year.
    let z: u64 = days + 719_468;
    let era: u64 = z / 146_097;
    let of_era: u64 = z % 146_097;
    let century: u64 = if of_era / 36_524 < 3 {
        of_era / 36_524
    } else {
        3
    };
    let of_century: u64 = of_era - 36_524 * century;
    let quad: u64 = of_century / 1461;
    let of_quad: u64 = of_century % 1461;
    let one: u64 = if of_quad / 365 < 3 {
        of_quad / 365
    } else {
        3
    };
    let doy: u64 = of_quad - 365 * one;
    let y: u64 = 400 * era + 100 * century + 4 * quad + one;
    assert(quad <= 24);
    assert(y / 4 == 100 * era + 25 * century + quad);
    assert(y / 100 == 4 * era + century);
    assert(y / 400 == era);
    assert(days == 365 * y + y / 4 - y / 100 + y / 400 - 719_468 + doy);
    assert(doy == 365 ==> leap(y as int + 1)) by {
        if doy == 365 {
            assert(one == 3);
            assert((y as int + 1) % 4 == 0);
        }
    }
    assert(doy <= 365);
    assert(y >= 1969);
    proof {
        if y >= 1970 {
            lemma_year_start(y as int);
        }
        lemma_year_start(y as int + 1);
        lemma_before_month(y as int);
        lemma_before_month(y as int + 1);
    }
    if doy < 31 {
        (y, 3, doy + 1)
    } else if doy < 61 {
        (y, 4, doy - 30)
    } else if doy < 92 {
        (y, 5, doy - 60)
    } else if doy < 122 {
        (y, 6, doy - 91)
    } else if doy < 153 {
        (y, 7, doy - 121)
    } else if doy < 184 {
        (y, 8, doy - 152)
    } else if doy < 214 {
        (y, 9, doy - 183)
    } else if doy < 245 {
        (y, 10, doy - 213)
    } else if doy < 275 {
        (y, 11, doy - 244)
    } else if doy < 306 {
        (y, 12, doy - 274)
    } else if doy < 337 {
        (y + 1, 1, doy - 305)
    } else {
        (y + 1, 2, doy - 336)
    }
}

/// A date and a second of its day, without separators.
pub open spec fn stamp_text(y: int, m: int, d: int, second: int) -> Seq<char> {
    padded(y as nat, 4) + padded(m as nat, 2) + padded(d as nat, 2) + seq!['T'] + padded(
        (second / 3600) as nat,
        2,
    ) + padded(((second / 60) % 60) as nat, 2) + padded((second % 60) as nat, 2) + seq!['Z']
}

/// Whether a text is the stamp of a moment.
pub open spec fn stamps(unix: int, s: Seq<char>) -> bool {
    exists|y: int, m: int, d: int|
        is_date(y, m, d) && day_number(y, m, d) == unix / 86_400 && s == #[trigger] stamp_text(
            y,
            m,
            d,
            unix % 86_400,
        )
}

/// A UTC stamp with no separators, for file names that sort by time.
pub fn stamp(unix: u64) -> (s: String)
    ensures
        stamps(unix as int, s@),
{
    let (y, m, d) = civil(unix / 86_400);
    let second: u64 = unix % 86_400;
    let mut s = String::new();
    push_padded(&mut s, y, 4);
    push_padded(&mut s, m, 2);
    push_padded(&mut s, d, 2);
    proof {
        reveal_strlit("T");
        reveal_strlit("Z");
    }
    s.append("T");
    push_padded(&mut s, second / 3600, 2);
    push_padded(&mut s, (second / 60) % 60, 2);
    push_padded(&mut s, second % 60, 2);
    s.append("Z");
    assert(s@ =~= stamp_text(y as int, m as int, d as int, second as int));
    s
}

/// A moment has one stamp.
pub proof fn one_stamp_a_moment(unix: int, a: Seq<char>, b: Seq<char>)
    requires
        stamps(unix, a),
        stamps(unix, b),
    ensures
        a == b,
{
    let (y, m, d) = choose|y: int, m: int, d: int|
        is_date(y, m, d) && day_number(y, m, d) == unix / 86_400 && a == #[trigger] stamp_text(
            y,
            m,
            d,
            unix % 86_400,
        );
    let (y2, m2, d2) = choose|y: int, m: int, d: int|
        is_date(y, m, d) && day_number(y, m, d) == unix / 86_400 && b == #[trigger] stamp_text(
            y,
            m,
            d,
            unix % 86_400,
        );
    one_date_a_day(y, m, d, y2, m2, d2);
}

/// The digits of a stamp.
#[verifier::opaque]
spec fn stamp_digits(y: int, m: int, d: int, t: int) -> Seq<char> {
    seq![
        digit(y / 1000),
        digit(y / 100 % 10),
        digit(y / 10 % 10),
        digit(y % 10),
        digit(m / 10),
        digit(m % 10),
        digit(d / 10),
        digit(d % 10),
        'T',
        digit(t / 3600 / 10),
        digit(t / 3600 % 10),
        digit(t / 60 % 60 / 10),
        digit(t / 60 % 60 % 10),
        digit(t % 60 / 10),
        digit(t % 60 % 10),
        'Z',
    ]
}

proof fn lemma_stamp_digits(y: int, m: int, d: int, t: int)
    requires
        is_date(y, m, d),
        y < 10000,
        0 <= t < 86_400,
    ensures
        stamp_text(y, m, d, t) == stamp_digits(y, m, d, t),
{
    lemma_four_digits(y as nat);
    lemma_two_digits(m as nat);
    lemma_two_digits(d as nat);
    lemma_two_digits((t / 3600) as nat);
    lemma_two_digits(((t / 60) % 60) as nat);
    lemma_two_digits((t % 60) as nat);
    reveal(stamp_digits);
    assert(stamp_text(y, m, d, t) =~= stamp_digits(y, m, d, t));
}

/// Later dates are later days.
pub proof fn dates_follow_days(y: int, m: int, d: int, y2: int, m2: int, d2: int)
    requires
        is_date(y, m, d),
        is_date(y2, m2, d2),
    ensures
        day_number(y, m, d) < day_number(y2, m2, d2) <==> (y < y2 || (y == y2 && (m < m2 || (m == m2
            && d < d2)))),
{
    lemma_before_month(y);
    lemma_before_month(y2);
    if y < y2 {
        lemma_year_order(y, y2);
    } else if y2 < y {
        lemma_year_order(y2, y);
    }
}

/// Stamps sort by time, through the last year of four digits.
pub proof fn stamps_sort_by_time(unix: int, later: int, a: Seq<char>, b: Seq<char>)
    requires
        0 <= unix < later,
        later / 86_400 < year_start(10000),
        stamps(unix, a),
        stamps(later, b),
    ensures
        sorts_before(a, b),
{
    let t = unix % 86_400;
    let u = later % 86_400;
    let (y, m, d) = choose|y: int, m: int, d: int|
        is_date(y, m, d) && day_number(y, m, d) == unix / 86_400 && a == #[trigger] stamp_text(
            y,
            m,
            d,
            unix % 86_400,
        );
    let (y2, m2, d2) = choose|y: int, m: int, d: int|
        is_date(y, m, d) && day_number(y, m, d) == later / 86_400 && b == #[trigger] stamp_text(
            y,
            m,
            d,
            later % 86_400,
        );
    lemma_before_month(10000);
    dates_follow_days(y, m, d, 10000, 1, 1);
    dates_follow_days(y2, m2, d2, 10000, 1, 1);
    dates_follow_days(y, m, d, y2, m2, d2);
    dates_follow_days(y2, m2, d2, y, m, d);
    lemma_stamp_digits(y, m, d, t);
    lemma_stamp_digits(y2, m2, d2, u);
    lemma_digits_sort(y, m, d, t, y2, m2, d2, u);
}

/// Numbers of four digits order as their digits do.
pub proof fn lemma_first_digit(y: int, y2: int)
    requires
        0 <= y < y2 < 10000,
    ensures
        y / 1000 <= y2 / 1000,
        y / 1000 == y2 / 1000 ==> y / 100 % 10 <= y2 / 100 % 10,
        y / 1000 == y2 / 1000 && y / 100 % 10 == y2 / 100 % 10 ==> y / 10 % 10 <= y2 / 10 % 10,
        y / 1000 == y2 / 1000 && y / 100 % 10 == y2 / 100 % 10 && y / 10 % 10 == y2 / 10 % 10 ==> y
            % 10 < y2 % 10,
        0 <= y / 1000 < 10,
        0 <= y2 / 1000 < 10,
{
    assert(y == 10 * (y / 10) + y % 10);
    assert(y2 == 10 * (y2 / 10) + y2 % 10);
    assert(y / 100 == y / 10 / 10);
    assert(y2 / 100 == y2 / 10 / 10);
    assert(y / 1000 == y / 100 / 10);
    assert(y2 / 1000 == y2 / 100 / 10);
}

proof fn lemma_years_sort(
    y: int,
    m: int,
    d: int,
    t: int,
    y2: int,
    m2: int,
    d2: int,
    u: int,
)
    requires
        is_date(y, m, d),
        is_date(y2, m2, d2),
        y < 10000,
        y2 < 10000,
        0 <= t < 86_400,
        0 <= u < 86_400,
        y < y2,
    ensures
        sorts_before(stamp_digits(y, m, d, t), stamp_digits(y2, m2, d2, u)),
{
    let a = stamp_digits(y, m, d, t);
    let b = stamp_digits(y2, m2, d2, u);
    reveal(stamp_digits);
    lemma_first_digit(y, y2);
    if y / 1000 != y2 / 1000 {
        lemma_sorts_at(a, b, 0);
    } else if y / 100 % 10 != y2 / 100 % 10 {
        lemma_sorts_at(a, b, 1);
    } else if y / 10 % 10 != y2 / 10 % 10 {
        lemma_sorts_at(a, b, 2);
    } else {
        lemma_sorts_at(a, b, 3);
    }
}

proof fn lemma_months_sort(
    y: int,
    m: int,
    d: int,
    t: int,
    y2: int,
    m2: int,
    d2: int,
    u: int,
)
    requires
        is_date(y, m, d),
        is_date(y2, m2, d2),
        y < 10000,
        y2 < 10000,
        0 <= t < 86_400,
        0 <= u < 86_400,
        y == y2 && (m < m2 || (m == m2 && d < d2)),
    ensures
        sorts_before(stamp_digits(y, m, d, t), stamp_digits(y2, m2, d2, u)),
{
    let a = stamp_digits(y, m, d, t);
    let b = stamp_digits(y2, m2, d2, u);
    reveal(stamp_digits);
    if m / 10 != m2 / 10 {
        lemma_sorts_at(a, b, 4);
    } else if m != m2 {
        lemma_sorts_at(a, b, 5);
    } else if d / 10 != d2 / 10 {
        lemma_sorts_at(a, b, 6);
    } else {
        lemma_sorts_at(a, b, 7);
    }
}

proof fn lemma_hours_sort(
    y: int,
    m: int,
    d: int,
    t: int,
    y2: int,
    m2: int,
    d2: int,
    u: int,
)
    requires
        is_date(y, m, d),
        is_date(y2, m2, d2),
        y < 10000,
        y2 < 10000,
        0 <= t < 86_400,
        0 <= u < 86_400,
        y == y2 && m == m2 && d == d2 && t / 3600 < u / 3600,
    ensures
        sorts_before(stamp_digits(y, m, d, t), stamp_digits(y2, m2, d2, u)),
{
    let a = stamp_digits(y, m, d, t);
    let b = stamp_digits(y2, m2, d2, u);
    reveal(stamp_digits);
    if t / 3600 / 10 != u / 3600 / 10 {
        lemma_sorts_at(a, b, 9);
    } else {
        lemma_sorts_at(a, b, 10);
    }
}

proof fn lemma_minutes_sort(
    y: int,
    m: int,
    d: int,
    t: int,
    y2: int,
    m2: int,
    d2: int,
    u: int,
)
    requires
        is_date(y, m, d),
        is_date(y2, m2, d2),
        y < 10000,
        y2 < 10000,
        0 <= t < 86_400,
        0 <= u < 86_400,
        y == y2 && m == m2 && d == d2 && t / 3600 == u / 3600 && t / 60 % 60 < u / 60 % 60,
    ensures
        sorts_before(stamp_digits(y, m, d, t), stamp_digits(y2, m2, d2, u)),
{
    let a = stamp_digits(y, m, d, t);
    let b = stamp_digits(y2, m2, d2, u);
    reveal(stamp_digits);
    if t / 60 % 60 / 10 != u / 60 % 60 / 10 {
        lemma_sorts_at(a, b, 11);
    } else {
        lemma_sorts_at(a, b, 12);
    }
}

proof fn lemma_seconds_sort(
    y: int,
    m: int,
    d: int,
    t: int,
    y2: int,
    m2: int,
    d2: int,
    u: int,
)
    requires
        is_date(y, m, d),
        is_date(y2, m2, d2),
        y < 10000,
        y2 < 10000,
        0 <= t < 86_400,
        0 <= u < 86_400,
        y == y2 && m == m2 && d == d2 && t / 3600 == u / 3600 && t / 60 % 60 == u / 60 % 60 && t % 60 < u % 60,
    ensures
        sorts_before(stamp_digits(y, m, d, t), stamp_digits(y2, m2, d2, u)),
{
    let a = stamp_digits(y, m, d, t);
    let b = stamp_digits(y2, m2, d2, u);
    reveal(stamp_digits);
    if t % 60 / 10 != u % 60 / 10 {
        lemma_sorts_at(a, b, 13);
    } else {
        lemma_sorts_at(a, b, 14);
    }
}

proof fn lemma_digits_sort(
    y: int,
    m: int,
    d: int,
    t: int,
    y2: int,
    m2: int,
    d2: int,
    u: int,
)
    requires
        is_date(y, m, d),
        is_date(y2, m2, d2),
        y < 10000,
        y2 < 10000,
        0 <= t < 86_400,
        0 <= u < 86_400,
        y < y2 || (y == y2 && (m < m2 || (m == m2 && (d < d2 || (d == d2 && t < u))))),
    ensures
        sorts_before(stamp_digits(y, m, d, t), stamp_digits(y2, m2, d2, u)),
{
    if y < y2 {
        lemma_years_sort(y, m, d, t, y2, m2, d2, u);
    } else if m < m2 || d < d2 {
        lemma_months_sort(y, m, d, t, y2, m2, d2, u);
    } else if t / 3600 < u / 3600 {
        lemma_hours_sort(y, m, d, t, y2, m2, d2, u);
    } else if t / 60 % 60 < u / 60 % 60 {
        lemma_minutes_sort(y, m, d, t, y2, m2, d2, u);
    } else {
        lemma_seconds_sort(y, m, d, t, y2, m2, d2, u);
    }
}

} // verus!
