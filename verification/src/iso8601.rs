//! ISO-8601 UTC timestamps (`YYYY-MM-DDTHH:MM:SSZ`) from milliseconds since
//! the Unix epoch, over the proleptic Gregorian calendar stated directly:
//! a date's day number is the days of the years before it, of the months
//! before it in its year, and of the days before it in its month.
use vstd::prelude::*;
use crate::text::{decimal, digit_char, push_char, push_padded, seq_lt, zero_pad};

verus! {

/// Gregorian leap years: every fourth, except centuries not divisible by
/// four hundred.
pub open spec fn is_leap(y: int) -> bool {
    (y % 4 == 0 && y % 100 != 0) || y % 400 == 0
}

/// The days in year `y`.
pub open spec fn year_len(y: int) -> int {
    if is_leap(y) {
        366
    } else {
        365
    }
}

/// How many of the years `1..=n` are leap years.
pub open spec fn leaps_through(n: int) -> int {
    n / 4 - n / 100 + n / 400
}

/// The days from 1970-01-01 to the first day of year `y`.
pub open spec fn days_before_year(y: int) -> int {
    365 * (y - 1970) + leaps_through(y - 1) - leaps_through(1969)
}

/// The days of year `y` before the first of month `m` (`m` in `1..=13`,
/// where 13 stands for the end of the year).
pub open spec fn days_before_month(y: int, m: int) -> int {
    let leap_day = if m > 2 && is_leap(y) {
        1int
    } else {
        0int
    };
    leap_day + if m <= 1 {
        0int
    } else if m == 2 {
        31
    } else if m == 3 {
        59
    } else if m == 4 {
        90
    } else if m == 5 {
        120
    } else if m == 6 {
        151
    } else if m == 7 {
        181
    } else if m == 8 {
        212
    } else if m == 9 {
        243
    } else if m == 10 {
        273
    } else if m == 11 {
        304
    } else if m == 12 {
        334
    } else {
        365
    }
}

/// The days in month `m` of year `y`.
pub open spec fn month_len(y: int, m: int) -> int {
    days_before_month(y, m + 1) - days_before_month(y, m)
}

/// A calendar date from 1970 on.
pub open spec fn valid_date(y: int, m: int, d: int) -> bool {
    y >= 1970 && 1 <= m <= 12 && 1 <= d <= month_len(y, m)
}

/// The day number of a date: days since 1970-01-01.
pub open spec fn date_days(y: int, m: int, d: int) -> int {
    days_before_year(y) + days_before_month(y, m) + d - 1
}

/// The text of one timestamp.
pub open spec fn iso_text(y: nat, m: nat, d: nat, hh: nat, mm: nat, ss: nat) -> Seq<char> {
    zero_pad(decimal(y), 4) + "-"@ + zero_pad(decimal(m), 2) + "-"@ + zero_pad(decimal(d), 2) + "T"@
        + zero_pad(decimal(hh), 2) + ":"@ + zero_pad(decimal(mm), 2) + ":"@ + zero_pad(decimal(ss), 2)
        + "Z"@
}

proof fn lemma_leap_step(n: int)
    requires
        n >= 1,
    ensures
        leaps_through(n) - leaps_through(n - 1) == if is_leap(n) {
            1int
        } else {
            0int
        },
{
    assert(n / 4 - (n - 1) / 4 == if n % 4 == 0 {
        1int
    } else {
        0int
    });
    assert(n / 100 - (n - 1) / 100 == if n % 100 == 0 {
        1int
    } else {
        0int
    });
    assert(n / 400 - (n - 1) / 400 == if n % 400 == 0 {
        1int
    } else {
        0int
    });
    if n % 400 == 0 {
        assert(n % 100 == 0 && n % 4 == 0);
    }
    if n % 100 == 0 {
        assert(n % 4 == 0);
    }
}

proof fn lemma_year_step(y: int)
    requires
        y >= 1970,
    ensures
        days_before_year(y + 1) == days_before_year(y) + year_len(y),
{
    lemma_leap_step(y);
}

proof fn lemma_year_cycle(y: int)
    requires
        y >= 1970,
    ensures
        days_before_year(y + 400) == days_before_year(y) + 146097,
{
    let n = y - 1;
    assert((n + 400) / 4 == n / 4 + 100);
    assert((n + 400) / 100 == n / 100 + 4);
    assert((n + 400) / 400 == n / 400 + 1);
}

proof fn lemma_cycles(q: nat)
    ensures
        days_before_year((1970 + 400 * q) as int) == 146097 * q,
    decreases q,
{
    if q > 0 {
        lemma_cycles((q - 1) as nat);
        lemma_year_cycle(1970 + 400 * (q - 1));
        assert(1970 + 400 * (q - 1) + 400 == 1970 + 400 * q);
    }
}

proof fn lemma_years_increase(a: int, b: int)
    requires
        1970 <= a < b,
    ensures
        days_before_year(a) + year_len(a) <= days_before_year(b),
    decreases b - a,
{
    lemma_year_step(a);
    if a + 1 < b {
        lemma_years_increase(a + 1, b);
        lemma_year_step(a + 1);
    }
}

/// Two dates from 1970 on with the same day number are the same date: the
/// day number names a date uniquely.
pub proof fn a_day_number_names_one_date(y1: int, m1: int, d1: int, y2: int, m2: int, d2: int)
    requires
        valid_date(y1, m1, d1),
        valid_date(y2, m2, d2),
        date_days(y1, m1, d1) == date_days(y2, m2, d2),
    ensures
        y1 == y2 && m1 == m2 && d1 == d2,
{
    assert(days_before_month(y1, 13) == year_len(y1));
    assert(days_before_month(y2, 13) == year_len(y2));
    assert(days_before_month(y1, m1) + month_len(y1, m1) <= days_before_month(y1, 13));
    assert(days_before_month(y2, m2) + month_len(y2, m2) <= days_before_month(y2, 13));
    if y1 < y2 {
        lemma_years_increase(y1, y2);
    }
    if y2 < y1 {
        lemma_years_increase(y2, y1);
    }
    assert(y1 == y2);
    if m1 < m2 {
        assert(days_before_month(y1, m1) + month_len(y1, m1) <= days_before_month(y1, m2));
    }
    if m2 < m1 {
        assert(days_before_month(y1, m2) + month_len(y1, m2) <= days_before_month(y1, m1));
    }
}

fn is_leap_year(y: u64) -> (r: bool)
    ensures
        r == is_leap(y as int),
{
    (y % 4 == 0 && y % 100 != 0) || y % 400 == 0
}

fn year_days(y: u64) -> (n: u64)
    ensures
        n == year_len(y as int),
{
    if is_leap_year(y) {
        366
    } else {
        365
    }
}

fn month_days(y: u64, m: u64) -> (n: u64)
    requires
        1 <= m <= 12,
    ensures
        n == month_len(y as int, m as int),
{
    if m == 2 {
        if is_leap_year(y) {
            29
        } else {
            28
        }
    } else if m == 4 || m == 6 || m == 9 || m == 11 {
        30
    } else {
        31
    }
}

/// The Gregorian month lengths: thirty days hath September, April, June and
/// November; February has 29 in a leap year and 28 otherwise; every other
/// month has 31. Stated as which days are dates, and as how far apart the
/// first days of consecutive months lie.
pub proof fn gregorian_month_lengths(y: int, d: int)
    requires
        y >= 1970,
    ensures
        date_days(y, 1, 1) == days_before_year(y),
        date_days(y, 2, 1) - date_days(y, 1, 1) == 31,
        date_days(y, 3, 1) - date_days(y, 2, 1) == if is_leap(y) { 29int } else { 28int },
        date_days(y, 4, 1) - date_days(y, 3, 1) == 31,
        date_days(y, 5, 1) - date_days(y, 4, 1) == 30,
        date_days(y, 6, 1) - date_days(y, 5, 1) == 31,
        date_days(y, 7, 1) - date_days(y, 6, 1) == 30,
        date_days(y, 8, 1) - date_days(y, 7, 1) == 31,
        date_days(y, 9, 1) - date_days(y, 8, 1) == 31,
        date_days(y, 10, 1) - date_days(y, 9, 1) == 30,
        date_days(y, 11, 1) - date_days(y, 10, 1) == 31,
        date_days(y, 12, 1) - date_days(y, 11, 1) == 30,
        date_days(y + 1, 1, 1) - date_days(y, 12, 1) == 31,
        valid_date(y, 1, d) <==> 1 <= d <= 31,
        valid_date(y, 2, d) <==> 1 <= d <= if is_leap(y) { 29int } else { 28int },
        valid_date(y, 3, d) <==> 1 <= d <= 31,
        valid_date(y, 4, d) <==> 1 <= d <= 30,
        valid_date(y, 5, d) <==> 1 <= d <= 31,
        valid_date(y, 6, d) <==> 1 <= d <= 30,
        valid_date(y, 7, d) <==> 1 <= d <= 31,
        valid_date(y, 8, d) <==> 1 <= d <= 31,
        valid_date(y, 9, d) <==> 1 <= d <= 30,
        valid_date(y, 10, d) <==> 1 <= d <= 31,
        valid_date(y, 11, d) <==> 1 <= d <= 30,
        valid_date(y, 12, d) <==> 1 <= d <= 31,
{
    lemma_year_step(y);
}

/// The date `days` after 1970-01-01.
fn civil_from_days(days: u64) -> (r: (u64, u64, u64))
    requires
        days <= 300_000_000_000,
    ensures
        valid_date(r.0 as int, r.1 as int, r.2 as int),
        date_days(r.0 as int, r.1 as int, r.2 as int) == days,
        r.0 <= 2_000_000_000,
{
    let q = days / 146097;
    let mut rem = days - q * 146097;
    let mut y: u64 = 1970 + 400 * q;
    proof {
        lemma_cycles(q as nat);
    }
    while rem >= year_days(y)
        invariant
            y >= 1970,
            y <= 1970 + 400 * q + 400,
            days_before_year(y as int) + rem == days,
            rem < 146097 + days_before_year(1970 + 400 * q) - days_before_year(y as int),
            q * 146097 <= days,
            days_before_year((1970 + 400 * q) as int) == 146097 * q,
            days <= 300_000_000_000,
        decreases rem,
    {
        proof {
            lemma_year_step(y as int);
            lemma_year_cycle(1970 + 400 * q);
            if y >= 1970 + 400 * q + 400 {
                lemma_years_increase(1970 + 400 * q, y as int);
            }
        }
        rem = rem - year_days(y);
        y = y + 1;
    }
    let mut m: u64 = 1;
    while rem >= month_days(y, m)
        invariant
            1 <= m <= 12,
            days_before_month(y as int, m as int) + rem + days_before_year(y as int) == days,
            rem + days_before_month(y as int, m as int) < year_len(y as int),
        decreases 12 - m,
    {
        rem = rem - month_days(y, m);
        m = m + 1;
    }
    (y, m, rem + 1)
}

/// `s` is the ISO-8601 text of `wall_ms`: the date of its day number and
/// the hour, minute and second of its second within that day.
pub open spec fn iso_text_of(wall_ms: u64, s: Seq<char>) -> bool {
    exists|y: int, m: int, d: int|
        valid_date(y, m, d) && date_days(y, m, d) == wall_ms / 1000 / 86400 && s == iso_text(
            y as nat,
            m as nat,
            d as nat,
            (wall_ms / 1000 % 86400 / 3600) as nat,
            (wall_ms / 1000 % 86400 / 60 % 60) as nat,
            (wall_ms / 1000 % 60) as nat,
        )
}

/// Formats milliseconds since the Unix epoch as an ISO-8601 UTC timestamp.
pub fn iso8601_ms(wall_ms: u64) -> (s: String)
    ensures
        iso_text_of(wall_ms, s@),
{
    let secs = wall_ms / 1000;
    let days = secs / 86_400;
    let time_of_day = secs % 86_400;
    let hour = time_of_day / 3600;
    let minute = (time_of_day / 60) % 60;
    let second = time_of_day % 60;
    assert(second == secs % 60) by (nonlinear_arith)
        requires
            time_of_day == secs % 86400,
            second == time_of_day % 60,
    ;
    let (year, month, day) = civil_from_days(days);
    let mut s = String::new();
    push_padded(&mut s, year, 4);
    push_char(&mut s, '-');
    push_padded(&mut s, month, 2);
    push_char(&mut s, '-');
    push_padded(&mut s, day, 2);
    push_char(&mut s, 'T');
    push_padded(&mut s, hour, 2);
    push_char(&mut s, ':');
    push_padded(&mut s, minute, 2);
    push_char(&mut s, ':');
    push_padded(&mut s, second, 2);
    push_char(&mut s, 'Z');
    proof {
        reveal_strlit("-");
        reveal_strlit("T");
        reveal_strlit(":");
        reveal_strlit("Z");
        assert(s@ =~= iso_text(year as nat, month as nat, day as nat, hour as nat, minute as nat, second as nat));
        assert(s@ == iso_text(
            (year as int) as nat,
            (month as int) as nat,
            (day as int) as nat,
            (wall_ms / 1000 % 86400 / 3600) as nat,
            (wall_ms / 1000 % 86400 / 60 % 60) as nat,
            (wall_ms / 1000 % 60) as nat,
        ));
    }
    s
}


/// Two times within the same second have the same text: milliseconds are
/// truncated, never rounded.
pub proof fn same_second_same_text(a: u64, b: u64, sa: Seq<char>, sb: Seq<char>)
    requires
        iso_text_of(a, sa),
        iso_text_of(b, sb),
        a / 1000 == b / 1000,
    ensures
        sa == sb,
{
    let (ya, ma, da) = choose|y: int, m: int, d: int|
        valid_date(y, m, d) && date_days(y, m, d) == a / 1000 / 86400 && sa == #[trigger] iso_text(
            y as nat,
            m as nat,
            d as nat,
            (a / 1000 % 86400 / 3600) as nat,
            (a / 1000 % 86400 / 60 % 60) as nat,
            (a / 1000 % 60) as nat,
        );
    let (yb, mb, db) = choose|y: int, m: int, d: int|
        valid_date(y, m, d) && date_days(y, m, d) == b / 1000 / 86400 && sb == #[trigger] iso_text(
            y as nat,
            m as nat,
            d as nat,
            (b / 1000 % 86400 / 3600) as nat,
            (b / 1000 % 86400 / 60 % 60) as nat,
            (b / 1000 % 60) as nat,
        );
    a_day_number_names_one_date(ya, ma, da, yb, mb, db);
}

proof fn lemma_decimal_len(n: nat)
    ensures
        decimal(n).len() >= 1,
        n < 10 ==> decimal(n).len() == 1,
        n < 100 ==> decimal(n).len() <= 2,
        n < 1000 ==> decimal(n).len() <= 3,
        n < 10000 ==> decimal(n).len() <= 4,
    decreases n,
{
    if n >= 10 {
        lemma_decimal_len(n / 10);
    }
}

proof fn lemma_padded_len(n: nat, w: nat)
    requires
        w == 2 ==> n < 100,
        w == 4 ==> n < 10000,
        w == 2 || w == 4,
    ensures
        zero_pad(decimal(n), w).len() == w,
{
    lemma_decimal_len(n);
}

/// Every time before the year 10000 (`wall_ms` before
/// 253402300800000) is written in exactly 20 characters,
/// `YYYY-MM-DDTHH:MM:SSZ`.
pub proof fn text_of_a_time_before_year_10000_is_twenty_chars(wall_ms: u64, s: Seq<char>)
    requires
        iso_text_of(wall_ms, s),
        wall_ms < 253_402_300_800_000,
    ensures
        s.len() == 20,
{
    let (y, m, d) = choose|y: int, m: int, d: int|
        valid_date(y, m, d) && date_days(y, m, d) == wall_ms / 1000 / 86400 && s == #[trigger] iso_text(
            y as nat,
            m as nat,
            d as nat,
            (wall_ms / 1000 % 86400 / 3600) as nat,
            (wall_ms / 1000 % 86400 / 60 % 60) as nat,
            (wall_ms / 1000 % 60) as nat,
        );
    assert(wall_ms / 1000 / 86400 < 2932897);
    if y >= 10000 {
        assert(days_before_year(10000) == 2932897);
        if y > 10000 {
            lemma_years_increase(10000, y);
        }
        assert(days_before_month(y, m) >= 0);
        assert(false);
    }
    assert(month_len(y, m) <= 31);
    lemma_padded_len(y as nat, 4);
    lemma_padded_len(m as nat, 2);
    lemma_padded_len(d as nat, 2);
    lemma_padded_len((wall_ms / 1000 % 86400 / 3600) as nat, 2);
    lemma_padded_len((wall_ms / 1000 % 86400 / 60 % 60) as nat, 2);
    lemma_padded_len((wall_ms / 1000 % 60) as nat, 2);
    assert("-"@.len() == 1 && "T"@.len() == 1 && ":"@.len() == 1 && "Z"@.len() == 1) by {
        reveal_strlit("-");
        reveal_strlit("T");
        reveal_strlit(":");
        reveal_strlit("Z");
    }
}


proof fn lemma_lt_push_same_len(a: Seq<char>, b: Seq<char>, x: char, y: char)
    requires
        a.len() == b.len(),
        seq_lt(a, b),
    ensures
        seq_lt(a.push(x), b.push(y)),
    decreases a.len(),
{
    if a[0] == b[0] {
        assert(a.push(x).drop_first() =~= a.drop_first().push(x));
        assert(b.push(y).drop_first() =~= b.drop_first().push(y));
        lemma_lt_push_same_len(a.drop_first(), b.drop_first(), x, y);
    }
}

proof fn lemma_lt_push_last(a: Seq<char>, x: char, y: char)
    requires
        x < y,
    ensures
        seq_lt(a.push(x), a.push(y)),
    decreases a.len(),
{
    if a.len() > 0 {
        assert(a.push(x).drop_first() =~= a.drop_first().push(x));
        assert(a.push(y).drop_first() =~= a.drop_first().push(y));
        lemma_lt_push_last(a.drop_first(), x, y);
    }
}

/// A common prefix leaves the order of what follows it unchanged.
proof fn lemma_lt_common_prefix(p: Seq<char>, r1: Seq<char>, r2: Seq<char>)
    requires
        seq_lt(r1, r2),
    ensures
        seq_lt(p + r1, p + r2),
    decreases p.len(),
{
    if p.len() > 0 {
        assert((p + r1).drop_first() =~= p.drop_first() + r1);
        assert((p + r2).drop_first() =~= p.drop_first() + r2);
        lemma_lt_common_prefix(p.drop_first(), r1, r2);
    }
}

/// Between equal-length prefixes, the prefixes decide.
proof fn lemma_lt_prefix_decides(p1: Seq<char>, p2: Seq<char>, r1: Seq<char>, r2: Seq<char>)
    requires
        p1.len() == p2.len(),
        seq_lt(p1, p2),
    ensures
        seq_lt(p1 + r1, p2 + r2),
    decreases p1.len(),
{
    if p1[0] == p2[0] {
        assert((p1 + r1).drop_first() =~= p1.drop_first() + r1);
        assert((p2 + r2).drop_first() =~= p2.drop_first() + r2);
        lemma_lt_prefix_decides(p1.drop_first(), p2.drop_first(), r1, r2);
    } else {
        assert((p1 + r1)[0] == p1[0]);
        assert((p2 + r2)[0] == p2[0]);
    }
}

pub open spec fn pow10(w: nat) -> nat
    decreases w,
{
    if w == 0 {
        1
    } else {
        10 * pow10((w - 1) as nat)
    }
}

/// `n`'s last `w` decimal digits, most significant first.
pub open spec fn padded_digits(n: nat, w: nat) -> Seq<char>
    decreases w,
{
    if w == 0 {
        Seq::empty()
    } else {
        padded_digits(n / 10, (w - 1) as nat).push(digit_char(n % 10))
    }
}

proof fn lemma_padded_zero(w: nat)
    ensures
        padded_digits(0, w) =~= Seq::new(w, |i: int| '0'),
    decreases w,
{
    if w > 0 {
        lemma_padded_zero((w - 1) as nat);
    }
}

proof fn lemma_pow10_positive(w: nat)
    ensures
        pow10(w) >= 1,
    decreases w,
{
    if w > 0 {
        lemma_pow10_positive((w - 1) as nat);
    }
}

/// Below `10^w`, padding the shortest rendering to `w` gives `w` digits.
proof fn lemma_zero_pad_is_padded_digits(n: nat, w: nat)
    requires
        w >= 1,
        n < pow10(w),
    ensures
        zero_pad(decimal(n), w) == padded_digits(n, w),
        decimal(n).len() <= w,
    decreases w,
{
    lemma_pow10_positive((w - 1) as nat);
    if n < 10 {
        lemma_padded_zero((w - 1) as nat);
        assert(n / 10 == 0);
        assert(decimal(n) == seq![digit_char(n)]);
        assert(zero_pad(decimal(n), w) =~= padded_digits(n, w));
    } else {
        assert(w >= 2) by {
            if w == 1 {
                assert(pow10(0) == 1);
            }
        }
        assert(n / 10 < pow10((w - 1) as nat)) by (nonlinear_arith)
            requires
                n < pow10(w),
                pow10(w) == 10 * pow10((w - 1) as nat),
        ;
        lemma_zero_pad_is_padded_digits(n / 10, (w - 1) as nat);
        assert(decimal(n) == decimal(n / 10).push(digit_char(n % 10)));
        assert(zero_pad(decimal(n), w) =~= zero_pad(decimal(n / 10), (w - 1) as nat).push(digit_char(n % 10)));
    }
}

proof fn lemma_padded_digits_len(n: nat, w: nat)
    ensures
        padded_digits(n, w).len() == w,
    decreases w,
{
    if w > 0 {
        lemma_padded_digits_len(n / 10, (w - 1) as nat);
    }
}

proof fn lemma_digit_char_order(x: nat, y: nat)
    requires
        x < y < 10,
    ensures
        digit_char(x) < digit_char(y),
{
}

/// Padded to the same width, a smaller number's digits come first.
proof fn lemma_padded_order(n1: nat, n2: nat, w: nat)
    requires
        n1 < n2 < pow10(w),
    ensures
        seq_lt(padded_digits(n1, w), padded_digits(n2, w)),
    decreases w,
{
    if w == 0 {
        assert(pow10(0) == 1);
    } else {
        lemma_padded_digits_len(n1 / 10, (w - 1) as nat);
        lemma_padded_digits_len(n2 / 10, (w - 1) as nat);
        assert(n2 / 10 < pow10((w - 1) as nat)) by (nonlinear_arith)
            requires
                n2 < pow10(w),
                pow10(w) == 10 * pow10((w - 1) as nat),
        ;
        if n1 / 10 < n2 / 10 {
            lemma_padded_order(n1 / 10, n2 / 10, (w - 1) as nat);
            lemma_lt_push_same_len(
                padded_digits(n1 / 10, (w - 1) as nat),
                padded_digits(n2 / 10, (w - 1) as nat),
                digit_char(n1 % 10),
                digit_char(n2 % 10),
            );
        } else {
            assert(n1 / 10 == n2 / 10);
            assert(n1 % 10 < n2 % 10);
            lemma_digit_char_order(n1 % 10, n2 % 10);
            lemma_lt_push_last(padded_digits(n1 / 10, (w - 1) as nat), digit_char(n1 % 10), digit_char(n2 % 10));
        }
    }
}

/// The segments, joined in order.
pub open spec fn concat_all(segs: Seq<Seq<char>>) -> Seq<char>
    decreases segs.len(),
{
    if segs.len() == 0 {
        Seq::empty()
    } else {
        segs[0] + concat_all(segs.drop_first())
    }
}

/// Segment lists that agree before segment `k` and differ first at `k`,
/// in equal-length segments, are ordered as their segments `k` are.
proof fn lemma_concat_order(s1: Seq<Seq<char>>, s2: Seq<Seq<char>>, k: int)
    requires
        s1.len() == s2.len(),
        0 <= k < s1.len(),
        forall|j: int| 0 <= j < k ==> s1[j] == s2[j],
        s1[k].len() == s2[k].len(),
        seq_lt(s1[k], s2[k]),
    ensures
        seq_lt(concat_all(s1), concat_all(s2)),
    decreases k,
{
    if k == 0 {
        lemma_lt_prefix_decides(s1[0], s2[0], concat_all(s1.drop_first()), concat_all(s2.drop_first()));
    } else {
        assert(s1[0] == s2[0]);
        lemma_concat_order(s1.drop_first(), s2.drop_first(), k - 1);
        lemma_lt_common_prefix(s1[0], concat_all(s1.drop_first()), concat_all(s2.drop_first()));
    }
}

/// The segments of a timestamp's text.
pub open spec fn iso_segments(y: nat, m: nat, d: nat, hh: nat, mm: nat, ss: nat) -> Seq<Seq<char>> {
    seq![
        padded_digits(y, 4),
        "-"@,
        padded_digits(m, 2),
        "-"@,
        padded_digits(d, 2),
        "T"@,
        padded_digits(hh, 2),
        ":"@,
        padded_digits(mm, 2),
        ":"@,
        padded_digits(ss, 2),
        "Z"@,
    ]
}

proof fn lemma_concat_last(segs: Seq<Seq<char>>)
    requires
        segs.len() > 0,
    ensures
        concat_all(segs) == concat_all(segs.drop_last()) + segs.last(),
    decreases segs.len(),
{
    if segs.len() == 1 {
        assert(segs.drop_last() =~= Seq::<Seq<char>>::empty());
        assert(segs.drop_first() =~= Seq::<Seq<char>>::empty());
        assert(segs[0] + Seq::<char>::empty() =~= Seq::<char>::empty() + segs[0]);
    } else {
        let t = segs.drop_first();
        lemma_concat_last(t);
        assert(t.drop_last() =~= segs.drop_last().drop_first());
        assert(segs.drop_last()[0] == segs[0]);
        assert(segs[0] + (concat_all(t.drop_last()) + t.last()) =~= (segs[0] + concat_all(t.drop_last())) + t.last());
    }
}

proof fn lemma_twelve_segments(a0: Seq<char>, a1: Seq<char>, a2: Seq<char>, a3: Seq<char>, a4: Seq<char>, a5: Seq<char>, a6: Seq<char>, a7: Seq<char>, a8: Seq<char>, a9: Seq<char>, a10: Seq<char>, a11: Seq<char>)
    ensures
        a0 + a1 + a2 + a3 + a4 + a5 + a6 + a7 + a8 + a9 + a10 + a11 == concat_all(seq![a0, a1, a2, a3, a4, a5, a6, a7, a8, a9, a10, a11]),
{
    lemma_concat_last(seq![a0, a1, a2, a3, a4, a5, a6, a7, a8, a9, a10, a11]);
    assert(seq![a0, a1, a2, a3, a4, a5, a6, a7, a8, a9, a10, a11].drop_last() =~= seq![a0, a1, a2, a3, a4, a5, a6, a7, a8, a9, a10]);
    lemma_concat_last(seq![a0, a1, a2, a3, a4, a5, a6, a7, a8, a9, a10]);
    assert(seq![a0, a1, a2, a3, a4, a5, a6, a7, a8, a9, a10].drop_last() =~= seq![a0, a1, a2, a3, a4, a5, a6, a7, a8, a9]);
    lemma_concat_last(seq![a0, a1, a2, a3, a4, a5, a6, a7, a8, a9]);
    assert(seq![a0, a1, a2, a3, a4, a5, a6, a7, a8, a9].drop_last() =~= seq![a0, a1, a2, a3, a4, a5, a6, a7, a8]);
    lemma_concat_last(seq![a0, a1, a2, a3, a4, a5, a6, a7, a8]);
    assert(seq![a0, a1, a2, a3, a4, a5, a6, a7, a8].drop_last() =~= seq![a0, a1, a2, a3, a4, a5, a6, a7]);
    lemma_concat_last(seq![a0, a1, a2, a3, a4, a5, a6, a7]);
    assert(seq![a0, a1, a2, a3, a4, a5, a6, a7].drop_last() =~= seq![a0, a1, a2, a3, a4, a5, a6]);
    lemma_concat_last(seq![a0, a1, a2, a3, a4, a5, a6]);
    assert(seq![a0, a1, a2, a3, a4, a5, a6].drop_last() =~= seq![a0, a1, a2, a3, a4, a5]);
    lemma_concat_last(seq![a0, a1, a2, a3, a4, a5]);
    assert(seq![a0, a1, a2, a3, a4, a5].drop_last() =~= seq![a0, a1, a2, a3, a4]);
    lemma_concat_last(seq![a0, a1, a2, a3, a4]);
    assert(seq![a0, a1, a2, a3, a4].drop_last() =~= seq![a0, a1, a2, a3]);
    lemma_concat_last(seq![a0, a1, a2, a3]);
    assert(seq![a0, a1, a2, a3].drop_last() =~= seq![a0, a1, a2]);
    lemma_concat_last(seq![a0, a1, a2]);
    assert(seq![a0, a1, a2].drop_last() =~= seq![a0, a1]);
    lemma_concat_last(seq![a0, a1]);
    assert(seq![a0, a1].drop_last() =~= seq![a0]);
    lemma_concat_last(seq![a0]);
    assert(seq![a0].drop_last() =~= Seq::<Seq<char>>::empty());
    assert(Seq::<char>::empty() + a0 =~= a0);
}

proof fn lemma_iso_text_segments(y: nat, m: nat, d: nat, hh: nat, mm: nat, ss: nat)
    requires
        y < 10000,
        m < 100,
        d < 100,
        hh < 100,
        mm < 100,
        ss < 100,
    ensures
        iso_text(y, m, d, hh, mm, ss) == concat_all(iso_segments(y, m, d, hh, mm, ss)),
{
    reveal_with_fuel(pow10, 5);
    lemma_zero_pad_is_padded_digits(y, 4);
    lemma_zero_pad_is_padded_digits(m, 2);
    lemma_zero_pad_is_padded_digits(d, 2);
    lemma_zero_pad_is_padded_digits(hh, 2);
    lemma_zero_pad_is_padded_digits(mm, 2);
    lemma_zero_pad_is_padded_digits(ss, 2);
    lemma_twelve_segments(
        padded_digits(y, 4),
        "-"@,
        padded_digits(m, 2),
        "-"@,
        padded_digits(d, 2),
        "T"@,
        padded_digits(hh, 2),
        ":"@,
        padded_digits(mm, 2),
        ":"@,
        padded_digits(ss, 2),
        "Z"@,
    );
}

/// Dates ordered by day number are ordered year, then month, then day.
proof fn lemma_date_order(y1: int, m1: int, d1: int, y2: int, m2: int, d2: int)
    requires
        valid_date(y1, m1, d1),
        valid_date(y2, m2, d2),
        date_days(y1, m1, d1) < date_days(y2, m2, d2),
    ensures
        y1 < y2 || (y1 == y2 && (m1 < m2 || (m1 == m2 && d1 < d2))),
{
    assert(days_before_month(y1, 13) == year_len(y1));
    assert(days_before_month(y2, 13) == year_len(y2));
    assert(days_before_month(y1, m1) + month_len(y1, m1) <= days_before_month(y1, 13));
    assert(days_before_month(y2, m2) + month_len(y2, m2) <= days_before_month(y2, 13));
    if y2 < y1 {
        lemma_years_increase(y2, y1);
    }
    if y1 == y2 && m2 < m1 {
        assert(days_before_month(y1, m2) + month_len(y1, m2) <= days_before_month(y1, m1));
    }
}

/// Times of day ordered by second are ordered hour, then minute, then
/// second.
proof fn lemma_time_order(t1: int, t2: int)
    requires
        0 <= t1 < t2 < 86400,
    ensures
        t1 / 3600 < t2 / 3600 || (t1 / 3600 == t2 / 3600 && (t1 / 60 % 60 < t2 / 60 % 60 || (t1 / 60 % 60 == t2 / 60 % 60
            && t1 % 60 < t2 % 60))),
{
    assert(t1 == 3600 * (t1 / 3600) + 60 * (t1 / 60 % 60) + t1 % 60) by (nonlinear_arith)
        requires
            0 <= t1 < 86400,
    ;
    assert(t2 == 3600 * (t2 / 3600) + 60 * (t2 / 60 % 60) + t2 % 60) by (nonlinear_arith)
        requires
            0 <= t2 < 86400,
    ;
}

/// Timestamps whose fields are ordered (year, month, day, hour, minute,
/// second, lexicographically) have ordered texts.
proof fn lemma_fields_order(
    y1: nat, m1: nat, d1: nat, h1: nat, i1: nat, s1: nat,
    y2: nat, m2: nat, d2: nat, h2: nat, i2: nat, s2: nat,
)
    requires
        y1 < 10000 && y2 < 10000,
        m1 < 100 && m2 < 100 && d1 < 100 && d2 < 100,
        h1 < 100 && h2 < 100 && i1 < 100 && i2 < 100 && s1 < 100 && s2 < 100,
        y1 < y2 || (y1 == y2 && (m1 < m2 || (m1 == m2 && (d1 < d2 || (d1 == d2 && (h1 < h2 || (h1 == h2 && (i1
            < i2 || (i1 == i2 && s1 < s2))))))))),
    ensures
        seq_lt(concat_all(iso_segments(y1, m1, d1, h1, i1, s1)), concat_all(iso_segments(y2, m2, d2, h2, i2, s2))),
{
    reveal_with_fuel(pow10, 5);
    let g1 = iso_segments(y1, m1, d1, h1, i1, s1);
    let g2 = iso_segments(y2, m2, d2, h2, i2, s2);
    if y1 < y2 {
        lemma_padded_order(y1, y2, 4);
        lemma_padded_digits_len(y1, 4);
        lemma_padded_digits_len(y2, 4);
        lemma_concat_order(g1, g2, 0);
    } else if m1 < m2 {
        lemma_padded_order(m1, m2, 2);
        lemma_padded_digits_len(m1, 2);
        lemma_padded_digits_len(m2, 2);
        lemma_concat_order(g1, g2, 2);
    } else if d1 < d2 {
        lemma_padded_order(d1, d2, 2);
        lemma_padded_digits_len(d1, 2);
        lemma_padded_digits_len(d2, 2);
        lemma_concat_order(g1, g2, 4);
    } else if h1 < h2 {
        lemma_padded_order(h1, h2, 2);
        lemma_padded_digits_len(h1, 2);
        lemma_padded_digits_len(h2, 2);
        lemma_concat_order(g1, g2, 6);
    } else if i1 < i2 {
        lemma_padded_order(i1, i2, 2);
        lemma_padded_digits_len(i1, 2);
        lemma_padded_digits_len(i2, 2);
        lemma_concat_order(g1, g2, 8);
    } else {
        lemma_padded_order(s1, s2, 2);
        lemma_padded_digits_len(s1, 2);
        lemma_padded_digits_len(s2, 2);
        lemma_concat_order(g1, g2, 10);
    }
}

proof fn lemma_year_below_10000(wall_ms: u64, y: int, m: int, d: int)
    requires
        valid_date(y, m, d),
        date_days(y, m, d) == wall_ms / 1000 / 86400,
        wall_ms < 253_402_300_800_000,
    ensures
        y < 10000,
        m <= 12 && d <= 31,
{
    assert(wall_ms / 1000 / 86400 < 2932897);
    if y >= 10000 {
        assert(days_before_year(10000) == 2932897);
        if y > 10000 {
            lemma_years_increase(10000, y);
        }
        assert(days_before_month(y, m) >= 0);
    }
    assert(month_len(y, m) <= 31);
}

/// Texts follow time: of two times before the year 10000, the later one's
/// text never sorts before the earlier one's (byte-wise, as `String`s
/// compare).
pub proof fn text_order_follows_time(a: u64, b: u64, sa: Seq<char>, sb: Seq<char>)
    requires
        iso_text_of(a, sa),
        iso_text_of(b, sb),
        a <= b,
        b < 253_402_300_800_000,
    ensures
        sa == sb || seq_lt(sa, sb),
{
    if a / 1000 == b / 1000 {
        same_second_same_text(a, b, sa, sb);
    } else {
        let (ya, ma, da) = choose|y: int, m: int, d: int|
            valid_date(y, m, d) && date_days(y, m, d) == a / 1000 / 86400 && sa == iso_text(
                y as nat,
                m as nat,
                d as nat,
                (a / 1000 % 86400 / 3600) as nat,
                (a / 1000 % 86400 / 60 % 60) as nat,
                (a / 1000 % 60) as nat,
            );
        let (yb, mb, db) = choose|y: int, m: int, d: int|
            valid_date(y, m, d) && date_days(y, m, d) == b / 1000 / 86400 && sb == iso_text(
                y as nat,
                m as nat,
                d as nat,
                (b / 1000 % 86400 / 3600) as nat,
                (b / 1000 % 86400 / 60 % 60) as nat,
                (b / 1000 % 60) as nat,
            );
        lemma_year_below_10000(a, ya, ma, da);
        lemma_year_below_10000(b, yb, mb, db);
        let xa = a / 1000;
        let xb = b / 1000;
        assert(xa < xb);
        let ta = xa % 86400;
        let tb = xb % 86400;
        assert(xa % 86400 / 60 % 60 == ta / 60 % 60 && xa % 60 == ta % 60) by (nonlinear_arith)
            requires
                ta == xa % 86400,
        ;
        assert(xb % 86400 / 60 % 60 == tb / 60 % 60 && xb % 60 == tb % 60) by (nonlinear_arith)
            requires
                tb == xb % 86400,
        ;
        assert(xa / 86400 <= xb / 86400) by (nonlinear_arith)
            requires
                xa < xb,
        ;
        lemma_iso_text_segments(ya as nat, ma as nat, da as nat, (ta / 3600) as nat, (ta / 60 % 60) as nat, (ta % 60) as nat);
        lemma_iso_text_segments(yb as nat, mb as nat, db as nat, (tb / 3600) as nat, (tb / 60 % 60) as nat, (tb % 60) as nat);
        if xa / 86400 == xb / 86400 {
            a_day_number_names_one_date(ya, ma, da, yb, mb, db);
            assert(ta < tb) by (nonlinear_arith)
                requires
                    xa < xb,
                    xa / 86400 == xb / 86400,
                    ta == xa % 86400,
                    tb == xb % 86400,
            ;
            lemma_time_order(ta as int, tb as int);
        } else {
            lemma_date_order(ya, ma, da, yb, mb, db);
        }
        lemma_fields_order(
            ya as nat, ma as nat, da as nat, (ta / 3600) as nat, (ta / 60 % 60) as nat, (ta % 60) as nat,
            yb as nat, mb as nat, db as nat, (tb / 3600) as nat, (tb / 60 % 60) as nat, (tb % 60) as nat,
        );
    }
}

/// The calendar day after `(y, m, d)`.
pub open spec fn next_day(y: int, m: int, d: int) -> (int, int, int) {
    if d < month_len(y, m) {
        (y, m, d + 1)
    } else if m < 12 {
        (y, m + 1, 1)
    } else {
        (y + 1, 1, 1)
    }
}

/// Day number 0 is 1970-01-01.
pub proof fn day_zero_is_the_epoch()
    ensures
        valid_date(1970, 1, 1),
        date_days(1970, 1, 1) == 0,
{
}

/// The next day number names the next calendar day: with
/// `a_day_number_names_one_date`, the date of day `z + 1` is the day after
/// the date of day `z`.
pub proof fn next_day_number_is_the_next_day(y: int, m: int, d: int)
    requires
        valid_date(y, m, d),
    ensures
        valid_date(next_day(y, m, d).0, next_day(y, m, d).1, next_day(y, m, d).2),
        date_days(next_day(y, m, d).0, next_day(y, m, d).1, next_day(y, m, d).2) == date_days(y, m, d) + 1,
{
    if d >= month_len(y, m) && m >= 12 {
        lemma_year_step(y);
        assert(days_before_month(y, 12) + month_len(y, 12) == year_len(y));
    }
}

} // verus!
