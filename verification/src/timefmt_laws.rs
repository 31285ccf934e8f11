//! Laws of the texts of times: their shape, and that each time has its own.

use crate::text;
use crate::text_laws;
use crate::timefmt;
use vstd::arithmetic::div_mod::*;
use vstd::prelude::*;

verus! {

/// The year of a time.
pub open spec fn year_of(secs: nat) -> int {
    timefmt::date_of((secs / 86400) as int).0
}

/// Zeros in front of digits do not count.
proof fn lemma_leading_zeros(k: nat, d: Seq<char>)
    ensures
        text::digits_value(text::repeat('0', k) + d, 10) == text::digits_value(d, 10),
    decreases d.len(), k,
{
    let s = text::repeat('0', k) + d;
    if d.len() > 0 {
        lemma_leading_zeros(k, d.drop_last());
        assert(s.drop_last() =~= text::repeat('0', k) + d.drop_last());
        assert(s.last() == d.last());
    } else if k > 0 {
        lemma_leading_zeros((k - 1) as nat, d);
        assert(s.drop_last() =~= text::repeat('0', (k - 1) as nat) + d);
        assert(s.last() == '0');
    } else {
        assert(s =~= d);
    }
}

/// A number of two digits at most is written with two.
proof fn lemma_two_digits(n: nat)
    requires
        n < 100,
    ensures
        text::padded(n, 2).len() == 2,
        text::digits_value(text::padded(n, 2), 10) == Some(n),
{
    reveal_with_fuel(text::decimal, 3);
    let d = text::decimal(n);
    text_laws::decimal_reads_back(n, n);
    lemma_leading_zeros(
        if d.len() < 2 {
            (2 - d.len()) as nat
        } else {
            0
        },
        d,
    );
}

/// A number of four digits at most is written with four.
proof fn lemma_four_digits(n: nat)
    requires
        n < 10000,
    ensures
        text::padded(n, 4).len() == 4,
        text::digits_value(text::padded(n, 4), 10) == Some(n),
{
    reveal_with_fuel(text::decimal, 5);
    let d = text::decimal(n);
    text_laws::decimal_reads_back(n, n);
    lemma_leading_zeros(
        if d.len() < 4 {
            (4 - d.len()) as nat
        } else {
            0
        },
        d,
    );
}

/// A year from 1970 on is written as a year.
proof fn lemma_date_fields(secs: nat)
    ensures
        ({
            let (y, m, d) = timefmt::date_of((secs / 86400) as int);
            &&& y >= 1970
            &&& 1 <= m <= 12
            &&& 1 <= d <= 31
            &&& timefmt::day_number(y, m, d) == secs / 86400
        }),
{
    timefmt::every_day_has_one_date((secs / 86400) as int);
    let (y, m, d) = timefmt::date_of((secs / 86400) as int);
    timefmt::lemma_year_not_before(y, m, d);
}

/// The text of a time up to the year 9999 has twenty characters, each
/// number at its place: the year at the start, then month, day, hour,
/// minute and second, with one character between each two of them.
pub proof fn time_text_has_its_shape(secs: nat)
    requires
        year_of(secs) <= 9999,
    ensures
        ({
            let t = timefmt::time_text(secs);
            let (y, m, d) = timefmt::date_of((secs / 86400) as int);
            &&& t.len() == 20
            &&& text::digits_value(t.subrange(0, 4), 10) == Some(y as nat)
            &&& t[4] == '-'
            &&& text::digits_value(t.subrange(5, 7), 10) == Some(m as nat)
            &&& t[7] == '-'
            &&& text::digits_value(t.subrange(8, 10), 10) == Some(d as nat)
            &&& t[10] == 'T'
            &&& text::digits_value(t.subrange(11, 13), 10) == Some(secs % 86400 / 3600)
            &&& t[13] == ':'
            &&& text::digits_value(t.subrange(14, 16), 10) == Some(secs % 86400 % 3600 / 60)
            &&& t[16] == ':'
            &&& text::digits_value(t.subrange(17, 19), 10) == Some(secs % 86400 % 60)
            &&& t[19] == 'Z'
        }),
{
    let t = timefmt::time_text(secs);
    let (y, m, d) = timefmt::date_of((secs / 86400) as int);
    let s = secs % 86400;
    lemma_date_fields(secs);
    lemma_four_digits(y as nat);
    lemma_two_digits(m as nat);
    lemma_two_digits(d as nat);
    lemma_two_digits(s / 3600);
    lemma_two_digits(s % 3600 / 60);
    lemma_two_digits(s % 60);
    reveal_strlit("-");
    reveal_strlit("T");
    reveal_strlit(":");
    reveal_strlit("Z");
    assert(t.subrange(0, 4) =~= text::padded(y as nat, 4));
    assert(t.subrange(5, 7) =~= text::padded(m as nat, 2));
    assert(t.subrange(8, 10) =~= text::padded(d as nat, 2));
    assert(t.subrange(11, 13) =~= text::padded(s / 3600, 2));
    assert(t.subrange(14, 16) =~= text::padded(s % 3600 / 60, 2));
    assert(t.subrange(17, 19) =~= text::padded(s % 60, 2));
}

/// Two different times up to the year 9999 have different texts.
pub proof fn times_have_their_own_texts(a: nat, b: nat)
    requires
        year_of(a) <= 9999,
        year_of(b) <= 9999,
        a != b,
    ensures
        timefmt::time_text(a) != timefmt::time_text(b),
{
    time_text_has_its_shape(a);
    time_text_has_its_shape(b);
    lemma_date_fields(a);
    lemma_date_fields(b);
    if timefmt::time_text(a) == timefmt::time_text(b) {
        assert(timefmt::date_of((a / 86400) as int) == timefmt::date_of((b / 86400) as int));
        assert(a / 86400 == b / 86400);
        lemma_time_of_day(a % 86400, b % 86400);
    }
}

/// Hour, minute and second fix the time of day.
proof fn lemma_time_of_day(s: nat, t: nat)
    requires
        s / 3600 == t / 3600,
        s % 3600 / 60 == t % 3600 / 60,
        s % 60 == t % 60,
    ensures
        s == t,
{
    lemma_mod_mod(s as int, 60, 60);
    lemma_mod_mod(t as int, 60, 60);
    let p = s % 3600;
    let q = t % 3600;
    assert(p == q) by {
        assert(p % 60 == q % 60);
        assert(p == p / 60 * 60 + p % 60);
        assert(q == q / 60 * 60 + q % 60);
    }
    assert(s == s / 3600 * 3600 + p);
    assert(t == t / 3600 * 3600 + q);
}

/// The days of a month of the Gregorian calendar.
pub open spec fn days_in(y: int, m: int) -> int {
    if m == 2 {
        if y % 400 == 0 || (y % 4 == 0 && y % 100 != 0) {
            29
        } else {
            28
        }
    } else {
        seq![31int, 28, 31, 30, 31, 30, 31, 31, 30, 31, 30, 31][m - 1]
    }
}

/// A year is over after the thirty-first of December.
proof fn lemma_year_ends_in_december(y: int)
    ensures
        timefmt::month_start(y, 12) + 31 == timefmt::year_days(y),
        timefmt::year_start(y + 1) == timefmt::year_start(y) + timefmt::year_days(y),
{
    reveal_with_fuel(timefmt::month_start, 13);
    if y < 1970 {
        assert(timefmt::year_start(y) == timefmt::year_start(y + 1) - timefmt::year_days(y));
    }
}

/// The days of a month are those of the calendar.
proof fn lemma_days_in(y: int, m: int)
    requires
        1 <= m <= 12,
    ensures
        timefmt::month_days(y, m) == days_in(y, m),
{
}

/// The days are counted from the first of January 1970, and every day is
/// followed by the next day of its month, by the first of the next month, or
/// by the first of January of the next year.
pub proof fn days_follow_each_other(z: int)
    ensures
        timefmt::date_of(0) == (1970int, 1int, 1int),
        ({
            let (y, m, d) = timefmt::date_of(z);
            &&& 1 <= m <= 12
            &&& 1 <= d <= days_in(y, m)
            &&& timefmt::date_of(z + 1) == if d < days_in(y, m) {
                (y, m, d + 1)
            } else if m < 12 {
                (y, m + 1, 1int)
            } else {
                (y + 1, 1int, 1int)
            }
        }),
{
    timefmt::every_day_has_one_date(0);
    assert(timefmt::day_number(1970, 1, 1) == 0);
    timefmt::every_day_has_one_date(z);
    timefmt::every_day_has_one_date(z + 1);
    let (y, m, d) = timefmt::date_of(z);
    lemma_days_in(y, m);
    if d < days_in(y, m) {
        assert(timefmt::day_number(y, m, d + 1) == z + 1);
    } else if m < 12 {
        lemma_days_in(y, m + 1);
        assert(timefmt::month_start(y, m + 1) == timefmt::month_start(y, m) + timefmt::month_days(
            y,
            m,
        ));
        assert(timefmt::day_number(y, m + 1, 1) == z + 1);
    } else {
        lemma_year_ends_in_december(y);
        assert(timefmt::day_number(y + 1, 1, 1) == z + 1);
    }
}

/// The text of a time, of whatever year, ends in sixteen characters for what
/// follows the year, in front of which stands the year in at least four
/// digits; it has the parts of the time, each in two digits.
pub proof fn time_text_has_its_parts(secs: nat)
    ensures
        ({
            let t = timefmt::time_text(secs);
            let n = t.len() - 16;
            let (y, m, d) = timefmt::date_of((secs / 86400) as int);
            &&& n >= 4
            &&& n > 4 ==> t[0] != '0'
            &&& text::digits_value(t.take(n), 10) == Some(y as nat)
            &&& t[n] == '-'
            &&& text::digits_value(t.subrange(n + 1, n + 3), 10) == Some(m as nat)
            &&& t[n + 3] == '-'
            &&& text::digits_value(t.subrange(n + 4, n + 6), 10) == Some(d as nat)
            &&& t[n + 6] == 'T'
            &&& text::digits_value(t.subrange(n + 7, n + 9), 10) == Some(secs % 86400 / 3600)
            &&& t[n + 9] == ':'
            &&& text::digits_value(t.subrange(n + 10, n + 12), 10) == Some(secs % 3600 / 60)
            &&& t[n + 12] == ':'
            &&& text::digits_value(t.subrange(n + 13, n + 15), 10) == Some(secs % 60)
            &&& t[n + 15] == 'Z'
        }),
{
    let t = timefmt::time_text(secs);
    let (y, m, d) = timefmt::date_of((secs / 86400) as int);
    let s = secs % 86400;
    let n = t.len() - 16;
    lemma_date_fields(secs);
    text_laws::padding_keeps_the_number(y as nat, 4);
    text_laws::lemma_decimal_front(y as nat);
    lemma_two_digits(m as nat);
    lemma_two_digits(d as nat);
    lemma_two_digits(s / 3600);
    lemma_two_digits(s % 3600 / 60);
    lemma_two_digits(s % 60);
    lemma_within_the_day(secs);
    reveal_strlit("-");
    reveal_strlit("T");
    reveal_strlit(":");
    reveal_strlit("Z");
    let year = text::padded(y as nat, 4);
    assert(n == year.len());
    assert(t.take(n) =~= year);
    if n > 4 {
        assert(year =~= text::decimal(y as nat));
        assert(t[0] == year[0]);
    }
    assert(t.subrange(n + 1, n + 3) =~= text::padded(m as nat, 2));
    assert(t.subrange(n + 4, n + 6) =~= text::padded(d as nat, 2));
    assert(t.subrange(n + 7, n + 9) =~= text::padded(s / 3600, 2));
    assert(t.subrange(n + 10, n + 12) =~= text::padded(s % 3600 / 60, 2));
    assert(t.subrange(n + 13, n + 15) =~= text::padded(s % 60, 2));
}

/// Whole days do not count towards minute and second.
proof fn lemma_within_the_day(secs: nat)
    ensures
        secs % 86400 % 3600 == secs % 3600,
        secs % 86400 % 60 == secs % 60,
{
    lemma_mod_mod(secs as int, 3600, 24);
    lemma_mod_mod(secs as int, 60, 1440);
}

} // verus!
