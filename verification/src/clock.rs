//! Points in time, read from `YYYY-MM-DDTHH:MM:SS` texts.

use vstd::prelude::*;

use crate::text::{
    chars_of, lemma_precedes_concat, lemma_trim_keeps, parts_at, precedes, precedes_is_total, trim,
    trimmed,
};

verus! {

/// No time that a text can write down is further from the epoch than this many seconds.
pub const EPOCH_LIMIT: i64 = 300_000_000_000;

// ---------------------------------------------------------------------------------------------
// Numbers
// ---------------------------------------------------------------------------------------------

/// Whether `c` is one of the digits `0` to `9`.
pub open spec fn is_digit(c: char) -> bool {
    '0' as u32 <= c as u32 <= '9' as u32
}

/// Whether every character is a digit.
pub open spec fn all_digits(s: Seq<char>) -> bool {
    forall|i: int| 0 <= i < s.len() ==> is_digit(#[trigger] s[i])
}

/// The number that a row of digits writes down.
pub open spec fn digits_value(s: Seq<char>) -> int
    decreases s.len(),
{
    if s.len() == 0 {
        0
    } else {
        digits_value(s.drop_last()) * 10 + (s.last() as u32 - '0' as u32)
    }
}

/// The number that a text writes down: digits, at least one, behind an optional sign.
pub open spec fn number(s: Seq<char>) -> Option<int> {
    let signed = s.len() > 0 && (s[0] == '+' || s[0] == '-');
    let digits = if signed {
        s.drop_first()
    } else {
        s
    };
    if digits.len() == 0 || !all_digits(digits) {
        None
    } else if signed && s[0] == '-' {
        Some(-digits_value(digits))
    } else {
        Some(digits_value(digits))
    }
}

/// Each digit multiplies the bound of a number by ten.
proof fn lemma_digits_value(s: Seq<char>)
    requires
        all_digits(s),
    ensures
        0 <= digits_value(s),
        s.len() <= 1 ==> digits_value(s) <= 9,
        s.len() <= 2 ==> digits_value(s) <= 99,
        s.len() <= 3 ==> digits_value(s) <= 999,
        s.len() <= 4 ==> digits_value(s) <= 9999,
    decreases s.len(),
{
    if s.len() > 0 {
        assert forall|i: int| 0 <= i < s.drop_last().len() implies is_digit(
            #[trigger] s.drop_last()[i],
        ) by {
            assert(s.drop_last()[i] == s[i]);
        }
        lemma_digits_value(s.drop_last());
        assert(is_digit(s[s.len() - 1]));
        if s.len() == 1 {
            assert(digits_value(s.drop_last()) == 0);
        }
    }
}

/// A text of so many characters writes down no larger number.
proof fn lemma_number(s: Seq<char>)
    requires
        0 < s.len() <= 4,
    ensures
        number(s) matches Some(n) ==> -999 <= n <= 9999 && (s.len() <= 2 ==> -9 <= n <= 99),
{
    let digits = if s[0] == '+' || s[0] == '-' {
        s.drop_first()
    } else {
        s
    };
    if all_digits(digits) {
        lemma_digits_value(digits);
    }
}

/// The code of a character is a number of 32 bits.
proof fn lemma_code(c: char)
    ensures
        c as u32 == c as int,
{
}

/// Digits of one length stand in dictionary order as their numbers do.
pub(crate) proof fn lemma_digits_in_order(a: Seq<char>, b: Seq<char>)
    requires
        a.len() == b.len(),
        forall|i: int| 0 <= i < a.len() ==> is_digit(#[trigger] a[i]),
        forall|i: int| 0 <= i < b.len() ==> is_digit(#[trigger] b[i]),
    ensures
        precedes(a, b) <==> digits_value(a) < digits_value(b),
        a == b <==> digits_value(a) == digits_value(b),
    decreases a.len(),
{
    precedes_is_total(a, b);
    if a.len() == 0 {
        assert(a =~= b);
    } else {
        let x = a.drop_last();
        let u = b.drop_last();
        let y = seq![a.last()];
        let v = seq![b.last()];
        assert(a =~= x + y);
        assert(b =~= u + v);
        assert forall|i: int| 0 <= i < x.len() implies is_digit(#[trigger] x[i]) by {
            assert(x[i] == a[i]);
        }
        assert forall|i: int| 0 <= i < u.len() implies is_digit(#[trigger] u[i]) by {
            assert(u[i] == b[i]);
        }
        assert(is_digit(a[a.len() - 1]) && is_digit(b[b.len() - 1]));
        lemma_code(a.last());
        lemma_code(b.last());
        lemma_digits_in_order(x, u);
        lemma_precedes_concat(x, y, u, v);
        assert(precedes(y, v) <==> a.last() < b.last()) by {
            assert(y.take(0) =~= v.take(0));
            assert(parts_at(y, v, 0));
            if precedes(y, v) {
                let k = choose|k: int|
                    #[trigger] parts_at(y, v, k) && (k == y.len() || y[k] < v[k]);
                assert(k == 0);
            }
        }
        if x == u && a.last() == b.last() {
            assert(a == b);
        }
    }
}

/// The number that the characters from `from` up to `to` write down.
fn number_at(chars: &Vec<char>, from: usize, to: usize) -> (r: Option<i64>)
    requires
        from < to <= chars@.len(),
        to - from <= 4,
    ensures
        r is Some == number(chars@.subrange(from as int, to as int)) is Some,
        r matches Some(n) ==> number(chars@.subrange(from as int, to as int)) == Some(n as int)
            && -999 <= n <= 9999 && (to - from <= 2 ==> -9 <= n <= 99),
{
    let ghost field = chars@.subrange(from as int, to as int);
    let signed = chars[from] == '+' || chars[from] == '-';
    let start: usize = if signed {
        from + 1
    } else {
        from
    };
    let ghost digits = chars@.subrange(start as int, to as int);
    proof {
        assert(digits =~= if signed {
            field.drop_first()
        } else {
            field
        });
    }
    if start == to {
        return None;
    }
    let mut n: i64 = 0;
    let mut i: usize = start;
    while i < to
        invariant
            start <= i <= to <= chars@.len(),
            to - start <= 4,
            digits == chars@.subrange(start as int, to as int),
            all_digits(chars@.subrange(start as int, i as int)),
            n == digits_value(chars@.subrange(start as int, i as int)),
            field == chars@.subrange(from as int, to as int),
            number(field) is Some ==> all_digits(digits),
        decreases to - i,
    {
        let u: u32 = chars[i] as u32;
        if u < 48 || u > 57 {
            proof {
                assert(digits[i - start] == chars@[i as int]);
                assert(!is_digit(digits[i - start]));
            }
            return None;
        }
        let ghost before = chars@.subrange(start as int, i as int);
        let ghost after = chars@.subrange(start as int, i + 1);
        proof {
            assert(after.drop_last() =~= before);
            assert(after.last() == chars@[i as int]);
            assert forall|k: int| 0 <= k < after.len() implies is_digit(#[trigger] after[k]) by {
                if k < before.len() {
                    assert(after[k] == before[k]);
                }
            }
            lemma_digits_value(before);
            lemma_digits_value(after);
        }
        n = n * 10 + (u as i64 - 48);
        i = i + 1;
    }
    proof {
        lemma_digits_value(digits);
    }
    if signed && chars[from] == '-' {
        Some(-n)
    } else {
        Some(n)
    }
}

// ---------------------------------------------------------------------------------------------
// Days
// ---------------------------------------------------------------------------------------------

/// The number of days from 1970-01-01 to a date of the Gregorian calendar. Years are counted from
/// March, so that a leap day ends its year: a year has 365 days and one more for each leap year
/// that is over, and the months from March on last 153 days for each five.
pub open spec fn day_number(year: int, month: int, day: int) -> int {
    let y = if month <= 2 {
        year - 1
    } else {
        year
    };
    let m = if month > 2 {
        month - 3
    } else {
        month + 9
    };
    365 * y + y / 4 - y / 100 + y / 400 + (153 * m + 2) / 5 + day - 1 - 719468
}

/// Whether a year has a leap day.
pub open spec fn is_leap(year: int) -> bool {
    year % 4 == 0 && (year % 100 != 0 || year % 400 == 0)
}

/// The number of days of a month.
pub open spec fn month_length(year: int, month: int) -> int {
    if month == 2 {
        if is_leap(year) {
            29
        } else {
            28
        }
    } else if month == 4 || month == 6 || month == 9 || month == 11 {
        30
    } else {
        31
    }
}

/// The day after a date.
pub open spec fn next_date(year: int, month: int, day: int) -> (int, int, int) {
    if day < month_length(year, month) {
        (year, month, day + 1)
    } else if month < 12 {
        (year, month + 1, 1)
    } else {
        (year + 1, 1, 1)
    }
}

/// Day 0 is 1970-01-01, and each date of the calendar has the number after that of the day before.
pub proof fn day_number_counts_days(year: int, month: int, day: int)
    requires
        1 <= month <= 12,
        1 <= day <= month_length(year, month),
    ensures
        day_number(1970, 1, 1) == 0,
        ({
            let (y, m, d) = next_date(year, month, day);
            day_number(y, m, d) == day_number(year, month, day) + 1
        }),
{
    lemma_leap_days(year);
}

/// The leap days up to the end of a year: one more than a year before exactly in leap years.
proof fn lemma_leap_days(year: int)
    ensures
        ({
            let y = year - 1;
            (year / 4 - year / 100 + year / 400) - (y / 4 - y / 100 + y / 400) == if is_leap(year) {
                1int
            } else {
                0int
            }
        }),
{
    lemma_by_4(year);
    lemma_by_100(year);
    lemma_by_400(year);
    lemma_multiples(year);
}

/// One more multiple of 4 is reached exactly at the multiples of 4.
proof fn lemma_by_4(n: int)
    ensures
        n / 4 - (n - 1) / 4 == if n % 4 == 0 {
            1int
        } else {
            0int
        },
{
}

/// One more multiple of 100 is reached exactly at the multiples of 100.
proof fn lemma_by_100(n: int)
    ensures
        n / 100 - (n - 1) / 100 == if n % 100 == 0 {
            1int
        } else {
            0int
        },
{
}

/// One more multiple of 400 is reached exactly at the multiples of 400.
proof fn lemma_by_400(n: int)
    ensures
        n / 400 - (n - 1) / 400 == if n % 400 == 0 {
            1int
        } else {
            0int
        },
{
}

/// A multiple of 400 is one of 100, and a multiple of 100 is one of 4.
proof fn lemma_multiples(n: int)
    ensures
        n % 100 == 0 ==> n % 4 == 0,
        n % 400 == 0 ==> n % 100 == 0,
{
}

/// The number of days from 1970-01-01 to a date, counted in eras of 400 years.
fn days_from_civil(year: i64, month: i64, day: i64) -> (r: i64)
    requires
        -999 <= year <= 9999,
        -9 <= month <= 99,
        -9 <= day <= 99,
    ensures
        r == day_number(year as int, month as int, day as int),
        -2_000_000 <= r <= 3_000_000,
{
    let y: i64 = if month <= 2 {
        year - 1
    } else {
        year
    };
    let shifted: i64 = if y >= 0 {
        y
    } else {
        y - 399
    };
    let era: i64 = shifted / 400;
    proof {
        assert(era == (y as int) / 400);
    }
    let yoe: i64 = y - era * 400;
    let mp: i64 = if month > 2 {
        month - 3
    } else {
        month + 9
    };
    let doy: i64 = (153 * mp + 2) / 5 + day - 1;
    let doe: i64 = yoe * 365 + yoe / 4 - yoe / 100 + doy;
    era * 146097 + doe - 719468
}

// ---------------------------------------------------------------------------------------------
// Times
// ---------------------------------------------------------------------------------------------

/// Whether `c` is an ASCII character.
pub open spec fn is_ascii_char(c: char) -> bool {
    (c as u32) < 0x80
}

/// The seconds from the epoch that a `YYYY-MM-DDTHH:MM:SS` text writes down. What stands between
/// the numbers and behind them does not matter, but the separators are single ASCII characters.
/// A time zone is not looked at.
pub open spec fn epoch_of(s: Seq<char>) -> Option<int> {
    let t = trim(s);
    if t.len() < 19 || !is_ascii_char(t[4]) || !is_ascii_char(t[7]) || !is_ascii_char(t[10])
        || !is_ascii_char(t[13]) || !is_ascii_char(t[16]) {
        None
    } else {
        match (
            number(t.subrange(0, 4)),
            number(t.subrange(5, 7)),
            number(t.subrange(8, 10)),
            number(t.subrange(11, 13)),
            number(t.subrange(14, 16)),
            number(t.subrange(17, 19)),
        ) {
            (Some(y), Some(mo), Some(d), Some(h), Some(mi), Some(se)) => Some(
                day_number(y, mo, d) * 86400 + h * 3600 + mi * 60 + se,
            ),
            _ => None,
        }
    }
}

/// The seconds from the epoch that a text writes down, or nothing where it writes down no time.
/// The digits are taken as they stand: for a local time the caller takes the offset off.
pub fn parse_iso_to_epoch(s: &str) -> (r: Option<i64>)
    ensures
        r is Some == epoch_of(s@) is Some,
        r matches Some(e) ==> epoch_of(s@) == Some(e as int) && -EPOCH_LIMIT <= e <= EPOCH_LIMIT,
{
    let t = trimmed(s);
    let chars = chars_of(t.as_str());
    if chars.len() < 19 {
        return None;
    }
    if chars[4] as u32 >= 0x80 || chars[7] as u32 >= 0x80 || chars[10] as u32 >= 0x80
        || chars[13] as u32 >= 0x80 || chars[16] as u32 >= 0x80 {
        return None;
    }
    let y = number_at(&chars, 0, 4);
    let mo = number_at(&chars, 5, 7);
    let d = number_at(&chars, 8, 10);
    let h = number_at(&chars, 11, 13);
    let mi = number_at(&chars, 14, 16);
    let se = number_at(&chars, 17, 19);
    match (y, mo, d, h, mi, se) {
        (Some(y), Some(mo), Some(d), Some(h), Some(mi), Some(se)) => {
            let days = days_from_civil(y, mo, d);
            Some(days * 86400 + h * 3600 + mi * 60 + se)
        },
        _ => None,
    }
}

/// No text writes down a time that is further from the epoch than the limit.
pub proof fn epochs_are_bounded(s: Seq<char>)
    ensures
        epoch_of(s) matches Some(e) ==> -EPOCH_LIMIT <= e <= EPOCH_LIMIT,
{
    let t = trim(s);
    if t.len() >= 19 {
        lemma_number(t.subrange(0, 4));
        lemma_number(t.subrange(5, 7));
        lemma_number(t.subrange(8, 10));
        lemma_number(t.subrange(11, 13));
        lemma_number(t.subrange(14, 16));
        lemma_number(t.subrange(17, 19));
    }
}

/// How far local time may be ahead or behind, in seconds, so that the seconds between any two
/// times fit into 64 bits.
pub const OFFSET_LIMIT: i64 = 9_223_371_436_854_775_807;

/// The times that texts write down.
pub open spec fn iso_time() -> spec_fn(Seq<char>) -> Option<i64> {
    |s: Seq<char>|
        match epoch_of(s) {
            Some(e) => Some(e as i64),
            None => None,
        }
}

// ---------------------------------------------------------------------------------------------
// The calendar and the clock
// ---------------------------------------------------------------------------------------------

/// A second of the Gregorian calendar.
pub ghost struct Moment {
    pub year: int,
    pub month: int,
    pub day: int,
    pub hour: int,
    pub minute: int,
    pub second: int,
}

/// Whether the calendar and the clock have such a second.
pub open spec fn is_moment(m: Moment) -> bool {
    &&& 1 <= m.month <= 12
    &&& 1 <= m.day <= month_length(m.year, m.month)
    &&& 0 <= m.hour <= 23
    &&& 0 <= m.minute <= 59
    &&& 0 <= m.second <= 59
}

/// The second after a second.
pub open spec fn next_second(m: Moment) -> Moment {
    if m.second < 59 {
        Moment { second: m.second + 1, ..m }
    } else if m.minute < 59 {
        Moment { minute: m.minute + 1, second: 0, ..m }
    } else if m.hour < 23 {
        Moment { hour: m.hour + 1, minute: 0, second: 0, ..m }
    } else {
        let (year, month, day) = next_date(m.year, m.month, m.day);
        Moment { year, month, day, hour: 0, minute: 0, second: 0 }
    }
}

/// The second that comes `n` seconds after a second.
pub open spec fn after_seconds(m: Moment, n: nat) -> Moment
    decreases n,
{
    if n == 0 {
        m
    } else {
        next_second(after_seconds(m, (n - 1) as nat))
    }
}

/// The seconds from the epoch to a second.
pub open spec fn seconds_to(m: Moment) -> int {
    day_number(m.year, m.month, m.day) * 86400 + m.hour * 3600 + m.minute * 60 + m.second
}

/// The number that the digits of a text from `from` up to `to` write down.
pub open spec fn field(s: Seq<char>, from: int, to: int) -> int {
    digits_value(s.subrange(from, to))
}

/// The second that a `YYYY-MM-DDTHH:MM:SS` text writes down.
pub open spec fn moment_in(s: Seq<char>) -> Moment {
    Moment {
        year: field(s, 0, 4),
        month: field(s, 5, 7),
        day: field(s, 8, 10),
        hour: field(s, 11, 13),
        minute: field(s, 14, 16),
        second: field(s, 17, 19),
    }
}

/// Whether a place of a `YYYY-MM-DDTHH:MM:SS` text is that of a separator.
pub open spec fn is_separator(i: int) -> bool {
    i == 4 || i == 7 || i == 10 || i == 13 || i == 16
}

/// Whether a text is a date and a time of the form `YYYY-MM-DDTHH:MM:SS` that the calendar and the
/// clock have.
pub open spec fn is_date_time(s: Seq<char>) -> bool {
    &&& s.len() == 19
    &&& forall|i: int| 0 <= i < 19 && !is_separator(i) ==> is_digit(#[trigger] s[i])
    &&& s[4] == '-' && s[7] == '-' && s[10] == 'T' && s[13] == ':' && s[16] == ':'
    &&& is_moment(moment_in(s))
}

/// Whether a second comes before another on the calendar and the clock.
pub open spec fn is_before(a: Moment, b: Moment) -> bool {
    a.year < b.year || (a.year == b.year && (a.month < b.month || (a.month == b.month && (a.day
        < b.day || (a.day == b.day && (a.hour < b.hour || (a.hour == b.hour && (a.minute < b.minute
        || (a.minute == b.minute && a.second < b.second)))))))))
}

/// A month starts when the one before it is over.
proof fn lemma_month_after_month(year: int, a: int, b: int)
    requires
        1 <= a < b <= 12,
    ensures
        day_number(year, a, 1) + month_length(year, a) <= day_number(year, b, 1),
    decreases b,
{
    let m = b - 1;
    day_number_counts_days(year, m, month_length(year, m));
    assert(day_number(year, m, month_length(year, m)) == day_number(year, m, 1) + month_length(
        year,
        m,
    ) - 1);
    if a < m {
        lemma_month_after_month(year, a, m);
    }
}

/// A year starts when the one before it is over.
proof fn lemma_year_after_year(a: int, b: int)
    requires
        a < b,
    ensures
        day_number(a, 12, 31) < day_number(b, 1, 1),
    decreases b - a,
{
    day_number_counts_days(b - 1, 12, 31);
    if a < b - 1 {
        lemma_year_after_year(a, b - 1);
        lemma_month_after_month(b - 1, 1, 12);
    }
}

/// No day of a year comes before its first or after its last.
proof fn lemma_within_year(year: int, month: int, day: int)
    requires
        1 <= month <= 12,
        1 <= day <= month_length(year, month),
    ensures
        day_number(year, 1, 1) <= day_number(year, month, day) <= day_number(year, 12, 31),
{
    if 1 < month {
        lemma_month_after_month(year, 1, month);
    }
    if month < 12 {
        lemma_month_after_month(year, month, 12);
    }
}

/// A later date has a larger number.
proof fn lemma_dates_in_order(a: Moment, b: Moment)
    requires
        is_moment(a),
        is_moment(b),
        a.year < b.year || (a.year == b.year && (a.month < b.month || (a.month == b.month && a.day
            < b.day))),
    ensures
        day_number(a.year, a.month, a.day) < day_number(b.year, b.month, b.day),
{
    if a.year < b.year {
        lemma_within_year(a.year, a.month, a.day);
        lemma_within_year(b.year, b.month, b.day);
        lemma_year_after_year(a.year, b.year);
    } else if a.month < b.month {
        lemma_month_after_month(a.year, a.month, b.month);
    }
}

/// A later second has a larger number.
proof fn lemma_before(a: Moment, b: Moment)
    requires
        is_moment(a),
        is_moment(b),
        is_before(a, b),
    ensures
        seconds_to(a) < seconds_to(b),
{
    if !(a.year == b.year && a.month == b.month && a.day == b.day) {
        lemma_dates_in_order(a, b);
    }
}

/// Seconds are numbered in the order of the calendar and the clock, no two alike.
pub proof fn seconds_are_in_order(a: Moment, b: Moment)
    requires
        is_moment(a),
        is_moment(b),
    ensures
        is_before(a, b) <==> seconds_to(a) < seconds_to(b),
        a == b <==> seconds_to(a) == seconds_to(b),
{
    if is_before(a, b) {
        lemma_before(a, b);
    } else if is_before(b, a) {
        lemma_before(b, a);
    } else {
        assert(a == b);
    }
}

/// Seconds are counted: each has the number after that of the second before, and second 0 is the
/// first of 1970.
pub proof fn seconds_are_counted(m: Moment, n: nat)
    requires
        is_moment(m),
    ensures
        is_moment(after_seconds(m, n)),
        seconds_to(after_seconds(m, n)) == seconds_to(m) + n,
        seconds_to(Moment { year: 1970, month: 1, day: 1, hour: 0, minute: 0, second: 0 }) == 0,
    decreases n,
{
    if n > 0 {
        let p = after_seconds(m, (n - 1) as nat);
        seconds_are_counted(m, (n - 1) as nat);
        day_number_counts_days(p.year, p.month, p.day);
    } else {
        day_number_counts_days(m.year, m.month, m.day);
    }
}

/// Digits write down the number that they are read as.
proof fn lemma_field(s: Seq<char>, from: int, to: int)
    requires
        0 <= from < to <= s.len(),
        forall|i: int| from <= i < to ==> is_digit(#[trigger] s[i]),
    ensures
        all_digits(s.subrange(from, to)),
        number(s.subrange(from, to)) == Some(field(s, from, to)),
{
    let t = s.subrange(from, to);
    assert forall|i: int| 0 <= i < t.len() implies is_digit(#[trigger] t[i]) by {
        assert(t[i] == s[from + i]);
    }
    assert(is_digit(t[0]));
}

/// The fields of a date and time are digits, and are read as the numbers that they write down.
proof fn lemma_fields(s: Seq<char>)
    requires
        is_date_time(s),
    ensures
        all_digits(s.subrange(0, 4)) && number(s.subrange(0, 4)) == Some(field(s, 0, 4)),
        all_digits(s.subrange(5, 7)) && number(s.subrange(5, 7)) == Some(field(s, 5, 7)),
        all_digits(s.subrange(8, 10)) && number(s.subrange(8, 10)) == Some(field(s, 8, 10)),
        all_digits(s.subrange(11, 13)) && number(s.subrange(11, 13)) == Some(field(s, 11, 13)),
        all_digits(s.subrange(14, 16)) && number(s.subrange(14, 16)) == Some(field(s, 14, 16)),
        all_digits(s.subrange(17, 19)) && number(s.subrange(17, 19)) == Some(field(s, 17, 19)),
{
    lemma_field(s, 0, 4);
    lemma_field(s, 5, 7);
    lemma_field(s, 8, 10);
    lemma_field(s, 11, 13);
    lemma_field(s, 14, 16);
    lemma_field(s, 17, 19);
}

/// A date and time is read as the second that it writes down, whatever follows it: a fraction of the
/// second, a time zone, or anything else.
pub proof fn what_follows_a_time_changes_nothing(s: Seq<char>, rest: Seq<char>)
    requires
        is_date_time(s),
    ensures
        epoch_of(s) == Some(seconds_to(moment_in(s))),
        epoch_of(s + rest) == epoch_of(s),
{
    lemma_read(s, rest);
    lemma_read(s, Seq::empty());
    assert(s + Seq::<char>::empty() =~= s);
}

/// A date and time is read as the second that it writes down, whatever follows it.
proof fn lemma_read(s: Seq<char>, rest: Seq<char>)
    requires
        is_date_time(s),
    ensures
        epoch_of(s + rest) == Some(seconds_to(moment_in(s))),
{
    assert(is_digit(s[0]) && is_digit(s[18]));
    assert(s.last() == s[18]);
    lemma_trim_keeps(s, rest);
    let t = trim(s + rest);
    assert forall|i: int| 0 <= i < 19 implies t[i] == s[i] by {
        assert(s[i] == t.subrange(0, 19)[i]);
    }
    assert(t.subrange(0, 4) =~= s.subrange(0, 4));
    assert(t.subrange(5, 7) =~= s.subrange(5, 7));
    assert(t.subrange(8, 10) =~= s.subrange(8, 10));
    assert(t.subrange(11, 13) =~= s.subrange(11, 13));
    assert(t.subrange(14, 16) =~= s.subrange(14, 16));
    assert(t.subrange(17, 19) =~= s.subrange(17, 19));
    lemma_fields(s);
}

/// Between texts that start with a number of so many digits and a separator, the numbers decide, then
/// the rest.
proof fn lemma_field_order(x: Seq<char>, u: Seq<char>, sep: char, y: Seq<char>, v: Seq<char>)
    requires
        x.len() == u.len(),
        all_digits(x),
        all_digits(u),
    ensures
        precedes(x + (seq![sep] + y), u + (seq![sep] + v)) <==> digits_value(x) < digits_value(u)
            || (digits_value(x) == digits_value(u) && precedes(y, v)),
{
    lemma_digits_in_order(x, u);
    lemma_precedes_concat(x, seq![sep] + y, u, seq![sep] + v);
    lemma_precedes_concat(seq![sep], y, seq![sep], v);
    precedes_is_total(seq![sep], seq![sep]);
}

/// A later text gives a larger number: dates and times stand in dictionary order as the seconds that
/// they are read as.
pub proof fn times_are_in_order(a: Seq<char>, b: Seq<char>)
    requires
        is_date_time(a),
        is_date_time(b),
    ensures
        epoch_of(a) is Some,
        epoch_of(b) is Some,
        precedes(a, b) <==> epoch_of(a)->0 < epoch_of(b)->0,
        a == b <==> epoch_of(a)->0 == epoch_of(b)->0,
{
    what_follows_a_time_changes_nothing(a, Seq::empty());
    what_follows_a_time_changes_nothing(b, Seq::empty());
    seconds_are_in_order(moment_in(a), moment_in(b));
    lemma_fields(a);
    lemma_fields(b);
    lemma_tail(a, 14, ':');
    lemma_tail(b, 14, ':');
    lemma_tail(a, 11, ':');
    lemma_tail(b, 11, ':');
    lemma_tail(a, 8, 'T');
    lemma_tail(b, 8, 'T');
    lemma_tail(a, 5, '-');
    lemma_tail(b, 5, '-');
    assert(a =~= a.subrange(0, 4) + (seq!['-'] + a.subrange(5, 19)));
    assert(b =~= b.subrange(0, 4) + (seq!['-'] + b.subrange(5, 19)));
    lemma_digits_in_order(a.subrange(17, 19), b.subrange(17, 19));
    lemma_field_order(
        a.subrange(14, 16),
        b.subrange(14, 16),
        ':',
        a.subrange(17, 19),
        b.subrange(17, 19),
    );
    lemma_field_order(
        a.subrange(11, 13),
        b.subrange(11, 13),
        ':',
        a.subrange(14, 19),
        b.subrange(14, 19),
    );
    lemma_field_order(
        a.subrange(8, 10),
        b.subrange(8, 10),
        'T',
        a.subrange(11, 19),
        b.subrange(11, 19),
    );
    lemma_field_order(
        a.subrange(5, 7),
        b.subrange(5, 7),
        '-',
        a.subrange(8, 19),
        b.subrange(8, 19),
    );
    lemma_field_order(
        a.subrange(0, 4),
        b.subrange(0, 4),
        '-',
        a.subrange(5, 19),
        b.subrange(5, 19),
    );
    precedes_is_total(a, b);
    assert(precedes(a, b) <==> is_before(moment_in(a), moment_in(b)));
    assert(precedes(b, a) ==> !precedes(a, b));
    lemma_same_moment(a, b);
}

/// Two dates and times that write down the same second are the same text.
proof fn lemma_same_moment(a: Seq<char>, b: Seq<char>)
    requires
        is_date_time(a),
        is_date_time(b),
    ensures
        moment_in(a) == moment_in(b) ==> a == b,
{
    if moment_in(a) == moment_in(b) {
        lemma_fields(a);
        lemma_fields(b);
        lemma_digits_in_order(a.subrange(0, 4), b.subrange(0, 4));
        lemma_digits_in_order(a.subrange(5, 7), b.subrange(5, 7));
        lemma_digits_in_order(a.subrange(8, 10), b.subrange(8, 10));
        lemma_digits_in_order(a.subrange(11, 13), b.subrange(11, 13));
        lemma_digits_in_order(a.subrange(14, 16), b.subrange(14, 16));
        lemma_digits_in_order(a.subrange(17, 19), b.subrange(17, 19));
        assert forall|i: int| 0 <= i < 19 implies a[i] == b[i] by {
            if i < 4 {
                assert(a[i] == a.subrange(0, 4)[i] && b[i] == b.subrange(0, 4)[i]);
            } else if 5 <= i < 7 {
                assert(a[i] == a.subrange(5, 7)[i - 5] && b[i] == b.subrange(5, 7)[i - 5]);
            } else if 8 <= i < 10 {
                assert(a[i] == a.subrange(8, 10)[i - 8] && b[i] == b.subrange(8, 10)[i - 8]);
            } else if 11 <= i < 13 {
                assert(a[i] == a.subrange(11, 13)[i - 11] && b[i] == b.subrange(11, 13)[i - 11]);
            } else if 14 <= i < 16 {
                assert(a[i] == a.subrange(14, 16)[i - 14] && b[i] == b.subrange(14, 16)[i - 14]);
            } else if 17 <= i {
                assert(a[i] == a.subrange(17, 19)[i - 17] && b[i] == b.subrange(17, 19)[i - 17]);
            }
        }
        assert(a =~= b);
    }
}

/// From a field of two digits on, a date and time is the field, the separator and the rest.
proof fn lemma_tail(s: Seq<char>, from: int, sep: char)
    requires
        s.len() == 19,
        0 <= from <= 16,
        s[from + 2] == sep,
    ensures
        s.subrange(from, 19) == s.subrange(from, from + 2) + (seq![sep] + s.subrange(from + 3, 19)),
{
    assert(s.subrange(from, 19) =~= s.subrange(from, from + 2) + (seq![sep] + s.subrange(
        from + 3,
        19,
    )));
}

/// The difference of two times is the seconds between them: it is `n` exactly where the later one is
/// reached from the earlier one by `n` steps of a second.
pub proof fn differences_are_the_seconds_between(a: Seq<char>, b: Seq<char>, n: nat)
    requires
        is_date_time(a),
        is_date_time(b),
    ensures
        epoch_of(a) is Some,
        epoch_of(b) is Some,
        epoch_of(b)->0 - epoch_of(a)->0 == n <==> after_seconds(moment_in(a), n) == moment_in(b),
{
    what_follows_a_time_changes_nothing(a, Seq::empty());
    what_follows_a_time_changes_nothing(b, Seq::empty());
    seconds_are_counted(moment_in(a), n);
    seconds_are_in_order(after_seconds(moment_in(a), n), moment_in(b));
}

/// The epoch is second 0.
pub proof fn the_epoch_is_second_zero()
    ensures
        epoch_of("1970-01-01T00:00:00"@) == Some(0int),
{
    reveal_strlit("1970-01-01T00:00:00");
    let s = "1970-01-01T00:00:00"@;
    assert(s.subrange(0, 4) =~= seq!['1', '9', '7', '0']);
    assert(s.subrange(5, 7) =~= seq!['0', '1']);
    assert(s.subrange(8, 10) =~= seq!['0', '1']);
    assert(s.subrange(11, 13) =~= seq!['0', '0']);
    assert(s.subrange(14, 16) =~= seq!['0', '0']);
    assert(s.subrange(17, 19) =~= seq!['0', '0']);
    lemma_two_digits('0', '0');
    lemma_two_digits('0', '1');
    lemma_two_digits('1', '9');
    assert(seq!['1', '9', '7', '0'].drop_last() =~= seq!['1', '9', '7']);
    assert(seq!['1', '9', '7'].drop_last() =~= seq!['1', '9']);
    assert(digits_value(seq!['1', '9', '7']) == 197);
    assert(digits_value(seq!['1', '9', '7', '0']) == 1970);
    assert(is_date_time(s));
    what_follows_a_time_changes_nothing(s, Seq::empty());
    assert(moment_in(s) == Moment {
        year: 1970,
        month: 1,
        day: 1,
        hour: 0,
        minute: 0,
        second: 0,
    });
    seconds_are_counted(moment_in(s), 0);
}

/// What two digits write down.
proof fn lemma_two_digits(a: char, b: char)
    ensures
        digits_value(seq![a, b]) == (a as u32 - '0' as u32) * 10 + (b as u32 - '0' as u32),
{
    assert(seq![a, b].drop_last() =~= seq![a]);
    assert(seq![a].drop_last() =~= Seq::<char>::empty());
    reveal_with_fuel(digits_value, 3);
}

} // verus!
