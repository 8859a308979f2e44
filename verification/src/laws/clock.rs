//! Laws of reading times.

use vstd::prelude::*;

use crate::clock::{
    digits_value, epoch_of, is_ascii_char, is_date_time, is_digit, is_separator, number,
};
use crate::text::{blank, is_white, trim, trim_end, trim_start};

verus! {

/// The digits are the ten characters from `0` to `9`.
pub proof fn there_are_ten_digits(c: char)
    ensures
        is_digit(c) <==> c == '0' || c == '1' || c == '2' || c == '3' || c == '4' || c == '5' || c
            == '6' || c == '7' || c == '8' || c == '9',
        is_ascii_char(c) <==> c < '\u{80}',
{
}

/// Digits are read in base ten.
pub proof fn digits_are_read_in_base_ten(s: Seq<char>, c: char)
    ensures
        digits_value(Seq::empty()) == 0,
        c == '0' ==> digits_value(s.push(c)) == 10 * digits_value(s),
        c == '1' ==> digits_value(s.push(c)) == 10 * digits_value(s) + 1,
        c == '2' ==> digits_value(s.push(c)) == 10 * digits_value(s) + 2,
        c == '3' ==> digits_value(s.push(c)) == 10 * digits_value(s) + 3,
        c == '4' ==> digits_value(s.push(c)) == 10 * digits_value(s) + 4,
        c == '5' ==> digits_value(s.push(c)) == 10 * digits_value(s) + 5,
        c == '6' ==> digits_value(s.push(c)) == 10 * digits_value(s) + 6,
        c == '7' ==> digits_value(s.push(c)) == 10 * digits_value(s) + 7,
        c == '8' ==> digits_value(s.push(c)) == 10 * digits_value(s) + 8,
        c == '9' ==> digits_value(s.push(c)) == 10 * digits_value(s) + 9,
{
    assert(s.push(c).drop_last() =~= s);
}

/// A number is one or more digits, behind a sign or not, and nothing else.
pub proof fn numbers_are_digits_behind_a_sign(digits: Seq<char>, s: Seq<char>, i: int)
    requires
        digits.len() > 0,
        forall|k: int| 0 <= k < digits.len() ==> is_digit(#[trigger] digits[k]),
    ensures
        number(digits) == Some(digits_value(digits)),
        number(seq!['+'] + digits) == Some(digits_value(digits)),
        number(seq!['-'] + digits) == Some(-digits_value(digits)),
        number(Seq::empty()) is None,
        s.len() == 1 && !is_digit(s[0]) ==> number(s) is None,
        0 < i < s.len() && !is_digit(s[i]) ==> number(s) is None,
        s.len() > 0 && !is_digit(s[0]) && s[0] != '+' && s[0] != '-' ==> number(s) is None,
{
    assert(is_digit(digits[0]));
    assert((seq!['+'] + digits).drop_first() =~= digits);
    assert((seq!['-'] + digits).drop_first() =~= digits);
    if 0 < i < s.len() && !is_digit(s[i]) {
        assert(s.drop_first()[i - 1] == s[i]);
    }
    if s.len() == 1 && !is_digit(s[0]) {
        assert(s.drop_first().len() == 0);
    }
}

/// White space in front of a text is trimmed.
proof fn lemma_trim_lead(lead: Seq<char>, s: Seq<char>)
    requires
        blank(lead),
    ensures
        trim_start(lead + s) == trim_start(s),
    decreases lead.len(),
{
    if lead.len() == 0 {
        assert(lead + s =~= s);
    } else {
        let rest = lead.drop_first();
        assert(is_white(lead[0]));
        assert((lead + s)[0] == lead[0]);
        assert((lead + s).drop_first() =~= rest + s);
        assert forall|i: int| 0 <= i < rest.len() implies is_white(#[trigger] rest[i]) by {
            assert(rest[i] == lead[i + 1]);
        }
        lemma_trim_lead(rest, s);
    }
}

/// White space before a time changes nothing.
pub proof fn what_stands_before_a_time_may_be_white_space(lead: Seq<char>, s: Seq<char>)
    requires
        blank(lead),
    ensures
        epoch_of(lead + s) == epoch_of(s),
{
    lemma_trim_lead(lead, s);
}

/// Texts that are too short, or have no digit where one belongs, write down no time.
pub proof fn what_is_no_time_is_not_read(s: Seq<char>, i: int)
    ensures
        trim(s).len() < 19 ==> epoch_of(s) is None,
        trim(s).len() >= 19 && (i == 1 || i == 2 || i == 3 || i == 6 || i == 9 || i == 12 || i == 15
            || i == 18) && !is_digit(trim(s)[i]) ==> epoch_of(s) is None,
        trim(s).len() >= 19 && is_separator(i) && !is_ascii_char(trim(s)[i]) ==> epoch_of(s)
            is None,
{
    let t = trim(s);
    if t.len() >= 19 {
        let fields = seq![
            t.subrange(0, 4),
            t.subrange(5, 7),
            t.subrange(8, 10),
            t.subrange(11, 13),
            t.subrange(14, 16),
            t.subrange(17, 19),
        ];
        let (y, mo, d, h, mi, se) = (
            fields[0],
            fields[1],
            fields[2],
            fields[3],
            fields[4],
            fields[5],
        );
        let zero = seq!['0'];
        assert(is_digit(zero[0]));
        numbers_are_digits_behind_a_sign(zero, y, i);
        numbers_are_digits_behind_a_sign(zero, mo, 1);
        numbers_are_digits_behind_a_sign(zero, d, 1);
        numbers_are_digits_behind_a_sign(zero, h, 1);
        numbers_are_digits_behind_a_sign(zero, mi, 1);
        numbers_are_digits_behind_a_sign(zero, se, 1);
        assert(y[1] == t[1] && y[2] == t[2] && y[3] == t[3]);
        assert(mo[1] == t[6]);
        assert(d[1] == t[9]);
        assert(h[1] == t[12]);
        assert(mi[1] == t[15]);
        assert(se[1] == t[18]);
    }
}

/// What stands between the numbers does not matter, as long as it is one ASCII character: a blank in place
/// of the `T` reads the same.
pub proof fn separators_do_not_matter(s: Seq<char>, t: Seq<char>)
    requires
        is_date_time(s),
        t.len() == 19,
        forall|i: int| 0 <= i < 19 && !is_separator(i) ==> #[trigger] t[i] == s[i],
        forall|i: int| 0 <= i < 19 && is_separator(i) ==> is_ascii_char(#[trigger] t[i]),
    ensures
        epoch_of(t) == epoch_of(s),
{
    assert(is_digit(s[0]) && is_digit(s[18]));
    assert(t[0] == s[0] && t[18] == s[18]);
    assert(s.last() == s[18] && t.last() == t[18]);
    assert(trim_start(s) == s && trim_end(s) == s);
    assert(trim_start(t) == t && trim_end(t) == t);
    assert(is_ascii_char(t[4]) && is_ascii_char(t[7]) && is_ascii_char(t[10]) && is_ascii_char(
        t[13],
    ) && is_ascii_char(t[16]));
    assert(t.subrange(0, 4) =~= s.subrange(0, 4));
    assert(t.subrange(5, 7) =~= s.subrange(5, 7));
    assert(t.subrange(8, 10) =~= s.subrange(8, 10));
    assert(t.subrange(11, 13) =~= s.subrange(11, 13));
    assert(t.subrange(14, 16) =~= s.subrange(14, 16));
    assert(t.subrange(17, 19) =~= s.subrange(17, 19));
}

} // verus!
