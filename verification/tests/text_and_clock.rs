//! Texts and times.

use recall::clock::parse_iso_to_epoch;
use recall::text::{
    begins_with, comes_before, count_lines, has_text, head_of, is_blank, is_whitespace, joined, norm,
    own, preview_of, replace_char, split_at_char, text_eq, trimmed, without_leading_space,
};

#[test]
fn white_space_is_what_the_standard_library_says() {
    for u in 0..=0x10ffffu32 {
        if let Some(c) = char::from_u32(u) {
            assert_eq!(is_whitespace(c), c.is_whitespace(), "{u:x}");
        }
    }
}

#[test]
fn norm_joins_words_by_single_spaces() {
    for s in ["", "  ", "a", " a\tb\n\nc ", "\u{3000}한글  텍스트\u{85}x", "a\u{a0}b"] {
        let want = s.split_whitespace().collect::<Vec<_>>().join(" ");
        assert_eq!(norm(s), want);
        assert_eq!(norm(&norm(s)), want);
        assert_eq!(norm(s).is_empty(), is_blank(s));
    }
}

#[test]
fn previews_count_characters() {
    assert_eq!(preview_of("가 나  다라", 4), "가 나 ");
    assert_eq!(preview_of("ab", 0), "");
    assert_eq!(preview_of("ab", 10), "ab");
    assert_eq!(head_of("한글abc", 3), "한글a");
}

#[test]
fn lines_are_newlines_and_one() {
    assert_eq!(count_lines(""), 1);
    assert_eq!(count_lines("a\nb"), 2);
    assert_eq!(count_lines("\n\n"), 3);
}

#[test]
fn trimming_is_what_the_standard_library_does() {
    for s in ["", " ", "a", "  a b \n", "\u{3000}x\u{2003}", "x  "] {
        assert_eq!(trimmed(s), s.trim());
        assert_eq!(without_leading_space(s), s.trim_start());
        assert_eq!(is_blank(s), s.trim().is_empty());
    }
}

#[test]
fn searching_in_texts() {
    assert!(has_text("abcabd", "abd"));
    assert!(has_text("abc", ""));
    assert!(!has_text("abc", "abcd"));
    assert!(begins_with("한글", "한"));
    assert!(begins_with("x", ""));
    assert!(!begins_with("글한", "한"));
    assert!(text_eq("같다", "같다"));
    assert!(!text_eq("같다", "같"));
    assert_eq!(own("글"), "글");
}

#[test]
fn taking_texts_apart_and_together() {
    assert_eq!(split_at_char("a\u{1}b\u{1}", '\u{1}'), vec!["a", "b", ""]);
    assert_eq!(split_at_char("abc", ','), vec!["abc"]);
    assert_eq!(joined(&vec!["a".to_string(), "b".to_string()], "\n"), "a\nb");
    assert_eq!(joined(&vec![], "\n"), "");
    assert_eq!(replace_char("/a/b c", '/', '-'), "-a-b c");
}

#[test]
fn dictionary_order_is_that_of_strings() {
    let all = ["", "a", "ab", "b", "가", "\u{10000}", "\u{ffff}", "Z"];
    for a in all {
        for b in all {
            assert_eq!(comes_before(a, b), a < b, "{a:?} {b:?}");
        }
    }
}

#[test]
fn times_are_seconds_since_the_epoch() {
    assert_eq!(parse_iso_to_epoch("1970-01-01T00:00:00"), Some(0));
    assert_eq!(parse_iso_to_epoch("1970-01-02 00:00:01"), Some(86_401));
    assert_eq!(parse_iso_to_epoch("2000-03-01T00:00:00Z"), Some(951_868_800));
    assert_eq!(parse_iso_to_epoch("2024-02-29T12:34:56.789Z"), Some(1_709_210_096));
    assert_eq!(parse_iso_to_epoch("2026-07-12T00:00:00"), Some(1_783_814_400));
    assert_eq!(parse_iso_to_epoch("1969-12-31T23:59:59"), Some(-1));
    assert_eq!(parse_iso_to_epoch("  1970-01-01T00:00:00\n"), Some(0));
}

#[test]
fn what_is_no_time_is_refused() {
    assert_eq!(parse_iso_to_epoch(""), None);
    assert_eq!(parse_iso_to_epoch("1970-01-01T00:00"), None);
    assert_eq!(parse_iso_to_epoch("1970-01-01Txx:00:00"), None);
    assert_eq!(parse_iso_to_epoch("가나다라마바사아자차"), None);
    assert_eq!(parse_iso_to_epoch("19가-01-01T00:00:00"), None);
}

#[test]
fn numbers_in_times_may_carry_a_sign() {
    // The standard library reads "+1" as a number, and so does a month or a year of that form.
    assert_eq!(parse_iso_to_epoch("1970-+1-01T00:00:00"), Some(0));
    assert_eq!(parse_iso_to_epoch("1970-01-01T00:00:-1"), Some(-1));
    assert_eq!(parse_iso_to_epoch("1970-01-01T00:00:-x"), None);
    assert_eq!(parse_iso_to_epoch("1970-01-01T00:00:+-"), None);
}

#[test]
fn each_day_follows_the_day_before() {
    let mut last = parse_iso_to_epoch("1999-12-31T00:00:00").unwrap();
    let lengths = [31, 28, 31, 30, 31, 30, 31, 31, 30, 31, 30, 31];
    for year in 2000..2101 {
        let leap = year % 4 == 0 && (year % 100 != 0 || year % 400 == 0);
        for (month, length) in lengths.iter().enumerate() {
            let days = if leap && month == 1 { 29 } else { *length };
            for day in 1..=days {
                let text = format!("{year:04}-{:02}-{day:02}T00:00:00", month + 1);
                let now = parse_iso_to_epoch(&text).unwrap();
                assert_eq!(now - last, 86_400, "{text}");
                last = now;
            }
        }
    }
}

#[test]
fn what_follows_a_time_is_not_looked_at() {
    let time = "2026-07-12T08:09:10";
    let plain = parse_iso_to_epoch(time);
    assert_eq!(plain, Some(1_783_843_750));
    for rest in ["Z", ".123Z", "+09:00", " and more", "\n", "가", "9"] {
        assert_eq!(parse_iso_to_epoch(&format!("{time}{rest}")), plain, "{rest:?}");
    }
}

#[test]
fn later_times_give_larger_numbers() {
    let times = [
        "0000-01-01T00:00:00",
        "1969-12-31T23:59:59",
        "1970-01-01T00:00:00",
        "1999-12-31T23:59:59",
        "2000-02-29T23:59:59",
        "2000-03-01T00:00:00",
        "2026-07-12T08:09:10",
        "9999-12-31T23:59:59",
    ];
    for a in times {
        for b in times {
            assert_eq!(a < b, parse_iso_to_epoch(a) < parse_iso_to_epoch(b), "{a} {b}");
        }
    }
}

#[test]
fn differences_are_seconds() {
    let between = |a: &str, b: &str| parse_iso_to_epoch(b).unwrap() - parse_iso_to_epoch(a).unwrap();
    assert_eq!(between("2000-02-28T23:59:59", "2000-02-29T00:00:00"), 1);
    assert_eq!(between("2000-02-29T23:59:59", "2000-03-01T00:00:00"), 1);
    assert_eq!(between("1999-12-31T23:59:59", "2000-01-01T00:00:00"), 1);
    assert_eq!(between("2026-07-12T08:00:00", "2026-07-12T09:01:02"), 3_662);
    assert_eq!(between("2000-01-01T00:00:00", "2001-01-01T00:00:00"), 366 * 86_400);
}
