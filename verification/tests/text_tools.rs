use rustvent::text::{
    chars_of, copy_range, copy_text, count_digits, find, format_u64, format_usize, holds_text,
    is_literal, is_space_char, join, lines_of, matches_here, parse_i64, parse_u64, parse_usize,
    same_text, sort_texts, split_at, split_by, split_once_at, starts_with_char, string_of,
    ten_to, text_before, words_of,
};

fn texts(list: &[&str]) -> Vec<Vec<char>> {
    list.iter().map(|s| s.chars().collect()).collect()
}

#[test]
fn characters_and_back() {
    assert_eq!(chars_of("a1\n"), vec!['a', '1', '\n']);
    assert_eq!(chars_of(""), Vec::<char>::new());
    assert_eq!(string_of(&vec!['x', ',', 'y']), "x,y");
    assert_eq!(string_of(&chars_of("größe")), "größe");
    assert_eq!(copy_text(&chars_of("abc")), chars_of("abc"));
    assert_eq!(copy_range(&chars_of("abcdef"), 2, 4), chars_of("cd"));
    assert_eq!(copy_range(&chars_of("abcdef"), 3, 3), chars_of(""));
    assert_eq!(copy_range(&chars_of("abcdef"), 0, 6), chars_of("abcdef"));
}

#[test]
fn finds_the_first_occurrence() {
    let s = chars_of("abcabc");
    assert_eq!(find(&s, &chars_of("bc"), 0), 1);
    assert_eq!(find(&s, &chars_of("bc"), 2), 4);
    assert_eq!(find(&s, &chars_of("bc"), 5), 6);
    assert_eq!(find(&s, &chars_of("x"), 0), 6);
    assert!(matches_here(&s, &chars_of("cab"), 2));
    assert!(!matches_here(&s, &chars_of("cab"), 3));
    assert!(!matches_here(&s, &chars_of("bcd"), 4));
}

#[test]
fn splits_at_every_occurrence() {
    assert_eq!(split_by(&chars_of("a,b,,c"), ","), texts(&["a", "b", "", "c"]));
    assert_eq!(split_by(&chars_of("abc"), ","), texts(&["abc"]));
    assert_eq!(split_by(&chars_of(""), ","), texts(&[""]));
    assert_eq!(split_by(&chars_of(","), ","), texts(&["", ""]));
    assert_eq!(split_by(&chars_of("a\n\nb\n\n\nc"), "\n\n"), texts(&["a", "b", "\nc"]));
    assert_eq!(split_at(&chars_of("1 -> 2 -> 3"), &chars_of(" -> ")), texts(&["1", "2", "3"]));
}

#[test]
fn splits_once_at_the_first_occurrence() {
    assert_eq!(
        split_once_at(&chars_of("a: b: c"), ": "),
        Some((chars_of("a"), chars_of("b: c")))
    );
    assert_eq!(split_once_at(&chars_of("abc"), ": "), None);
    assert_eq!(split_once_at(&chars_of("|x"), "|"), Some((chars_of(""), chars_of("x"))));
}

#[test]
fn lines_end_with_a_line_feed() {
    assert_eq!(lines_of(&chars_of("a\nb\n")), texts(&["a", "b"]));
    assert_eq!(lines_of(&chars_of("a\nb")), texts(&["a", "b"]));
    assert_eq!(lines_of(&chars_of("a\n\nb")), texts(&["a", "", "b"]));
    assert_eq!(lines_of(&chars_of("a\r\nb\r\n")), texts(&["a", "b"]));
    assert_eq!(lines_of(&chars_of("\n")), texts(&[""]));
    assert_eq!(lines_of(&chars_of("")), Vec::<Vec<char>>::new());
    assert_eq!(lines_of(&chars_of("a\rb")), texts(&["a\rb"]));
}

#[test]
fn words_are_runs_without_white_space() {
    assert_eq!(words_of(&chars_of("3   4")), texts(&["3", "4"]));
    assert_eq!(words_of(&chars_of("  7 6\t4 \n2 ")), texts(&["7", "6", "4", "2"]));
    assert_eq!(words_of(&chars_of("   ")), Vec::<Vec<char>>::new());
    assert_eq!(words_of(&chars_of("")), Vec::<Vec<char>>::new());
    assert!(is_space_char(' '));
    assert!(is_space_char('\n'));
    assert!(is_space_char('\t'));
    assert!(is_space_char('\u{a0}'));
    assert!(!is_space_char('a'));
    assert!(!is_space_char('0'));
    for c in ['\t', '\n', '\u{b}', '\u{c}', '\r', ' ', '\u{85}', '\u{a0}', '\u{1680}', '\u{2003}', '\u{2028}', '\u{3000}', 'x', '\u{200b}', '\u{feff}'] {
        assert_eq!(is_space_char(c), c.is_whitespace(), "{c:?}");
    }
}

#[test]
fn reads_unsigned_numbers() {
    assert_eq!(parse_u64(&chars_of("0")), Some(0));
    assert_eq!(parse_u64(&chars_of("007")), Some(7));
    assert_eq!(parse_u64(&chars_of("+5")), Some(5));
    assert_eq!(parse_u64(&chars_of("18446744073709551615")), Some(u64::MAX));
    assert_eq!(parse_u64(&chars_of("18446744073709551616")), None);
    assert_eq!(parse_u64(&chars_of("99999999999999999999999")), None);
    assert_eq!(parse_u64(&chars_of("")), None);
    assert_eq!(parse_u64(&chars_of("+")), None);
    assert_eq!(parse_u64(&chars_of("-1")), None);
    assert_eq!(parse_u64(&chars_of("12a")), None);
    assert_eq!(parse_u64(&chars_of(" 12")), None);
    assert_eq!(parse_usize(&chars_of("2024")), Some(2024));
    assert_eq!(parse_usize(&chars_of("x")), None);
    for text in ["0", "+0", "-0", "12", "+12", "1_000", "٣", "1.5", "", "+", "-"] {
        assert_eq!(parse_u64(&chars_of(text)), text.parse::<u64>().ok(), "{text:?}");
        assert_eq!(parse_usize(&chars_of(text)), text.parse::<usize>().ok(), "{text:?}");
    }
}

#[test]
fn reads_signed_numbers() {
    assert_eq!(parse_i64(&chars_of("-3")), Some(-3));
    assert_eq!(parse_i64(&chars_of("+3")), Some(3));
    assert_eq!(parse_i64(&chars_of("101")), Some(101));
    assert_eq!(parse_i64(&chars_of("9223372036854775807")), Some(i64::MAX));
    assert_eq!(parse_i64(&chars_of("9223372036854775808")), None);
    assert_eq!(parse_i64(&chars_of("-9223372036854775808")), Some(i64::MIN));
    assert_eq!(parse_i64(&chars_of("-9223372036854775809")), None);
    assert_eq!(parse_i64(&chars_of("-")), None);
    assert_eq!(parse_i64(&chars_of("--1")), None);
    assert_eq!(parse_i64(&chars_of("")), None);
    for text in ["0", "-0", "+0", "-12", "1-2", "12-", "+-1", "-+1", "00012", "-00012"] {
        assert_eq!(parse_i64(&chars_of(text)), text.parse::<i64>().ok(), "{text:?}");
    }
}

#[test]
fn writes_numbers_in_base_ten() {
    assert_eq!(format_usize(0), chars_of("0"));
    assert_eq!(format_usize(9), chars_of("9"));
    assert_eq!(format_usize(10), chars_of("10"));
    assert_eq!(format_usize(1234567890), chars_of("1234567890"));
    assert_eq!(format_usize(usize::MAX), chars_of(&usize::MAX.to_string()));
    assert_eq!(format_u64(u64::MAX), chars_of("18446744073709551615"));
    assert_eq!(format_u64(0), chars_of("0"));
    for n in [0usize, 1, 99, 100, 101, 65535, 4294967295] {
        assert_eq!(parse_usize(&format_usize(n)), Some(n));
    }
}

#[test]
fn counts_digits_and_powers_of_ten() {
    assert_eq!(count_digits(0), 1);
    assert_eq!(count_digits(9), 1);
    assert_eq!(count_digits(10), 2);
    assert_eq!(count_digits(99), 2);
    assert_eq!(count_digits(100), 3);
    assert_eq!(count_digits(253000), 6);
    assert_eq!(count_digits(usize::MAX), usize::MAX.to_string().len());
    assert_eq!(ten_to(0), Some(1));
    assert_eq!(ten_to(1), Some(10));
    assert_eq!(ten_to(6), Some(1_000_000));
    assert_eq!(ten_to(19), 10usize.checked_pow(19));
    assert_eq!(ten_to(20), None);
    assert_eq!(ten_to(usize::MAX), None);
}

#[test]
fn compares_texts() {
    assert!(same_text(&chars_of("abc"), &chars_of("abc")));
    assert!(!same_text(&chars_of("abc"), &chars_of("abd")));
    assert!(!same_text(&chars_of("abc"), &chars_of("ab")));
    assert!(same_text(&chars_of(""), &chars_of("")));
    assert!(is_literal(&chars_of("do()"), "do()"));
    assert!(!is_literal(&chars_of("do()"), "don't()"));
    assert!(starts_with_char(&chars_of("tb"), 't'));
    assert!(!starts_with_char(&chars_of("bt"), 't'));
    assert!(!starts_with_char(&chars_of(""), 't'));
    assert!(text_before(&chars_of("co"), &chars_of("de")));
    assert!(!text_before(&chars_of("de"), &chars_of("co")));
    assert!(!text_before(&chars_of("de"), &chars_of("de")));
    assert!(text_before(&chars_of("de"), &chars_of("dec")));
    assert!(!text_before(&chars_of("dec"), &chars_of("de")));
    assert!(text_before(&chars_of(""), &chars_of("a")));
    assert!(text_before(&chars_of("Z"), &chars_of("a")));
    assert!(text_before(&chars_of("z09"), &chars_of("z10")));
}

#[test]
fn sorts_and_joins_texts() {
    assert_eq!(
        sort_texts(&texts(&["ta", "co", "ka", "de"])),
        texts(&["co", "de", "ka", "ta"])
    );
    assert_eq!(
        sort_texts(&texts(&["z10", "z09", "aaa", "z09", "", "aa"])),
        texts(&["", "aa", "aaa", "z09", "z09", "z10"])
    );
    assert_eq!(sort_texts(&texts(&[])), texts(&[]));
    assert_eq!(join(&texts(&["co", "de", "ka", "ta"]), ","), chars_of("co,de,ka,ta"));
    assert_eq!(join(&texts(&["4"]), ","), chars_of("4"));
    assert_eq!(join(&texts(&[]), ","), chars_of(""));
    assert_eq!(join(&texts(&["a", "", "b"]), ", "), chars_of("a, , b"));
    assert!(holds_text(&texts(&["co", "de"]), &chars_of("de")));
    assert!(!holds_text(&texts(&["co", "de"]), &chars_of("d")));
    assert!(!holds_text(&texts(&[]), &chars_of("")));
}
