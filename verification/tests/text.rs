use aoc2023::text::{
    byte_slice, chars_of, count_chars_in_bytes, decimal_of, decimal_string, digit_of,
    digit_to_char, find_char, is_space, lines, matches_at, parse_number, parse_numbers,
    parse_on_whitespace, parse_small_number, prefix_parts, same_text, signed_decimal_string,
    slice_of, split_on, split_prefix, split_whitespace, string_of, text_lines, utf8_len,
    NumberError,
};

fn chars(s: &str) -> Vec<char> {
    s.chars().collect()
}

fn std_lines(s: &str) -> Vec<Vec<char>> {
    s.lines().map(chars).collect()
}

#[test]
fn chars_of_keeps_every_character() {
    assert_eq!(chars_of(""), Vec::<char>::new());
    assert_eq!(chars_of("a\u{e9}\u{4e2d}\u{1f600}z"), chars("a\u{e9}\u{4e2d}\u{1f600}z"));
}

#[test]
fn lines_split_at_line_feeds() {
    assert_eq!(lines(&chars("ab\ncd\n")), vec![chars("ab"), chars("cd")]);
    assert_eq!(lines(&chars("ab\ncd")), vec![chars("ab"), chars("cd")]);
    assert_eq!(lines(&chars("")), Vec::<Vec<char>>::new());
    assert_eq!(lines(&chars("\n")), vec![chars("")]);
    assert_eq!(lines(&chars("\n\n")), vec![chars(""), chars("")]);
    assert_eq!(lines(&chars("a\n\nb")), vec![chars("a"), chars(""), chars("b")]);
}

#[test]
fn lines_drop_a_carriage_return_only_before_a_line_feed() {
    assert_eq!(lines(&chars("ab\r\ncd\r\n")), vec![chars("ab"), chars("cd")]);
    assert_eq!(lines(&chars("ab\r")), vec![chars("ab\r")]);
    assert_eq!(lines(&chars("a\rb\n")), vec![chars("a\rb")]);
    assert_eq!(lines(&chars("ab\r\r\n")), vec![chars("ab\r")]);
    assert_eq!(lines(&chars("\r\n")), vec![chars("")]);
}

#[test]
fn lines_agree_with_the_standard_library() {
    for text in [
        "", "\n", "\r", "\r\n", "a", "a\n", "a\r", "a\r\n", "\na", "\n\n", "\r\r", "a\n\rb",
        "a\r\nb\r\n", "a\r\n\r\nb", "one\ntwo\nthree", "x\ny\n\n", "\r\n\r\n", "a\rb\r\nc\n\r",
    ] {
        assert_eq!(lines(&chars(text)), std_lines(text));
    }
}

#[test]
fn decimal_string_writes_numbers_without_leading_zeros() {
    assert_eq!(decimal_string(0), "0");
    assert_eq!(decimal_string(7), "7");
    assert_eq!(decimal_string(10), "10");
    assert_eq!(decimal_string(409), "409");
    assert_eq!(decimal_string(1234567890), "1234567890");
    assert_eq!(decimal_string(usize::MAX), usize::MAX.to_string());
}

#[test]
fn decimal_string_agrees_with_the_standard_library() {
    for n in (0..3000).chain((0..64).map(|k| 1usize << k)).chain((0..20).map(|k| 10usize.pow(k))) {
        assert_eq!(decimal_string(n), n.to_string());
        if n > 0 {
            assert_eq!(decimal_string(n - 1), (n - 1).to_string());
        }
    }
}

#[test]
fn digits_and_their_characters() {
    for d in 0u8..10 {
        let c = digit_to_char(d);
        assert_eq!(c, (b'0' + d) as char);
        assert_eq!(digit_of(c), Some(d));
    }
    for c in ['a', ' ', '-', '+', '/', ':', '\u{b2}', '\u{661}', '\u{ff11}'] {
        assert_eq!(digit_of(c), None);
    }
}

#[test]
fn is_space_agrees_with_the_standard_library_on_every_character() {
    for code in 0u32..=0x10FFFF {
        if let Some(c) = char::from_u32(code) {
            assert_eq!(is_space(c), c.is_whitespace());
        }
    }
}

#[test]
fn split_whitespace_returns_the_runs_between_white_space() {
    assert_eq!(split_whitespace(&chars("")), Vec::<Vec<char>>::new());
    assert_eq!(split_whitespace(&chars("   ")), Vec::<Vec<char>>::new());
    assert_eq!(split_whitespace(&chars("a")), vec![chars("a")]);
    assert_eq!(split_whitespace(&chars("  ab  cd ")), vec![chars("ab"), chars("cd")]);
    assert_eq!(split_whitespace(&chars("1\t2\n3\r\n4")), vec![chars("1"), chars("2"), chars("3"), chars("4")]);
    assert_eq!(split_whitespace(&chars("a\u{a0}b\u{3000}c")), vec![chars("a"), chars("b"), chars("c")]);
}

#[test]
fn split_whitespace_agrees_with_the_standard_library() {
    for text in ["", " ", "a", " a", "a ", "a b", "  a   b  ", "\ta\nb\r\nc ", "x\u{2003}y", "12 -7 +3"] {
        let expected: Vec<Vec<char>> = text.split_whitespace().map(chars).collect();
        assert_eq!(split_whitespace(&chars(text)), expected);
    }
}

#[test]
fn parse_number_reads_signed_decimals() {
    assert_eq!(parse_number(&chars("0")), Ok(0));
    assert_eq!(parse_number(&chars("42")), Ok(42));
    assert_eq!(parse_number(&chars("-42")), Ok(-42));
    assert_eq!(parse_number(&chars("+42")), Ok(42));
    assert_eq!(parse_number(&chars("007")), Ok(7));
    assert_eq!(parse_number(&chars("-0")), Ok(0));
    assert_eq!(parse_number(&chars("9223372036854775807")), Ok(i64::MAX));
    assert_eq!(parse_number(&chars("-9223372036854775808")), Ok(i64::MIN));
}

#[test]
fn parse_number_names_each_error() {
    assert_eq!(parse_number(&chars("")), Err(NumberError::Empty));
    assert_eq!(parse_number(&chars("-")), Err(NumberError::InvalidDigit));
    assert_eq!(parse_number(&chars("+")), Err(NumberError::InvalidDigit));
    assert_eq!(parse_number(&chars("12a")), Err(NumberError::InvalidDigit));
    assert_eq!(parse_number(&chars("a12")), Err(NumberError::InvalidDigit));
    assert_eq!(parse_number(&chars("1-2")), Err(NumberError::InvalidDigit));
    assert_eq!(parse_number(&chars("--1")), Err(NumberError::InvalidDigit));
    assert_eq!(parse_number(&chars("1.5")), Err(NumberError::InvalidDigit));
    assert_eq!(parse_number(&chars("\u{661}")), Err(NumberError::InvalidDigit));
    assert_eq!(parse_number(&chars("9223372036854775808")), Err(NumberError::PosOverflow));
    assert_eq!(parse_number(&chars("-9223372036854775809")), Err(NumberError::NegOverflow));
    assert_eq!(parse_number(&chars("99999999999999999999999")), Err(NumberError::PosOverflow));
    assert_eq!(parse_number(&chars("-99999999999999999999999")), Err(NumberError::NegOverflow));
}

fn same_kind(ours: NumberError, theirs: &std::num::IntErrorKind) -> bool {
    match (ours, theirs) {
        (NumberError::Empty, std::num::IntErrorKind::Empty) => true,
        (NumberError::InvalidDigit, std::num::IntErrorKind::InvalidDigit) => true,
        (NumberError::PosOverflow, std::num::IntErrorKind::PosOverflow) => true,
        (NumberError::NegOverflow, std::num::IntErrorKind::NegOverflow) => true,
        _ => false,
    }
}

#[test]
fn parse_number_agrees_with_the_standard_library() {
    for text in [
        "", "0", "-0", "+0", "1", "-1", "+1", "-", "+", "++1", "+-1", "1+", "12345", "000000000000000000000012",
        "9223372036854775807", "9223372036854775808", "-9223372036854775808", "-9223372036854775809",
        "92233720368547758070", "9223372036854775807x", "92233720368547758080x", "x9223372036854775808",
        "123456789012345678901234567890", "-123456789012345678901234567890", "1 2", " 1", "1_0", "0x10",
    ] {
        match (parse_number(&chars(text)), text.parse::<i64>()) {
            (Ok(a), Ok(b)) => assert_eq!(a, b),
            (Err(a), Err(b)) => assert!(same_kind(a, b.kind())),
            (a, b) => panic!("{:?} gives {:?} here and {:?} there", text, a, b),
        }
    }
}

#[test]
fn parse_on_whitespace_reads_every_token() {
    assert_eq!(parse_on_whitespace("1 2 3"), Ok(vec![1, 2, 3]));
    assert_eq!(parse_on_whitespace("  79   14\t55 -13\n"), Ok(vec![79, 14, 55, -13]));
    assert_eq!(parse_on_whitespace(""), Ok(vec![]));
    assert_eq!(parse_on_whitespace(" \n "), Ok(vec![]));
}

#[test]
fn parse_on_whitespace_stops_at_the_first_bad_token() {
    assert_eq!(parse_on_whitespace("1 x 99999999999999999999"), Err(NumberError::InvalidDigit));
    assert_eq!(parse_on_whitespace("1 99999999999999999999 x"), Err(NumberError::PosOverflow));
    assert_eq!(parse_on_whitespace("-99999999999999999999"), Err(NumberError::NegOverflow));
    assert_eq!(parse_on_whitespace("1 2 -"), Err(NumberError::InvalidDigit));
}

#[test]
fn split_prefix_cuts_at_the_first_colon() {
    assert_eq!(split_prefix("seeds: 79 14"), Some(("seeds", "79 14")));
    assert_eq!(split_prefix("a: b: c"), Some(("a", "b: c")));
    assert_eq!(split_prefix(": x"), Some(("", "x")));
    assert_eq!(split_prefix("a: "), Some(("a", "")));
    assert_eq!(split_prefix("a:bc"), Some(("a", "c")));
    assert_eq!(split_prefix("\u{e9}t\u{e9}: \u{4e2d}"), Some(("\u{e9}t\u{e9}", "\u{4e2d}")));
}

#[test]
fn split_prefix_needs_a_colon_and_a_plain_character_after_it() {
    assert_eq!(split_prefix("seeds 79 14"), None);
    assert_eq!(split_prefix(""), None);
    assert_eq!(split_prefix("a:"), None);
    assert_eq!(split_prefix("a:\u{e9}b"), None);
    assert_eq!(split_prefix("a:\u{7f}b"), Some(("a", "b")));
    assert_eq!(split_prefix("a:\u{80}b"), None);
}

#[test]
fn split_prefix_agrees_with_byte_slices() {
    for text in ["seeds: 79", "a:", "a: ", "a:b", "a:\u{e9}", "\u{e9}:\u{e9}", "x:y:z", "none", "", ":", "::"] {
        let expected = text.find(':').and_then(|i| match (text.get(0..i), text.get(i + 2..)) {
            (Some(a), Some(b)) => Some((a, b)),
            _ => None,
        });
        assert_eq!(split_prefix(text), expected);
        let parts = prefix_parts(&chars(text));
        assert_eq!(parts.map(|p| (string_of(&p.0), string_of(&p.1))), expected.map(|p| (p.0.to_string(), p.1.to_string())));
    }
}

#[test]
fn find_char_returns_the_first_place() {
    assert_eq!(find_char(&chars("a:b:c"), ':'), Some(1));
    assert_eq!(find_char(&chars(":"), ':'), Some(0));
    assert_eq!(find_char(&chars("abc"), ':'), None);
    assert_eq!(find_char(&chars(""), ':'), None);
}

#[test]
fn slices_and_strings() {
    assert_eq!(slice_of(&chars("hello"), 1, 3), chars("el"));
    assert_eq!(slice_of(&chars("hello"), 2, 2), chars(""));
    assert_eq!(slice_of(&chars("hello"), 0, 5), chars("hello"));
    assert_eq!(string_of(&chars("h\u{e9}llo")), "h\u{e9}llo");
    assert!(same_text(&chars("abc"), &chars("abc")));
    assert!(!same_text(&chars("abc"), &chars("abd")));
    assert!(!same_text(&chars("abc"), &chars("ab")));
    assert!(same_text(&chars(""), &chars("")));
    assert_eq!(text_lines("a\r\nb"), vec![chars("a"), chars("b")]);
}

#[test]
fn pattern_stands_at_a_place() {
    let text = chars("abcabc");
    assert!(matches_at(&text, 0, &chars("abc")));
    assert!(matches_at(&text, 3, &chars("abc")));
    assert!(!matches_at(&text, 1, &chars("abc")));
    assert!(!matches_at(&text, 4, &chars("abc")));
    assert!(!matches_at(&text, 7, &chars("a")));
    assert!(matches_at(&text, 6, &chars("")));
    assert!(!matches_at(&text, 7, &chars("")));
    assert!(!matches_at(&chars("ab"), 0, &chars("abc")));
    assert!(!matches_at(&text, usize::MAX, &chars("abc")));
}

#[test]
fn split_on_agrees_with_the_standard_library() {
    for (text, pattern) in [
        ("a; b; c", "; "), ("", "; "), ("; ", "; "), ("a; ", "; "), ("; a", "; "), ("a;b", "; "),
        ("aaa", "aa"), ("aaaa", "aa"), ("1 | 2 | 3", " | "), ("x", "x"), ("xx", "x"), ("abc", "abcd"),
        ("a, b; c, d", ", "), ("\u{e9};\u{e9}", ";"),
    ] {
        let expected: Vec<Vec<char>> = text.split(pattern).map(chars).collect();
        assert_eq!(split_on(&chars(text), &chars(pattern)), expected);
    }
}

#[test]
fn small_numbers_fit_in_32_bits() {
    assert_eq!(parse_small_number(&chars("2147483647")), Some(i32::MAX));
    assert_eq!(parse_small_number(&chars("-2147483648")), Some(i32::MIN));
    assert_eq!(parse_small_number(&chars("2147483648")), None);
    assert_eq!(parse_small_number(&chars("-2147483649")), None);
    assert_eq!(parse_small_number(&chars("+7")), Some(7));
    assert_eq!(parse_small_number(&chars("")), None);
    assert_eq!(parse_small_number(&chars("7a")), None);
    for text in ["0", "-1", "12", "2147483647", "2147483648", "-2147483648", "-2147483649", "x", "", "+", "99999999999999999999"] {
        assert_eq!(parse_small_number(&chars(text)), text.parse::<i32>().ok());
    }
}

#[test]
fn parse_numbers_reads_tokens_of_characters() {
    assert_eq!(parse_numbers(&chars(" 1  -2\t3 ")), Ok(vec![1, -2, 3]));
    assert_eq!(parse_numbers(&chars("1 b")), Err(NumberError::InvalidDigit));
}

#[test]
fn signed_decimals() {
    assert_eq!(signed_decimal_string(0), "0");
    assert_eq!(signed_decimal_string(-1), "-1");
    assert_eq!(signed_decimal_string(42), "42");
    assert_eq!(signed_decimal_string(i64::MAX), i64::MAX.to_string());
    assert_eq!(signed_decimal_string(i64::MIN), i64::MIN.to_string());
    assert_eq!(decimal_of(u64::MAX), chars(&u64::MAX.to_string()));
    for n in -1500i64..1500 {
        assert_eq!(signed_decimal_string(n), n.to_string());
    }
}

#[test]
fn byte_lengths_agree_with_the_standard_library() {
    for code in 0u32..=0x10FFFF {
        if let Some(c) = char::from_u32(code) {
            assert_eq!(utf8_len(c), c.len_utf8());
        }
    }
}

#[test]
fn characters_are_counted_by_their_bytes() {
    let text = chars("a\u{e9}\u{4e2d}\u{1f600}z");
    assert_eq!(count_chars_in_bytes(&text, 0), Some(0));
    assert_eq!(count_chars_in_bytes(&text, 1), Some(1));
    assert_eq!(count_chars_in_bytes(&text, 2), None);
    assert_eq!(count_chars_in_bytes(&text, 3), Some(2));
    assert_eq!(count_chars_in_bytes(&text, 6), Some(3));
    assert_eq!(count_chars_in_bytes(&text, 10), Some(4));
    assert_eq!(count_chars_in_bytes(&text, 11), Some(5));
    assert_eq!(count_chars_in_bytes(&text, 12), None);
    assert_eq!(count_chars_in_bytes(&chars(""), 0), Some(0));
    assert_eq!(count_chars_in_bytes(&chars(""), 1), None);
}

#[test]
fn byte_slices_agree_with_the_standard_library() {
    let text = "a\u{e9}\u{4e2d}\u{1f600}z";
    for from in 0..14 {
        for to in 0..14 {
            let expected = if from <= to { text.get(from..to).map(chars) } else { None };
            assert_eq!(byte_slice(&chars(text), from, to), expected);
        }
    }
}
