//! Text: trimming, splitting, searching, and decimal numbers.

use hey_listen::text;
use hey_listen::text::NumberError;

#[test]
fn whitespace_is_what_unicode_says() {
    for code in 0..=0x10FFFFu32 {
        if let Some(c) = char::from_u32(code) {
            assert_eq!(text::is_whitespace(c), c.is_whitespace(), "{:x}", code);
        }
    }
}

const SAMPLES: [&str; 12] = [
    "",
    " ",
    "a",
    " a b ",
    "\t\n two  words \r\n",
    "\u{3000}wide\u{2003}space\u{a0}",
    "no-space",
    "a,b,,c",
    ",",
    "one, two , three",
    "ünï cödé ✓",
    " , , ",
];

#[test]
fn trimming_and_counting_agree_with_std() {
    for s in SAMPLES {
        assert_eq!(text::trim(s), s.trim());
        assert_eq!(text::trim(&text::trim(s)), s.trim());
        assert_eq!(text::word_count(s), s.split_whitespace().count());
        let parts: Vec<String> = text::split(s, ',').iter().map(|p| text::string_of(p)).collect();
        let expected: Vec<String> = s.split(',').map(|p| p.to_string()).collect();
        assert_eq!(parts, expected);
        assert_eq!(text::string_of(&text::chars_of(s)), s);
    }
}

#[test]
fn searching_and_replacing_agree_with_std() {
    for s in ["", "a", "aaa", "abab", "banana", "ananana", "xyz"] {
        for needle in ["a", "ab", "ana", "xyz", "banana!"] {
            assert_eq!(text::contains(s, needle), s.contains(needle));
            assert_eq!(text::replace(s, needle, "-"), s.replace(needle, "-"));
            assert_eq!(text::replace(s, needle, ""), s.replace(needle, ""));
        }
        assert!(text::contains(s, ""));
        assert!(text::same(s, s));
        assert!(!text::same(s, "other"));
    }
}

#[test]
fn numbers_are_written_in_decimal() {
    for n in [0, 7, 10, 99, 100, 65_535, 4_294_967_295, u64::MAX as u128, u128::MAX] {
        assert_eq!(text::to_decimal(n), n.to_string());
    }
    let lists: [&[usize]; 4] = [&[], &[3], &[0, 1, 2], &[usize::MAX, 0]];
    for list in lists {
        assert_eq!(text::show_list(list), format!("{:?}", list));
    }
}

fn parse(s: &str, max: u64) -> Result<u64, NumberError> {
    text::parse_number(&text::chars_of(s), max)
}

#[test]
fn numbers_are_read_as_std_reads_them() {
    let samples = [
        "", "0", "7", "+7", "-7", "+", "-", "++1", "007", "4294967295", "4294967296", "12a", " 1",
        "99999999999999999999", "4294967296x", "x4294967296", "٣", "18446744073709551615",
        "18446744073709551616", "+0",
    ];
    for s in samples {
        let small = parse(s, u32::MAX as u64);
        match s.parse::<u32>() {
            Ok(n) => assert_eq!(small, Ok(n as u64), "{}", s),
            Err(e) => assert_eq!(small.map_err(|x| x.message()), Err(e.to_string()), "{}", s),
        }
        let large = parse(s, u64::MAX);
        match s.parse::<u64>() {
            Ok(n) => assert_eq!(large, Ok(n), "{}", s),
            Err(e) => assert_eq!(large.map_err(|x| x.message()), Err(e.to_string()), "{}", s),
        }
    }
    assert_eq!(parse("", 9), Err(NumberError::Empty));
    assert_eq!(parse("x", 9), Err(NumberError::InvalidDigit));
    assert_eq!(parse("10", 9), Err(NumberError::TooLarge));
}

#[test]
fn what_is_written_is_read_back() {
    for n in [0, 1, 9, 10, 4096, 1_000_000_007, u64::MAX] {
        assert_eq!(parse(&text::to_decimal(n as u128), u64::MAX), Ok(n));
    }
}
