use rift_wizard_stats::text::{chars_of, ends_with, find, matches_at, parse_i64, parse_usize,
    starts_with};
use rift_wizard_stats::IntErrorKind;

fn cs(s: &str) -> Vec<char> {
    s.chars().collect()
}

fn kind_of(e: &std::num::ParseIntError) -> IntErrorKind {
    match e.kind() {
        std::num::IntErrorKind::Empty => IntErrorKind::Empty,
        std::num::IntErrorKind::InvalidDigit => IntErrorKind::InvalidDigit,
        std::num::IntErrorKind::PosOverflow => IntErrorKind::PosOverflow,
        std::num::IntErrorKind::NegOverflow => IntErrorKind::NegOverflow,
        other => panic!("no such kind here: {:?}", other),
    }
}

#[test]
fn chars_of_gives_every_character_in_order() {
    assert_eq!(chars_of("a\u{e9}z"), vec!['a', '\u{e9}', 'z']);
    assert_eq!(chars_of(""), Vec::<char>::new());
}

#[test]
fn parse_i64_reads_plain_and_signed_numbers() {
    assert_eq!(parse_i64(&cs("0")), Ok(0));
    assert_eq!(parse_i64(&cs("3")), Ok(3));
    assert_eq!(parse_i64(&cs("120")), Ok(120));
    assert_eq!(parse_i64(&cs("+17")), Ok(17));
    assert_eq!(parse_i64(&cs("-17")), Ok(-17));
    assert_eq!(parse_i64(&cs("007")), Ok(7));
    assert_eq!(parse_i64(&cs("-0")), Ok(0));
}

#[test]
fn parse_i64_reaches_both_ends_of_the_range() {
    assert_eq!(parse_i64(&cs("9223372036854775807")), Ok(i64::MAX));
    assert_eq!(parse_i64(&cs("-9223372036854775808")), Ok(i64::MIN));
    assert_eq!(parse_i64(&cs("9223372036854775808")), Err(IntErrorKind::PosOverflow));
    assert_eq!(parse_i64(&cs("-9223372036854775809")), Err(IntErrorKind::NegOverflow));
    assert_eq!(parse_i64(&cs("99999999999999999999999")), Err(IntErrorKind::PosOverflow));
    assert_eq!(parse_i64(&cs("-99999999999999999999999")), Err(IntErrorKind::NegOverflow));
}

#[test]
fn parse_i64_agrees_with_the_standard_library() {
    let samples = [
        "", "+", "-", "0", "-0", "+0", "12", "-12", "+12", "1 2", " 12", "12 ", "1_2", "0x10",
        "--1", "+-1", "9223372036854775807", "9223372036854775808", "-9223372036854775808",
        "-9223372036854775809", "18446744073709551616", "12a", "a12", "1.5", "\u{663}",
        "99999999999999999999x", "-99999999999999999999x", "00000000000000000000000000000012",
        "-00000000000000000000000000000012", "9223372036854775807x", "922337203685477580x",
    ];
    for s in samples {
        let ours = parse_i64(&cs(s));
        let theirs = s.parse::<i64>().map_err(|e| kind_of(&e));
        assert_eq!(ours, theirs, "on {:?}", s);
    }
}

#[test]
fn parse_usize_agrees_with_the_standard_library() {
    let samples = [
        "", "+", "-", "0", "-0", "+0", "12", "-12", "+12", "1 2", " 12", "12 ",
        "18446744073709551615", "18446744073709551616", "4294967295", "4294967296", "12a",
        "340282366920938463463374607431768211456", "00000000000000000000000000000012",
    ];
    for s in samples {
        let ours = parse_usize(&cs(s));
        let theirs = s.parse::<usize>().map_err(|e| kind_of(&e));
        assert_eq!(ours, theirs, "on {:?}", s);
    }
}

#[test]
fn parse_says_why_a_text_is_no_number() {
    assert_eq!(parse_i64(&cs("")), Err(IntErrorKind::Empty));
    assert_eq!(parse_i64(&cs("+")), Err(IntErrorKind::InvalidDigit));
    assert_eq!(parse_i64(&cs("-")), Err(IntErrorKind::InvalidDigit));
    assert_eq!(parse_i64(&cs("12a")), Err(IntErrorKind::InvalidDigit));
    assert_eq!(parse_i64(&cs(" 12")), Err(IntErrorKind::InvalidDigit));
    assert_eq!(parse_usize(&cs("")), Err(IntErrorKind::Empty));
    assert_eq!(parse_usize(&cs("-1")), Err(IntErrorKind::InvalidDigit));
    assert_eq!(parse_usize(&cs("-")), Err(IntErrorKind::InvalidDigit));
    assert_eq!(parse_usize(&cs("+")), Err(IntErrorKind::InvalidDigit));
    assert_eq!(
        parse_usize(&cs("340282366920938463463374607431768211456")),
        Err(IntErrorKind::PosOverflow)
    );
}

#[test]
fn overflow_before_a_bad_character_is_overflow() {
    assert_eq!(parse_i64(&cs("99999999999999999999x")), Err(IntErrorKind::PosOverflow));
    assert_eq!(parse_i64(&cs("-99999999999999999999x")), Err(IntErrorKind::NegOverflow));
    assert_eq!(parse_i64(&cs("9x99999999999999999999")), Err(IntErrorKind::InvalidDigit));
}

#[test]
fn parse_usize_reads_the_largest_usize() {
    let text = usize::MAX.to_string();
    assert_eq!(parse_usize(&cs(&text)), Ok(usize::MAX));
    assert_eq!(parse_usize(&cs("+7")), Ok(7));
    assert_eq!(parse_usize(&cs("4")), Ok(4));
}

#[test]
fn starts_with_and_ends_with_compare_whole_affixes() {
    assert!(starts_with(&cs("Realm 3"), &cs("Realm ")));
    assert!(starts_with(&cs("Realm 3"), &cs("")));
    assert!(starts_with(&cs("Realm 3"), &cs("Realm 3")));
    assert!(!starts_with(&cs("Realm"), &cs("Realm ")));
    assert!(!starts_with(&cs("realm 3"), &cs("Realm ")));
    assert!(ends_with(&cs("120 (L)"), &cs(" (L)")));
    assert!(ends_with(&cs("120 (L)"), &cs("")));
    assert!(!ends_with(&cs("120 (G)"), &cs(" (L)")));
    assert!(!ends_with(&cs("(L)"), &cs(" (L)")));
}

#[test]
fn matches_at_stays_inside_the_text() {
    assert!(matches_at(&cs("abcabc"), &cs("bc"), 1));
    assert!(matches_at(&cs("abcabc"), &cs("bc"), 4));
    assert!(!matches_at(&cs("abcabc"), &cs("bc"), 5));
    assert!(!matches_at(&cs("abcabc"), &cs("bc"), 9));
    assert!(matches_at(&cs("abc"), &cs(""), 3));
    assert!(!matches_at(&cs("abc"), &cs(""), 4));
}

#[test]
fn find_gives_the_leftmost_place() {
    assert_eq!(find(&cs("Magic Missile: 2"), &cs(": ")), Some(13));
    assert_eq!(find(&cs("a: b: c"), &cs(": ")), Some(1));
    assert_eq!(find(&cs("a:b"), &cs(": ")), None);
    assert_eq!(find(&cs("120 Fire Goblin"), &cs(" ")), Some(3));
    assert_eq!(find(&cs(""), &cs(" ")), None);
    assert_eq!(find(&cs("abc"), &cs("")), Some(0));
    assert_eq!(find(&cs(""), &cs("")), Some(0));
    assert_eq!(find(&cs("ab"), &cs("abc")), None);
    assert_eq!(find(&cs("\u{e9}: 1"), &cs(": ")), Some(1));
}
