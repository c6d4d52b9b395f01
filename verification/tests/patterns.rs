use advent_puzzles::patterns::{
    digits, is_repeated_pattern, is_repeated_pattern_v2, parse_ranges, part1, part2,
};
use advent_puzzles::ranges::{parse_range, Range};

const EXAMPLE: &str = "\
11-22,95-115,998-1012,1188511880-1188511890,222220-222224,
1698522-1698528,446443-446449,38593856-38593862,565653-565659,
824824821-824824827,2121212118-2121212124
";

#[test]
fn test_is_repeated_pattern() {
    assert!(is_repeated_pattern(11));
    assert!(is_repeated_pattern(22));
    assert!(is_repeated_pattern(99));
    assert!(is_repeated_pattern(1010));
    assert!(is_repeated_pattern(6464));
    assert!(is_repeated_pattern(123123));
    assert!(is_repeated_pattern(222222));
    assert!(is_repeated_pattern(446446));
    assert!(is_repeated_pattern(1188511885));
    assert!(is_repeated_pattern(38593859));

    assert!(!is_repeated_pattern(101));
    assert!(!is_repeated_pattern(1698522));
    assert!(!is_repeated_pattern(0101));
}

#[test]
fn day02_test_part1() {
    assert_eq!(part1(EXAMPLE), Some(1227775554));
}

#[test]
fn test_is_repeated_pattern_v2() {
    assert!(is_repeated_pattern_v2(11));
    assert!(is_repeated_pattern_v2(99));
    assert!(is_repeated_pattern_v2(1010));
    assert!(is_repeated_pattern_v2(222222));
    assert!(is_repeated_pattern_v2(446446));
    assert!(is_repeated_pattern_v2(1188511885));
    assert!(is_repeated_pattern_v2(38593859));

    assert!(is_repeated_pattern_v2(111));
    assert!(is_repeated_pattern_v2(999));
    assert!(is_repeated_pattern_v2(565656));
    assert!(is_repeated_pattern_v2(824824824));
    assert!(is_repeated_pattern_v2(2121212121));
    assert!(is_repeated_pattern_v2(123123123));
    assert!(is_repeated_pattern_v2(1212121212));
    assert!(is_repeated_pattern_v2(1111111));

    assert!(!is_repeated_pattern_v2(101));
    assert!(!is_repeated_pattern_v2(1698522));
}

#[test]
fn day02_test_part2() {
    assert_eq!(part2(EXAMPLE), Some(4174379265));
}

#[test]
fn digits_of_numbers() {
    assert_eq!(digits(0), b"0".to_vec());
    assert_eq!(digits(7), b"7".to_vec());
    assert_eq!(digits(1090), b"1090".to_vec());
    assert_eq!(digits(u64::MAX), b"18446744073709551615".to_vec());
    assert!(!is_repeated_pattern(0));
    assert!(!is_repeated_pattern_v2(0));
    assert!(!is_repeated_pattern_v2(7));
    assert!(is_repeated_pattern_v2(u64::MAX / 15 * 0 + 77));
}

#[test]
fn ranges_are_read() {
    assert_eq!(parse_range(b" 11-22 "), Some(Range { start: 11, end: 22 }));
    assert_eq!(parse_range(b"11"), None);
    assert_eq!(parse_range(b"11-22-33"), None);
    assert_eq!(parse_range(b"a-22"), None);
    assert_eq!(parse_range(b"18446744073709551616-5"), None);
    assert_eq!(
        parse_ranges("1-2,\n 3-4\n"),
        Some(vec![Range { start: 1, end: 2 }, Range { start: 3, end: 4 }])
    );
    assert_eq!(parse_ranges("1-2,,3-4"), None);
    assert_eq!(part1("1-2,x"), None);
    assert_eq!(part2(""), None);
}

#[test]
fn sums_over_ranges() {
    assert_eq!(part1("10-12"), Some(11));
    assert_eq!(part1("12-10"), Some(0));
    assert_eq!(part2("110-112"), Some(111));
    assert_eq!(part1("11-11,22-22"), Some(33));
    // the last identifiers of all: none repeats, and the walk stops at the end
    assert_eq!(part1("18446744073709551610-18446744073709551615"), Some(0));
    // two repeated identifiers whose sum is too much
    assert_eq!(part1("10000000001000000000-10000000001000000000"), Some(10000000001000000000));
    assert_eq!(
        part1("10000000001000000000-10000000001000000000,10000000001000000000-10000000001000000000"),
        None
    );
}
