use advent_puzzles::banks::{max_joltage, max_joltage_n, parse_banks, part1, part2};

const EXAMPLE: &str = "\
987654321111111
811111111111119
234234234234278
818181911112111
";

#[test]
fn test_max_joltage() {
    assert_eq!(max_joltage("987654321111111"), 98);
    assert_eq!(max_joltage("811111111111119"), 89);
    assert_eq!(max_joltage("234234234234278"), 78);
    assert_eq!(max_joltage("818181911112111"), 92);
}

#[test]
fn day03_test_part1() {
    assert_eq!(part1(EXAMPLE), Some(357));
}

#[test]
fn test_max_joltage_n() {
    assert_eq!(max_joltage_n("987654321111111", 12), 987654321111);
    assert_eq!(max_joltage_n("811111111111119", 12), 811111111119);
    assert_eq!(max_joltage_n("234234234234278", 12), 434234234278);
    assert_eq!(max_joltage_n("818181911112111", 12), 888911112111);
}

#[test]
fn day03_test_part2() {
    assert_eq!(part2(EXAMPLE), Some(3121910778619));
}

#[test]
fn short_banks() {
    assert_eq!(max_joltage(""), 0);
    assert_eq!(max_joltage("7"), 0);
    assert_eq!(max_joltage("00"), 0);
    assert_eq!(max_joltage("07"), 7);
    assert_eq!(max_joltage_n("5", 1), 5);
    assert_eq!(max_joltage_n("1234", 4), 1234);
    assert_eq!(max_joltage_n("1234", 1), 4);
    assert_eq!(max_joltage_n("4321", 2), 43);
    assert_eq!(max_joltage_n("9999999999999999999", 19), 9999999999999999999);
}

#[test]
fn banks_must_be_digits() {
    assert_eq!(parse_banks("12\n34\n").map(|b| b.len()), Some(2));
    assert_eq!(parse_banks(""), None);
    assert_eq!(parse_banks("12\n\n34"), None);
    assert_eq!(part1("12a"), None);
    assert_eq!(part2("12a"), None);
    assert_eq!(part2("123"), None);
}
