use advent_puzzles::fresh::{
    count_ids_in_ranges, is_fresh, merge_ranges, parse_input, part1, part2, sorted_by_start,
};
use advent_puzzles::ranges::Range;

const EXAMPLE: &str = "\
3-5
10-14
16-20
12-18

1
5
8
11
17
32";

fn r(start: u64, end: u64) -> Range {
    Range { start, end }
}

#[test]
fn day05_test_part1() {
    assert_eq!(part1(EXAMPLE), Some(3));
}

#[test]
fn day05_test_part2() {
    assert_eq!(part2(EXAMPLE), Some(14));
}

#[test]
fn ranges_hold_their_ends() {
    assert!(r(3, 5).contains(3));
    assert!(r(3, 5).contains(5));
    assert!(!r(3, 5).contains(2));
    assert!(!r(3, 5).contains(6));
    assert!(!r(5, 3).contains(4));
    assert!(is_fresh(17, &vec![r(3, 5), r(16, 20)]));
    assert!(!is_fresh(8, &vec![r(3, 5), r(16, 20)]));
    assert!(!is_fresh(8, &vec![]));
}

#[test]
fn merging() {
    assert_eq!(merge_ranges(&vec![]), vec![]);
    assert_eq!(
        merge_ranges(&vec![r(3, 5), r(10, 14), r(16, 20), r(12, 18)]),
        vec![r(3, 5), r(10, 20)]
    );
    // ranges that touch become one
    assert_eq!(merge_ranges(&vec![r(4, 6), r(1, 3)]), vec![r(1, 6)]);
    // ranges with one identifier between them stay two
    assert_eq!(merge_ranges(&vec![r(5, 6), r(1, 3)]), vec![r(1, 3), r(5, 6)]);
    // a range inside another
    assert_eq!(merge_ranges(&vec![r(1, 10), r(3, 4)]), vec![r(1, 10)]);
    assert_eq!(merge_ranges(&vec![r(0, u64::MAX), r(5, u64::MAX)]), vec![r(0, u64::MAX)]);
    assert_eq!(sorted_by_start(&vec![r(5, 6), r(1, 3), r(2, 2)]), vec![r(1, 3), r(2, 2), r(5, 6)]);
}

#[test]
fn counting() {
    assert_eq!(count_ids_in_ranges(&vec![]), Some(0));
    assert_eq!(count_ids_in_ranges(&vec![r(7, 7)]), Some(1));
    assert_eq!(count_ids_in_ranges(&vec![r(1, 3), r(2, 5), r(10, 10)]), Some(6));
    assert_eq!(count_ids_in_ranges(&vec![r(1, u64::MAX)]), Some(u64::MAX));
    assert_eq!(count_ids_in_ranges(&vec![r(0, u64::MAX)]), None);
}

#[test]
fn the_two_lists() {
    assert_eq!(parse_input("1-2\n\n7\n8"), Some((vec![r(1, 2)], vec![7, 8])));
    assert_eq!(parse_input("1-2"), Some((vec![r(1, 2)], vec![])));
    assert_eq!(parse_input(""), Some((vec![], vec![])));
    assert_eq!(parse_input("1-2\n\nx"), None);
    assert_eq!(parse_input("12\n\n1"), None);
    assert_eq!(part1("1-2\n\nx"), None);
    assert_eq!(part2("5-3\n\n1"), None);
    assert_eq!(part1("5-3\n\n4"), Some(0));
}
