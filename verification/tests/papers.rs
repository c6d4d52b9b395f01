use advent_puzzles::paper::{count_adjacent_papers, parse_input, part1, part2};

const EXAMPLE: &str = "\
..@@.@@@@.
@@@.@.@.@@
@@@@@.@.@@
@.@@@@..@.
@@.@@@@.@@
.@@@@@@@.@
.@.@.@.@@@
@.@@@.@@@@
.@@@@@@@@.
@.@.@@@.@.";

#[test]
fn day04_test_part1() {
    assert_eq!(part1(EXAMPLE), Some(13));
}

#[test]
fn day04_test_part2() {
    assert_eq!(part2(EXAMPLE), Some(43));
}

#[test]
fn neighbours_are_counted() {
    let grid = parse_input("@@@\n@@@\n@@@");
    assert_eq!(count_adjacent_papers(&grid, 1, 1), 8);
    assert_eq!(count_adjacent_papers(&grid, 0, 0), 3);
    assert_eq!(count_adjacent_papers(&grid, 0, 1), 5);
    assert_eq!(count_adjacent_papers(&grid, 2, 2), 3);
    assert_eq!(count_adjacent_papers(&grid, 5, 5), 0);
    let ragged = parse_input("@\n@@@\n");
    assert_eq!(count_adjacent_papers(&ragged, 0, 1), 4);
}

#[test]
fn small_paper_grids() {
    assert_eq!(part1(""), Some(0));
    assert_eq!(part2(""), Some(0));
    assert_eq!(part1("@"), Some(1));
    assert_eq!(part2("@"), Some(1));
    // a full square: the corners go first, then the rest
    assert_eq!(part1("@@@\n@@@\n@@@"), Some(4));
    assert_eq!(part2("@@@\n@@@\n@@@"), Some(9));
    assert_eq!(part1("...\n...\n"), Some(0));
}
