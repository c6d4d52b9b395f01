use advent_puzzles::beams::{
    count_timelines, find_start, parse_grid, part1, part2, simulate_beams,
};

const EXAMPLE: &str = "\
.......S.......
...............
.......^.......
...............
......^.^......
...............
.....^.^.^.....
...............
....^.^...^....
...............
...^.^...^.^...
...............
..^...^.....^..
...............
.^.^.^.^.^...^.
...............";

#[test]
fn day07_test_part1() {
    assert_eq!(part1(EXAMPLE), Some(21));
}

#[test]
fn day07_test_part2() {
    assert_eq!(part2(EXAMPLE), Some(40));
}

#[test]
fn the_start_is_found() {
    assert_eq!(find_start(&parse_grid("...\n.S.\nS..")), Some((1, 1)));
    assert_eq!(find_start(&parse_grid("...\n...")), None);
    assert_eq!(find_start(&parse_grid("")), None);
}

#[test]
fn small_beam_grids() {
    // nothing below the start
    assert_eq!(part1("S"), Some(0));
    assert_eq!(part2("S"), Some(1));
    // one splitter in the middle
    assert_eq!(part1(".S.\n.^.\n..."), Some(1));
    assert_eq!(part2(".S.\n.^.\n..."), Some(2));
    // a splitter at the left edge: the left half is lost
    assert_eq!(part1("S.\n^.\n.."), Some(1));
    assert_eq!(part2("S.\n^.\n.."), Some(1));
    // two beams that meet again are one beam, but two timelines
    assert_eq!(part1("..S..\n..^..\n.^.^.\n....."), Some(3));
    assert_eq!(part2("..S..\n..^..\n.^.^.\n....."), Some(4));
    let grid = parse_grid(".S.\n.^.\n...");
    assert_eq!(simulate_beams(&grid), Some(1));
    assert_eq!(count_timelines(&grid), 2);
}

#[test]
fn grids_that_are_not_accepted() {
    assert_eq!(part1("..."), None);
    assert_eq!(part2("..."), None);
    assert_eq!(part1(".S.\n..\n"), None);
    assert_eq!(part2(""), None);
}
