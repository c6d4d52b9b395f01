use advent_puzzles::tiles::{
    flood, greatest_area, greatest_inside, parse_positions, parse_tile, part1, part2, place_in,
    prefix_sums, rectangle, sorted_unique,
};

const EXAMPLE: &str = "\
7,1
11,1
11,7
9,7
9,5
2,5
2,3
7,3";

#[test]
fn day09_test_part1() {
    assert_eq!(part1(EXAMPLE), Some(50_i64));
}

#[test]
fn day09_test_part2() {
    assert_eq!(part2(EXAMPLE), Some(24));
}

#[test]
fn tiles_are_read() {
    assert_eq!(parse_tile(b"7,1"), Some((7, 1)));
    assert_eq!(parse_tile(b" 7 , -1 "), Some((7, -1)));
    assert_eq!(parse_tile(b"7,1,5"), Some((7, 1)));
    assert_eq!(parse_tile(b"7"), None);
    assert_eq!(parse_tile(b"7,x"), None);
    assert_eq!(parse_tile(b"7,1,x"), None);
    assert_eq!(parse_positions("7,1\n11,1"), Some(vec![(7, 1), (11, 1)]));
    assert_eq!(parse_positions(""), Some(vec![]));
    assert_eq!(parse_positions("7,1\nfoo"), None);
    assert_eq!(part1("7,1\nfoo"), None);
    assert_eq!(part2("7,1\nfoo"), None);
}

#[test]
fn areas() {
    assert_eq!(rectangle((2, 5), (11, 1)), 50);
    assert_eq!(rectangle((3, 3), (3, 3)), 1);
    assert_eq!(rectangle((i32::MIN, i32::MIN), (i32::MAX, i32::MAX)), 1i128 << 64);
    assert_eq!(greatest_area(&vec![]), 0);
    assert_eq!(greatest_area(&vec![(1, 1)]), 0);
    assert_eq!(greatest_area(&vec![(1, 1), (1, 1)]), 1);
    assert_eq!(greatest_area(&vec![(0, 0), (2, 3), (1, 9)]), 20);
    assert_eq!(part1(""), Some(0));
    assert_eq!(part1("-2147483648,-2147483648\n2147483647,2147483647"), None);
    assert_eq!(part1("0,0\n2147483647,2147483647"), Some(1 << 62));
}

#[test]
fn values_in_order() {
    assert_eq!(sorted_unique(&vec![5, 1, 5, 3, 1]), vec![1, 3, 5]);
    assert_eq!(sorted_unique(&vec![]), vec![]);
}

#[test]
fn rectangles_inside_a_loop() {
    // a square loop: the whole square counts
    assert_eq!(greatest_inside(&vec![(0, 0), (4, 0), (4, 4), (0, 4)]), Some(25));
    // an L: the rectangle over the notch does not count
    let l = vec![(0, 0), (6, 0), (6, 2), (2, 2), (2, 6), (0, 6)];
    assert_eq!(greatest_area(&l), 49);
    assert_eq!(greatest_inside(&l), Some(21));
    assert_eq!(greatest_inside(&vec![]), Some(0));
    assert_eq!(greatest_inside(&vec![(3, 3)]), Some(0));
    assert_eq!(part2(""), Some(0));
}

#[test]
fn places_on_an_axis() {
    assert_eq!(place_in(&vec![1, 3, 5], 3), Some(1));
    assert_eq!(place_in(&vec![1, 3, 5], 4), None);
}

#[test]
fn cells_within_reach_of_the_corner() {
    // a ring of walls round the middle cell
    let t = true;
    let f = false;
    let walls = vec![
        vec![f, f, f, f, f],
        vec![f, t, t, t, f],
        vec![f, t, f, t, f],
        vec![f, t, t, t, f],
        vec![f, f, f, f, f],
    ];
    let marks = flood(&walls, 5, 5);
    let expected = vec![
        vec![t, t, t, t, t],
        vec![t, f, f, f, t],
        vec![t, f, f, f, t],
        vec![t, f, f, f, t],
        vec![t, t, t, t, t],
    ];
    assert_eq!(marks, expected);
    // a wall from edge to edge cuts the grid
    let cut = vec![vec![f, t, f], vec![f, t, f]];
    assert_eq!(flood(&cut, 2, 3), vec![vec![t, f, f], vec![t, f, f]]);
    // a gap in the wall lets the search through
    let gap = vec![vec![f, t, f], vec![f, f, f]];
    assert_eq!(flood(&gap, 2, 3), vec![vec![t, f, t], vec![t, t, t]]);
}

#[test]
fn counts_above_and_left() {
    let t = true;
    let f = false;
    let marks = vec![vec![t, f, t], vec![f, t, t]];
    assert_eq!(prefix_sums(&marks, 2, 3), Some(vec![vec![1, 1, 2], vec![1, 2, 4]]));
    assert_eq!(prefix_sums(&vec![], 0, 0), Some(vec![]));
}

#[test]
fn a_loop_with_a_dent() {
    // a U: the rectangle over the opening does not count
    let u = vec![(0, 0), (2, 0), (2, 4), (4, 4), (4, 0), (6, 0), (6, 6), (0, 6)];
    assert_eq!(greatest_area(&u), 49);
    assert_eq!(greatest_inside(&u), Some(21));
}
