use advent_puzzles::dial::{
    clicks_through_zero, parse_rotation, parse_rotations, part1, part2, turn, Direction, Rotation,
};

const EXAMPLE: &str = "\
L68
L30
R48
L5
R60
L55
L1
L99
R14
L82
";

#[test]
fn day01_test_part1() {
    assert_eq!(part1(EXAMPLE), Some(3));
}

#[test]
fn day01_test_part2() {
    assert_eq!(part2(EXAMPLE), Some(6));
}

#[test]
fn rotations_are_read_line_by_line() {
    assert_eq!(
        parse_rotations("L68\nR5"),
        Some(vec![
            Rotation { direction: Direction::Left, distance: 68 },
            Rotation { direction: Direction::Right, distance: 5 },
        ])
    );
    assert_eq!(parse_rotation(b"R0"), Some(Rotation { direction: Direction::Right, distance: 0 }));
    assert_eq!(parse_rotation(b"R2147483647").map(|r| r.distance), Some(i32::MAX));
    assert_eq!(parse_rotation(b"R2147483648"), None);
    assert_eq!(parse_rotation(b"X5"), None);
    assert_eq!(parse_rotation(b"L"), None);
    assert_eq!(parse_rotation(b""), None);
    assert_eq!(parse_rotations(""), None);
    assert_eq!(parse_rotations("L5\nfoo"), None);
    assert_eq!(part1("L5\nfoo"), None);
    assert_eq!(part2(""), None);
}

#[test]
fn turning_wraps_around() {
    let left = |d| Rotation { direction: Direction::Left, distance: d };
    let right = |d| Rotation { direction: Direction::Right, distance: d };
    assert_eq!(turn(50, left(68)), 82);
    assert_eq!(turn(0, left(1)), 99);
    assert_eq!(turn(99, right(1)), 0);
    assert_eq!(turn(50, right(1050)), 0);
    assert_eq!(turn(50, left(i32::MAX)), 3);
    assert_eq!(turn(50, right(i32::MAX)), 97);
}

#[test]
fn clicks_at_zero_are_counted() {
    let left = |d| Rotation { direction: Direction::Left, distance: d };
    let right = |d| Rotation { direction: Direction::Right, distance: d };
    assert_eq!(clicks_through_zero(50, left(49)), 0);
    assert_eq!(clicks_through_zero(50, left(50)), 1);
    assert_eq!(clicks_through_zero(50, left(250)), 3);
    assert_eq!(clicks_through_zero(0, left(99)), 0);
    assert_eq!(clicks_through_zero(0, left(100)), 1);
    assert_eq!(clicks_through_zero(50, right(49)), 0);
    assert_eq!(clicks_through_zero(50, right(50)), 1);
    assert_eq!(clicks_through_zero(50, right(1000)), 10);
    assert_eq!(clicks_through_zero(0, right(100)), 1);
}

#[test]
fn one_big_turn() {
    assert_eq!(part1("R1050"), Some(1));
    assert_eq!(part2("R1050"), Some(11));
    assert_eq!(part2("L1050"), Some(11));
}
