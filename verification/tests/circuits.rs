use advent_puzzles::circuits::{
    distance_squared, parse_position, parse_positions, part1, part2, solve,
    sorted_pairs, UnionFind,
};

const EXAMPLE: &str = "\
162,817,812
57,618,57
906,360,560
592,479,940
352,342,300
466,668,158
542,29,236
431,825,988
739,650,466
52,470,668
216,146,977
819,987,18
117,168,530
805,96,715
346,949,466
970,615,88
941,993,340
862,61,35
984,92,344
425,690,689";

#[test]
fn day08_test_part1() {
    assert_eq!(solve(EXAMPLE, 10), Some(40));
}

#[test]
fn day08_test_part2() {
    assert_eq!(part2(EXAMPLE), Some(25272_i64));
}

#[test]
fn sets_are_joined() {
    let mut sets = UnionFind::new(5);
    assert_eq!(sets.component_sizes(), vec![1, 1, 1, 1, 1]);
    assert!(sets.union(0, 1));
    assert!(!sets.union(1, 0));
    assert!(sets.union(3, 4));
    assert_eq!(sets.find(0), sets.find(1));
    assert_ne!(sets.find(0), sets.find(3));
    assert_ne!(sets.find(2), sets.find(0));
    let mut sizes = sets.component_sizes();
    sizes.sort();
    assert_eq!(sizes, vec![1, 2, 2]);
    assert!(sets.union(1, 4));
    assert!(!sets.union(0, 3));
    assert_eq!(sets.find(0), sets.find(4));
    let mut sizes = sets.component_sizes();
    sizes.sort();
    assert_eq!(sizes, vec![1, 4]);
    assert_eq!(UnionFind::new(0).component_sizes(), vec![]);
}

#[test]
fn long_chains_are_found() {
    let mut sets = UnionFind::new(1000);
    for i in 0..999 {
        assert!(sets.union(i, i + 1));
    }
    let head = sets.find(0);
    for i in 0..1000 {
        assert_eq!(sets.find(i), head);
    }
    assert_eq!(sets.component_sizes(), vec![1000]);
}

#[test]
fn distances() {
    assert_eq!(distance_squared((0, 0, 0), (1, 2, 3)), Some(14));
    assert_eq!(distance_squared((1, 2, 3), (1, 2, 3)), Some(0));
    assert_eq!(distance_squared((-1, -1, -1), (1, 1, 1)), Some(12));
    assert_eq!(
        distance_squared((i32::MIN, 0, 0), (i32::MAX, 0, 0)),
        None
    );
    assert_eq!(
        distance_squared((0, 0, 0), (i32::MAX, i32::MAX, 0)),
        Some(2 * (i32::MAX as i64) * (i32::MAX as i64))
    );
}

#[test]
fn positions_are_read() {
    assert_eq!(parse_position(b"1,-2,3"), Some((1, -2, 3)));
    assert_eq!(parse_position(b"1,2,3,4"), Some((1, 2, 3)));
    assert_eq!(parse_position(b"1,2"), None);
    assert_eq!(parse_position(b"1,2,x"), None);
    assert_eq!(parse_position(b"1,2,3,x"), None);
    assert_eq!(parse_position(b"1, 2,3"), None);
    assert_eq!(parse_position(b"2147483648,0,0"), None);
    assert_eq!(parse_positions("1,2,3\n4,5,6"), Some(vec![(1, 2, 3), (4, 5, 6)]));
    assert_eq!(parse_positions(""), Some(vec![]));
    assert_eq!(parse_positions("1,2,3\n\n4,5,6"), None);
    assert_eq!(solve("1,2", 3), None);
    assert_eq!(part1("1,2"), None);
    assert_eq!(part2("x"), None);
}

#[test]
fn pairs_come_in_the_order_of_their_distances() {
    let pairs = sorted_pairs(&vec![(0, 0, 0), (10, 0, 0), (1, 0, 0)]).unwrap();
    assert_eq!(pairs, vec![(1, 0, 2), (81, 1, 2), (100, 0, 1)]);
    assert_eq!(sorted_pairs(&vec![]), Some(vec![]));
    assert_eq!(sorted_pairs(&vec![(i32::MIN, 0, 0), (i32::MAX, 0, 0)]), None);
}

#[test]
fn few_boxes() {
    assert_eq!(solve("", 10), Some(1));
    assert_eq!(solve("1,1,1", 10), Some(1));
    assert_eq!(solve("0,0,0\n1,0,0\n9,0,0", 0), Some(1));
    assert_eq!(solve("0,0,0\n1,0,0\n9,0,0", 1), Some(2));
    assert_eq!(solve("0,0,0\n1,0,0\n9,0,0", 5), Some(3));
    assert_eq!(part2(""), None);
    assert_eq!(part2("7,0,0"), Some(49));
    assert_eq!(part2("-3,1,1\n-3,1,1"), Some(9));
    assert_eq!(part2("3,0,0\n4,0,0\n-9,0,0"), Some(-27));
}
