use advent_puzzles::packing::{
    can_fit_all_shapes, parse_input, parse_region, part1, part2, read_input, solve, Region, Shape,
};

const EXAMPLE: &str = "\
0:
###
##.
##.

1:
###
##.
.##

2:
.##
###
##.

3:
##.
###
##.

4:
###
#..
###

5:
###
.#.
###

4x4: 0 0 0 0 2 0
12x5: 1 0 1 0 2 2
12x5: 1 0 1 0 3 2";

fn drawing(rows: &[&str]) -> Vec<Vec<u8>> {
    rows.iter().map(|r| r.as_bytes().to_vec()).collect()
}

fn shape(rows: &[&str]) -> Shape {
    Shape::parse(&drawing(rows)).unwrap()
}

#[test]
fn day12_test_part1() {
    let result = part1(EXAMPLE);
    assert_eq!(result, Some(2));
}

#[test]
fn shapes_are_moved_to_the_corner() {
    assert_eq!(shape(&["...", ".##", ".#."]).cells, vec![(0, 0), (1, 0), (0, 1)]);
    assert_eq!(Shape::normalize(vec![(5, 7), (4, 9)]).cells, vec![(1, 0), (0, 2)]);
    assert_eq!(Shape::normalize(vec![(-3, -1)]).cells, vec![(0, 0)]);
    assert_eq!(Shape::normalize(vec![]).cells, vec![]);
    assert_eq!(shape(&["..", ".."]).cells, vec![]);
}

#[test]
fn turning_and_flipping() {
    let l = shape(&["#.", "#.", "##"]);
    assert_eq!(l.cells, vec![(0, 0), (0, 1), (0, 2), (1, 2)]);
    assert_eq!(l.rotate_90().cells, vec![(2, 0), (1, 0), (0, 0), (0, 1)]);
    assert_eq!(l.flip_horizontal().cells, vec![(1, 0), (1, 1), (1, 2), (0, 2)]);
    let four = l.rotate_90().rotate_90().rotate_90().rotate_90();
    assert_eq!(four.cells, l.cells);
    assert_eq!(l.all_orientations().len(), 8);
    let square = shape(&["##", "##"]);
    // every turn of a square covers the same cells
    assert_eq!(square.all_orientations().len(), 1);
    assert_eq!(shape(&["#"]).all_orientations().len(), 1);
    assert_eq!(shape(&["##"]).all_orientations().len(), 2);
    assert_eq!(shape(&["###", "#..", "###"]).all_orientations().len(), 4);
    assert_eq!(shape(&["###", ".#.", "###"]).all_orientations().len(), 2);
    assert!(square.same_cover(&square.rotate_90()));
    assert!(!l.same_cover(&l.rotate_90()));
    assert!(l.has_cell(1, 2));
    assert!(!l.has_cell(1, 1));
}

#[test]
fn the_first_cell() {
    assert_eq!(shape(&[".#", "##"]).first_cell(), (1, 0));
    assert_eq!(Shape { cells: vec![(3, 2), (0, 2), (5, 1), (4, 1)] }.first_cell(), (4, 1));
}

#[test]
fn placing_and_removing() {
    let l = shape(&["#.", "##"]);
    let mut grid = vec![vec![false; 3]; 2];
    assert!(l.can_place(&grid, 0, 0));
    assert!(l.can_place(&grid, 0, 1));
    assert!(!l.can_place(&grid, 0, 2));
    assert!(!l.can_place(&grid, 1, 0));
    assert!(!l.can_place(&grid, -1, 0));
    assert!(!l.can_place(&grid, 0, -1));
    assert!(!l.can_place(&grid, i32::MAX, i32::MAX));
    l.place(&mut grid, 0, 1);
    assert_eq!(grid, vec![vec![false, true, false], vec![false, true, true]]);
    assert!(!l.can_place(&grid, 0, 0));
    l.remove(&mut grid, 0, 1);
    assert_eq!(grid, vec![vec![false; 3]; 2]);
}

#[test]
fn regions_are_read() {
    let region = parse_region(b"12x5: 1 0 2").unwrap();
    assert_eq!((region.width, region.height), (12, 5));
    assert_eq!(region.required_shapes, vec![1, 0, 2]);
    assert!(parse_region(b"12x5").is_none());
    assert!(parse_region(b"12: 1").is_none());
    assert!(parse_region(b"ax5: 1").is_none());
    assert!(parse_region(b"1x5: 1 b").is_none());
    let (shapes, regions) = parse_input(EXAMPLE).unwrap();
    assert_eq!(shapes.len(), 6);
    assert_eq!(regions.len(), 3);
    assert_eq!(shapes[4].cells, vec![(0, 0), (1, 0), (2, 0), (0, 1), (0, 2), (1, 2), (2, 2)]);
    assert_eq!(regions[1].required_shapes, vec![1, 0, 1, 0, 2, 2]);
    assert!(parse_input("0:\n#\n\n2xq: 1").is_none());
    assert_eq!(part1("0:\n#\n\n2xq: 1"), None);
}

#[test]
fn fitting() {
    let domino = shape(&["##"]);
    let shapes = vec![domino];
    let orientations = vec![shapes[0].all_orientations()];
    let region = |width, height, count| Region { width, height, required_shapes: vec![count] };
    assert!(can_fit_all_shapes(&region(2, 2, 2), &shapes, &orientations));
    assert!(!can_fit_all_shapes(&region(2, 2, 3), &shapes, &orientations));
    assert!(can_fit_all_shapes(&region(3, 1, 1), &shapes, &orientations));
    assert!(!can_fit_all_shapes(&region(1, 1, 1), &shapes, &orientations));
    assert!(can_fit_all_shapes(&region(1, 2, 1), &shapes, &orientations));
    assert!(can_fit_all_shapes(&region(0, 0, 0), &shapes, &orientations));
    // a count for a shape that does not exist
    let two = Region { width: 4, height: 4, required_shapes: vec![0, 1] };
    assert!(!can_fit_all_shapes(&two, &shapes, &orientations));
    // two corner pieces fill a two by three block only if one is turned
    let corner = vec![shape(&["##", "#."])];
    let turned = vec![corner[0].all_orientations()];
    assert!(can_fit_all_shapes(&region(2, 3, 2), &corner, &turned));
    assert!(!can_fit_all_shapes(&region(2, 3, 2), &corner, &vec![vec![shape(&["##", "#."])]]));
}

#[test]
fn search_leaves_the_grid_as_it_was_when_it_fails() {
    let shapes = vec![shape(&["##"])];
    let orientations = vec![shapes[0].all_orientations()];
    let mut grid = vec![vec![false, true, false]];
    let mut counts = vec![1];
    assert!(!solve(&mut grid, &mut counts, &vec![0], &orientations, 0));
    assert_eq!(grid, vec![vec![false, true, false]]);
    assert_eq!(counts, vec![1]);
    assert!(solve(&mut grid, &mut counts, &vec![0], &orientations, 2));
    assert_eq!(grid, vec![vec![true, true, true]]);
}

#[test]
fn no_second_question() {
    assert_eq!(part2(EXAMPLE), 0);
}

#[test]
fn how_an_input_is_read() {
    // a drawing ends at a blank line or at the next line with a colon; among
    // the regions a line without a colon or with two is passed over
    let text = "note\n0:\n#.\n##\n1:\n##\n\n3x2: 1 1\nrest\n4x4: 0 1: 2\n\n2x2: 0 1";
    let (shapes, regions) = parse_input(text).unwrap();
    assert_eq!(shapes.len(), 2);
    assert_eq!(shapes[0].cells, vec![(0, 0), (0, 1), (1, 1)]);
    assert_eq!(shapes[1].cells, vec![(0, 0), (1, 0)]);
    assert_eq!(regions.len(), 2);
    assert_eq!((regions[0].width, regions[0].height), (3, 2));
    assert_eq!(regions[0].required_shapes, vec![1, 1]);
    assert_eq!((regions[1].width, regions[1].height), (2, 2));
    assert_eq!(regions[1].required_shapes, vec![0, 1]);
    assert_eq!(part1(text), Some(2));
    // a name without a drawing gives no shape
    let (shapes, regions) = read_input(b"0:\n2x2: 1").unwrap();
    assert_eq!(shapes.len(), 0);
    assert_eq!(regions.len(), 1);
    assert_eq!(part1("0:\n2x2: 1"), Some(0));
    // a drawing that draws nothing is a shape without cells
    let (shapes, _) = parse_input("0:\n..\n").unwrap();
    assert_eq!(shapes.len(), 1);
    assert!(shapes[0].cells.is_empty());
    let (shapes, regions) = parse_input("").unwrap();
    assert!(shapes.is_empty() && regions.is_empty());
    assert_eq!(part1(""), Some(0));
}

#[test]
fn gaps_where_no_shape_fits() {
    let shapes = vec![shape(&["##"])];
    let orientations = vec![shapes[0].all_orientations()];
    // the first empty place can only be a gap
    let mut grid = vec![vec![false, true, false, false]];
    let mut counts = vec![1];
    assert!(!solve(&mut grid, &mut counts, &vec![0], &orientations, 0));
    assert_eq!(grid, vec![vec![false, true, false, false]]);
    assert!(solve(&mut grid, &mut counts, &vec![0], &orientations, 1));
    assert_eq!(counts, vec![0]);
    // nothing left to lay down: gaps only
    let mut grid = vec![vec![false, false], vec![false, true]];
    let mut counts = vec![0];
    assert!(!solve(&mut grid, &mut counts, &vec![0], &orientations, 2));
    assert!(solve(&mut grid, &mut counts, &vec![0], &orientations, 3));
    // a full grid needs nothing
    let mut grid = vec![vec![true]];
    assert!(solve(&mut grid, &mut counts, &vec![], &orientations, 0));
    let mut grid: Vec<Vec<bool>> = vec![];
    assert!(solve(&mut grid, &mut counts, &vec![], &orientations, 0));
}
