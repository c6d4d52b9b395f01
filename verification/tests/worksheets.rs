use advent_puzzles::worksheet::{
    parse_and_solve, part1, part2, solve_problem, solve_problem_part2, Answer,
};

const EXAMPLE: &str = "\
123 328  51 64
 45 64  387 23
  6 98  215 314
*   +   *   +  ";

fn block(rows: &[&str]) -> Vec<Vec<u8>> {
    let width = rows.iter().map(|r| r.len()).max().unwrap_or(0);
    (0..width)
        .map(|c| rows.iter().map(|r| *r.as_bytes().get(c).unwrap_or(&b' ')).collect())
        .collect()
}

#[test]
fn day06_test_part1() {
    assert_eq!(part1(EXAMPLE), Some(4277556));
}

#[test]
fn day06_test_part2() {
    assert_eq!(part2(EXAMPLE), Some(3263827));
}

#[test]
fn one_problem_by_rows() {
    assert_eq!(solve_problem(&block(&["123", " 45", "  6", "*  "])), Answer::Value(33210));
    assert_eq!(solve_problem(&block(&["328", "64 ", "98 ", "+  "])), Answer::Value(490));
    assert_eq!(solve_problem(&block(&["-5", " 7", " +"])), Answer::Value(2));
    assert_eq!(solve_problem(&block(&["12", "34", "/ "])), Answer::NoProblem);
    assert_eq!(solve_problem(&block(&["12", "34", "++"])), Answer::NoProblem);
    assert_eq!(solve_problem(&block(&["ab", "+ "])), Answer::NoProblem);
    assert_eq!(solve_problem(&block(&["+"])), Answer::NoProblem);
    assert_eq!(solve_problem(&vec![]), Answer::NoProblem);
    assert_eq!(
        solve_problem(&block(&["9223372036854775807", "1", "+"])),
        Answer::Overflow
    );
    assert_eq!(
        solve_problem(&block(&["4611686018427387904", "2", "*"])),
        Answer::Overflow
    );
}

#[test]
fn one_problem_by_columns() {
    // columns from the right: 4, 431, 623
    assert_eq!(solve_problem_part2(&block(&["64 ", "23 ", "314", "+  "])), Answer::Value(1058));
    // columns from the right: 356, 24, 1
    assert_eq!(solve_problem_part2(&block(&["123", " 45", "  6", "*  "])), Answer::Value(8544));
    assert_eq!(solve_problem_part2(&block(&["12", "34", "/ "])), Answer::NoProblem);
    assert_eq!(solve_problem_part2(&block(&["  ", "+ "])), Answer::NoProblem);
    // the first operator of the last row counts
    assert_eq!(solve_problem_part2(&block(&["12", "+*"])), Answer::Value(3));
}

#[test]
fn sheets() {
    assert_eq!(parse_and_solve(""), Some(0));
    assert_eq!(parse_and_solve("1 2\n3 4\n+ *"), Some(12));
    // by columns the digits of a column make one number: 13 and 24
    assert_eq!(part2("1 2\n3 4\n+ *"), Some(37));
    // a block without an operator is passed over
    assert_eq!(parse_and_solve("1 2\n3 4\n+  "), Some(4));
    assert_eq!(parse_and_solve("9223372036854775807 1\n1                   1\n+                   +"), None);
    // short lines count as padded with spaces
    assert_eq!(parse_and_solve("1 2\n3\n+ +"), Some(6));
}
