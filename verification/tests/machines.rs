use advent_puzzles::counters::solve_joltage;
use advent_puzzles::lights::solve_machine;
use advent_puzzles::machine::{parse_machine, part1, part2, Machine, Outcome};
use advent_puzzles::rational::ArithError;

const EXAMPLE: &str = "\
[.##.] (3) (1,3) (2) (2,3) (0,2) (0,1) {3,5,4,7}
[...#.] (0,2,3,4) (2,3) (0,4) (0,1,2) (1,2,3,4) {7,5,12,7,2}
[.###.#] (0,1,2,3,4) (0,3,4) (0,1,2,4,5) (1,2) {10,11,11,5,10,5}";

fn mask(n: usize, on: &[usize]) -> Vec<bool> {
    let mut v = vec![false; n];
    for &i in on {
        v[i] = true;
    }
    v
}

fn lights(target: Vec<bool>, buttons: Vec<Vec<bool>>) -> Machine {
    Machine { target, buttons, button_indices: vec![], targets: vec![] }
}

fn counters(button_indices: Vec<Vec<usize>>, targets: Vec<i64>) -> Machine {
    Machine { target: vec![], buttons: vec![], button_indices, targets }
}

#[test]
fn day10_test_parse() {
    let machine = parse_machine("[.##.] (3) (1,3) (2) (2,3) (0,2) (0,1) {3,5,4,7}");
    assert_eq!(machine.target, vec![false, true, true, false]);
    assert_eq!(machine.buttons.len(), 6);
    assert_eq!(machine.buttons[0], vec![false, false, false, true]);
    assert_eq!(machine.buttons[1], vec![false, true, false, true]);
}

#[test]
fn test_machine1() {
    let machine = parse_machine("[.##.] (3) (1,3) (2) (2,3) (0,2) (0,1) {3,5,4,7}");
    assert_eq!(solve_machine(&machine), Outcome::Cost(2));
}

#[test]
fn day10_test_part1() {
    assert_eq!(part1(EXAMPLE), Ok(7));
}

#[test]
fn test_joltage1() {
    let machine = parse_machine("[.##.] (3) (1,3) (2) (2,3) (0,2) (0,1) {3,5,4,7}");
    assert_eq!(solve_joltage(&machine), Ok(Outcome::Cost(10)));
}

#[test]
fn test_joltage2() {
    let machine =
        parse_machine("[...#.] (0,2,3,4) (2,3) (0,4) (0,1,2) (1,2,3,4) {7,5,12,7,2}");
    assert_eq!(solve_joltage(&machine), Ok(Outcome::Cost(12)));
}

#[test]
fn test_joltage3() {
    let machine =
        parse_machine("[.###.#] (0,1,2,3,4) (0,3,4) (0,1,2,4,5) (1,2) {10,11,11,5,10,5}");
    assert_eq!(solve_joltage(&machine), Ok(Outcome::Cost(11)));
}

#[test]
fn day10_test_part2() {
    assert_eq!(part2(EXAMPLE), Ok(33));
}

#[test]
fn parse_reads_index_lists_and_targets() {
    let machine = parse_machine("[.##.] (3) (1,3) (2) (2,3) (0,2) (0,1) {3,5,4,7}");
    assert_eq!(
        machine.button_indices,
        vec![vec![3], vec![1, 3], vec![2], vec![2, 3], vec![0, 2], vec![0, 1]]
    );
    assert_eq!(machine.targets, vec![3, 5, 4, 7]);
    assert_eq!(machine.buttons[5], vec![true, true, false, false]);
}

#[test]
fn parse_skips_what_is_no_number_and_reads_signs() {
    let machine = parse_machine("[#] ( 0 , x, +0 ) (9) {-3, 4,,y}");
    assert_eq!(machine.target, vec![true]);
    assert_eq!(machine.button_indices, vec![vec![0, 0], vec![9]]);
    assert_eq!(machine.buttons, vec![vec![true], vec![false]]);
    assert_eq!(machine.targets, vec![-3, 4]);
}

#[test]
fn parse_of_a_line_without_fields() {
    let machine = parse_machine("");
    assert!(machine.target.is_empty());
    assert!(machine.buttons.is_empty());
    assert!(machine.button_indices.is_empty());
    assert!(machine.targets.is_empty());
}

#[test]
fn lights_without_buttons() {
    assert_eq!(solve_machine(&lights(vec![false, false], vec![])), Outcome::Cost(0));
    assert_eq!(solve_machine(&lights(vec![], vec![])), Outcome::Cost(0));
    assert_eq!(solve_machine(&lights(vec![false, true], vec![])), Outcome::Infeasible);
}

#[test]
fn lights_that_cannot_be_set() {
    // both buttons toggle both lights: the two lights always agree
    let machine = lights(vec![true, false], vec![mask(2, &[0, 1]), mask(2, &[0, 1])]);
    assert_eq!(solve_machine(&machine), Outcome::Infeasible);
}

#[test]
fn lights_pick_the_lighter_of_two_solutions() {
    // light 0 and 1 on: button 2 alone, or buttons 0 and 1 together
    let machine = lights(vec![true, true], vec![mask(2, &[0]), mask(2, &[1]), mask(2, &[0, 1])]);
    assert_eq!(solve_machine(&machine), Outcome::Cost(1));
}

#[test]
fn lights_same_answer_every_time() {
    let machine = parse_machine("[.##.] (3) (1,3) (2) (2,3) (0,2) (0,1) {3,5,4,7}");
    let first = solve_machine(&machine);
    for _ in 0..5 {
        assert_eq!(solve_machine(&machine), first);
    }
}

#[test]
fn lights_second_copy_of_a_button_changes_nothing() {
    let mut machine = parse_machine("[.##.] (3) (1,3) (2) (2,3) (0,2) (0,1) {3,5,4,7}");
    let copy = machine.buttons[1].clone();
    machine.buttons.push(copy);
    assert_eq!(solve_machine(&machine), Outcome::Cost(2));
}

#[test]
fn counters_without_buttons() {
    assert_eq!(solve_joltage(&counters(vec![], vec![0, 0])), Ok(Outcome::Cost(0)));
    assert_eq!(solve_joltage(&counters(vec![], vec![0, 1])), Ok(Outcome::Infeasible));
}

#[test]
fn counters_with_nothing_asked() {
    assert_eq!(solve_joltage(&counters(vec![vec![0], vec![1]], vec![0, 0])), Ok(Outcome::Cost(0)));
}

#[test]
fn counters_without_free_variables() {
    // x0 + x1 = 5, x1 = 2: one solution, no choice to make
    let machine = counters(vec![vec![0], vec![0, 1]], vec![5, 2]);
    assert_eq!(solve_joltage(&machine), Ok(Outcome::Cost(5)));
    // x0 + x1 = 1, x1 = 2 forces x0 = -1
    let machine = counters(vec![vec![0], vec![0, 1]], vec![1, 2]);
    assert_eq!(solve_joltage(&machine), Ok(Outcome::Infeasible));
}

#[test]
fn counters_that_contradict_each_other() {
    // one button raises both counters alike
    let machine = counters(vec![vec![0, 1]], vec![1, 2]);
    assert_eq!(solve_joltage(&machine), Ok(Outcome::Infeasible));
}

#[test]
fn counters_that_need_a_fraction() {
    // x0 + x1 = 1, x1 + x2 = 1, x0 + x2 = 1 has only the solution one half each
    let machine = counters(vec![vec![0, 2], vec![0, 1], vec![1, 2]], vec![1, 1, 1]);
    assert_eq!(solve_joltage(&machine), Ok(Outcome::Infeasible));
}

#[test]
fn counters_with_a_negative_target() {
    let machine = counters(vec![vec![0], vec![0]], vec![-1]);
    assert_eq!(solve_joltage(&machine), Ok(Outcome::Infeasible));
}

#[test]
fn counters_prefer_the_button_that_does_more() {
    // both counters to 3: three presses of the double button
    let machine = counters(vec![vec![0], vec![1], vec![0, 1]], vec![3, 3]);
    assert_eq!(solve_joltage(&machine), Ok(Outcome::Cost(3)));
}

#[test]
fn counters_total_beyond_the_range() {
    // two counters, one button each: the total is twice the greatest i64
    let machine = counters(vec![vec![0], vec![1]], vec![i64::MAX, i64::MAX]);
    assert_eq!(solve_joltage(&machine), Err(ArithError::RangeOverflow));
}

#[test]
fn counters_second_copy_of_a_button_changes_nothing() {
    let mut machine = parse_machine("[.##.] (3) (1,3) (2) (2,3) (0,2) (0,1) {3,5,4,7}");
    let copy = machine.button_indices[4].clone();
    machine.button_indices.push(copy);
    assert_eq!(solve_joltage(&machine), Ok(Outcome::Cost(10)));
}

#[test]
fn batch_leaves_out_what_cannot_be_solved() {
    let input = "[#.] (0,1) {1,2}\n[#] (0) {4}\n";
    // first line: light 0 on, light 1 off cannot be had; counters contradict
    assert_eq!(part1(input), Ok(1));
    assert_eq!(part2(input), Ok(4));
    assert_eq!(part1(""), Ok(0));
    assert_eq!(part2(""), Ok(0));
}

/// A small generator of numbers that looks random and is the same every run.
struct Dice(u64);

impl Dice {
    fn roll(&mut self, sides: u64) -> u64 {
        self.0 = self.0.wrapping_mul(6364136223846793005).wrapping_add(1442695040888963407);
        (self.0 >> 33) % sides
    }
}

/// The least number of presses, by trying every choice of buttons.
fn lights_by_trial(machine: &Machine) -> Outcome<usize> {
    let m = machine.buttons.len();
    let mut best: Option<usize> = None;
    for mask in 0u32..(1 << m) {
        let mut state = vec![false; machine.target.len()];
        for (j, button) in machine.buttons.iter().enumerate() {
            if mask & (1 << j) != 0 {
                for (i, &bit) in button.iter().enumerate() {
                    state[i] ^= bit;
                }
            }
        }
        if state == machine.target {
            let weight = mask.count_ones() as usize;
            best = Some(best.map_or(weight, |b| b.min(weight)));
        }
    }
    match best {
        Some(w) => Outcome::Cost(w),
        None => Outcome::Infeasible,
    }
}

/// The least total of presses, by trying every count up to the greatest target.
fn counters_by_trial(machine: &Machine) -> Outcome<i64> {
    let m = machine.button_indices.len();
    let top = machine.targets.iter().copied().max().unwrap_or(0).max(0);
    let mut counts = vec![0i64; m];
    let mut best: Option<i64> = None;
    loop {
        let mut state = vec![0i64; machine.targets.len()];
        for (j, button) in machine.button_indices.iter().enumerate() {
            for i in 0..state.len() {
                if button.contains(&i) {
                    state[i] += counts[j];
                }
            }
        }
        if state == machine.targets {
            let sum: i64 = counts.iter().sum();
            best = Some(best.map_or(sum, |b| b.min(sum)));
        }
        let mut j = 0;
        while j < m && counts[j] == top {
            counts[j] = 0;
            j += 1;
        }
        if j == m {
            break;
        }
        counts[j] += 1;
    }
    match best {
        Some(c) => Outcome::Cost(c),
        None => Outcome::Infeasible,
    }
}

#[test]
fn lights_agree_with_trying_every_choice() {
    let mut dice = Dice(2025);
    for _ in 0..300 {
        let n = dice.roll(5) as usize;
        let m = dice.roll(7) as usize;
        let target = (0..n).map(|_| dice.roll(2) == 1).collect();
        let buttons = (0..m).map(|_| (0..n).map(|_| dice.roll(3) == 0).collect()).collect();
        let machine = lights(target, buttons);
        assert_eq!(solve_machine(&machine), lights_by_trial(&machine), "{:?}", machine);
    }
}

#[test]
fn counters_agree_with_trying_every_count() {
    let mut dice = Dice(7);
    for _ in 0..200 {
        let n = 1 + dice.roll(4) as usize;
        let m = dice.roll(5) as usize;
        let targets: Vec<i64> = (0..n).map(|_| dice.roll(5) as i64).collect();
        let button_indices = (0..m)
            .map(|_| (0..n + 1).filter(|_| dice.roll(2) == 0).collect())
            .collect();
        let machine = counters(button_indices, targets);
        assert_eq!(solve_joltage(&machine), Ok(counters_by_trial(&machine)), "{:?}", machine);
    }
}

#[test]
fn counters_same_answer_every_time() {
    let machine = parse_machine("[...#.] (0,2,3,4) (2,3) (0,4) (0,1,2) (1,2,3,4) {7,5,12,7,2}");
    let first = solve_joltage(&machine);
    for _ in 0..3 {
        assert_eq!(solve_joltage(&machine), first);
    }
}

#[test]
fn lights_whose_pivot_row_lies_below_the_frontier() {
    // light 0 is toggled by no button but the last; the first column finds its
    // pivot in the second row
    let machine = lights(vec![true, true], vec![mask(2, &[1]), mask(2, &[0])]);
    assert_eq!(solve_machine(&machine), Outcome::Cost(2));
    let machine = counters(vec![vec![1], vec![0]], vec![3, 4]);
    assert_eq!(solve_joltage(&machine), Ok(Outcome::Cost(7)));
}

#[test]
fn counters_with_a_button_that_counts_for_nothing() {
    // the second button touches no counter: it is never pressed
    let machine = counters(vec![vec![0], vec![], vec![7]], vec![2]);
    assert_eq!(solve_joltage(&machine), Ok(Outcome::Cost(2)));
    // a counter that no button touches must be zero already
    let machine = counters(vec![vec![0]], vec![2, 1]);
    assert_eq!(solve_joltage(&machine), Ok(Outcome::Infeasible));
}
