//! Rolls of paper on a grid: a roll can be taken away when fewer than four of
//! the eight places around it hold a roll.

use crate::text::{lines, lines_of, trim, trimmed, views};
use vstd::prelude::*;
use vstd::string::StringSliceAdditionalSpecFns;

verus! {

// ---------------------------------------------------------------------------
// The grid, stated mathematically
// ---------------------------------------------------------------------------

/// The place lies on the grid and holds a roll, written `@`.
pub open spec fn roll(grid: Seq<Seq<u8>>, r: int, c: int) -> bool {
    0 <= r < grid.len() && 0 <= c < grid[r].len() && grid[r][c] == 64
}

/// One if the place holds a roll, zero if not.
pub open spec fn one_if_roll(grid: Seq<Seq<u8>>, r: int, c: int) -> nat {
    if roll(grid, r, c) {
        1
    } else {
        0
    }
}

/// How many of the eight places around `(r, c)` hold a roll.
pub open spec fn adjacent(grid: Seq<Seq<u8>>, r: int, c: int) -> nat {
    one_if_roll(grid, r - 1, c - 1) + one_if_roll(grid, r - 1, c) + one_if_roll(grid, r - 1, c + 1)
        + one_if_roll(grid, r, c - 1) + one_if_roll(grid, r, c + 1) + one_if_roll(
        grid,
        r + 1,
        c - 1,
    ) + one_if_roll(grid, r + 1, c) + one_if_roll(grid, r + 1, c + 1)
}

/// The place holds a roll that can be taken away.
pub open spec fn loose(grid: Seq<Seq<u8>>, r: int, c: int) -> bool {
    roll(grid, r, c) && adjacent(grid, r, c) < 4
}

/// How many of the first `k` places of row `r` hold a loose roll.
pub open spec fn loose_in_row(grid: Seq<Seq<u8>>, r: int, k: nat) -> nat
    decreases k,
{
    if k == 0 {
        0
    } else {
        loose_in_row(grid, r, (k - 1) as nat) + if loose(grid, r, k - 1) {
            1nat
        } else {
            0nat
        }
    }
}

/// How many places of the first `k` rows hold a loose roll.
pub open spec fn loose_in_rows(grid: Seq<Seq<u8>>, k: nat) -> nat
    decreases k,
{
    if k == 0 {
        0
    } else {
        loose_in_rows(grid, (k - 1) as nat) + loose_in_row(grid, k - 1, grid[k - 1].len())
    }
}

/// How many places of the grid hold a loose roll.
pub open spec fn loose_rolls(grid: Seq<Seq<u8>>) -> nat {
    loose_in_rows(grid, grid.len())
}

/// How many of the first `k` places of row `r` hold a roll.
pub open spec fn rolls_in_row(grid: Seq<Seq<u8>>, r: int, k: nat) -> nat
    decreases k,
{
    if k == 0 {
        0
    } else {
        rolls_in_row(grid, r, (k - 1) as nat) + one_if_roll(grid, r, k - 1)
    }
}

/// How many places of the first `k` rows hold a roll.
pub open spec fn rolls_in_rows(grid: Seq<Seq<u8>>, k: nat) -> nat
    decreases k,
{
    if k == 0 {
        0
    } else {
        rolls_in_rows(grid, (k - 1) as nat) + rolls_in_row(grid, k - 1, grid[k - 1].len())
    }
}

/// The grid once every loose roll is taken away at the same time: its place
/// is then empty, written `.`.
pub open spec fn cleared(grid: Seq<Seq<u8>>) -> Seq<Seq<u8>> {
    Seq::new(
        grid.len(),
        |r: int|
            Seq::new(
                grid[r].len(),
                |c: int|
                    if loose(grid, r, c) {
                        46u8
                    } else {
                        grid[r][c]
                    },
            ),
    )
}

/// Taking the loose rolls of a row away leaves that many rolls fewer.
pub proof fn lemma_cleared_row(grid: Seq<Seq<u8>>, r: int, k: nat)
    requires
        0 <= r < grid.len(),
        k <= grid[r].len(),
    ensures
        rolls_in_row(cleared(grid), r, k) + loose_in_row(grid, r, k) == rolls_in_row(grid, r, k),
    decreases k,
{
    if k > 0 {
        lemma_cleared_row(grid, r, (k - 1) as nat);
    }
}

/// Taking the loose rolls away leaves that many rolls fewer.
pub proof fn lemma_cleared_rows(grid: Seq<Seq<u8>>, k: nat)
    requires
        k <= grid.len(),
    ensures
        rolls_in_rows(cleared(grid), k) + loose_in_rows(grid, k) == rolls_in_rows(grid, k),
    decreases k,
{
    if k > 0 {
        lemma_cleared_rows(grid, (k - 1) as nat);
        lemma_cleared_row(grid, k - 1, grid[k - 1].len());
    }
}

/// How many rolls are taken away in all when, round after round, every
/// loose roll is taken away, until no roll is loose.
pub open spec fn taken_away(grid: Seq<Seq<u8>>) -> nat
    decreases rolls_in_rows(grid, grid.len()),
{
    if loose_rolls(grid) == 0 {
        0
    } else {
        proof {
            lemma_cleared_rows(grid, grid.len());
        }
        loose_rolls(grid) + taken_away(cleared(grid))
    }
}

// ---------------------------------------------------------------------------
// The functions
// ---------------------------------------------------------------------------

/// The rows of the grid in `input`, one to a line.
pub fn parse_input(input: &str) -> (grid: Vec<Vec<u8>>)
    ensures
        views(grid@) == lines_of(input.spec_bytes()),
{
    lines(input.as_bytes())
}

/// Whether the place `(r, c)` holds a roll.
fn holds_roll(grid: &Vec<Vec<u8>>, r: usize, c: usize) -> (b: bool)
    ensures
        b == roll(views(grid@), r as int, c as int),
{
    if r < grid.len() {
        assert(views(grid@)[r as int] == grid[r as int]@);
        c < grid[r].len() && grid[r][c] == 64
    } else {
        false
    }
}

/// How many of the eight places around `(row, col)` hold a roll.
pub fn count_adjacent_papers(grid: &Vec<Vec<u8>>, row: usize, col: usize) -> (count: usize)
    requires
        row < usize::MAX,
        col < usize::MAX,
    ensures
        count == adjacent(views(grid@), row as int, col as int),
        count <= 8,
{
    let mut count: usize = 0;
    if row > 0 {
        if col > 0 && holds_roll(grid, row - 1, col - 1) {
            count += 1;
        }
        if holds_roll(grid, row - 1, col) {
            count += 1;
        }
        if holds_roll(grid, row - 1, col + 1) {
            count += 1;
        }
    }
    if col > 0 && holds_roll(grid, row, col - 1) {
        count += 1;
    }
    if holds_roll(grid, row, col + 1) {
        count += 1;
    }
    if col > 0 && holds_roll(grid, row + 1, col - 1) {
        count += 1;
    }
    if holds_roll(grid, row + 1, col) {
        count += 1;
    }
    if holds_roll(grid, row + 1, col + 1) {
        count += 1;
    }
    count
}

/// Whether the place holds a roll that can be taken away.
fn is_loose(grid: &Vec<Vec<u8>>, row: usize, col: usize) -> (b: bool)
    requires
        row < grid.len(),
        col < grid[row as int].len(),
    ensures
        b == loose(views(grid@), row as int, col as int),
{
    holds_roll(grid, row, col) && count_adjacent_papers(grid, row, col) < 4
}

/// Takes every loose roll away at the same time; returns the grid that is
/// left and how many rolls were taken. `None` when the count is more than a
/// `u32` holds.
fn clear_round(grid: &Vec<Vec<u8>>) -> (r: Option<(Vec<Vec<u8>>, u32)>)
    ensures
        r.is_some() <==> loose_rolls(views(grid@)) <= u32::MAX,
        r matches Some((next, count)) ==> views(next@) == cleared(views(grid@)) && count
            == loose_rolls(views(grid@)),
{
    let ghost g = views(grid@);
    let mut next: Vec<Vec<u8>> = Vec::new();
    let mut count: u32 = 0;
    for row in 0..grid.len()
        invariant
            g == views(grid@),
            next.len() == row,
            count == loose_in_rows(g, row as nat),
            forall|q: int| 0 <= q < row ==> (#[trigger] next[q])@ == cleared(g)[q],
    {
        assert(g[row as int] == grid[row as int]@);
        let width = grid[row].len();
        let mut line: Vec<u8> = Vec::new();
        let ghost before = count;
        for col in 0..width
            invariant
                g == views(grid@),
                row < grid.len(),
                width == grid[row as int].len(),
                g[row as int] == grid[row as int]@,
                line.len() == col,
                before == loose_in_rows(g, row as nat),
                count == before + loose_in_row(g, row as int, col as nat),
                forall|q: int| 0 <= q < col ==> line[q] == cleared(g)[row as int][q],
        {
            if is_loose(grid, row, col) {
                if count == u32::MAX {
                    proof {
                        lemma_loose_row_grows(g, row as int, (col + 1) as nat, width as nat);
                        lemma_loose_rows_grow(g, (row + 1) as nat, g.len());
                    }
                    return None;
                }
                count += 1;
                line.push(46);
            } else {
                line.push(grid[row][col]);
            }
        }
        proof {
            assert(line@ =~= cleared(g)[row as int]);
        }
        next.push(line);
    }
    proof {
        assert(views(next@) =~= cleared(g));
    }
    Some((next, count))
}

/// The count of loose rolls in a row does not shrink as places are added.
proof fn lemma_loose_row_grows(grid: Seq<Seq<u8>>, r: int, i: nat, k: nat)
    requires
        i <= k,
    ensures
        loose_in_row(grid, r, i) <= loose_in_row(grid, r, k),
    decreases k,
{
    if i < k {
        lemma_loose_row_grows(grid, r, i, (k - 1) as nat);
    }
}

/// The count of loose rolls does not shrink as rows are added.
proof fn lemma_loose_rows_grow(grid: Seq<Seq<u8>>, i: nat, k: nat)
    requires
        i <= k,
    ensures
        loose_in_rows(grid, i) <= loose_in_rows(grid, k),
    decreases k,
{
    if i < k {
        lemma_loose_rows_grow(grid, i, (k - 1) as nat);
    }
}

/// How many rolls of the grid in `input`, blanks around it left out, can be
/// taken away; `None` when the count is more than a `u32` holds.
pub fn part1(input: &str) -> (r: Option<u32>)
    ensures
        r.is_some() <==> loose_rolls(lines_of(trimmed(input.spec_bytes()))) <= u32::MAX,
        r matches Some(count) ==> count == loose_rolls(lines_of(trimmed(input.spec_bytes()))),
{
    let body = trim(input.as_bytes());
    let grid = lines(body.as_slice());
    match clear_round(&grid) {
        Some((_, count)) => Some(count),
        None => None,
    }
}

/// How many rolls of the grid in `input`, blanks around it left out, are
/// taken away in all when, round after round, every loose roll is taken
/// away; `None` when the count is more than a `u32` holds.
pub fn part2(input: &str) -> (r: Option<u32>)
    ensures
        r.is_some() <==> taken_away(lines_of(trimmed(input.spec_bytes()))) <= u32::MAX,
        r matches Some(count) ==> count == taken_away(lines_of(trimmed(input.spec_bytes()))),
{
    let body = trim(input.as_bytes());
    let mut grid = lines(body.as_slice());
    let ghost first = views(grid@);
    let mut total: u32 = 0;
    loop
        invariant
            first == lines_of(trimmed(input.spec_bytes())),
            total + taken_away(views(grid@)) == taken_away(first),
        decreases rolls_in_rows(views(grid@), views(grid@).len()),
    {
        let ghost g = views(grid@);
        proof {
            lemma_cleared_rows(g, g.len());
        }
        match clear_round(&grid) {
            None => {
                return None;
            },
            Some((next, count)) => {
                if count == 0 {
                    return Some(total);
                }
                if count > u32::MAX - total {
                    return None;
                }
                total = total + count;
                grid = next;
            },
        }
    }
}

} // verus!
