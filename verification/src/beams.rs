//! Beams that fall down a grid from a start `S` and split in two, to the left
//! and to the right, at every splitter `^`.

use crate::text::{lines, lines_of, trim, trimmed, views};
use vstd::prelude::*;
use vstd::string::StringSliceAdditionalSpecFns;

verus! {

// ---------------------------------------------------------------------------
// Stated mathematically
// ---------------------------------------------------------------------------

/// Every row is as wide as the first.
pub open spec fn rectangular(grid: Seq<Seq<u8>>) -> bool {
    forall|r: int| 0 <= r < grid.len() ==> (#[trigger] grid[r]).len() == grid[0].len()
}

/// The width of the grid: that of its first row.
pub open spec fn width_of(grid: Seq<Seq<u8>>) -> nat {
    if grid.len() > 0 {
        grid[0].len()
    } else {
        0
    }
}

/// `(r, c)` is the first place in reading order that holds `S`.
pub open spec fn is_start(grid: Seq<Seq<u8>>, r: int, c: int) -> bool {
    &&& 0 <= r < grid.len()
    &&& 0 <= c < grid[r].len()
    &&& grid[r][c] == 83
    &&& forall|q: int, d: int|
        0 <= q < grid.len() && 0 <= d < grid[q].len() && (q < r || (q == r && d < c)) ==> (
        #[trigger] grid[q][d]) != 83
}

/// The first place in reading order that holds `S`, as row and column, if
/// some place does.
pub open spec fn start_of(grid: Seq<Seq<u8>>) -> (int, int) {
    choose|p: (int, int)| is_start(grid, p.0, p.1)
}

/// The first place that holds `S` is the only one that `is_start` holds of.
pub proof fn lemma_start(grid: Seq<Seq<u8>>, r: int, c: int)
    requires
        is_start(grid, r, c),
    ensures
        start_of(grid) == (r, c),
{
    assert(is_start(grid, (r, c).0, (r, c).1));
    let p = start_of(grid);
    assert(is_start(grid, p.0, p.1));
    if p.0 < r || (p.0 == r && p.1 < c) {
        assert(grid[p.0][p.1] != 83);
    }
    if r < p.0 || (r == p.0 && c < p.1) {
        assert(grid[r][c] != 83);
    }
}

/// No place holds `S`.
pub open spec fn no_start(grid: Seq<Seq<u8>>) -> bool {
    forall|q: int, d: int| 0 <= q < grid.len() && 0 <= d < grid[q].len() ==> (#[trigger] grid[q][d]) != 83
}

/// Whether a beam is in column `c` below `row`, given the beams above it.
pub open spec fn beam_below(row: Seq<u8>, above: Seq<bool>, c: int) -> bool {
    ||| (above[c] && row[c] != 94)
    ||| (c > 0 && above[c - 1] && row[c - 1] == 94)
    ||| (c + 1 < above.len() && above[c + 1] && row[c + 1] == 94)
}

/// The beams below `row`, given the beams above it.
pub open spec fn beams_below(row: Seq<u8>, above: Seq<bool>) -> Seq<bool> {
    Seq::new(above.len(), |c: int| beam_below(row, above, c))
}

/// How many of the beams in the first `k` columns meet a splitter in `row`.
pub open spec fn splits_in(row: Seq<u8>, above: Seq<bool>, k: nat) -> nat
    decreases k,
{
    if k == 0 {
        0
    } else {
        splits_in(row, above, (k - 1) as nat) + if above[k - 1] && row[k - 1] == 94 {
            1nat
        } else {
            0nat
        }
    }
}

/// The beams above row `r`: one beam in the start's column below the start.
pub open spec fn beams_above(grid: Seq<Seq<u8>>, start_row: int, start_col: int, r: int) -> Seq<bool>
    decreases r - start_row,
{
    if r <= start_row + 1 {
        Seq::new(width_of(grid), |c: int| c == start_col)
    } else {
        beams_below(grid[r - 1], beams_above(grid, start_row, start_col, r - 1))
    }
}

/// How often a beam is split in the rows below the start and above row `r`.
pub open spec fn splits_above(grid: Seq<Seq<u8>>, start_row: int, start_col: int, r: int) -> nat
    decreases r - start_row,
{
    if r <= start_row + 1 {
        0
    } else {
        splits_above(grid, start_row, start_col, r - 1) + splits_in(
            grid[r - 1],
            beams_above(grid, start_row, start_col, r - 1),
            width_of(grid),
        )
    }
}

/// In how many ways a particle that enters row `row` in column `col` can
/// leave the grid at the bottom, when at every splitter it goes either left
/// or right and is lost if that takes it off the grid.
pub open spec fn timelines(grid: Seq<Seq<u8>>, row: int, col: int) -> nat
    decreases grid.len() - row,
{
    if row >= grid.len() {
        1
    } else if !(0 <= col < width_of(grid)) {
        0
    } else if grid[row][col] == 94 {
        (if col > 0 {
            timelines(grid, row + 1, col - 1)
        } else {
            0
        }) + (if col + 1 < width_of(grid) {
            timelines(grid, row + 1, col + 1)
        } else {
            0
        })
    } else {
        timelines(grid, row + 1, col)
    }
}

/// How often the beam that starts below the `S` of the grid is split.
pub open spec fn splits(grid: Seq<Seq<u8>>) -> nat {
    splits_above(grid, start_of(grid).0, start_of(grid).1, grid.len() as int)
}

/// In how many ways a particle that starts at the `S` of the grid can leave
/// the grid at the bottom.
pub open spec fn ways(grid: Seq<Seq<u8>>) -> nat {
    timelines(grid, start_of(grid).0 + 1, start_of(grid).1)
}

/// `n`, or the greatest `usize` if `n` is more than that.
pub open spec fn capped(n: nat) -> usize {
    if n >= usize::MAX {
        usize::MAX
    } else {
        n as usize
    }
}

// ---------------------------------------------------------------------------
// The functions
// ---------------------------------------------------------------------------

/// The rows of the grid in `input`, one to a line.
pub fn parse_grid(input: &str) -> (grid: Vec<Vec<u8>>)
    ensures
        views(grid@) == lines_of(input.spec_bytes()),
{
    lines(input.as_bytes())
}

/// The first place in reading order that holds `S`.
pub fn find_start(grid: &Vec<Vec<u8>>) -> (found: Option<(usize, usize)>)
    ensures
        match found {
            Some((r, c)) => is_start(views(grid@), r as int, c as int),
            None => no_start(views(grid@)),
        },
{
    let ghost g = views(grid@);
    for row in 0..grid.len()
        invariant
            g == views(grid@),
            forall|q: int, d: int| 0 <= q < row && 0 <= d < g[q].len() ==> (#[trigger] g[q][d]) != 83,
    {
        assert(g[row as int] == grid[row as int]@);
        let width = grid[row].len();
        for col in 0..width
            invariant
                g == views(grid@),
                row < grid.len(),
                width == grid[row as int].len(),
                g[row as int] == grid[row as int]@,
                forall|q: int, d: int|
                    0 <= q < row && 0 <= d < g[q].len() ==> (#[trigger] g[q][d]) != 83,
                forall|d: int| 0 <= d < col ==> (#[trigger] g[row as int][d]) != 83,
        {
            if grid[row][col] == 83 {
                return Some((row, col));
            }
        }
    }
    None
}

/// Whether every row is as wide as the first.
pub fn is_rectangular(grid: &Vec<Vec<u8>>) -> (r: bool)
    ensures
        r == rectangular(views(grid@)),
{
    let ghost g = views(grid@);
    if grid.len() == 0 {
        return true;
    }
    assert(g[0] == grid[0]@);
    let width = grid[0].len();
    for row in 0..grid.len()
        invariant
            g == views(grid@),
            grid.len() > 0,
            width == g[0].len(),
            forall|q: int| 0 <= q < row ==> (#[trigger] g[q]).len() == width,
    {
        assert(g[row as int] == grid[row as int]@);
        if grid[row].len() != width {
            return false;
        }
    }
    true
}

/// The count of splits in a row does not shrink as columns are added.
proof fn lemma_splits_in_grow(row: Seq<u8>, above: Seq<bool>, i: nat, k: nat)
    requires
        i <= k,
    ensures
        splits_in(row, above, i) <= splits_in(row, above, k),
    decreases k,
{
    if i < k {
        lemma_splits_in_grow(row, above, i, (k - 1) as nat);
    }
}

/// The count of splits does not shrink as rows are added.
proof fn lemma_splits_above_grow(grid: Seq<Seq<u8>>, sr: int, sc: int, i: int, k: int)
    requires
        i <= k,
    ensures
        splits_above(grid, sr, sc, i) <= splits_above(grid, sr, sc, k),
    decreases k - i,
{
    if i < k {
        lemma_splits_above_grow(grid, sr, sc, i, k - 1);
    }
}

/// How often a beam that starts below the `S` of the grid is split on its
/// way down; `None` when that is more than a `usize` holds.
pub fn simulate_beams(grid: &Vec<Vec<u8>>) -> (count: Option<usize>)
    requires
        rectangular(views(grid@)),
        !no_start(views(grid@)),
    ensures
        count.is_some() <==> splits(views(grid@)) <= usize::MAX,
        count matches Some(n) ==> n == splits(views(grid@)),
{
    let ghost g = views(grid@);
    let (start_row, start_col) = match find_start(grid) {
        Some(place) => place,
        None => {
            assert(false);
            return None;
        },
    };
    proof {
        lemma_start(g, start_row as int, start_col as int);
    }
    let height = grid.len();
    assert(g[0] == grid[0]@);
    let width = grid[0].len();
    assert(g[start_row as int].len() == width);
    let mut beams: Vec<bool> = Vec::new();
    for c in 0..width
        invariant
            beams.len() == c,
            forall|d: int| 0 <= d < c ==> beams[d] == (d == start_col),
    {
        beams.push(c == start_col);
    }
    assert(beams@ =~= beams_above(g, start_row as int, start_col as int, start_row + 1));
    let mut count: usize = 0;
    for r in (start_row + 1)..height
        invariant
            g == views(grid@),
            rectangular(g),
            height == grid.len(),
            width == width_of(g),
            start_row < height,
            is_start(g, start_row as int, start_col as int),
            start_of(g) == (start_row as int, start_col as int),
            beams@ == beams_above(g, start_row as int, start_col as int, r as int),
            beams.len() == width,
            count == splits_above(g, start_row as int, start_col as int, r as int),
    {
        assert(g[r as int] == grid[r as int]@);
        assert(g[r as int].len() == width);
        let ghost before = count;
        let mut next: Vec<bool> = Vec::new();
        for c in 0..width
            invariant
                g == views(grid@),
                r < grid.len(),
                g[r as int] == grid[r as int]@,
                grid[r as int].len() == width,
                beams.len() == width,
                next.len() == c,
                forall|d: int| 0 <= d < c ==> next[d] == beam_below(g[r as int], beams@, d),
                count == before + splits_in(g[r as int], beams@, c as nat),
                before == splits_above(g, start_row as int, start_col as int, r as int),
                beams@ == beams_above(g, start_row as int, start_col as int, r as int),
                width == width_of(g),
                height == grid.len(),
                start_row < r,
                is_start(g, start_row as int, start_col as int),
                start_of(g) == (start_row as int, start_col as int),
        {
            let stays = beams[c] && grid[r][c] != 94;
            let from_left = c > 0 && beams[c - 1] && grid[r][c - 1] == 94;
            let from_right = c + 1 < width && beams[c + 1] && grid[r][c + 1] == 94;
            next.push(stays || from_left || from_right);
            if beams[c] && grid[r][c] == 94 {
                if count == usize::MAX {
                    proof {
                        lemma_splits_in_grow(g[r as int], beams@, (c + 1) as nat, width as nat);
                        lemma_splits_above_grow(
                            g,
                            start_row as int,
                            start_col as int,
                            r + 1,
                            height as int,
                        );
                        assert(splits_in(g[r as int], beams@, (c + 1) as nat) == splits_in(
                            g[r as int],
                            beams@,
                            c as nat,
                        ) + 1);
                        assert(splits_above(g, start_row as int, start_col as int, r + 1)
                            == before + splits_in(g[r as int], beams@, width as nat));
                        assert(splits_above(
                            g,
                            start_row as int,
                            start_col as int,
                            g.len() as int,
                        ) > usize::MAX);
                    }
                    return None;
                }
                count += 1;
            }
        }
        proof {
            assert(next@ =~= beams_below(g[r as int], beams@));
        }
        beams = next;
    }
    Some(count)
}

/// How often a beam that starts below the `S` of the grid in `input`, blanks
/// around it left out, is split; `None` when the rows differ in width, no
/// place holds `S`, or the count is more than a `usize` holds.
pub fn part1(input: &str) -> (r: Option<usize>)
    ensures
        r.is_some() <==> rectangular(lines_of(trimmed(input.spec_bytes()))) && !no_start(
            lines_of(trimmed(input.spec_bytes())),
        ) && splits(lines_of(trimmed(input.spec_bytes()))) <= usize::MAX,
        r matches Some(n) ==> n == splits(lines_of(trimmed(input.spec_bytes()))),
{
    let body = trim(input.as_bytes());
    let grid = lines(body.as_slice());
    if !is_rectangular(&grid) {
        return None;
    }
    match find_start(&grid) {
        None => None,
        Some(_) => simulate_beams(&grid),
    }
}

/// The sum of two counts, or the greatest `usize` if that is less.
fn capped_sum(a: usize, b: usize) -> (s: usize)
    ensures
        s == if a + b >= usize::MAX {
            usize::MAX
        } else {
            (a + b) as usize
        },
{
    if a > usize::MAX - b {
        usize::MAX
    } else {
        a + b
    }
}

/// Every count that the table holds is the right one.
pub open spec fn memo_ok(grid: Seq<Seq<u8>>, memo: Seq<Vec<Option<usize>>>) -> bool {
    &&& memo.len() == grid.len()
    &&& forall|r: int| 0 <= r < memo.len() ==> (#[trigger] memo[r]).len() == width_of(grid)
    &&& forall|r: int, c: int|
        0 <= r < memo.len() && 0 <= c < memo[r].len() ==> match #[trigger] memo[r]@[c] {
            Some(n) => n == capped(timelines(grid, r, c)),
            None => true,
        }
}

/// In how many ways a particle that enters row `row` in column `col` can
/// leave the grid at the bottom; the greatest `usize` stands for that many
/// or more. Counts that were found are kept in `memo`.
pub fn count_timelines_recursive(
    grid: &Vec<Vec<u8>>,
    row: usize,
    col: usize,
    memo: &mut Vec<Vec<Option<usize>>>,
) -> (count: usize)
    requires
        rectangular(views(grid@)),
        memo_ok(views(grid@), old(memo)@),
        row <= grid.len(),
    ensures
        memo_ok(views(grid@), final(memo)@),
        count == capped(timelines(views(grid@), row as int, col as int)),
    decreases grid.len() - row,
{
    let ghost g = views(grid@);
    let height = grid.len();
    if row >= height {
        return 1;
    }
    assert(g[0] == grid[0]@);
    let width = grid[0].len();
    if col >= width {
        return 0;
    }
    assert(g[row as int] == grid[row as int]@);
    match memo[row][col] {
        Some(known) => {
            return known;
        },
        None => {},
    }
    let count = if grid[row][col] == 94 {
        let left = if col > 0 {
            count_timelines_recursive(grid, row + 1, col - 1, memo)
        } else {
            0
        };
        let right = if col + 1 < width {
            count_timelines_recursive(grid, row + 1, col + 1, memo)
        } else {
            0
        };
        capped_sum(left, right)
    } else {
        count_timelines_recursive(grid, row + 1, col, memo)
    };
    let ghost before = memo@;
    memo[row][col] = Some(count);
    proof {
        assert forall|r: int, c: int|
            0 <= r < memo@.len() && 0 <= c < memo@[r].len() implies match #[trigger] memo@[r]@[c] {
            Some(n) => n == capped(timelines(g, r, c)),
            None => true,
        } by {
            if r != row || c != col {
                assert(memo@[r]@[c] == before[r]@[c]);
            }
        }
    }
    count
}

/// In how many ways a particle that starts at the `S` of the grid can leave
/// the grid at the bottom; the greatest `usize` stands for that many or
/// more.
pub fn count_timelines(grid: &Vec<Vec<u8>>) -> (count: usize)
    requires
        rectangular(views(grid@)),
        !no_start(views(grid@)),
    ensures
        count == capped(ways(views(grid@))),
{
    let ghost g = views(grid@);
    let (start_row, start_col) = match find_start(grid) {
        Some(place) => place,
        None => {
            assert(false);
            return 0;
        },
    };
    proof {
        lemma_start(g, start_row as int, start_col as int);
    }
    assert(g[0] == grid[0]@);
    let width = grid[0].len();
    let mut memo: Vec<Vec<Option<usize>>> = Vec::new();
    for r in 0..grid.len()
        invariant
            memo.len() == r,
            forall|q: int| 0 <= q < r ==> (#[trigger] memo[q]).len() == width,
            forall|q: int, c: int|
                0 <= q < r && 0 <= c < width ==> (#[trigger] memo[q]@[c]).is_none(),
    {
        let mut line: Vec<Option<usize>> = Vec::new();
        for c in 0..width
            invariant
                line.len() == c,
                forall|d: int| 0 <= d < c ==> (#[trigger] line[d]).is_none(),
        {
            line.push(None);
        }
        memo.push(line);
    }
    count_timelines_recursive(grid, start_row + 1, start_col, &mut memo)
}

/// In how many ways a particle that starts at the `S` of the grid in
/// `input`, blanks around it left out, can leave the grid at the bottom;
/// `None` when the rows differ in width, no place holds `S`, or the count is
/// not less than the greatest `usize`.
pub fn part2(input: &str) -> (r: Option<usize>)
    ensures
        r.is_some() <==> rectangular(lines_of(trimmed(input.spec_bytes()))) && !no_start(
            lines_of(trimmed(input.spec_bytes())),
        ) && ways(lines_of(trimmed(input.spec_bytes()))) < usize::MAX,
        r matches Some(n) ==> n == ways(lines_of(trimmed(input.spec_bytes()))),
{
    let body = trim(input.as_bytes());
    let grid = lines(body.as_slice());
    if !is_rectangular(&grid) {
        return None;
    }
    match find_start(&grid) {
        None => None,
        Some(_) => {
            let count = count_timelines(&grid);
            if count == usize::MAX {
                None
            } else {
                Some(count)
            }
        },
    }
}

} // verus!
