//! What it means to fill a grid with shapes and gaps, and how a filling
//! changes when one of its steps is taken out or one is added.

use crate::packing::{covers, covers_same};
use vstd::prelude::*;

verus! {

/// One step of filling a grid: a shape laid down in one of its orientations
/// with its corner at column `col` of row `row`, or a place left as a gap.
pub enum Step {
    Piece { shape: usize, turn: usize, row: i32, col: i32 },
    Gap { y: usize, x: usize },
}

/// The cells of the orientation `turn` of the shape `shape`.
pub open spec fn piece_cells(turns: Seq<Seq<Seq<(i32, i32)>>>, shape: usize, turn: usize) -> Seq<(i32, i32)> {
    turns[shape as int][turn as int]
}

/// The place `(x, y)` lies on the grid and is empty.
pub open spec fn vacant(grid: Seq<Seq<bool>>, y: int, x: int) -> bool {
    0 <= y < grid.len() && 0 <= x < grid[y].len() && !grid[y][x]
}

/// With its corner at column `col` of row `row`, every cell lies on an
/// empty place of the grid.
pub open spec fn lies_free(grid: Seq<Seq<bool>>, cells: Seq<(i32, i32)>, row: int, col: int) -> bool {
    forall|i: int| 0 <= i < cells.len() ==> vacant(grid, row + (#[trigger] cells[i]).1, col + cells[i].0)
}

/// The two grids have rows of the same lengths.
pub open spec fn same_size(a: Seq<Seq<bool>>, b: Seq<Seq<bool>>) -> bool {
    a.len() == b.len() && forall|y: int| 0 <= y < a.len() ==> (#[trigger] a[y]).len() == b[y].len()
}

/// The step takes the place `(x, y)`.
pub open spec fn takes(step: Step, turns: Seq<Seq<Seq<(i32, i32)>>>, y: int, x: int) -> bool {
    match step {
        Step::Piece { shape, turn, row, col } => covers(
            piece_cells(turns, shape, turn),
            row as int,
            col as int,
            piece_cells(turns, shape, turn).len() as int,
            y,
            x,
        ),
        Step::Gap { y: gy, x: gx } => gy == y && gx == x,
    }
}

/// The step can be made on the grid: a piece is an orientation of one of
/// the shapes in `indices` and lies on empty places, a gap is an empty
/// place.
pub open spec fn allowed(
    step: Step,
    grid: Seq<Seq<bool>>,
    indices: Seq<usize>,
    turns: Seq<Seq<Seq<(i32, i32)>>>,
) -> bool {
    match step {
        Step::Piece { shape, turn, row, col } => indices.contains(shape) && shape < turns.len()
            && turn < turns[shape as int].len() && lies_free(
            grid,
            piece_cells(turns, shape, turn),
            row as int,
            col as int,
        ),
        Step::Gap { y, x } => vacant(grid, y as int, x as int),
    }
}

/// The two steps take no place in common.
pub open spec fn apart(a: Step, b: Step, turns: Seq<Seq<Seq<(i32, i32)>>>) -> bool {
    forall|y: int, x: int| !(#[trigger] takes(a, turns, y, x) && takes(b, turns, y, x))
}

/// The step lays down the shape `shape`.
pub open spec fn lays(step: Step, shape: usize) -> bool {
    step matches Step::Piece { shape: s, .. } && s == shape
}

/// How many of the steps lay down the shape `shape`.
pub open spec fn uses(steps: Seq<Step>, shape: usize) -> nat
    decreases steps.len(),
{
    if steps.len() == 0 {
        0
    } else {
        uses(steps.drop_last(), shape) + if lays(steps.last(), shape) {
            1nat
        } else {
            0nat
        }
    }
}

/// How many of the steps are gaps.
pub open spec fn gaps_in(steps: Seq<Step>) -> nat
    decreases steps.len(),
{
    if steps.len() == 0 {
        0
    } else {
        gaps_in(steps.drop_last()) + if steps.last() is Gap {
            1nat
        } else {
            0nat
        }
    }
}

/// The steps fill the grid: each can be made on it, no two take the same
/// place, no shape is laid down more often than `counts` allows, at most
/// `gaps` places are left as gaps, and every empty place is taken.
pub open spec fn is_filling(
    steps: Seq<Step>,
    grid: Seq<Seq<bool>>,
    counts: Seq<usize>,
    indices: Seq<usize>,
    turns: Seq<Seq<Seq<(i32, i32)>>>,
    gaps: nat,
) -> bool {
    &&& forall|k: int| 0 <= k < steps.len() ==> allowed(#[trigger] steps[k], grid, indices, turns)
    &&& forall|j: int, k: int|
        0 <= j < k < steps.len() ==> apart(#[trigger] steps[j], #[trigger] steps[k], turns)
    &&& forall|s: usize| s < counts.len() ==> #[trigger] uses(steps, s) <= counts[s as int]
    &&& gaps_in(steps) <= gaps
    &&& forall|y: int, x: int| #[trigger]
        vacant(grid, y, x) ==> exists|k: int|
            0 <= k < steps.len() && takes(#[trigger] steps[k], turns, y, x)
}

/// The grid can be filled.
pub open spec fn can_fill(
    grid: Seq<Seq<bool>>,
    counts: Seq<usize>,
    indices: Seq<usize>,
    turns: Seq<Seq<Seq<(i32, i32)>>>,
    gaps: nat,
) -> bool {
    exists|steps: Seq<Step>| is_filling(steps, grid, counts, indices, turns, gaps)
}

/// The grid `b` is the grid `a` with the places of the step taken.
pub open spec fn grown_by(
    a: Seq<Seq<bool>>,
    b: Seq<Seq<bool>>,
    step: Step,
    turns: Seq<Seq<Seq<(i32, i32)>>>,
) -> bool {
    same_size(a, b) && forall|y: int, x: int|
        0 <= y < b.len() && 0 <= x < b[y].len() ==> #[trigger] b[y][x] == (a[y][x] || takes(
            step,
            turns,
            y,
            x,
        ))
}

/// What is left to use after the step: one less of the shape that it lays
/// down, or one gap less.
pub open spec fn left_after(
    counts: Seq<usize>,
    gaps: nat,
    step: Step,
    counts_left: Seq<usize>,
    gaps_left: nat,
) -> bool {
    &&& counts_left.len() == counts.len()
    &&& forall|s: int|
        0 <= s < counts.len() ==> #[trigger] counts_left[s] + (if lays(step, s as usize) {
            1int
        } else {
            0int
        }) == counts[s]
    &&& gaps_left + (if step is Gap {
        1int
    } else {
        0int
    }) == gaps
}

/// `(tx, ty)` is the first empty place from top to bottom and, in a row,
/// from left to right.
pub open spec fn first_empty_at(grid: Seq<Seq<bool>>, ty: int, tx: int) -> bool {
    vacant(grid, ty, tx) && forall|y: int, x: int| #[trigger]
        vacant(grid, y, x) ==> ty < y || (ty == y && tx <= x)
}

/// `first` is the cell that comes first from top to bottom and, in a row,
/// from left to right.
pub open spec fn is_first_cell(cells: Seq<(i32, i32)>, first: (i32, i32)) -> bool {
    &&& exists|k: int| 0 <= k < cells.len() && first == #[trigger] cells[k]
    &&& forall|k: int|
        0 <= k < cells.len() ==> first.1 < (#[trigger] cells[k]).1 || (first.1 == cells[k].1
            && first.0 <= cells[k].0)
}

/// Some filling lays the orientation `turn` of the shape `shape` on the
/// place `(tx, ty)`.
pub open spec fn fills_through(
    grid: Seq<Seq<bool>>,
    counts: Seq<usize>,
    indices: Seq<usize>,
    turns: Seq<Seq<Seq<(i32, i32)>>>,
    gaps: nat,
    ty: int,
    tx: int,
    shape: usize,
    turn: usize,
) -> bool {
    exists|steps: Seq<Step>, k: int|
        #![trigger steps[k]]
        is_filling(steps, grid, counts, indices, turns, gaps) && 0 <= k < steps.len() && (
        steps[k] matches Step::Piece { shape: s, turn: t, .. } && s == shape && t == turn) && takes(
            steps[k],
            turns,
            ty,
            tx,
        )
}

/// One of the first `s` indices is `shape`.
pub open spec fn came_before(indices: Seq<usize>, s: int, shape: usize) -> bool {
    exists|q: int| 0 <= q < s && #[trigger] indices[q] == shape
}

// ---------------------------------------------------------------------------
// Counting steps
// ---------------------------------------------------------------------------

proof fn lemma_counts_push(steps: Seq<Step>, step: Step, shape: usize)
    ensures
        uses(steps.push(step), shape) == uses(steps, shape) + if lays(step, shape) {
            1nat
        } else {
            0nat
        },
        gaps_in(steps.push(step)) == gaps_in(steps) + if step is Gap {
            1nat
        } else {
            0nat
        },
{
    assert(steps.push(step).drop_last() =~= steps);
}

proof fn lemma_counts_remove(steps: Seq<Step>, k: int, shape: usize)
    requires
        0 <= k < steps.len(),
    ensures
        uses(steps, shape) == uses(steps.remove(k), shape) + if lays(steps[k], shape) {
            1nat
        } else {
            0nat
        },
        gaps_in(steps) == gaps_in(steps.remove(k)) + if steps[k] is Gap {
            1nat
        } else {
            0nat
        },
    decreases steps.len(),
{
    if k == steps.len() - 1 {
        assert(steps.remove(k) =~= steps.drop_last());
    } else {
        lemma_counts_remove(steps.drop_last(), k, shape);
        assert(steps.remove(k).drop_last() =~= steps.drop_last().remove(k));
        assert(steps.remove(k).last() == steps.last());
    }
}

// ---------------------------------------------------------------------------
// Taking a step out, adding one
// ---------------------------------------------------------------------------

/// A step that can be made takes empty places only.
pub proof fn lemma_taken_was_empty(
    step: Step,
    grid: Seq<Seq<bool>>,
    indices: Seq<usize>,
    turns: Seq<Seq<Seq<(i32, i32)>>>,
    y: int,
    x: int,
)
    requires
        allowed(step, grid, indices, turns),
        takes(step, turns, y, x),
    ensures
        vacant(grid, y, x),
{
    match step {
        Step::Piece { shape, turn, row, col } => {
            let cells = piece_cells(turns, shape, turn);
            let i = choose|i: int|
                0 <= i < cells.len() && row + (#[trigger] cells[i]).1 == y && col + cells[i].0 == x;
            assert(vacant(grid, row + cells[i].1, col + cells[i].0));
        },
        Step::Gap { .. } => {},
    }
}

/// A step that takes empty places of the grown grid only can be made on the
/// grid before it grew.
proof fn lemma_allowed_before(
    step: Step,
    a: Seq<Seq<bool>>,
    b: Seq<Seq<bool>>,
    by: Step,
    indices: Seq<usize>,
    turns: Seq<Seq<Seq<(i32, i32)>>>,
)
    requires
        grown_by(a, b, by, turns),
        allowed(step, b, indices, turns),
    ensures
        allowed(step, a, indices, turns),
        apart(step, by, turns),
{
    assert forall|y: int, x: int| #[trigger] vacant(b, y, x) implies vacant(a, y, x) && !takes(
        by,
        turns,
        y,
        x,
    ) by {
        assert(a[y].len() == b[y].len());
        assert(b[y][x] == (a[y][x] || takes(by, turns, y, x)));
    }
    match step {
        Step::Piece { shape, turn, row, col } => {
            let cells = piece_cells(turns, shape, turn);
            assert forall|i: int| 0 <= i < cells.len() implies vacant(
                a,
                row + (#[trigger] cells[i]).1,
                col + cells[i].0,
            ) by {
                assert(vacant(b, row + cells[i].1, col + cells[i].0));
            }
        },
        Step::Gap { .. } => {},
    }
    assert forall|y: int, x: int| !(#[trigger] takes(step, turns, y, x) && takes(
        by,
        turns,
        y,
        x,
    )) by {
        if takes(step, turns, y, x) {
            lemma_taken_was_empty(step, b, indices, turns, y, x);
        }
    }
}

/// A step that can be made and lies apart from the step by which the grid
/// grows can still be made afterwards.
proof fn lemma_allowed_after(
    step: Step,
    a: Seq<Seq<bool>>,
    b: Seq<Seq<bool>>,
    by: Step,
    indices: Seq<usize>,
    turns: Seq<Seq<Seq<(i32, i32)>>>,
)
    requires
        grown_by(a, b, by, turns),
        allowed(step, a, indices, turns),
        apart(step, by, turns),
    ensures
        allowed(step, b, indices, turns),
{
    match step {
        Step::Piece { shape, turn, row, col } => {
            let cells = piece_cells(turns, shape, turn);
            assert forall|i: int| 0 <= i < cells.len() implies vacant(
                b,
                row + (#[trigger] cells[i]).1,
                col + cells[i].0,
            ) by {
                let y = row + cells[i].1;
                let x = col + cells[i].0;
                assert(vacant(a, y, x));
                assert(takes(step, turns, y, x));
                assert(a[y].len() == b[y].len());
                assert(b[y][x] == (a[y][x] || takes(by, turns, y, x)));
            }
        },
        Step::Gap { y, x } => {
            assert(takes(step, turns, y as int, x as int));
            assert(a[y as int].len() == b[y as int].len());
            assert(b[y as int][x as int] == (a[y as int][x as int] || takes(
                by,
                turns,
                y as int,
                x as int,
            )));
        },
    }
}

/// A filling without one of its steps fills the grid on which that step
/// has been made, with what is left after it.
pub proof fn lemma_without_step(
    steps: Seq<Step>,
    k: int,
    a: Seq<Seq<bool>>,
    b: Seq<Seq<bool>>,
    counts: Seq<usize>,
    counts_left: Seq<usize>,
    indices: Seq<usize>,
    turns: Seq<Seq<Seq<(i32, i32)>>>,
    gaps: nat,
    gaps_left: nat,
)
    requires
        is_filling(steps, a, counts, indices, turns, gaps),
        0 <= k < steps.len(),
        grown_by(a, b, steps[k], turns),
        left_after(counts, gaps, steps[k], counts_left, gaps_left),
    ensures
        is_filling(steps.remove(k), b, counts_left, indices, turns, gaps_left),
{
    let rest = steps.remove(k);
    assert forall|j: int| 0 <= j < rest.len() implies allowed(
        #[trigger] rest[j],
        b,
        indices,
        turns,
    ) by {
        let was = if j < k {
            j
        } else {
            j + 1
        };
        assert(rest[j] == steps[was]);
        if was < k {
            assert(apart(steps[was], steps[k], turns));
        } else {
            assert(apart(steps[k], steps[was], turns));
            assert forall|y: int, x: int| !(#[trigger] takes(steps[was], turns, y, x) && takes(
                steps[k],
                turns,
                y,
                x,
            )) by {
                assert(!(takes(steps[k], turns, y, x) && takes(steps[was], turns, y, x)));
            }
        }
        lemma_allowed_after(steps[was], a, b, steps[k], indices, turns);
    }
    assert forall|i: int, j: int| 0 <= i < j < rest.len() implies apart(
        #[trigger] rest[i],
        #[trigger] rest[j],
        turns,
    ) by {
        let was_i = if i < k {
            i
        } else {
            i + 1
        };
        let was_j = if j < k {
            j
        } else {
            j + 1
        };
        assert(rest[i] == steps[was_i] && rest[j] == steps[was_j]);
        assert(apart(steps[was_i], steps[was_j], turns));
    }
    assert forall|s: usize| s < counts_left.len() implies #[trigger] uses(rest, s)
        <= counts_left[s as int] by {
        lemma_counts_remove(steps, k, s);
        assert(uses(steps, s) <= counts[s as int]);
        assert(counts_left[s as int] + (if lays(steps[k], s) {
            1int
        } else {
            0int
        }) == counts[s as int]);
    }
    lemma_counts_remove(steps, k, 0);
    assert forall|y: int, x: int| #[trigger] vacant(b, y, x) implies exists|j: int|
        0 <= j < rest.len() && takes(#[trigger] rest[j], turns, y, x) by {
        assert(a[y].len() == b[y].len());
        assert(b[y][x] == (a[y][x] || takes(steps[k], turns, y, x)));
        assert(vacant(a, y, x));
        let was = choose|was: int| 0 <= was < steps.len() && takes(#[trigger] steps[was], turns, y, x);
        let j = if was < k {
            was
        } else {
            was - 1
        };
        assert(rest[j] == steps[was]);
    }
}

/// A filling of the grid on which a step has been made, with that step
/// added, fills the grid as it was before.
pub proof fn lemma_with_step(
    rest: Seq<Step>,
    step: Step,
    a: Seq<Seq<bool>>,
    b: Seq<Seq<bool>>,
    counts: Seq<usize>,
    counts_left: Seq<usize>,
    indices: Seq<usize>,
    turns: Seq<Seq<Seq<(i32, i32)>>>,
    gaps: nat,
    gaps_left: nat,
)
    requires
        is_filling(rest, b, counts_left, indices, turns, gaps_left),
        allowed(step, a, indices, turns),
        grown_by(a, b, step, turns),
        left_after(counts, gaps, step, counts_left, gaps_left),
    ensures
        is_filling(rest.push(step), a, counts, indices, turns, gaps),
{
    let steps = rest.push(step);
    assert forall|k: int| 0 <= k < steps.len() implies allowed(
        #[trigger] steps[k],
        a,
        indices,
        turns,
    ) by {
        if k < rest.len() {
            assert(steps[k] == rest[k]);
            lemma_allowed_before(rest[k], a, b, step, indices, turns);
        }
    }
    assert forall|j: int, k: int| 0 <= j < k < steps.len() implies apart(
        #[trigger] steps[j],
        #[trigger] steps[k],
        turns,
    ) by {
        assert(steps[j] == rest[j]);
        if k < rest.len() {
            assert(steps[k] == rest[k]);
            assert(apart(rest[j], rest[k], turns));
        } else {
            lemma_allowed_before(rest[j], a, b, step, indices, turns);
        }
    }
    assert forall|s: usize| s < counts.len() implies #[trigger] uses(steps, s) <= counts[s as int] by {
        lemma_counts_push(rest, step, s);
        assert(uses(rest, s) <= counts_left[s as int]);
        assert(counts_left[s as int] + (if lays(step, s) {
            1int
        } else {
            0int
        }) == counts[s as int]);
    }
    lemma_counts_push(rest, step, 0);
    assert forall|y: int, x: int| #[trigger] vacant(a, y, x) implies exists|k: int|
        0 <= k < steps.len() && takes(#[trigger] steps[k], turns, y, x) by {
        if takes(step, turns, y, x) {
            assert(steps[rest.len() as int] == step);
        } else {
            assert(a[y].len() == b[y].len());
            assert(b[y][x] == (a[y][x] || takes(step, turns, y, x)));
            assert(vacant(b, y, x));
            let k = choose|k: int| 0 <= k < rest.len() && takes(#[trigger] rest[k], turns, y, x);
            assert(steps[k] == rest[k]);
        }
    }
}

/// A full grid is filled by no steps at all.
pub proof fn lemma_full_is_filled(
    grid: Seq<Seq<bool>>,
    counts: Seq<usize>,
    indices: Seq<usize>,
    turns: Seq<Seq<Seq<(i32, i32)>>>,
    gaps: nat,
)
    requires
        forall|y: int, x: int| !#[trigger] vacant(grid, y, x),
    ensures
        can_fill(grid, counts, indices, turns, gaps),
{
    let none = Seq::<Step>::empty();
    assert(is_filling(none, grid, counts, indices, turns, gaps));
}

// ---------------------------------------------------------------------------
// The step that takes the first empty place
// ---------------------------------------------------------------------------

/// A piece that takes the first empty place of the grid has its first cell
/// there.
pub proof fn lemma_anchor(
    grid: Seq<Seq<bool>>,
    indices: Seq<usize>,
    turns: Seq<Seq<Seq<(i32, i32)>>>,
    ty: int,
    tx: int,
    shape: usize,
    turn: usize,
    row: i32,
    col: i32,
    first: (i32, i32),
)
    requires
        first_empty_at(grid, ty, tx),
        allowed(Step::Piece { shape, turn, row, col }, grid, indices, turns),
        takes(Step::Piece { shape, turn, row, col }, turns, ty, tx),
        is_first_cell(piece_cells(turns, shape, turn), first),
    ensures
        row + first.1 == ty,
        col + first.0 == tx,
{
    let cells = piece_cells(turns, shape, turn);
    let f = choose|k: int| 0 <= k < cells.len() && first == #[trigger] cells[k];
    assert(vacant(grid, row + cells[f].1, col + cells[f].0));
    let i = choose|i: int|
        0 <= i < cells.len() && row + (#[trigger] cells[i]).1 == ty && col + cells[i].0 == tx;
    assert(first.1 < cells[i].1 || (first.1 == cells[i].1 && first.0 <= cells[i].0));
}

/// Some filling holds the step.
pub open spec fn fills_with(
    grid: Seq<Seq<bool>>,
    counts: Seq<usize>,
    indices: Seq<usize>,
    turns: Seq<Seq<Seq<(i32, i32)>>>,
    gaps: nat,
    step: Step,
) -> bool {
    exists|steps: Seq<Step>, k: int|
        #![trigger steps[k]]
        is_filling(steps, grid, counts, indices, turns, gaps) && 0 <= k < steps.len() && steps[k]
            == step
}

/// A filling that lays a piece on the first empty place lays it with its
/// first cell there.
pub proof fn lemma_through_is_with(
    grid: Seq<Seq<bool>>,
    counts: Seq<usize>,
    indices: Seq<usize>,
    turns: Seq<Seq<Seq<(i32, i32)>>>,
    gaps: nat,
    ty: int,
    tx: int,
    shape: usize,
    turn: usize,
    first: (i32, i32),
)
    requires
        first_empty_at(grid, ty, tx),
        is_first_cell(piece_cells(turns, shape, turn), first),
        fills_through(grid, counts, indices, turns, gaps, ty, tx, shape, turn),
    ensures
        i32::MIN <= ty - first.1 <= i32::MAX,
        i32::MIN <= tx - first.0 <= i32::MAX,
        fills_with(
            grid,
            counts,
            indices,
            turns,
            gaps,
            Step::Piece { shape, turn, row: (ty - first.1) as i32, col: (tx - first.0) as i32 },
        ),
        lies_free(grid, piece_cells(turns, shape, turn), ty - first.1, tx - first.0),
{
    let (steps, k) = choose|steps: Seq<Step>, k: int|
        #![trigger steps[k]]
        is_filling(steps, grid, counts, indices, turns, gaps) && 0 <= k < steps.len() && (
        steps[k] matches Step::Piece { shape: s, turn: t, .. } && s == shape && t == turn) && takes(
            steps[k],
            turns,
            ty,
            tx,
        );
    match steps[k] {
        Step::Piece { shape: s, turn: t, row, col } => {
            assert(steps[k] == Step::Piece { shape, turn, row, col });
            assert(allowed(steps[k], grid, indices, turns));
            lemma_anchor(grid, indices, turns, ty, tx, shape, turn, row, col, first);
        },
        Step::Gap { .. } => {},
    }
}

/// No filling lays a piece on the first empty place if none is left of its
/// shape, if it has no cells, or if it does not fit with its first cell
/// there.
pub proof fn lemma_cannot_lay(
    grid: Seq<Seq<bool>>,
    counts: Seq<usize>,
    indices: Seq<usize>,
    turns: Seq<Seq<Seq<(i32, i32)>>>,
    gaps: nat,
    ty: int,
    tx: int,
    shape: usize,
    turn: usize,
    first: (i32, i32),
)
    requires
        first_empty_at(grid, ty, tx),
        shape < counts.len(),
        ({
            let cells = piece_cells(turns, shape, turn);
            ||| counts[shape as int] == 0
            ||| turn >= turns[shape as int].len()
            ||| cells.len() == 0
            ||| is_first_cell(cells, first) && !(i32::MIN <= ty - first.1 <= i32::MAX && i32::MIN
                <= tx - first.0 <= i32::MAX && lies_free(grid, cells, ty - first.1, tx - first.0))
        }),
    ensures
        !fills_through(grid, counts, indices, turns, gaps, ty, tx, shape, turn),
{
    if fills_through(grid, counts, indices, turns, gaps, ty, tx, shape, turn) {
        let (steps, k) = choose|steps: Seq<Step>, k: int|
            #![trigger steps[k]]
            is_filling(steps, grid, counts, indices, turns, gaps) && 0 <= k < steps.len() && (
            steps[k] matches Step::Piece { shape: s, turn: t, .. } && s == shape && t == turn)
                && takes(steps[k], turns, ty, tx);
        lemma_counts_remove(steps, k, shape);
        assert(uses(steps, shape) <= counts[shape as int]);
        assert(allowed(steps[k], grid, indices, turns));
        let cells = piece_cells(turns, shape, turn);
        if is_first_cell(cells, first) {
            lemma_through_is_with(grid, counts, indices, turns, gaps, ty, tx, shape, turn, first);
        }
    }
}

/// If the grid on which a step has been made cannot be filled with what is
/// left, no filling holds the step.
pub proof fn lemma_step_in_vain(
    a: Seq<Seq<bool>>,
    b: Seq<Seq<bool>>,
    counts: Seq<usize>,
    counts_left: Seq<usize>,
    indices: Seq<usize>,
    turns: Seq<Seq<Seq<(i32, i32)>>>,
    gaps: nat,
    gaps_left: nat,
    step: Step,
)
    requires
        grown_by(a, b, step, turns),
        left_after(counts, gaps, step, counts_left, gaps_left),
        !can_fill(b, counts_left, indices, turns, gaps_left),
    ensures
        !fills_with(a, counts, indices, turns, gaps, step),
{
    if fills_with(a, counts, indices, turns, gaps, step) {
        let (steps, k) = choose|steps: Seq<Step>, k: int|
            #![trigger steps[k]]
            is_filling(steps, a, counts, indices, turns, gaps) && 0 <= k < steps.len() && steps[k]
                == step;
        lemma_without_step(steps, k, a, b, counts, counts_left, indices, turns, gaps, gaps_left);
        assert(is_filling(steps.remove(k), b, counts_left, indices, turns, gaps_left));
    }
}

/// If the grid on which a step has been made can be filled with what is
/// left, the grid can be filled.
pub proof fn lemma_step_made(
    a: Seq<Seq<bool>>,
    b: Seq<Seq<bool>>,
    counts: Seq<usize>,
    counts_left: Seq<usize>,
    indices: Seq<usize>,
    turns: Seq<Seq<Seq<(i32, i32)>>>,
    gaps: nat,
    gaps_left: nat,
    step: Step,
)
    requires
        allowed(step, a, indices, turns),
        grown_by(a, b, step, turns),
        left_after(counts, gaps, step, counts_left, gaps_left),
        can_fill(b, counts_left, indices, turns, gaps_left),
    ensures
        can_fill(a, counts, indices, turns, gaps),
{
    let rest = choose|rest: Seq<Step>| is_filling(rest, b, counts_left, indices, turns, gaps_left);
    lemma_with_step(rest, step, a, b, counts, counts_left, indices, turns, gaps, gaps_left);
    assert(is_filling(rest.push(step), a, counts, indices, turns, gaps));
}

/// The grid cannot be filled if no filling takes its first empty place:
/// neither with a piece of one of the shapes nor with a gap.
pub proof fn lemma_cannot_fill(
    grid: Seq<Seq<bool>>,
    counts: Seq<usize>,
    indices: Seq<usize>,
    turns: Seq<Seq<Seq<(i32, i32)>>>,
    gaps: nat,
    ty: usize,
    tx: usize,
)
    requires
        vacant(grid, ty as int, tx as int),
        forall|shape: usize, turn: usize|
            came_before(indices, indices.len() as int, shape) ==> !#[trigger] fills_through(
                grid,
                counts,
                indices,
                turns,
                gaps,
                ty as int,
                tx as int,
                shape,
                turn,
            ),
        !fills_with(grid, counts, indices, turns, gaps, Step::Gap { y: ty, x: tx }),
    ensures
        !can_fill(grid, counts, indices, turns, gaps),
{
    if can_fill(grid, counts, indices, turns, gaps) {
        let steps = choose|steps: Seq<Step>| is_filling(steps, grid, counts, indices, turns, gaps);
        let k = choose|k: int|
            0 <= k < steps.len() && takes(#[trigger] steps[k], turns, ty as int, tx as int);
        assert(allowed(steps[k], grid, indices, turns));
        match steps[k] {
            Step::Piece { shape, turn, row, col } => {
                assert(came_before(indices, indices.len() as int, shape));
                assert(fills_through(
                    grid,
                    counts,
                    indices,
                    turns,
                    gaps,
                    ty as int,
                    tx as int,
                    shape,
                    turn,
                ));
            },
            Step::Gap { y, x } => {
                assert(steps[k] == Step::Gap { y: ty, x: tx });
                assert(fills_with(grid, counts, indices, turns, gaps, Step::Gap { y: ty, x: tx }));
            },
        }
    }
}

/// No filling holds a gap when no gap is allowed.
pub proof fn lemma_no_gap_left(
    grid: Seq<Seq<bool>>,
    counts: Seq<usize>,
    indices: Seq<usize>,
    turns: Seq<Seq<Seq<(i32, i32)>>>,
    step: Step,
)
    requires
        step is Gap,
    ensures
        !fills_with(grid, counts, indices, turns, 0, step),
{
    if fills_with(grid, counts, indices, turns, 0, step) {
        let (steps, k) = choose|steps: Seq<Step>, k: int|
            #![trigger steps[k]]
            is_filling(steps, grid, counts, indices, turns, 0) && 0 <= k < steps.len() && steps[k]
                == step;
        lemma_counts_remove(steps, k, 0);
    }
}

/// A filling stays one when more shapes may be used.
pub proof fn lemma_more_indices(
    steps: Seq<Step>,
    grid: Seq<Seq<bool>>,
    counts: Seq<usize>,
    indices: Seq<usize>,
    others: Seq<usize>,
    turns: Seq<Seq<Seq<(i32, i32)>>>,
    gaps: nat,
)
    requires
        is_filling(steps, grid, counts, indices, turns, gaps),
        forall|k: int| 0 <= k < indices.len() ==> others.contains(#[trigger] indices[k]),
    ensures
        is_filling(steps, grid, counts, others, turns, gaps),
{
    assert forall|k: int| 0 <= k < steps.len() implies allowed(
        #[trigger] steps[k],
        grid,
        others,
        turns,
    ) by {
        assert(allowed(steps[k], grid, indices, turns));
        match steps[k] {
            Step::Piece { shape, turn, row, col } => {
                let q = choose|q: int| 0 <= q < indices.len() && indices[q] == shape;
                assert(others.contains(indices[q]));
            },
            Step::Gap { .. } => {},
        }
    }
}

// ---------------------------------------------------------------------------
// Other lists of orientations
// ---------------------------------------------------------------------------

/// One of the listed orientations covers exactly these cells.
pub open spec fn shown(list: Seq<Seq<(i32, i32)>>, cells: Seq<(i32, i32)>) -> bool {
    exists|p: usize| p < list.len() && covers_same(#[trigger] list[p as int], cells)
}

/// Whatever an orientation listed in `from` covers, an orientation listed
/// in `to` for the same shape covers too.
pub open spec fn turns_within(
    from: Seq<Seq<Seq<(i32, i32)>>>,
    to: Seq<Seq<Seq<(i32, i32)>>>,
) -> bool {
    from.len() == to.len() && forall|s: int, o: int|
        0 <= s < from.len() && 0 <= o < from[s].len() ==> shown(to[s], #[trigger] from[s][o])
}

/// The step with its orientation taken from the other list.
pub open spec fn turned_step(
    step: Step,
    from: Seq<Seq<Seq<(i32, i32)>>>,
    to: Seq<Seq<Seq<(i32, i32)>>>,
) -> Step {
    match step {
        Step::Piece { shape, turn, row, col } => {
            let list = to[shape as int];
            let cells = from[shape as int][turn as int];
            let p = choose|p: usize| p < list.len() && covers_same(#[trigger] list[p as int], cells);
            Step::Piece { shape, turn: p, row, col }
        },
        Step::Gap { .. } => step,
    }
}

/// The steps with their orientations taken from the other list.
pub open spec fn turned(
    steps: Seq<Step>,
    from: Seq<Seq<Seq<(i32, i32)>>>,
    to: Seq<Seq<Seq<(i32, i32)>>>,
) -> Seq<Step> {
    Seq::new(steps.len(), |k: int| turned_step(steps[k], from, to))
}

proof fn lemma_turned_counts(
    steps: Seq<Step>,
    from: Seq<Seq<Seq<(i32, i32)>>>,
    to: Seq<Seq<Seq<(i32, i32)>>>,
    shape: usize,
)
    ensures
        uses(turned(steps, from, to), shape) == uses(steps, shape),
        gaps_in(turned(steps, from, to)) == gaps_in(steps),
    decreases steps.len(),
{
    if steps.len() > 0 {
        lemma_turned_counts(steps.drop_last(), from, to, shape);
        assert(turned(steps, from, to).drop_last() =~= turned(steps.drop_last(), from, to));
    }
}

/// A step with its orientation taken from the other list takes the same
/// places and can be made on the same grids.
proof fn lemma_turned_step(
    step: Step,
    grid: Seq<Seq<bool>>,
    indices: Seq<usize>,
    from: Seq<Seq<Seq<(i32, i32)>>>,
    to: Seq<Seq<Seq<(i32, i32)>>>,
)
    requires
        turns_within(from, to),
        allowed(step, grid, indices, from),
    ensures
        allowed(turned_step(step, from, to), grid, indices, to),
        forall|y: int, x: int|
            takes(step, from, y, x) == #[trigger] takes(turned_step(step, from, to), to, y, x),
{
    match step {
        Step::Piece { shape, turn, row, col } => {
            let list = to[shape as int];
            let cells = from[shape as int][turn as int];
            assert(shown(list, cells));
            let p = choose|p: usize| p < list.len() && covers_same(#[trigger] list[p as int], cells);
            let other = list[p as int];
            assert(turned_step(step, from, to) == Step::Piece { shape, turn: p, row, col });
            assert(piece_cells(to, shape, p) == other);
            assert forall|i: int| 0 <= i < other.len() implies vacant(
                grid,
                row + (#[trigger] other[i]).1,
                col + other[i].0,
            ) by {
                assert(cells.contains(other[i]));
                let j = choose|j: int| 0 <= j < cells.len() && cells[j] == other[i];
                assert(vacant(grid, row + cells[j].1, col + cells[j].0));
            }
            assert forall|y: int, x: int|
                takes(step, from, y, x) == #[trigger] takes(
                    turned_step(step, from, to),
                    to,
                    y,
                    x,
                ) by {
                if takes(step, from, y, x) {
                    let i = choose|i: int|
                        0 <= i < cells.len() && row + (#[trigger] cells[i]).1 == y && col
                            + cells[i].0 == x;
                    assert(other.contains(cells[i]));
                    let j = choose|j: int| 0 <= j < other.len() && other[j] == cells[i];
                    assert(row + other[j].1 == y && col + other[j].0 == x);
                }
                if takes(turned_step(step, from, to), to, y, x) {
                    let j = choose|j: int|
                        0 <= j < other.len() && row + (#[trigger] other[j]).1 == y && col
                            + other[j].0 == x;
                    assert(cells.contains(other[j]));
                    let i = choose|i: int| 0 <= i < cells.len() && cells[i] == other[j];
                    assert(row + cells[i].1 == y && col + cells[i].0 == x);
                }
            }
        },
        Step::Gap { .. } => {},
    }
}

/// What can be filled with the orientations of one list can be filled with
/// those of a list that covers whatever the first covers.
pub proof fn lemma_other_turns(
    grid: Seq<Seq<bool>>,
    counts: Seq<usize>,
    indices: Seq<usize>,
    from: Seq<Seq<Seq<(i32, i32)>>>,
    to: Seq<Seq<Seq<(i32, i32)>>>,
    gaps: nat,
)
    requires
        turns_within(from, to),
        can_fill(grid, counts, indices, from, gaps),
    ensures
        can_fill(grid, counts, indices, to, gaps),
{
    let steps = choose|steps: Seq<Step>| is_filling(steps, grid, counts, indices, from, gaps);
    let others = turned(steps, from, to);
    assert forall|k: int| 0 <= k < others.len() implies allowed(
        #[trigger] others[k],
        grid,
        indices,
        to,
    ) by {
        assert(allowed(steps[k], grid, indices, from));
        lemma_turned_step(steps[k], grid, indices, from, to);
    }
    assert forall|j: int, k: int| 0 <= j < k < others.len() implies apart(
        #[trigger] others[j],
        #[trigger] others[k],
        to,
    ) by {
        assert(allowed(steps[j], grid, indices, from));
        assert(allowed(steps[k], grid, indices, from));
        lemma_turned_step(steps[j], grid, indices, from, to);
        lemma_turned_step(steps[k], grid, indices, from, to);
        assert(apart(steps[j], steps[k], from));
        assert forall|y: int, x: int| !(#[trigger] takes(others[j], to, y, x) && takes(
            others[k],
            to,
            y,
            x,
        )) by {
            assert(!(takes(steps[j], from, y, x) && takes(steps[k], from, y, x)));
        }
    }
    assert forall|s: usize| s < counts.len() implies #[trigger] uses(others, s)
        <= counts[s as int] by {
        lemma_turned_counts(steps, from, to, s);
        assert(uses(steps, s) <= counts[s as int]);
    }
    lemma_turned_counts(steps, from, to, 0);
    assert forall|y: int, x: int| #[trigger] vacant(grid, y, x) implies exists|k: int|
        0 <= k < others.len() && takes(#[trigger] others[k], to, y, x) by {
        let k = choose|k: int| 0 <= k < steps.len() && takes(#[trigger] steps[k], from, y, x);
        assert(allowed(steps[k], grid, indices, from));
        lemma_turned_step(steps[k], grid, indices, from, to);
        assert(takes(others[k], to, y, x));
    }
    assert(is_filling(others, grid, counts, indices, to, gaps));
}

} // verus!
