//! Shapes made of unit cells, and regions that a given number of each shape
//! must fit into without overlap; shapes may be turned and flipped.

use crate::devices::{words, words_of};
use crate::fillings::{
    allowed, came_before, can_fill, fills_through, fills_with, first_empty_at, grown_by,
    is_filling, is_first_cell, left_after, lemma_cannot_fill, lemma_cannot_lay,
    lemma_full_is_filled, lemma_more_indices, lemma_no_gap_left, lemma_other_turns,
    lemma_step_in_vain, lemma_step_made, lemma_through_is_with, lies_free, piece_cells, shown,
    takes, turns_within, vacant, Step,
};
use crate::machine::usize_of;
use crate::text::{lines, lines_of, parse_usize, split_at_byte, split_where, trim, trimmed, views};
use vstd::string::StringSliceAdditionalSpecFns;
use vstd::prelude::*;

verus! {

/// A shape: the cells that it covers, as pairs `(x, y)`.
#[derive(Debug, Clone, PartialEq, Eq)]
pub struct Shape {
    pub cells: Vec<(i32, i32)>,
}

/// A region and how many of each shape it must take.
#[derive(Debug)]
pub struct Region {
    pub width: usize,
    pub height: usize,
    pub required_shapes: Vec<usize>,
}

// ---------------------------------------------------------------------------
// Shapes, stated mathematically
// ---------------------------------------------------------------------------

/// The least first coordinate among the first `k` cells.
pub open spec fn least_x(cells: Seq<(i32, i32)>, k: nat) -> int
    decreases k,
{
    if k <= 1 {
        cells[0].0 as int
    } else {
        let before = least_x(cells, (k - 1) as nat);
        if cells[k - 1].0 < before {
            cells[k - 1].0 as int
        } else {
            before
        }
    }
}

/// The least second coordinate among the first `k` cells.
pub open spec fn least_y(cells: Seq<(i32, i32)>, k: nat) -> int
    decreases k,
{
    if k <= 1 {
        cells[0].1 as int
    } else {
        let before = least_y(cells, (k - 1) as nat);
        if cells[k - 1].1 < before {
            cells[k - 1].1 as int
        } else {
            before
        }
    }
}

/// No two cells are further apart, in either coordinate, than an `i32`
/// holds.
pub open spec fn spread_fits(cells: Seq<(i32, i32)>) -> bool {
    forall|i: int, j: int|
        0 <= i < cells.len() && 0 <= j < cells.len() ==> (#[trigger] cells[i]).0 - (
        #[trigger] cells[j]).0 <= i32::MAX && cells[i].1 - cells[j].1 <= i32::MAX
}

/// No coordinate is negative.
pub open spec fn in_corner(cells: Seq<(i32, i32)>) -> bool {
    forall|i: int| 0 <= i < cells.len() ==> (#[trigger] cells[i]).0 >= 0 && cells[i].1 >= 0
}

/// The cells moved so that the least of each coordinate is zero.
pub open spec fn normalized(cells: Seq<(i32, i32)>) -> Seq<(i32, i32)> {
    Seq::new(
        cells.len(),
        |i: int|
            (
                (cells[i].0 - least_x(cells, cells.len())) as i32,
                (cells[i].1 - least_y(cells, cells.len())) as i32,
            ),
    )
}

/// The cells turned by a quarter: `(x, y)` goes to `(-y, x)`.
pub open spec fn quarter_turned(cells: Seq<(i32, i32)>) -> Seq<(i32, i32)> {
    Seq::new(cells.len(), |i: int| ((-cells[i].1) as i32, cells[i].0))
}

/// The cells mirrored: `(x, y)` goes to `(-x, y)`.
pub open spec fn mirrored(cells: Seq<(i32, i32)>) -> Seq<(i32, i32)> {
    Seq::new(cells.len(), |i: int| ((-cells[i].0) as i32, cells[i].1))
}

/// The shape after `t` quarter turns, each followed by a move to the corner.
pub open spec fn turns(cells: Seq<(i32, i32)>, t: nat) -> Seq<(i32, i32)>
    decreases t,
{
    if t == 0 {
        cells
    } else {
        normalized(quarter_turned(turns(cells, (t - 1) as nat)))
    }
}

/// The eight orientations: four turns of the shape, four of its mirror image.
pub open spec fn orientation(cells: Seq<(i32, i32)>, t: nat) -> Seq<(i32, i32)> {
    if t < 4 {
        turns(cells, t)
    } else {
        turns(normalized(mirrored(cells)), (t - 4) as nat)
    }
}

/// `cells` is one of the eight orientations of `of`.
pub open spec fn is_orientation(of: Seq<(i32, i32)>, cells: Seq<(i32, i32)>) -> bool {
    exists|t: nat| t < 8 && cells == #[trigger] orientation(of, t)
}

/// Every cell of `a` is a cell of `b`.
pub open spec fn part_of(a: Seq<(i32, i32)>, b: Seq<(i32, i32)>) -> bool {
    forall|i: int| 0 <= i < a.len() ==> b.contains(#[trigger] a[i])
}

/// The two lists name the same cells.
pub open spec fn covers_same(a: Seq<(i32, i32)>, b: Seq<(i32, i32)>) -> bool {
    part_of(a, b) && part_of(b, a)
}

/// One of the shapes covers exactly these cells.
pub open spec fn listed(found: Seq<Shape>, cells: Seq<(i32, i32)>) -> bool {
    exists|k: int| 0 <= k < found.len() && covers_same((#[trigger] found[k]).cells@, cells)
}

/// The cells that the first `k` bytes of a line draw with `#`, as the line
/// number `y` of a drawing.
pub open spec fn drawn_in_row(line: Seq<u8>, y: int, k: nat) -> Seq<(i32, i32)>
    decreases k,
{
    if k == 0 {
        Seq::<(i32, i32)>::empty()
    } else {
        let before = drawn_in_row(line, y, (k - 1) as nat);
        if line[k - 1] == 35 {
            before.push(((k - 1) as i32, y as i32))
        } else {
            before
        }
    }
}

/// The cells that the first `k` lines draw with `#`, line by line.
pub open spec fn drawn(drawing: Seq<Seq<u8>>, k: nat) -> Seq<(i32, i32)>
    decreases k,
{
    if k == 0 {
        Seq::<(i32, i32)>::empty()
    } else {
        drawn(drawing, (k - 1) as nat) + drawn_in_row(drawing[k - 1], k - 1, drawing[k - 1].len())
    }
}

/// The shape that the lines draw with `#`, moved to the corner; `None` when
/// a line or the number of lines is more than an `i32` counts.
pub open spec fn shape_of(drawing: Seq<Seq<u8>>) -> Option<Seq<(i32, i32)>> {
    if can_draw(drawing) {
        Some(normalized(drawn(drawing, drawing.len())))
    } else {
        None
    }
}

/// Neither a line nor the number of lines is more than an `i32` counts.
pub open spec fn can_draw(drawing: Seq<Seq<u8>>) -> bool {
    drawing.len() <= 0x8000_0000 && forall|y: int|
        0 <= y < drawing.len() ==> (#[trigger] drawing[y]).len() <= 0x8000_0000
}

/// The least coordinates are below every cell and are those of some cell.
proof fn lemma_least(cells: Seq<(i32, i32)>, k: nat)
    requires
        1 <= k <= cells.len(),
    ensures
        forall|i: int| 0 <= i < k ==> least_x(cells, k) <= (#[trigger] cells[i]).0,
        forall|i: int| 0 <= i < k ==> least_y(cells, k) <= (#[trigger] cells[i]).1,
        exists|i: int| 0 <= i < k && least_x(cells, k) == (#[trigger] cells[i]).0,
        exists|i: int| 0 <= i < k && least_y(cells, k) == (#[trigger] cells[i]).1,
    decreases k,
{
    if k > 1 {
        lemma_least(cells, (k - 1) as nat);
        let i = choose|i: int| 0 <= i < k - 1 && least_x(cells, (k - 1) as nat) == (
        #[trigger] cells[i]).0;
        let j = choose|j: int| 0 <= j < k - 1 && least_y(cells, (k - 1) as nat) == (
        #[trigger] cells[j]).1;
        assert(cells[i].0 == least_x(cells, (k - 1) as nat));
        assert(cells[j].1 == least_y(cells, (k - 1) as nat));
        assert(cells[k - 1].0 == cells[k - 1].0);
    } else {
        assert(cells[0].0 == least_x(cells, k));
    }
}

/// Cells in the corner stay in the corner under the moves that make up the
/// orientations.
proof fn lemma_normalized_in_corner(cells: Seq<(i32, i32)>)
    requires
        spread_fits(cells),
    ensures
        in_corner(normalized(cells)),
        normalized(cells).len() == cells.len(),
{
    if cells.len() > 0 {
        lemma_least(cells, cells.len());
        let i = choose|i: int| 0 <= i < cells.len() && least_x(cells, cells.len()) == (
        #[trigger] cells[i]).0;
        let j = choose|j: int| 0 <= j < cells.len() && least_y(cells, cells.len()) == (
        #[trigger] cells[j]).1;
        assert forall|q: int| 0 <= q < cells.len() implies (#[trigger] normalized(cells)[q]).0 >= 0
            && normalized(cells)[q].1 >= 0 by {
            assert(cells[q].0 - cells[i].0 <= i32::MAX);
            assert(cells[q].1 - cells[j].1 <= i32::MAX);
        }
    }
}

// ---------------------------------------------------------------------------
// Shapes
// ---------------------------------------------------------------------------

impl Shape {
    /// No coordinate is negative.
    pub open spec fn wf(&self) -> bool {
        in_corner(self.cells@)
    }

    /// The cells moved so that the least of each coordinate is zero.
    pub fn normalize(cells: Vec<(i32, i32)>) -> (shape: Shape)
        requires
            spread_fits(cells@),
        ensures
            shape.cells@ == normalized(cells@),
            shape.wf(),
    {
        if cells.len() == 0 {
            assert(cells@ =~= normalized(cells@));
            return Shape { cells };
        }
        let mut min_x = cells[0].0;
        let mut min_y = cells[0].1;
        for k in 1..cells.len()
            invariant
                cells.len() > 0,
                min_x == least_x(cells@, k as nat),
                min_y == least_y(cells@, k as nat),
        {
            if cells[k].0 < min_x {
                min_x = cells[k].0;
            }
            if cells[k].1 < min_y {
                min_y = cells[k].1;
            }
        }
        proof {
            lemma_least(cells@, cells.len() as nat);
            lemma_normalized_in_corner(cells@);
        }
        let ghost at_x = choose|i: int|
            0 <= i < cells.len() && least_x(cells@, cells.len() as nat) == (#[trigger] cells@[i]).0;
        let ghost at_y = choose|i: int|
            0 <= i < cells.len() && least_y(cells@, cells.len() as nat) == (#[trigger] cells@[i]).1;
        let mut moved: Vec<(i32, i32)> = Vec::new();
        for k in 0..cells.len()
            invariant
                spread_fits(cells@),
                0 <= at_x < cells.len(),
                0 <= at_y < cells.len(),
                min_x == cells@[at_x].0,
                min_y == cells@[at_y].1,
                min_x == least_x(cells@, cells.len() as nat),
                min_y == least_y(cells@, cells.len() as nat),
                forall|i: int| 0 <= i < cells.len() ==> min_x <= (#[trigger] cells@[i]).0,
                forall|i: int| 0 <= i < cells.len() ==> min_y <= (#[trigger] cells@[i]).1,
                moved.len() == k,
                forall|i: int| 0 <= i < k ==> moved@[i] == normalized(cells@)[i],
        {
            assert(cells@[k as int].0 - cells@[at_x].0 <= i32::MAX);
            assert(cells@[k as int].1 - cells@[at_y].1 <= i32::MAX);
            moved.push((cells[k].0 - min_x, cells[k].1 - min_y));
        }
        assert(moved@ =~= normalized(cells@));
        Shape { cells: moved }
    }

    /// The shape that the lines draw with `#`, moved to the corner; `None`
    /// when a line or the number of lines is more than an `i32` counts.
    pub fn parse(drawing: &Vec<Vec<u8>>) -> (shape: Option<Shape>)
        ensures
            match shape {
                Some(s) => s.wf() && shape_of(views(drawing@)) == Some(s.cells@),
                None => shape_of(views(drawing@)).is_none(),
            },
    {
        let ghost texts = views(drawing@);
        let mut cells: Vec<(i32, i32)> = Vec::new();
        for y in 0..drawing.len()
            invariant
                texts == views(drawing@),
                in_corner(cells@),
                y <= 0x8000_0000,
                forall|q: int| 0 <= q < y ==> (#[trigger] texts[q]).len() <= 0x8000_0000,
                cells@ == drawn(texts, y as nat),
                forall|i: int| 0 <= i < cells.len() ==> (#[trigger] cells[i]).0 <= i32::MAX,
        {
            assert(texts.len() == drawing.len());
            assert(texts[y as int] == drawing[y as int]@);
            if y > 0x7fff_ffff {
                return None;
            }
            let width = drawing[y].len();
            let ghost above = cells@;
            for x in 0..width
                invariant
                    y <= 0x7fff_ffff,
                    y < drawing.len(),
                    texts == views(drawing@),
                    texts.len() == drawing.len(),
                    texts[y as int] == drawing[y as int]@,
                    width == drawing[y as int].len(),
                    x <= 0x8000_0000,
                    in_corner(cells@),
                    cells@ == above + drawn_in_row(texts[y as int], y as int, x as nat),
            {
                if x > 0x7fff_ffff {
                    assert(texts[y as int].len() > 0x8000_0000);
                    return None;
                }
                if drawing[y][x] == 35 {
                    cells.push((x as i32, y as i32));
                }
                assert(cells@ =~= above + drawn_in_row(texts[y as int], y as int, (x + 1) as nat));
            }
        }
        assert(spread_fits(cells@));
        Some(Shape::normalize(cells))
    }

    /// The shape turned by a quarter and moved to the corner.
    pub fn rotate_90(&self) -> (turned: Shape)
        requires
            self.wf(),
        ensures
            turned.wf(),
            turned.cells@ == normalized(quarter_turned(self.cells@)),
    {
        let mut cells: Vec<(i32, i32)> = Vec::new();
        for k in 0..self.cells.len()
            invariant
                self.wf(),
                cells.len() == k,
                forall|i: int| 0 <= i < k ==> cells@[i] == quarter_turned(self.cells@)[i],
        {
            let (x, y) = self.cells[k];
            cells.push((-y, x));
        }
        assert(cells@ =~= quarter_turned(self.cells@));
        Shape::normalize(cells)
    }

    /// The mirror image of the shape, moved to the corner.
    pub fn flip_horizontal(&self) -> (flipped: Shape)
        requires
            self.wf(),
        ensures
            flipped.wf(),
            flipped.cells@ == normalized(mirrored(self.cells@)),
    {
        let mut cells: Vec<(i32, i32)> = Vec::new();
        for k in 0..self.cells.len()
            invariant
                self.wf(),
                cells.len() == k,
                forall|i: int| 0 <= i < k ==> cells@[i] == mirrored(self.cells@)[i],
        {
            let (x, y) = self.cells[k];
            cells.push((-x, y));
        }
        assert(cells@ =~= mirrored(self.cells@));
        Shape::normalize(cells)
    }

    /// A second copy of the shape.
    pub fn duplicate(&self) -> (copy: Shape)
        ensures
            copy.cells@ == self.cells@,
    {
        let mut cells: Vec<(i32, i32)> = Vec::new();
        for k in 0..self.cells.len()
            invariant
                cells.len() == k,
                forall|i: int| 0 <= i < k ==> cells@[i] == self.cells@[i],
        {
            cells.push(self.cells[k]);
        }
        assert(cells@ =~= self.cells@);
        Shape { cells }
    }

    /// Whether the shape has a cell at `(x, y)`.
    pub fn has_cell(&self, x: i32, y: i32) -> (has: bool)
        ensures
            has == self.cells@.contains((x, y)),
    {
        for k in 0..self.cells.len()
            invariant
                forall|i: int| 0 <= i < k ==> self.cells@[i] != (x, y),
        {
            let (a, b) = self.cells[k];
            if a == x && b == y {
                assert(self.cells@[k as int] == (x, y));
                return true;
            }
        }
        false
    }

    /// Whether every cell of the shape is a cell of `other`.
    pub fn within(&self, other: &Shape) -> (inside: bool)
        ensures
            inside == part_of(self.cells@, other.cells@),
    {
        for k in 0..self.cells.len()
            invariant
                forall|i: int| 0 <= i < k ==> other.cells@.contains(#[trigger] self.cells@[i]),
        {
            let (x, y) = self.cells[k];
            if !other.has_cell(x, y) {
                assert(!other.cells@.contains(self.cells@[k as int]));
                return false;
            }
        }
        true
    }

    /// Whether the two shapes cover the same cells.
    pub fn same_cover(&self, other: &Shape) -> (same: bool)
        ensures
            same == covers_same(self.cells@, other.cells@),
    {
        self.within(other) && other.within(self)
    }

    /// The orientations of the shape: its four turns and the four turns of
    /// its mirror image; of those that cover the same cells, only the first
    /// is listed.
    pub fn all_orientations(&self) -> (found: Vec<Shape>)
        requires
            self.wf(),
        ensures
            forall|k: int| 0 <= k < found.len() ==> (#[trigger] found[k]).wf(),
            forall|k: int|
                0 <= k < found.len() ==> is_orientation(self.cells@, (#[trigger] found[k]).cells@),
            forall|t: nat| t < 8 ==> listed(found@, #[trigger] orientation(self.cells@, t)),
            forall|i: int, j: int|
                0 <= i < j < found.len() ==> !covers_same(
                    (#[trigger] found[i]).cells@,
                    (#[trigger] found[j]).cells@,
                ),
    {
        let mut found: Vec<Shape> = Vec::new();
        let mut current = self.duplicate();
        let mut t: usize = 0;
        while t < 8
            invariant
                self.wf(),
                t <= 8,
                current.wf(),
                t < 8 ==> current.cells@ == orientation(self.cells@, t as nat),
                forall|k: int| 0 <= k < found.len() ==> (#[trigger] found[k]).wf(),
                forall|k: int|
                    0 <= k < found.len() ==> is_orientation(
                        self.cells@,
                        (#[trigger] found[k]).cells@,
                    ),
                forall|u: nat| u < t ==> listed(found@, #[trigger] orientation(self.cells@, u)),
                forall|i: int, j: int|
                    0 <= i < j < found.len() ==> !covers_same(
                        (#[trigger] found[i]).cells@,
                        (#[trigger] found[j]).cells@,
                    ),
            decreases 8 - t,
        {
            let mut known = false;
            for k in 0..found.len()
                invariant
                    known == exists|q: int|
                        0 <= q < k && covers_same((#[trigger] found[q]).cells@, current.cells@),
            {
                if found[k].same_cover(&current) {
                    known = true;
                }
            }
            let ghost before = found@;
            let ghost now = current.cells@;
            if !known {
                found.push(current.duplicate());
            }
            proof {
                assert forall|u: nat| u < t + 1 implies listed(
                    found@,
                    #[trigger] orientation(self.cells@, u),
                ) by {
                    if u < t {
                        let k = choose|k: int|
                            0 <= k < before.len() && covers_same(
                                (#[trigger] before[k]).cells@,
                                orientation(self.cells@, u),
                            );
                        assert(found[k] == before[k]);
                    } else if known {
                        let q = choose|q: int|
                            0 <= q < before.len() && covers_same(
                                (#[trigger] before[q]).cells@,
                                now,
                            );
                        assert(found[q] == before[q]);
                    } else {
                        assert(found[found.len() - 1].cells@ == orientation(self.cells@, u));
                    }
                }
                assert forall|k: int| 0 <= k < found.len() implies is_orientation(
                    self.cells@,
                    (#[trigger] found[k]).cells@,
                ) by {
                    if k < before.len() {
                        assert(found[k] == before[k]);
                    } else {
                        assert(found[k].cells@ == orientation(self.cells@, t as nat));
                    }
                }
                assert forall|i: int, j: int| 0 <= i < j < found.len() implies !covers_same(
                    (#[trigger] found[i]).cells@,
                    (#[trigger] found[j]).cells@,
                ) by {
                    if j < before.len() {
                        assert(found[i] == before[i] && found[j] == before[j]);
                    } else {
                        assert(found[i] == before[i]);
                    }
                }
            }
            t += 1;
            if t == 4 {
                current = self.flip_horizontal();
            } else if t < 8 {
                current = current.rotate_90();
            }
        }
        found
    }

    /// The cell that comes first from top to bottom and, in a row, from
    /// left to right.
    pub fn first_cell(&self) -> (first: (i32, i32))
        requires
            self.cells.len() > 0,
        ensures
            exists|k: int| 0 <= k < self.cells.len() && first == #[trigger] self.cells@[k],
            forall|k: int|
                0 <= k < self.cells.len() ==> first.1 < (#[trigger] self.cells@[k]).1 || (first.1
                    == self.cells@[k].1 && first.0 <= self.cells@[k].0),
    {
        let mut min = self.cells[0];
        let ghost mut at: int = 0;
        for k in 1..self.cells.len()
            invariant
                0 <= at < self.cells.len(),
                min == self.cells@[at],
                forall|q: int|
                    0 <= q < k ==> min.1 < (#[trigger] self.cells@[q]).1 || (min.1
                        == self.cells@[q].1 && min.0 <= self.cells@[q].0),
        {
            let cell = self.cells[k];
            if cell.1 < min.1 || (cell.1 == min.1 && cell.0 < min.0) {
                min = cell;
                proof {
                    at = k as int;
                }
            }
        }
        min
    }
}

// ---------------------------------------------------------------------------
// Placing shapes on a grid
// ---------------------------------------------------------------------------

/// The place `(x, y)` lies on the grid and is empty.
pub open spec fn empty_at(grid: Seq<Vec<bool>>, y: int, x: int) -> bool {
    0 <= y < grid.len() && 0 <= x < grid[y].len() && !grid[y][x]
}

/// With its corner at column `col` of row `row`, each of the first `k` cells
/// lies on an empty place of the grid.
pub open spec fn fits_upto(grid: Seq<Vec<bool>>, cells: Seq<(i32, i32)>, row: int, col: int, k: int) -> bool {
    forall|i: int| 0 <= i < k ==> empty_at(grid, row + (#[trigger] cells[i]).1, col + cells[i].0)
}

/// With its corner at column `col` of row `row`, the shape lies on empty
/// places of the grid.
pub open spec fn fits(grid: Seq<Vec<bool>>, cells: Seq<(i32, i32)>, row: int, col: int) -> bool {
    fits_upto(grid, cells, row, col, cells.len() as int)
}

/// One of the first `k` cells lies on the place `(x, y)`.
pub open spec fn covers(cells: Seq<(i32, i32)>, row: int, col: int, k: int, y: int, x: int) -> bool {
    exists|i: int| 0 <= i < k && row + (#[trigger] cells[i]).1 == y && col + cells[i].0 == x
}

/// The two grids have rows of the same lengths.
pub open spec fn same_shape(a: Seq<Vec<bool>>, b: Seq<Vec<bool>>) -> bool {
    a.len() == b.len() && forall|y: int| 0 <= y < a.len() ==> (#[trigger] a[y]).len() == b[y].len()
}

/// The two grids hold the same.
pub open spec fn same_grid(a: Seq<Vec<bool>>, b: Seq<Vec<bool>>) -> bool {
    a.len() == b.len() && forall|y: int| 0 <= y < a.len() ==> (#[trigger] a[y])@ == b[y]@
}

/// Every place of the grid is taken.
pub open spec fn full(grid: Seq<Vec<bool>>) -> bool {
    forall|y: int, x: int| 0 <= y < grid.len() && 0 <= x < grid[y].len() ==> (#[trigger] grid[y]@[x])
}

/// How many of the first `k` places of the row are empty.
pub open spec fn empty_in_row(row: Seq<bool>, k: nat) -> nat
    decreases k,
{
    if k == 0 {
        0
    } else {
        empty_in_row(row, (k - 1) as nat) + if row[k - 1] {
            0nat
        } else {
            1nat
        }
    }
}

/// How many places of the first `k` rows are empty.
pub open spec fn empty_places(grid: Seq<Vec<bool>>, k: nat) -> nat
    decreases k,
{
    if k == 0 {
        0
    } else {
        empty_places(grid, (k - 1) as nat) + empty_in_row(grid[k - 1]@, grid[k - 1]@.len())
    }
}

/// A row that only gained entries has no more empty places, and fewer if it
/// gained one.
proof fn lemma_row_fills(a: Seq<bool>, b: Seq<bool>, k: nat, x: int)
    requires
        a.len() == b.len(),
        k <= a.len(),
        forall|i: int| 0 <= i < a.len() && a[i] ==> b[i],
    ensures
        empty_in_row(b, k) <= empty_in_row(a, k),
        0 <= x < k && !a[x] && b[x] ==> empty_in_row(b, k) < empty_in_row(a, k),
    decreases k,
{
    if k > 0 {
        lemma_row_fills(a, b, (k - 1) as nat, x);
    }
}

/// A grid that only gained entries has no more empty places, and fewer if it
/// gained one.
pub proof fn lemma_grid_fills(a: Seq<Vec<bool>>, b: Seq<Vec<bool>>, k: nat, y: int, x: int)
    requires
        same_shape(a, b),
        k <= a.len(),
        forall|r: int, c: int|
            0 <= r < a.len() && 0 <= c < a[r].len() && a[r]@[c] ==> #[trigger] b[r]@[c],
    ensures
        empty_places(b, k) <= empty_places(a, k),
        0 <= y < k && 0 <= x < a[y].len() && !a[y]@[x] && b[y]@[x] ==> empty_places(b, k)
            < empty_places(a, k),
    decreases k,
{
    if k > 0 {
        lemma_grid_fills(a, b, (k - 1) as nat, y, x);
        let r = k - 1;
        assert(a[r].len() == b[r].len());
        assert forall|i: int| 0 <= i < a[r]@.len() && a[r]@[i] implies b[r]@[i] by {
            assert(b[r]@[i]);
        }
        lemma_row_fills(a[r]@, b[r]@, a[r]@.len(), x);
    }
}

/// Grids that hold the same have as many empty places.
proof fn lemma_same_grid_empty(a: Seq<Vec<bool>>, b: Seq<Vec<bool>>, k: nat)
    requires
        same_grid(a, b),
        k <= a.len(),
    ensures
        empty_places(b, k) == empty_places(a, k),
    decreases k,
{
    if k > 0 {
        lemma_same_grid_empty(a, b, (k - 1) as nat);
        assert(a[k - 1]@ == b[k - 1]@);
    }
}

impl Shape {
    /// Whether the shape, with its corner at column `col` of row `row`, lies
    /// on empty places of the grid.
    pub fn can_place(&self, grid: &Vec<Vec<bool>>, row: i32, col: i32) -> (r: bool)
        ensures
            r == fits(grid@, self.cells@, row as int, col as int),
    {
        for k in 0..self.cells.len()
            invariant
                fits_upto(grid@, self.cells@, row as int, col as int, k as int),
        {
            let (dx, dy) = self.cells[k];
            let x = col as i64 + dx as i64;
            let y = row as i64 + dy as i64;
            if x < 0 || y < 0 || y as u64 >= grid.len() as u64 {
                assert(!empty_at(grid@, row + self.cells@[k as int].1, col + self.cells@[k as int].0));
                return false;
            }
            let line = &grid[y as usize];
            if x as u64 >= line.len() as u64 || line[x as usize] {
                assert(!empty_at(grid@, row + self.cells@[k as int].1, col + self.cells@[k as int].0));
                return false;
            }
        }
        true
    }

    /// Sets the places that the shape lies on to `value`.
    fn mark(&self, grid: &mut Vec<Vec<bool>>, row: i32, col: i32, value: bool)
        requires
            forall|i: int|
                0 <= i < self.cells.len() ==> 0 <= row + (#[trigger] self.cells@[i]).1 < old(grid).len() && 0 <= col + self.cells@[i].0 < old(grid)[row + self.cells@[i].1].len(),
        ensures
            same_shape(old(grid)@, final(grid)@),
            forall|y: int, x: int|
                0 <= y < final(grid).len() && 0 <= x < final(grid)[y].len() ==> #[trigger] final(grid)[y]@[x] == if covers(
                    self.cells@,
                    row as int,
                    col as int,
                    self.cells.len() as int,
                    y,
                    x,
                ) {
                    value
                } else {
                    old(grid)[y]@[x]
                },
    {
        for k in 0..self.cells.len()
            invariant
                same_shape(old(grid)@, grid@),
                forall|i: int|
                    0 <= i < self.cells.len() ==> 0 <= row + (#[trigger] self.cells@[i]).1 < old(grid).len() && 0 <= col + self.cells@[i].0 < old(grid)[row
                        + self.cells@[i].1].len(),
                forall|y: int, x: int|
                    0 <= y < grid.len() && 0 <= x < grid[y].len() ==> #[trigger] grid[y]@[x]
                        == if covers(self.cells@, row as int, col as int, k as int, y, x) {
                        value
                    } else {
                        old(grid)[y]@[x]
                    },
        {
            let (dx, dy) = self.cells[k];
            assert(0 <= row + self.cells@[k as int].1 < old(grid).len());
            let x = (col as i64 + dx as i64) as usize;
            let y = (row as i64 + dy as i64) as usize;
            let ghost before = grid@;
            assert(grid[y as int].len() == old(grid)[y as int].len());
            grid[y][x] = value;
            proof {
                assert forall|b: int, a: int|
                    0 <= b < grid.len() && 0 <= a < grid[b].len() implies #[trigger] grid[b]@[a]
                    == if covers(self.cells@, row as int, col as int, k + 1, b, a) {
                    value
                } else {
                    old(grid)[b]@[a]
                } by {
                    assert(before[b].len() == old(grid)[b].len());
                    if covers(self.cells@, row as int, col as int, k as int, b, a) {
                        let i = choose|i: int|
                            0 <= i < k && row + (#[trigger] self.cells@[i]).1 == b && col
                                + self.cells@[i].0 == a;
                        assert(row + self.cells@[i].1 == b);
                    }
                    if b == y && a == x {
                        assert(row + self.cells@[k as int].1 == b);
                    } else {
                        assert(grid[b]@[a] == before[b]@[a]);
                        if covers(self.cells@, row as int, col as int, k + 1, b, a) {
                            let i = choose|i: int|
                                0 <= i < k + 1 && row + (#[trigger] self.cells@[i]).1 == b && col
                                    + self.cells@[i].0 == a;
                            assert(i < k);
                            assert(row + self.cells@[i].1 == b);
                        }
                    }
                }
                assert forall|b: int| 0 <= b < grid.len() implies (#[trigger] old(grid)@[b]).len()
                    == grid@[b].len() by {
                    assert(before[b].len() == old(grid)[b].len());
                }
            }
        }
    }

    /// Takes the places that the shape lies on, with its corner at column
    /// `col` of row `row`.
    pub fn place(&self, grid: &mut Vec<Vec<bool>>, row: i32, col: i32)
        requires
            fits(old(grid)@, self.cells@, row as int, col as int),
        ensures
            same_shape(old(grid)@, final(grid)@),
            forall|y: int, x: int|
                0 <= y < final(grid).len() && 0 <= x < final(grid)[y].len() ==> #[trigger] final(grid)[y]@[x] == (old(grid)[y]@[x] || covers(
                    self.cells@,
                    row as int,
                    col as int,
                    self.cells.len() as int,
                    y,
                    x,
                )),
    {
        self.mark(grid, row, col, true);
    }

    /// Frees the places that the shape lies on, with its corner at column
    /// `col` of row `row`; every one of them must lie on the grid.
    pub fn remove(&self, grid: &mut Vec<Vec<bool>>, row: i32, col: i32)
        requires
            forall|i: int|
                0 <= i < self.cells.len() ==> 0 <= row + (#[trigger] self.cells@[i]).1 < old(grid).len() && 0 <= col + self.cells@[i].0 < old(grid)[row + self.cells@[i].1].len(),
        ensures
            same_shape(old(grid)@, final(grid)@),
            forall|y: int, x: int|
                0 <= y < final(grid).len() && 0 <= x < final(grid)[y].len() ==> #[trigger] final(grid)[y]@[x] == (old(grid)[y]@[x] && !covers(
                    self.cells@,
                    row as int,
                    col as int,
                    self.cells.len() as int,
                    y,
                    x,
                )),
    {
        self.mark(grid, row, col, false);
    }
}

/// The first empty place of the grid, from top to bottom and, in a row, from
/// left to right.
fn first_empty(grid: &Vec<Vec<bool>>) -> (found: Option<(usize, usize)>)
    ensures
        match found {
            Some((r, c)) => first_empty_at(rows(grid@), r as int, c as int),
            None => full(grid@),
        },
{
    for r in 0..grid.len()
        invariant
            forall|y: int, x: int| 0 <= y < r && 0 <= x < grid[y].len() ==> (#[trigger] grid[y]@[x]),
    {
        let width = grid[r].len();
        for c in 0..width
            invariant
                r < grid.len(),
                width == grid[r as int].len(),
                forall|y: int, x: int|
                    0 <= y < r && 0 <= x < grid[y].len() ==> (#[trigger] grid[y]@[x]),
                forall|x: int| 0 <= x < c ==> (#[trigger] grid[r as int]@[x]),
        {
            if !grid[r][c] {
                proof {
                    assert forall|y: int, x: int| #[trigger]
                        vacant(rows(grid@), y, x) implies r < y || (r == y && c <= x) by {
                        if y < r {
                            assert(grid[y]@[x]);
                        } else if y == r && x < c {
                            assert(grid[r as int]@[x]);
                        }
                    }
                }
                return Some((r, c));
            }
        }
    }
    None
}

/// Every shape index names a count and a list of orientations.
pub open spec fn indices_ok(indices: Seq<usize>, counts: nat, orientations: nat) -> bool {
    forall|k: int| 0 <= k < indices.len() ==> (#[trigger] indices[k]) < counts && indices[k] < orientations
}

/// The grid and the counts are as they were.
pub open spec fn restored(
    grid: Seq<Vec<bool>>,
    counts: Seq<usize>,
    new_grid: Seq<Vec<bool>>,
    new_counts: Seq<usize>,
) -> bool {
    same_grid(grid, new_grid) && new_counts == counts
}

/// Lays the orientation `o` of the shape `shape_idx` with its first cell on
/// the first empty place of the grid, and fills the rest. Returns whether
/// that can be done; the grid is then full. If it cannot be done, the grid
/// and the counts are left as they were, and no filling lays this piece on
/// that place.
fn lay_piece(
    grid: &mut Vec<Vec<bool>>,
    remaining_counts: &mut Vec<usize>,
    shape_indices: &Vec<usize>,
    all_orientations: &Vec<Vec<Shape>>,
    gaps_remaining: usize,
    target: (usize, usize),
    shape_idx: usize,
    o: usize,
) -> (done: bool)
    requires
        indices_ok(shape_indices@, old(remaining_counts).len() as nat, all_orientations.len() as nat),
        first_empty_at(rows(old(grid)@), target.0 as int, target.1 as int),
        shape_indices@.contains(shape_idx),
        o < all_orientations[shape_idx as int].len(),
        old(remaining_counts)[shape_idx as int] > 0,
    ensures
        same_shape(old(grid)@, final(grid)@),
        final(remaining_counts).len() == old(remaining_counts).len(),
        done ==> full(final(grid)@),
        done ==> can_fill(
            rows(old(grid)@),
            old(remaining_counts)@,
            shape_indices@,
            turn_cells(all_orientations@),
            gaps_remaining as nat,
        ),
        !done ==> restored(
            old(grid)@,
            old(remaining_counts)@,
            final(grid)@,
            final(remaining_counts)@,
        ),
        !done ==> !fills_through(
            rows(old(grid)@),
            old(remaining_counts)@,
            shape_indices@,
            turn_cells(all_orientations@),
            gaps_remaining as nat,
            target.0 as int,
            target.1 as int,
            shape_idx,
            o,
        ),
    decreases empty_places(old(grid)@, old(grid)@.len()), 0nat,
{
    let ghost g0 = grid@;
    let ghost c0 = remaining_counts@;
    let ghost turns = turn_cells(all_orientations@);
    let ghost gaps = gaps_remaining as nat;
    let (target_r, target_c) = target;
    let orient = &all_orientations[shape_idx][o];
    assert(orient.cells@ == piece_cells(turns, shape_idx, o));
    if orient.cells.len() == 0 {
        proof {
            lemma_cannot_lay(
                rows(g0),
                c0,
                shape_indices@,
                turns,
                gaps,
                target_r as int,
                target_c as int,
                shape_idx,
                o,
                (0, 0),
            );
        }
        return false;
    }
    let (fx, fy) = orient.first_cell();
    let ghost first = (fx, fy);
    assert(is_first_cell(orient.cells@, first));
    let origin_col = target_c as i128 - fx as i128;
    let origin_row = target_r as i128 - fy as i128;
    if origin_col < -0x8000_0000 || origin_col > 0x7fff_ffff || origin_row < -0x8000_0000
        || origin_row > 0x7fff_ffff {
        proof {
            lemma_cannot_lay(
                rows(g0),
                c0,
                shape_indices@,
                turns,
                gaps,
                target_r as int,
                target_c as int,
                shape_idx,
                o,
                first,
            );
        }
        return false;
    }
    let row = origin_row as i32;
    let col = origin_col as i32;
    if !orient.can_place(grid, row, col) {
        proof {
            lemma_rows_fit(g0, orient.cells@, row as int, col as int);
            lemma_cannot_lay(
                rows(g0),
                c0,
                shape_indices@,
                turns,
                gaps,
                target_r as int,
                target_c as int,
                shape_idx,
                o,
                first,
            );
        }
        return false;
    }
    let ghost step = Step::Piece { shape: shape_idx, turn: o, row, col };
    orient.place(grid, row, col);
    let ghost placed = grid@;
    remaining_counts[shape_idx] = remaining_counts[shape_idx] - 1;
    let ghost c1 = remaining_counts@;
    proof {
        let i = choose|i: int| 0 <= i < orient.cells.len() && first == #[trigger] orient.cells@[i];
        assert(row + orient.cells@[i].1 == target_r && col + orient.cells@[i].0 == target_c);
        assert(covers(
            orient.cells@,
            row as int,
            col as int,
            orient.cells.len() as int,
            target_r as int,
            target_c as int,
        ));
        assert(placed[target_r as int]@[target_c as int]);
        assert forall|r: int, c: int|
            0 <= r < g0.len() && 0 <= c < g0[r].len() && g0[r]@[c] implies #[trigger] placed[r]@[c] by {
            assert(placed[r].len() == g0[r].len());
            assert(placed[r]@[c] == (g0[r]@[c] || covers(
                orient.cells@,
                row as int,
                col as int,
                orient.cells.len() as int,
                r,
                c,
            )));
        }
        lemma_grid_fills(g0, placed, g0.len(), target_r as int, target_c as int);
        assert(grown_by(rows(g0), rows(placed), step, turns));
        assert(left_after(c0, gaps, step, c1, gaps));
        lemma_rows_fit(g0, orient.cells@, row as int, col as int);
        assert(allowed(step, rows(g0), shape_indices@, turns));
    }
    if solve(grid, remaining_counts, shape_indices, all_orientations, gaps_remaining) {
        proof {
            lemma_step_made(rows(g0), rows(placed), c0, c1, shape_indices@, turns, gaps, gaps, step);
            assert forall|y: int| 0 <= y < g0.len() implies (#[trigger] g0[y]).len()
                == grid@[y].len() by {
                assert(placed[y].len() == g0[y].len());
                assert(grid@[y].len() == placed[y].len());
            }
        }
        return true;
    }
    let ghost failed = grid@;
    remaining_counts[shape_idx] = remaining_counts[shape_idx] + 1;
    proof {
        assert(remaining_counts@ =~= c0);
        assert forall|i: int| 0 <= i < orient.cells.len() implies 0 <= row + (
        #[trigger] orient.cells@[i]).1 < failed.len() && 0 <= col + orient.cells@[i].0
            < failed[row + orient.cells@[i].1].len() by {
            assert(empty_at(g0, row + orient.cells@[i].1, col + orient.cells@[i].0));
            let y = row + orient.cells@[i].1;
            assert(placed[y].len() == g0[y].len());
            assert(failed[y].len() == placed[y].len());
        }
    }
    orient.remove(grid, row, col);
    proof {
        assert forall|y: int| 0 <= y < g0.len() implies (#[trigger] g0[y])@ == grid@[y]@ by {
            assert(placed[y].len() == g0[y].len());
            assert(failed[y]@ == placed[y]@);
            assert(grid@[y].len() == failed[y].len());
            assert forall|x: int| 0 <= x < g0[y]@.len() implies g0[y]@[x] == grid@[y]@[x] by {
                let cov = covers(
                    orient.cells@,
                    row as int,
                    col as int,
                    orient.cells.len() as int,
                    y,
                    x,
                );
                assert(grid@[y]@[x] == (failed[y]@[x] && !cov));
                assert(placed[y]@[x] == (g0[y]@[x] || cov));
                if cov {
                    let i = choose|i: int|
                        0 <= i < orient.cells.len() && row + (#[trigger] orient.cells@[i]).1 == y
                            && col + orient.cells@[i].0 == x;
                    assert(empty_at(g0, row + orient.cells@[i].1, col + orient.cells@[i].0));
                }
            }
            assert(g0[y]@ =~= grid@[y]@);
        }
        assert forall|y: int| 0 <= y < g0.len() implies (#[trigger] g0[y]).len()
            == grid@[y].len() by {
            assert(g0[y]@ == grid@[y]@);
        }
        lemma_step_in_vain(rows(g0), rows(placed), c0, c1, shape_indices@, turns, gaps, gaps, step);
        if fills_through(
            rows(g0),
            c0,
            shape_indices@,
            turns,
            gaps,
            target_r as int,
            target_c as int,
            shape_idx,
            o,
        ) {
            lemma_through_is_with(
                rows(g0),
                c0,
                shape_indices@,
                turns,
                gaps,
                target_r as int,
                target_c as int,
                shape_idx,
                o,
                first,
            );
        }
    }
    false
}

/// Leaves the first empty place of the grid as a gap and fills the rest.
/// Returns whether that can be done; the grid is then full. If it cannot be
/// done, the grid and the counts are left as they were, and no filling
/// leaves that place as a gap.
fn leave_gap(
    grid: &mut Vec<Vec<bool>>,
    remaining_counts: &mut Vec<usize>,
    shape_indices: &Vec<usize>,
    all_orientations: &Vec<Vec<Shape>>,
    gaps_remaining: usize,
    target: (usize, usize),
) -> (done: bool)
    requires
        indices_ok(shape_indices@, old(remaining_counts).len() as nat, all_orientations.len() as nat),
        first_empty_at(rows(old(grid)@), target.0 as int, target.1 as int),
    ensures
        same_shape(old(grid)@, final(grid)@),
        final(remaining_counts).len() == old(remaining_counts).len(),
        done ==> full(final(grid)@),
        done ==> can_fill(
            rows(old(grid)@),
            old(remaining_counts)@,
            shape_indices@,
            turn_cells(all_orientations@),
            gaps_remaining as nat,
        ),
        !done ==> restored(
            old(grid)@,
            old(remaining_counts)@,
            final(grid)@,
            final(remaining_counts)@,
        ),
        !done ==> !fills_with(
            rows(old(grid)@),
            old(remaining_counts)@,
            shape_indices@,
            turn_cells(all_orientations@),
            gaps_remaining as nat,
            Step::Gap { y: target.0, x: target.1 },
        ),
    decreases empty_places(old(grid)@, old(grid)@.len()), 0nat,
{
    let ghost g0 = grid@;
    let ghost c0 = remaining_counts@;
    let ghost turns = turn_cells(all_orientations@);
    let (target_r, target_c) = target;
    let ghost step = Step::Gap { y: target_r, x: target_c };
    if gaps_remaining == 0 {
        proof {
            lemma_no_gap_left(rows(g0), c0, shape_indices@, turns, step);
        }
        return false;
    }
    let ghost gaps = gaps_remaining as nat;
    let ghost fewer = (gaps_remaining - 1) as nat;
    grid[target_r][target_c] = true;
    let ghost marked = grid@;
    proof {
        assert forall|y: int| 0 <= y < g0.len() implies (#[trigger] g0[y]).len()
            == marked[y].len() by {
            if y != target_r {
                assert(marked[y] == g0[y]);
            }
        }
        assert forall|r: int, c: int|
            0 <= r < g0.len() && 0 <= c < g0[r].len() && g0[r]@[c] implies #[trigger] marked[r]@[c] by {
            if r != target_r {
                assert(marked[r] == g0[r]);
            }
        }
        lemma_grid_fills(g0, marked, g0.len(), target_r as int, target_c as int);
        assert forall|y: int, x: int|
            0 <= y < marked.len() && 0 <= x < marked[y].len() implies #[trigger] marked[y]@[x] == (
        g0[y]@[x] || takes(step, turns, y, x)) by {
            if y != target_r {
                assert(marked[y] == g0[y]);
            }
        }
        assert(grown_by(rows(g0), rows(marked), step, turns));
        assert(left_after(c0, gaps, step, c0, fewer));
    }
    if solve(grid, remaining_counts, shape_indices, all_orientations, gaps_remaining - 1) {
        proof {
            lemma_step_made(rows(g0), rows(marked), c0, c0, shape_indices@, turns, gaps, fewer, step);
            assert forall|y: int| 0 <= y < g0.len() implies (#[trigger] g0[y]).len()
                == grid@[y].len() by {
                assert(marked[y].len() == g0[y].len());
                assert(grid@[y].len() == marked[y].len());
            }
        }
        return true;
    }
    let ghost failed = grid@;
    assert(failed[target_r as int].len() == marked[target_r as int].len());
    grid[target_r][target_c] = false;
    proof {
        assert forall|y: int| 0 <= y < g0.len() implies (#[trigger] g0[y])@ == grid@[y]@ by {
            assert(failed[y]@ == marked[y]@);
            if y != target_r {
                assert(marked[y] == g0[y]);
                assert(grid@[y] == failed[y]);
            } else {
                assert(g0[y]@ =~= grid@[y]@);
            }
        }
        assert forall|y: int| 0 <= y < g0.len() implies (#[trigger] g0[y]).len()
            == grid@[y].len() by {
            assert(g0[y]@ == grid@[y]@);
        }
        lemma_step_in_vain(rows(g0), rows(marked), c0, c0, shape_indices@, turns, gaps, fewer, step);
    }
    false
}

/// Fills the grid: every empty place is taken either by a shape that is
/// still to be placed, in one of its orientations, or, while gaps are left, by
/// a gap. Returns whether that can be done; the grid is then full. If it
/// cannot be done, the grid and the counts are left as they were.
pub fn solve(
    grid: &mut Vec<Vec<bool>>,
    remaining_counts: &mut Vec<usize>,
    shape_indices: &Vec<usize>,
    all_orientations: &Vec<Vec<Shape>>,
    gaps_remaining: usize,
) -> (done: bool)
    requires
        indices_ok(shape_indices@, old(remaining_counts).len() as nat, all_orientations.len() as nat),
    ensures
        done == can_fill(
            rows(old(grid)@),
            old(remaining_counts)@,
            shape_indices@,
            turn_cells(all_orientations@),
            gaps_remaining as nat,
        ),
        same_shape(old(grid)@, final(grid)@),
        final(remaining_counts).len() == old(remaining_counts).len(),
        done ==> full(final(grid)@),
        !done ==> restored(
            old(grid)@,
            old(remaining_counts)@,
            final(grid)@,
            final(remaining_counts)@,
        ),
    decreases empty_places(old(grid)@, old(grid)@.len()), 1nat,
{
    let ghost g0 = grid@;
    let ghost c0 = remaining_counts@;
    let ghost turns = turn_cells(all_orientations@);
    let ghost gaps = gaps_remaining as nat;
    let target = match first_empty(grid) {
        Some(place) => place,
        None => {
            proof {
                lemma_full_is_filled(rows(g0), c0, shape_indices@, turns, gaps);
            }
            return true;
        },
    };
    let ghost ty = target.0 as int;
    let ghost tx = target.1 as int;
    for s in 0..shape_indices.len()
        invariant
            indices_ok(shape_indices@, c0.len() as nat, all_orientations.len() as nat),
            same_shape(g0, grid@),
            restored(g0, c0, grid@, remaining_counts@),
            first_empty_at(rows(g0), ty, tx),
            ty == target.0,
            tx == target.1,
            turns == turn_cells(all_orientations@),
            gaps == gaps_remaining,
            g0 == old(grid)@,
            c0 == old(remaining_counts)@,
            forall|shape: usize, turn: usize|
                came_before(shape_indices@, s as int, shape) ==> !#[trigger] fills_through(
                    rows(g0),
                    c0,
                    shape_indices@,
                    turns,
                    gaps,
                    ty,
                    tx,
                    shape,
                    turn,
                ),
    {
        let shape_idx = shape_indices[s];
        assert(shape_indices@.contains(shape_idx));
        let tried = if remaining_counts[shape_idx] > 0 {
            all_orientations[shape_idx].len()
        } else {
            0
        };
        for o in 0..tried
            invariant
                indices_ok(shape_indices@, c0.len() as nat, all_orientations.len() as nat),
                shape_idx == shape_indices[s as int],
                shape_indices@.contains(shape_idx),
                tried <= all_orientations[shape_idx as int].len(),
                tried > 0 ==> c0[shape_idx as int] > 0,
                same_shape(g0, grid@),
                restored(g0, c0, grid@, remaining_counts@),
                first_empty_at(rows(g0), ty, tx),
                ty == target.0,
                tx == target.1,
                turns == turn_cells(all_orientations@),
                gaps == gaps_remaining,
                g0 == old(grid)@,
                c0 == old(remaining_counts)@,
                forall|turn: usize|
                    turn < o ==> !#[trigger] fills_through(
                        rows(g0),
                        c0,
                        shape_indices@,
                        turns,
                        gaps,
                        ty,
                        tx,
                        shape_idx,
                        turn,
                    ),
        {
            let ghost before = grid@;
            proof {
                assert(rows(before) =~= rows(g0));
                lemma_same_grid_empty(g0, before, g0.len());
            }
            let done = lay_piece(
                grid,
                remaining_counts,
                shape_indices,
                all_orientations,
                gaps_remaining,
                target,
                shape_idx,
                o,
            );
            proof {
                lemma_kept(g0, before, grid@);
            }
            if done {
                return true;
            }
        }
        proof {
            assert forall|turn: usize|
                !#[trigger] fills_through(
                    rows(g0),
                    c0,
                    shape_indices@,
                    turns,
                    gaps,
                    ty,
                    tx,
                    shape_idx,
                    turn,
                ) by {
                if turn >= tried {
                    lemma_cannot_lay(
                        rows(g0),
                        c0,
                        shape_indices@,
                        turns,
                        gaps,
                        ty,
                        tx,
                        shape_idx,
                        turn,
                        (0, 0),
                    );
                }
            }
            assert forall|shape: usize, turn: usize|
                came_before(shape_indices@, s + 1, shape) implies !#[trigger] fills_through(
                rows(g0),
                c0,
                shape_indices@,
                turns,
                gaps,
                ty,
                tx,
                shape,
                turn,
            ) by {
                let q = choose|q: int| 0 <= q < s + 1 && #[trigger] shape_indices@[q] == shape;
                if q < s {
                    assert(came_before(shape_indices@, s as int, shape));
                }
            }
        }
    }
    let ghost before = grid@;
    proof {
        assert(rows(before) =~= rows(g0));
        lemma_same_grid_empty(g0, before, g0.len());
    }
    let done = leave_gap(
        grid,
        remaining_counts,
        shape_indices,
        all_orientations,
        gaps_remaining,
        target,
    );
    proof {
        lemma_kept(g0, before, grid@);
        if !done {
            lemma_cannot_fill(rows(g0), c0, shape_indices@, turns, gaps, target.0, target.1);
        }
    }
    done
}

/// Grids that hold the same have the same shape, and holding the same
/// carries over.
proof fn lemma_kept(a: Seq<Vec<bool>>, b: Seq<Vec<bool>>, c: Seq<Vec<bool>>)
    requires
        same_grid(a, b),
        same_shape(b, c),
    ensures
        same_shape(a, c),
        same_grid(b, c) ==> same_grid(a, c),
        same_grid(b, a),
{
    assert forall|y: int| 0 <= y < a.len() implies (#[trigger] a[y]).len() == c[y].len() by {
        assert(a[y]@ == b[y]@);
        assert(b[y].len() == c[y].len());
    }
    if same_grid(b, c) {
        assert forall|y: int| 0 <= y < a.len() implies (#[trigger] a[y])@ == c[y]@ by {
            assert(a[y]@ == b[y]@);
            assert(b[y]@ == c[y]@);
        }
    }
    assert forall|y: int| 0 <= y < b.len() implies (#[trigger] b[y])@ == a[y]@ by {
        assert(a[y]@ == b[y]@);
    }
}

/// The rows of a grid.
pub open spec fn rows(grid: Seq<Vec<bool>>) -> Seq<Seq<bool>> {
    Seq::new(grid.len(), |y: int| grid[y]@)
}

/// The cells of each orientation listed for each shape.
pub open spec fn turn_cells(turns: Seq<Vec<Shape>>) -> Seq<Seq<Seq<(i32, i32)>>> {
    Seq::new(turns.len(), |s: int| cells_of(turns[s]@))
}

/// A shape fits on a grid exactly when its cells lie free on the rows.
proof fn lemma_rows_fit(grid: Seq<Vec<bool>>, cells: Seq<(i32, i32)>, row: int, col: int)
    ensures
        fits(grid, cells, row, col) == lies_free(rows(grid), cells, row, col),
{
    if fits(grid, cells, row, col) {
        assert forall|i: int| 0 <= i < cells.len() implies vacant(
            rows(grid),
            row + (#[trigger] cells[i]).1,
            col + cells[i].0,
        ) by {
            assert(empty_at(grid, row + cells[i].1, col + cells[i].0));
        }
    }
    if lies_free(rows(grid), cells, row, col) {
        assert forall|i: int| 0 <= i < cells.len() implies empty_at(
            grid,
            row + (#[trigger] cells[i]).1,
            col + cells[i].0,
        ) by {
            assert(vacant(rows(grid), row + cells[i].1, col + cells[i].0));
        }
    }
}

// ---------------------------------------------------------------------------
// Regions
// ---------------------------------------------------------------------------

/// How many cells the shapes that the first `k` counts ask for cover
/// together.
pub open spec fn cells_needed(required: Seq<usize>, shapes: Seq<Seq<(i32, i32)>>, k: nat) -> nat
    decreases k,
{
    if k == 0 {
        0
    } else {
        cells_needed(required, shapes, (k - 1) as nat) + if required[k - 1] > 0 && k - 1
            < shapes.len() {
            (required[k - 1] * shapes[k - 1].len()) as nat
        } else {
            0
        }
    }
}

/// Every count that is not zero names a shape.
pub open spec fn counts_name_shapes(required: Seq<usize>, shapes: nat) -> bool {
    forall|i: int| 0 <= i < required.len() && (#[trigger] required[i]) > 0 ==> i < shapes
}

/// The places of the shapes in the order of their sizes, the largest first;
/// shapes of the same size keep their order.
fn by_size(shapes: &Vec<Shape>) -> (order: Vec<usize>)
    ensures
        order.len() == shapes.len(),
        forall|i: usize| i < shapes.len() ==> #[trigger] order@.contains(i),
        forall|k: int| 0 <= k < order.len() ==> (#[trigger] order[k]) < shapes.len(),
        forall|a: int, b: int|
            0 <= a < b < order.len() ==> shapes[(#[trigger] order[a]) as int].cells.len()
                >= shapes[(#[trigger] order[b]) as int].cells.len(),
{
    let mut order: Vec<usize> = Vec::new();
    for i in 0..shapes.len()
        invariant
            order.len() == i,
            forall|q: usize| q < i ==> #[trigger] order@.contains(q),
            forall|k: int| 0 <= k < order.len() ==> (#[trigger] order[k]) < shapes.len(),
            forall|a: int, b: int|
                0 <= a < b < order.len() ==> shapes[(#[trigger] order[a]) as int].cells.len()
                    >= shapes[(#[trigger] order[b]) as int].cells.len(),
    {
        let size = shapes[i].cells.len();
        let mut p: usize = 0;
        while p < order.len() && shapes[order[p]].cells.len() >= size
            invariant
                i < shapes.len(),
                p <= order.len(),
                forall|k: int| 0 <= k < order.len() ==> (#[trigger] order[k]) < shapes.len(),
                forall|q: int|
                    0 <= q < p ==> shapes[(#[trigger] order[q]) as int].cells.len() >= size,
            decreases order.len() - p,
        {
            p += 1;
        }
        let ghost before = order@;
        order.insert(p, i);
        proof {
            let after = order@;
            assert forall|q: usize| q < i + 1 implies #[trigger] after.contains(q) by {
                if q < i {
                    assert(before.contains(q));
                    let w = choose|w: int| 0 <= w < before.len() && before[w] == q;
                    if w < p {
                        assert(after[w] == q);
                    } else {
                        assert(after[w + 1] == q);
                    }
                } else {
                    assert(after[p as int] == q);
                }
            }
            assert forall|k: int| 0 <= k < after.len() implies (#[trigger] after[k])
                < shapes.len() by {
                if k < p {
                    assert(after[k] == before[k]);
                } else if k > p {
                    assert(after[k] == before[k - 1]);
                }
            }
            assert forall|a: int, b: int| 0 <= a < b < after.len() implies shapes[(
            #[trigger] after[a]) as int].cells.len() >= shapes[(
            #[trigger] after[b]) as int].cells.len() by {
                if b < p {
                    assert(after[a] == before[a] && after[b] == before[b]);
                } else if b == p {
                    assert(after[a] == before[a]);
                } else if a < p {
                    assert(after[a] == before[a] && after[b] == before[b - 1]);
                    assert(shapes[before[p as int] as int].cells.len() < size);
                    if b - 1 > p {
                        assert(shapes[before[p as int] as int].cells.len()
                            >= shapes[before[b - 1] as int].cells.len());
                    }
                } else if a == p {
                    assert(after[b] == before[b - 1]);
                    if b - 1 > p {
                        assert(shapes[before[p as int] as int].cells.len()
                            >= shapes[before[b - 1] as int].cells.len());
                    }
                } else {
                    assert(after[a] == before[a - 1] && after[b] == before[b - 1]);
                }
            }
        }
    }
    order
}

/// A grid of `height` rows and `width` columns with every place empty.
pub open spec fn blank(height: nat, width: nat) -> Seq<Seq<bool>> {
    Seq::new(height, |y: int| Seq::new(width, |x: int| false))
}

/// How many of each of `shapes` shapes are asked for.
pub open spec fn counts_for(required: Seq<usize>, shapes: nat) -> Seq<usize> {
    Seq::new(
        shapes,
        |i: int|
            if i < required.len() {
                required[i]
            } else {
                0
            },
    )
}

/// The indices of `shapes` shapes, in order.
pub open spec fn all_indices(shapes: nat) -> Seq<usize> {
    Seq::new(shapes, |i: int| i as usize)
}

/// How many places may stay empty: the places of the region that the shapes
/// do not need, or as many as a `usize` counts if that is less.
pub open spec fn gaps_allowed(area: int, needed: int) -> nat {
    if area - needed > usize::MAX {
        usize::MAX as nat
    } else {
        (area - needed) as nat
    }
}

/// The number of each shape that is asked for can be put into a region of
/// the given width and height without overlap, each shape in one of the
/// orientations listed for it: every count names a shape, the shapes need
/// no more places than the region has, and the region can be filled with
/// them and with gaps for the rest.
pub open spec fn region_fits(
    required: Seq<usize>,
    width: nat,
    height: nat,
    shapes: Seq<Seq<(i32, i32)>>,
    turns: Seq<Seq<Seq<(i32, i32)>>>,
) -> bool {
    let needed = cells_needed(required, shapes, required.len());
    &&& counts_name_shapes(required, shapes.len())
    &&& needed <= width * height
    &&& can_fill(
        blank(height, width),
        counts_for(required, shapes.len()),
        all_indices(shapes.len()),
        turns,
        gaps_allowed((width * height) as int, needed as int),
    )
}

/// Whether the number of each shape that the region asks for can be put
/// into the region without overlap, each shape in one of the orientations
/// listed for it.
pub fn can_fit_all_shapes(
    region: &Region,
    shapes: &Vec<Shape>,
    all_orientations: &Vec<Vec<Shape>>,
) -> (fits: bool)
    requires
        all_orientations.len() == shapes.len(),
    ensures
        fits == region_fits(
            region.required_shapes@,
            region.width as nat,
            region.height as nat,
            cells_of(shapes@),
            turn_cells(all_orientations@),
        ),
{
    let ghost required = region.required_shapes@;
    let ghost sizes = cells_of(shapes@);
    let mut needed: u128 = 0;
    let mut counts: Vec<usize> = Vec::new();
    for i in 0..shapes.len()
        invariant
            counts.len() == i,
            forall|q: int| 0 <= q < i ==> counts[q] == 0,
    {
        counts.push(0);
    }
    assert(region.width * region.height <= u128::MAX) by (nonlinear_arith)
        requires
            region.width <= 0xffff_ffff_ffff_ffff,
            region.height <= 0xffff_ffff_ffff_ffff,
    ;
    assert(region.width * region.height >= 0) by (nonlinear_arith)
        requires
            region.width >= 0,
            region.height >= 0,
    ;
    for idx in 0..region.required_shapes.len()
        invariant
            required == region.required_shapes@,
            sizes == cells_of(shapes@),
            counts.len() == shapes.len(),
            region.width * region.height <= u128::MAX,
            needed == cells_needed(required, sizes, idx as nat),
            forall|i: int| 0 <= i < idx && (#[trigger] required[i]) > 0 ==> i < shapes.len(),
            forall|i: int|
                0 <= i < shapes.len() ==> #[trigger] counts[i] == if i < idx {
                    required[i]
                } else {
                    0
                },
    {
        let count = region.required_shapes[idx];
        if count > 0 {
            if idx >= shapes.len() {
                assert(!counts_name_shapes(required, sizes.len()));
                return false;
            }
            let size = shapes[idx].cells.len();
            assert(size == sizes[idx as int].len());
            assert(count * size <= u128::MAX) by (nonlinear_arith)
                requires
                    count <= 0xffff_ffff_ffff_ffff,
                    size <= 0xffff_ffff_ffff_ffff,
            ;
            let cells = count as u128 * size as u128;
            assert(count * size >= 0) by (nonlinear_arith)
                requires
                    count >= 0,
                    size >= 0,
            ;
            if cells > u128::MAX - needed {
                proof {
                    lemma_needed_grows(required, sizes, (idx + 1) as nat, required.len());
                }
                return false;
            }
            needed = needed + cells;
            let ghost before = counts@;
            counts[idx] = count;
            assert forall|i: int| 0 <= i < shapes.len() implies #[trigger] counts[i] == if i < idx
                + 1 {
                required[i]
            } else {
                0
            } by {
                assert(before[i] == if i < idx {
                    required[i]
                } else {
                    0
                });
            }
        }
    }
    let area = region.width as u128 * region.height as u128;
    if needed > area {
        return false;
    }
    let gaps = area - needed;
    let gaps_allowed: usize = if gaps > usize::MAX as u128 {
        usize::MAX
    } else {
        gaps as usize
    };
    let mut grid: Vec<Vec<bool>> = Vec::new();
    for r in 0..region.height
        invariant
            grid.len() == r,
            forall|y: int| 0 <= y < r ==> (#[trigger] grid[y]).len() == region.width,
            forall|y: int, x: int|
                0 <= y < r && 0 <= x < region.width ==> !(#[trigger] grid[y]@[x]),
    {
        grid.push(vec![false; region.width]);
    }
    let order = by_size(shapes);
    let ghost start = rows(grid@);
    let ghost wanted = counts@;
    let fits = solve(&mut grid, &mut counts, &order, all_orientations, gaps_allowed);
    proof {
        assert(counts_name_shapes(required, sizes.len()));
        assert(wanted =~= counts_for(required, sizes.len()));
        assert(start =~~= blank(region.height as nat, region.width as nat));
        let every = all_indices(sizes.len());
        let turns = turn_cells(all_orientations@);
        assert forall|k: int| 0 <= k < every.len() implies order@.contains(#[trigger] every[k]) by {
            assert(order@.contains(k as usize));
        }
        assert forall|k: int| 0 <= k < order.len() implies every.contains(#[trigger] order[k]) by {
            assert(every[order[k] as int] == order[k]);
        }
        if can_fill(start, wanted, every, turns, gaps_allowed as nat) {
            let steps = choose|steps: Seq<Step>|
                is_filling(steps, start, wanted, every, turns, gaps_allowed as nat);
            lemma_more_indices(steps, start, wanted, every, order@, turns, gaps_allowed as nat);
        }
        if fits {
            let steps = choose|steps: Seq<Step>|
                is_filling(steps, start, wanted, order@, turns, gaps_allowed as nat);
            lemma_more_indices(steps, start, wanted, order@, every, turns, gaps_allowed as nat);
        }
    }
    fits
}

/// What the shapes need does not shrink as more counts are taken in.
proof fn lemma_needed_grows(required: Seq<usize>, shapes: Seq<Seq<(i32, i32)>>, i: nat, k: nat)
    requires
        i <= k,
    ensures
        cells_needed(required, shapes, i) <= cells_needed(required, shapes, k),
    decreases k,
{
    if i < k {
        lemma_needed_grows(required, shapes, i, (k - 1) as nat);
    }
}

/// The text contains the byte.
fn has_byte(text: &[u8], b: u8) -> (found: bool)
    ensures
        found == text@.contains(b),
{
    for i in 0..text.len()
        invariant
            forall|j: int| 0 <= j < i ==> text@[j] != b,
    {
        if text[i] == b {
            return true;
        }
    }
    false
}

/// The numbers that the first `k` words spell, if each of them spells one.
pub open spec fn counts_of(pieces: Seq<Seq<u8>>, k: nat) -> Option<Seq<usize>>
    decreases k,
{
    if k == 0 {
        Some(Seq::<usize>::empty())
    } else {
        match (counts_of(pieces, (k - 1) as nat), usize_of(pieces[k - 1])) {
            (Some(before), Some(n)) => Some(before.push(n)),
            _ => None,
        }
    }
}

/// What a region line spells: a width, an `x`, a height, a colon, and a
/// count for each shape. `None` when the line does not have that form.
pub open spec fn region_of(line: Seq<u8>) -> Option<(usize, usize, Seq<usize>)> {
    let parts = split_where(line, seq![58u8]);
    let dims = split_where(trimmed(parts[0]), seq![120u8]);
    if parts.len() != 2 || dims.len() < 2 {
        None
    } else {
        match (
            usize_of(dims[0]),
            usize_of(dims[1]),
            counts_of(words_of(parts[1]), words_of(parts[1]).len()),
        ) {
            (Some(width), Some(height), Some(counts)) => Some((width, height, counts)),
            _ => None,
        }
    }
}

/// The region that a line such as `12x5: 1 0 2` describes; `None` when the
/// line does not have that form.
pub fn parse_region(line: &[u8]) -> (region: Option<Region>)
    ensures
        match region {
            Some(r) => region_of(line@) == Some((r.width, r.height, r.required_shapes@)),
            None => region_of(line@).is_none(),
        },
{
    let parts = split_at_byte(line, 58);
    if parts.len() != 2 {
        return None;
    }
    assert(views(parts@)[0] == parts[0]@);
    assert(views(parts@)[1] == parts[1]@);
    let head = trim(parts[0].as_slice());
    let dims = split_at_byte(head.as_slice(), 120);
    if dims.len() < 2 {
        return None;
    }
    assert(views(dims@)[0] == dims[0]@);
    assert(views(dims@)[1] == dims[1]@);
    let width = match parse_usize(dims[0].as_slice()) {
        Some(n) => n,
        None => {
            return None;
        },
    };
    let height = match parse_usize(dims[1].as_slice()) {
        Some(n) => n,
        None => {
            return None;
        },
    };
    let pieces = words(parts[1].as_slice());
    let ghost texts = views(pieces@);
    assert(region_of(line@) == match counts_of(texts, texts.len()) {
        Some(counts) => Some((width, height, counts)),
        None => None,
    });
    let mut required_shapes: Vec<usize> = Vec::new();
    for k in 0..pieces.len()
        invariant
            texts == views(pieces@),
            region_of(line@) == match counts_of(texts, texts.len()) {
                Some(counts) => Some((width, height, counts)),
                None => None,
            },
            counts_of(texts, k as nat) == Some(required_shapes@),
    {
        assert(texts[k as int] == pieces[k as int]@);
        match parse_usize(pieces[k].as_slice()) {
            Some(n) => {
                required_shapes.push(n);
            },
            None => {
                proof {
                    lemma_counts_stay_none(texts, (k + 1) as nat, texts.len());
                }
                return None;
            },
        }
    }
    Some(Region { width, height, required_shapes })
}

/// Once a word spells no number, no longer list of words gives counts.
proof fn lemma_counts_stay_none(pieces: Seq<Seq<u8>>, i: nat, k: nat)
    requires
        i <= k,
        counts_of(pieces, i).is_none(),
    ensures
        counts_of(pieces, k).is_none(),
    decreases k,
{
    if i < k {
        lemma_counts_stay_none(pieces, i, (k - 1) as nat);
    }
}

/// How far the reading of an input has come: the shapes and the regions
/// read, the lines of the drawing that is being read, if one is, and whether
/// the regions have begun.
pub struct Scanned {
    pub shapes: Seq<Seq<(i32, i32)>>,
    pub regions: Seq<(usize, usize, Seq<usize>)>,
    pub drawing: Option<Seq<Seq<u8>>>,
    pub in_regions: bool,
}

/// The drawing that is being read ends: if it has lines, they give a shape.
/// `None` when they cannot be read.
pub open spec fn close_drawing(s: Scanned) -> Option<Scanned> {
    match s.drawing {
        Some(lines) if lines.len() > 0 => match shape_of(lines) {
            Some(cells) => Some(Scanned { shapes: s.shapes.push(cells), drawing: None, ..s }),
            None => None,
        },
        _ => Some(Scanned { drawing: None, ..s }),
    }
}

/// A line among the regions, blanks around it left out: with one colon it
/// is a region, else it is passed over. `None` when the region cannot be
/// read.
pub open spec fn region_line(s: Scanned, text: Seq<u8>) -> Option<Scanned> {
    if text.len() > 0 && split_where(text, seq![58u8]).len() == 2 {
        match region_of(text) {
            Some(region) => Some(Scanned { regions: s.regions.push(region), ..s }),
            None => None,
        }
    } else {
        Some(s)
    }
}

/// Reads one more line. Among the regions every line is a region line. A
/// line of a drawing that is not blank and has no colon is added to it.
/// Any other line ends the drawing, if there is one; then a line with a
/// colon and an `x` begins the regions and is the first of them, another
/// line with a colon begins a drawing, and the rest is passed over.
pub open spec fn scan_line(s: Scanned, line: Seq<u8>) -> Option<Scanned> {
    let text = trimmed(line);
    if s.in_regions {
        region_line(s, text)
    } else if s.drawing is Some && text.len() > 0 && !line.contains(58u8) {
        Some(Scanned { drawing: Some(s.drawing->0.push(line)), ..s })
    } else {
        match close_drawing(s) {
            None => None,
            Some(closed) => if text.len() == 0 {
                Some(closed)
            } else if text.contains(58u8) && text.contains(120u8) {
                region_line(Scanned { in_regions: true, ..closed }, text)
            } else if text.contains(58u8) {
                Some(Scanned { drawing: Some(Seq::<Seq<u8>>::empty()), ..closed })
            } else {
                Some(closed)
            },
        }
    }
}

/// How far the reading has come after the first `k` lines.
pub open spec fn scanned(all: Seq<Seq<u8>>, k: nat) -> Option<Scanned>
    decreases k,
{
    if k == 0 {
        Some(
            Scanned {
                shapes: Seq::<Seq<(i32, i32)>>::empty(),
                regions: Seq::<(usize, usize, Seq<usize>)>::empty(),
                drawing: None,
                in_regions: false,
            },
        )
    } else {
        match scanned(all, (k - 1) as nat) {
            Some(s) => scan_line(s, all[k - 1]),
            None => None,
        }
    }
}

/// The shapes and the regions that the lines spell; `None` when a drawing
/// or a region cannot be read.
pub open spec fn input_of(all: Seq<Seq<u8>>) -> Option<
    (Seq<Seq<(i32, i32)>>, Seq<(usize, usize, Seq<usize>)>),
> {
    match scanned(all, all.len()) {
        Some(s) => match close_drawing(s) {
            Some(end) => Some((end.shapes, end.regions)),
            None => None,
        },
        None => None,
    }
}

/// The cells of each shape.
pub open spec fn cells_of(shapes: Seq<Shape>) -> Seq<Seq<(i32, i32)>> {
    Seq::new(shapes.len(), |k: int| shapes[k].cells@)
}

/// Width, height and counts of each region.
pub open spec fn regions_of(regions: Seq<Region>) -> Seq<(usize, usize, Seq<usize>)> {
    Seq::new(
        regions.len(),
        |k: int| (regions[k].width, regions[k].height, regions[k].required_shapes@),
    )
}

/// Every shape has its cells in the corner.
pub open spec fn all_wf(shapes: Seq<Shape>) -> bool {
    forall|k: int| 0 <= k < shapes.len() ==> (#[trigger] shapes[k]).wf()
}

/// Ends the drawing that is being read, if there is one: its lines, if it
/// has any, give one more shape. Returns `false` when they cannot be read.
fn end_drawing(shapes: &mut Vec<Shape>, drawing: &Vec<Vec<u8>>, Ghost(s): Ghost<Scanned>) -> (ok:
    bool)
    requires
        all_wf(old(shapes)@),
        s.shapes == cells_of(old(shapes)@),
        s.drawing is Some ==> s.drawing == Some(views(drawing@)),
        s.drawing is None ==> drawing.len() == 0,
    ensures
        all_wf(final(shapes)@),
        ok == close_drawing(s).is_some(),
        ok ==> close_drawing(s)->0.shapes == cells_of(final(shapes)@),
        !ok ==> final(shapes)@ == old(shapes)@,
{
    if drawing.len() > 0 {
        match Shape::parse(drawing) {
            Some(shape) => {
                let ghost before = shapes@;
                shapes.push(shape);
                assert(cells_of(shapes@) =~= cells_of(before).push(shape.cells@));
                true
            },
            None => false,
        }
    } else {
        true
    }
}

/// The shapes and the regions in `input`. A shape is a line with a colon
/// followed by the lines of its drawing; from the first line with both an `x`
/// and a colon on, every line that is not blank and has one colon is a
/// region. `None` when a region line or a drawing cannot be read.
pub fn parse_input(input: &str) -> (r: Option<(Vec<Shape>, Vec<Region>)>)
    ensures
        match r {
            Some((shapes, regions)) => all_wf(shapes@) && input_of(lines_of(input.spec_bytes()))
                == Some((cells_of(shapes@), regions_of(regions@))),
            None => input_of(lines_of(input.spec_bytes())).is_none(),
        },
{
    read_input(input.as_bytes())
}

/// As `parse_input`, on bytes.
pub fn read_input(input: &[u8]) -> (r: Option<(Vec<Shape>, Vec<Region>)>)
    ensures
        match r {
            Some((shapes, regions)) => all_wf(shapes@) && input_of(lines_of(input@)) == Some(
                (cells_of(shapes@), regions_of(regions@)),
            ),
            None => input_of(lines_of(input@)).is_none(),
        },
{
    let all = lines(input);
    let ghost texts = lines_of(input@);
    let mut shapes: Vec<Shape> = Vec::new();
    let mut regions: Vec<Region> = Vec::new();
    let mut drawing: Vec<Vec<u8>> = Vec::new();
    let mut in_drawing = false;
    let mut in_regions = false;
    let ghost mut state = scanned(texts, 0)->0;
    assert(state.shapes =~= cells_of(shapes@));
    assert(state.regions =~= regions_of(regions@));
    for i in 0..all.len()
        invariant
            views(all@) == texts,
            texts == lines_of(input@),
            all_wf(shapes@),
            scanned(texts, i as nat) == Some(state),
            state.shapes == cells_of(shapes@),
            state.regions == regions_of(regions@),
            state.in_regions == in_regions,
            state.drawing is Some == in_drawing,
            in_drawing ==> state.drawing == Some(views(drawing@)),
            !in_drawing ==> drawing.len() == 0,
    {
        assert(texts[i as int] == all[i as int]@);
        let text = trim(all[i].as_slice());
        let ghost next = scan_line(state, texts[i as int]);
        if in_regions {
            if text.len() > 0 && split_at_byte(text.as_slice(), 58).len() == 2 {
                match parse_region(text.as_slice()) {
                    Some(region) => {
                        let ghost before = regions@;
                        regions.push(region);
                        assert(regions_of(regions@) =~= regions_of(before).push(
                            (region.width, region.height, region.required_shapes@),
                        ));
                    },
                    None => {
                        proof {
                            lemma_scan_fails(texts, (i + 1) as nat, texts.len());
                        }
                        return None;
                    },
                }
            }
        } else if in_drawing && text.len() > 0 && !has_byte(all[i].as_slice(), 58) {
            let ghost before = drawing@;
            drawing.push(all[i].clone());
            assert(views(drawing@) =~= views(before).push(texts[i as int]));
        } else {
            if !end_drawing(&mut shapes, &drawing, Ghost(state)) {
                proof {
                    lemma_scan_fails(texts, (i + 1) as nat, texts.len());
                }
                return None;
            }
            drawing = Vec::new();
            in_drawing = false;
            assert(views(drawing@) =~= Seq::<Seq<u8>>::empty());
            if text.len() > 0 {
                let colon = has_byte(text.as_slice(), 58);
                if colon && has_byte(text.as_slice(), 120) {
                    in_regions = true;
                    if split_at_byte(text.as_slice(), 58).len() == 2 {
                        match parse_region(text.as_slice()) {
                            Some(region) => {
                                let ghost before = regions@;
                                regions.push(region);
                                assert(regions_of(regions@) =~= regions_of(before).push(
                                    (region.width, region.height, region.required_shapes@),
                                ));
                            },
                            None => {
                                proof {
                                    lemma_scan_fails(texts, (i + 1) as nat, texts.len());
                                }
                                return None;
                            },
                        }
                    }
                } else if colon {
                    in_drawing = true;
                }
            }
        }
        proof {
            state = next->0;
        }
    }
    if !end_drawing(&mut shapes, &drawing, Ghost(state)) {
        return None;
    }
    Some((shapes, regions))
}

/// Once the reading has failed, it has failed for good.
proof fn lemma_scan_fails(all: Seq<Seq<u8>>, i: nat, k: nat)
    requires
        i <= k,
        scanned(all, i).is_none(),
    ensures
        scanned(all, k).is_none(),
    decreases k,
{
    if i < k {
        lemma_scan_fails(all, i, (k - 1) as nat);
    }
}

/// The eight orientations of each shape.
pub open spec fn eight_turns(shapes: Seq<Seq<(i32, i32)>>) -> Seq<Seq<Seq<(i32, i32)>>> {
    Seq::new(shapes.len(), |s: int| Seq::new(8, |t: int| orientation(shapes[s], t as nat)))
}

/// The region takes the number of each shape that it asks for, each shape
/// turned and flipped as need be.
pub open spec fn region_takes(
    region: (usize, usize, Seq<usize>),
    shapes: Seq<Seq<(i32, i32)>>,
) -> bool {
    region_fits(region.2, region.0 as nat, region.1 as nat, shapes, eight_turns(shapes))
}

/// How many of the first `k` regions take their shapes.
pub open spec fn fitting(
    regions: Seq<(usize, usize, Seq<usize>)>,
    shapes: Seq<Seq<(i32, i32)>>,
    k: nat,
) -> nat
    decreases k,
{
    if k == 0 {
        0
    } else {
        fitting(regions, shapes, (k - 1) as nat) + if region_takes(regions[k - 1], shapes) {
            1nat
        } else {
            0nat
        }
    }
}

/// The list holds orientations of the shape only, and covers whatever one of
/// the eight orientations covers.
pub open spec fn is_turn_list(list: Seq<Shape>, cells: Seq<(i32, i32)>) -> bool {
    &&& forall|k: int| 0 <= k < list.len() ==> is_orientation(cells, (#[trigger] list[k]).cells@)
    &&& forall|t: nat| t < 8 ==> listed(list, #[trigger] orientation(cells, t))
}

/// Cells that one of the shapes covers are covered by one of their lists of
/// cells.
proof fn lemma_listed_shown(list: Seq<Shape>, cells: Seq<(i32, i32)>)
    requires
        list.len() <= usize::MAX,
        listed(list, cells),
    ensures
        shown(cells_of(list), cells),
{
    let k = choose|k: int| 0 <= k < list.len() && covers_same((#[trigger] list[k]).cells@, cells);
    assert(cells_of(list)[(k as usize) as int] == list[k].cells@);
}

/// Cells that are listed are covered by one of the list.
proof fn lemma_member_shown(list: Seq<Seq<(i32, i32)>>, p: usize)
    requires
        p < list.len(),
    ensures
        shown(list, list[p as int]),
{
    let same = list[p as int];
    assert forall|i: int| 0 <= i < same.len() implies same.contains(#[trigger] same[i]) by {}
    assert(covers_same(list[p as int], same));
}

/// Lists of orientations cover what the eight orientations cover, and the
/// other way round.
proof fn lemma_turn_lists(shapes: Seq<Shape>, turns: Seq<Vec<Shape>>)
    requires
        turns.len() == shapes.len(),
        forall|s: int| 0 <= s < shapes.len() ==> is_turn_list((#[trigger] turns[s])@, shapes[s].cells@),
    ensures
        turns_within(turn_cells(turns), eight_turns(cells_of(shapes))),
        turns_within(eight_turns(cells_of(shapes)), turn_cells(turns)),
{
    let lists = turn_cells(turns);
    let eights = eight_turns(cells_of(shapes));
    assert forall|s: int, o: int| 0 <= s < lists.len() && 0 <= o < lists[s].len() implies shown(
        eights[s],
        #[trigger] lists[s][o],
    ) by {
        let cells = shapes[s].cells@;
        assert(is_turn_list(turns[s]@, cells));
        assert(lists[s][o] == turns[s]@[o].cells@);
        assert(is_orientation(cells, turns[s]@[o].cells@));
        let t = choose|t: nat| t < 8 && turns[s]@[o].cells@ == #[trigger] orientation(cells, t);
        assert(eights[s][t as int] == lists[s][o]);
        lemma_member_shown(eights[s], t as usize);
    }
    assert forall|s: int, o: int| 0 <= s < eights.len() && 0 <= o < eights[s].len() implies shown(
        lists[s],
        #[trigger] eights[s][o],
    ) by {
        let cells = shapes[s].cells@;
        assert(is_turn_list(turns[s]@, cells));
        assert(eights[s][o] == orientation(cells, o as nat));
        assert(listed(turns[s]@, orientation(cells, o as nat)));
        assert(turns[s].len() == turns[s]@.len());
        lemma_listed_shown(turns[s]@, eights[s][o]);
    }
}

/// For how many of the regions in `input` the shapes that the region asks
/// for can be put into it without overlap, turned and flipped as need be;
/// `None` when the input cannot be read.
pub fn part1(input: &str) -> (r: Option<usize>)
    ensures
        match input_of(lines_of(input.spec_bytes())) {
            Some((shapes, regions)) => r == Some(
                fitting(regions, shapes, regions.len()) as usize,
            ),
            None => r.is_none(),
        },
{
    let (shapes, regions) = match parse_input(input) {
        Some(parsed) => parsed,
        None => {
            return None;
        },
    };
    let mut all_orientations: Vec<Vec<Shape>> = Vec::new();
    for k in 0..shapes.len()
        invariant
            all_orientations.len() == k,
            all_wf(shapes@),
            forall|s: int|
                0 <= s < k ==> is_turn_list((#[trigger] all_orientations[s])@, shapes[s].cells@),
    {
        all_orientations.push(shapes[k].all_orientations());
    }
    let ghost cells = cells_of(shapes@);
    let ghost places = regions_of(regions@);
    let ghost lists = turn_cells(all_orientations@);
    proof {
        lemma_turn_lists(shapes@, all_orientations@);
    }
    let mut count: usize = 0;
    for k in 0..regions.len()
        invariant
            all_orientations.len() == shapes.len(),
            cells == cells_of(shapes@),
            places == regions_of(regions@),
            lists == turn_cells(all_orientations@),
            turns_within(lists, eight_turns(cells)),
            turns_within(eight_turns(cells), lists),
            count == fitting(places, cells, k as nat),
            count <= k,
    {
        let fits = can_fit_all_shapes(&regions[k], &shapes, &all_orientations);
        proof {
            let region = places[k as int];
            assert(region == (regions[k as int].width, regions[k as int].height, regions[k as int].required_shapes@));
            let needed = cells_needed(region.2, cells, region.2.len());
            let gaps = gaps_allowed((region.0 * region.1) as int, needed as int);
            let start = blank(region.1 as nat, region.0 as nat);
            let wanted = counts_for(region.2, cells.len());
            let every = all_indices(cells.len());
            if can_fill(start, wanted, every, lists, gaps) {
                lemma_other_turns(start, wanted, every, lists, eight_turns(cells), gaps);
            }
            if can_fill(start, wanted, every, eight_turns(cells), gaps) {
                lemma_other_turns(start, wanted, every, eight_turns(cells), lists, gaps);
            }
            assert(fits == region_takes(region, cells));
        }
        if fits {
            count += 1;
        }
    }
    Some(count)
}

/// There is no second question: the answer is zero.
pub fn part2(_input: &str) -> (r: usize)
    ensures
        r == 0,
{
    0
}

} // verus!
