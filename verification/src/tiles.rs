//! Red tiles on a floor: the largest rectangle that has two red tiles as
//! opposite corners, with or without the need to stay inside the loop that
//! the red tiles form.

use crate::circuits::{i32_of, parse_i32};
use crate::packing::{empty_places, lemma_grid_fills, same_shape};
use crate::text::{lines, lines_of, split_at_byte, split_where, trim, trimmed, views};
use vstd::prelude::*;
use vstd::string::StringSliceAdditionalSpecFns;

verus! {

// ---------------------------------------------------------------------------
// The text
// ---------------------------------------------------------------------------

/// The tile that a line spells: numbers with commas between them, blanks
/// around each allowed, at least two, of which the first two count.
pub open spec fn tile_of(line: Seq<u8>) -> Option<(i32, i32)> {
    let parts = split_where(line, seq![44u8]);
    if parts.len() >= 2 && forall|k: int|
        0 <= k < parts.len() ==> i32_of(trimmed(#[trigger] parts[k])).is_some() {
        Some((i32_of(trimmed(parts[0])).unwrap(), i32_of(trimmed(parts[1])).unwrap()))
    } else {
        None
    }
}

/// Every line spells a tile.
pub open spec fn tiles_well_formed(all: Seq<Seq<u8>>) -> bool {
    forall|k: int| 0 <= k < all.len() ==> tile_of(#[trigger] all[k]).is_some()
}

/// The tiles that the lines spell.
pub open spec fn tiles_of(all: Seq<Seq<u8>>) -> Seq<(i32, i32)> {
    Seq::new(all.len(), |k: int| tile_of(all[k]).unwrap())
}

/// The tile that a line spells.
pub fn parse_tile(line: &[u8]) -> (r: Option<(i32, i32)>)
    ensures
        r == tile_of(line@),
{
    let parts = split_at_byte(line, 44);
    let ghost texts = views(parts@);
    let mut numbers: Vec<i32> = Vec::new();
    for k in 0..parts.len()
        invariant
            texts == views(parts@),
            texts == split_where(line@, seq![44u8]),
            numbers.len() == k,
            forall|q: int| 0 <= q < k ==> i32_of(trimmed(#[trigger] texts[q])) == Some(numbers[q]),
    {
        assert(texts[k as int] == parts[k as int]@);
        let piece = trim(parts[k].as_slice());
        match parse_i32(piece.as_slice()) {
            Some(v) => {
                numbers.push(v);
            },
            None => {
                assert(i32_of(trimmed(texts[k as int])).is_none());
                return None;
            },
        }
    }
    if numbers.len() < 2 {
        return None;
    }
    Some((numbers[0], numbers[1]))
}

/// The tiles in `input`, one to a line; `None` unless every line spells a
/// tile.
pub fn parse_positions(input: &str) -> (r: Option<Vec<(i32, i32)>>)
    ensures
        r.is_some() <==> tiles_well_formed(lines_of(input.spec_bytes())),
        r matches Some(list) ==> list@ == tiles_of(lines_of(input.spec_bytes())),
{
    read_tiles(input.as_bytes())
}

/// As `parse_positions`, on bytes.
pub fn read_tiles(input: &[u8]) -> (r: Option<Vec<(i32, i32)>>)
    ensures
        r.is_some() <==> tiles_well_formed(lines_of(input@)),
        r matches Some(list) ==> list@ == tiles_of(lines_of(input@)),
{
    let all = lines(input);
    let ghost texts = lines_of(input@);
    let mut list: Vec<(i32, i32)> = Vec::new();
    for k in 0..all.len()
        invariant
            views(all@) == texts,
            texts == lines_of(input@),
            list.len() == k,
            forall|q: int| 0 <= q < k ==> tile_of(#[trigger] texts[q]) == Some(list[q]),
    {
        assert(texts[k as int] == all[k as int]@);
        match parse_tile(all[k].as_slice()) {
            Some(p) => {
                list.push(p);
            },
            None => {
                assert(tile_of(texts[k as int]).is_none());
                return None;
            },
        }
    }
    assert(list@ =~= tiles_of(texts));
    Some(list)
}

// ---------------------------------------------------------------------------
// Rectangles
// ---------------------------------------------------------------------------

/// The distance between two numbers.
pub open spec fn gap(a: int, b: int) -> int {
    if a >= b {
        a - b
    } else {
        b - a
    }
}

/// How many tiles the rectangle with the two tiles as opposite corners
/// covers, the corners included.
pub open spec fn area(p: (i32, i32), q: (i32, i32)) -> int {
    (gap(p.0 as int, q.0 as int) + 1) * (gap(p.1 as int, q.1 as int) + 1)
}

/// `best` is the greatest area of a rectangle with two of the tiles as
/// opposite corners, or zero if there are fewer than two tiles.
pub open spec fn is_greatest_area(tiles: Seq<(i32, i32)>, best: int) -> bool {
    &&& forall|i: int, j: int|
        0 <= i < j < tiles.len() ==> area(#[trigger] tiles[i], #[trigger] tiles[j]) <= best
    &&& is_area_or_zero(tiles, best)
}

/// `a` is the area of a rectangle with two of the tiles as opposite corners,
/// or zero.
pub open spec fn is_area_or_zero(tiles: Seq<(i32, i32)>, a: int) -> bool {
    a == 0 || exists|i: int, j: int|
        0 <= i < j < tiles.len() && a == area(#[trigger] tiles[i], #[trigger] tiles[j])
}

/// The area of the rectangle with the two tiles as opposite corners.
pub fn rectangle(p: (i32, i32), q: (i32, i32)) -> (a: i128)
    ensures
        a == area(p, q),
        1 <= a <= 0x1_0000_0000_0000_0000,
{
    let width = if p.0 >= q.0 {
        p.0 as i128 - q.0 as i128
    } else {
        q.0 as i128 - p.0 as i128
    } + 1;
    let height = if p.1 >= q.1 {
        p.1 as i128 - q.1 as i128
    } else {
        q.1 as i128 - p.1 as i128
    } + 1;
    assert(1 <= width * height <= 0x1_0000_0000_0000_0000) by (nonlinear_arith)
        requires
            1 <= width <= 0x1_0000_0000,
            1 <= height <= 0x1_0000_0000,
    ;
    width * height
}

/// The greatest area of a rectangle with two of the tiles as opposite
/// corners.
pub fn greatest_area(tiles: &Vec<(i32, i32)>) -> (best: i128)
    ensures
        is_greatest_area(tiles@, best as int),
        0 <= best <= 0x1_0000_0000_0000_0000,
{
    let n = tiles.len();
    let mut best: i128 = 0;
    for i in 0..n
        invariant
            n == tiles.len(),
            0 <= best <= 0x1_0000_0000_0000_0000,
            is_area_or_zero(tiles@, best as int),
            forall|a: int, b: int|
                0 <= a < i && a < b < n ==> area(#[trigger] tiles[a], #[trigger] tiles[b]) <= best,
    {
        for j in (i + 1)..n
            invariant
                n == tiles.len(),
                i < n,
                0 <= best <= 0x1_0000_0000_0000_0000,
                is_area_or_zero(tiles@, best as int),
                forall|a: int, b: int|
                    0 <= a < i && a < b < n ==> area(#[trigger] tiles[a], #[trigger] tiles[b])
                        <= best,
                forall|b: int| i < b < j ==> area(tiles[i as int], #[trigger] tiles[b]) <= best,
        {
            let a = rectangle(tiles[i], tiles[j]);
            if a > best {
                best = a;
                assert(best == area(tiles@[i as int], tiles@[j as int]));
            }
        }
    }
    best
}

/// The greatest area of a rectangle with two of the tiles in `input`, blanks
/// around it left out, as opposite corners; `None` when the input is not a
/// list of tiles or the area is more than an `i64` holds.
pub fn part1(input: &str) -> (r: Option<i64>)
    ensures
        !tiles_well_formed(lines_of(trimmed(input.spec_bytes()))) ==> r.is_none(),
        r matches Some(best) ==> is_greatest_area(
            tiles_of(lines_of(trimmed(input.spec_bytes()))),
            best as int,
        ),
        tiles_well_formed(lines_of(trimmed(input.spec_bytes()))) && r.is_none() ==> exists|
            best: int,
        |
            best > i64::MAX && is_greatest_area(
                tiles_of(lines_of(trimmed(input.spec_bytes()))),
                best,
            ),
{
    let body = trim(input.as_bytes());
    let tiles = match read_tiles(body.as_slice()) {
        Some(list) => list,
        None => {
            return None;
        },
    };
    let best = greatest_area(&tiles);
    if best <= 0x7fff_ffff_ffff_ffff {
        Some(best as i64)
    } else {
        None
    }
}

// ---------------------------------------------------------------------------
// Grids of strips
// ---------------------------------------------------------------------------

/// Every row has `width` entries.
pub open spec fn has_shape(grid: Seq<Vec<bool>>, height: nat, width: nat) -> bool {
    grid.len() == height && forall|r: int| 0 <= r < height ==> (#[trigger] grid[r]).len() == width
}

/// The cells of a grid as a predicate.
pub open spec fn cells(grid: Seq<Vec<bool>>) -> spec_fn(int, int) -> bool {
    |r: int, c: int| grid[r]@[c]
}

/// The cell lies on a grid of `h` rows and `w` columns and is no wall.
pub open spec fn free(wall: spec_fn(int, int) -> bool, h: nat, w: nat, r: int, c: int) -> bool {
    0 <= r < h && 0 <= c < w && !wall(r, c)
}

/// The cell can be reached from the corner `(0, 0)` in at most `m` steps to
/// a neighbour above, below, left or right, without entering a wall.
pub open spec fn reach(
    wall: spec_fn(int, int) -> bool,
    h: nat,
    w: nat,
    m: nat,
    r: int,
    c: int,
) -> bool
    decreases m,
{
    free(wall, h, w, r, c) && if m == 0 {
        r == 0 && c == 0
    } else {
        let b = (m - 1) as nat;
        reach(wall, h, w, b, r, c) || reach(wall, h, w, b, r - 1, c) || reach(
            wall,
            h,
            w,
            b,
            r + 1,
            c,
        ) || reach(wall, h, w, b, r, c - 1) || reach(wall, h, w, b, r, c + 1)
    }
}

/// The cell can be reached from the corner `(0, 0)` without entering a wall.
pub open spec fn reachable(
    wall: spec_fn(int, int) -> bool,
    h: nat,
    w: nat,
    r: int,
    c: int,
) -> bool {
    exists|m: nat| reach(wall, h, w, m, r, c)
}

/// Every free neighbour of the cell is marked.
pub open spec fn closed(
    wall: spec_fn(int, int) -> bool,
    h: nat,
    w: nat,
    marks: Seq<Vec<bool>>,
    r: int,
    c: int,
) -> bool {
    &&& free(wall, h, w, r - 1, c) ==> marks[r - 1]@[c]
    &&& free(wall, h, w, r + 1, c) ==> marks[r + 1]@[c]
    &&& free(wall, h, w, r, c - 1) ==> marks[r]@[c - 1]
    &&& free(wall, h, w, r, c + 1) ==> marks[r]@[c + 1]
}

/// Marks that hold the corner and the free neighbours of every marked cell
/// hold every cell that can be reached.
proof fn lemma_marks_complete(
    wall: spec_fn(int, int) -> bool,
    h: nat,
    w: nat,
    marks: Seq<Vec<bool>>,
    m: nat,
    r: int,
    c: int,
)
    requires
        has_shape(marks, h, w),
        h > 0,
        w > 0,
        marks[0]@[0],
        forall|a: int, b: int|
            0 <= a < h && 0 <= b < w && #[trigger] marks[a]@[b] ==> closed(wall, h, w, marks, a, b),
        reach(wall, h, w, m, r, c),
    ensures
        0 <= r < h,
        0 <= c < w,
        marks[r]@[c],
    decreases m,
{
    if m > 0 {
        let b = (m - 1) as nat;
        if reach(wall, h, w, b, r, c) {
            lemma_marks_complete(wall, h, w, marks, b, r, c);
        } else if reach(wall, h, w, b, r - 1, c) {
            lemma_marks_complete(wall, h, w, marks, b, r - 1, c);
            assert(closed(wall, h, w, marks, r - 1, c));
        } else if reach(wall, h, w, b, r + 1, c) {
            lemma_marks_complete(wall, h, w, marks, b, r + 1, c);
            assert(closed(wall, h, w, marks, r + 1, c));
        } else if reach(wall, h, w, b, r, c - 1) {
            lemma_marks_complete(wall, h, w, marks, b, r, c - 1);
            assert(closed(wall, h, w, marks, r, c - 1));
        } else {
            lemma_marks_complete(wall, h, w, marks, b, r, c + 1);
            assert(closed(wall, h, w, marks, r, c + 1));
        }
    }
}

/// Walls that agree on the grid leave the same cells within reach.
proof fn lemma_reach_same(
    first: spec_fn(int, int) -> bool,
    second: spec_fn(int, int) -> bool,
    h: nat,
    w: nat,
    m: nat,
    r: int,
    c: int,
)
    requires
        forall|a: int, b: int| 0 <= a < h && 0 <= b < w ==> #[trigger] first(a, b) == second(a, b),
    ensures
        reach(first, h, w, m, r, c) == reach(second, h, w, m, r, c),
    decreases m,
{
    if m > 0 {
        let b = (m - 1) as nat;
        lemma_reach_same(first, second, h, w, b, r, c);
        lemma_reach_same(first, second, h, w, b, r - 1, c);
        lemma_reach_same(first, second, h, w, b, r + 1, c);
        lemma_reach_same(first, second, h, w, b, r, c - 1);
        lemma_reach_same(first, second, h, w, b, r, c + 1);
    }
}

/// A grid of `height` rows and `width` columns filled with `value`.
fn blank_grid(height: usize, width: usize, value: bool) -> (grid: Vec<Vec<bool>>)
    ensures
        has_shape(grid@, height as nat, width as nat),
        forall|r: int, c: int| 0 <= r < height && 0 <= c < width ==> (#[trigger] grid[r]@[c]) == value,
{
    let mut grid: Vec<Vec<bool>> = Vec::new();
    for r in 0..height
        invariant
            grid.len() == r,
            forall|q: int| 0 <= q < r ==> (#[trigger] grid[q]).len() == width,
            forall|q: int, c: int| 0 <= q < r && 0 <= c < width ==> (#[trigger] grid[q]@[c]) == value,
    {
        grid.push(vec![value; width]);
    }
    grid
}

/// The cells that can be reached from the corner `(0, 0)` by steps to the
/// four neighbours without entering a wall.
pub fn flood(walls: &Vec<Vec<bool>>, height: usize, width: usize) -> (marks: Vec<Vec<bool>>)
    requires
        has_shape(walls@, height as nat, width as nat),
        height >= 1,
        width >= 1,
        !walls[0]@[0],
    ensures
        has_shape(marks@, height as nat, width as nat),
        forall|r: int, c: int|
            0 <= r < height && 0 <= c < width ==> #[trigger] marks[r]@[c] == reachable(cells(walls@), height as nat, width as nat, r, c),
{
    let mut marks = blank_grid(height, width, false);
    let mut stack: Vec<(usize, usize)> = Vec::new();
    let ghost blank = marks@;
    marks[0][0] = true;
    stack.push((0, 0));
    proof {
        assert forall|q: int| 0 <= q < height implies (#[trigger] marks@[q]).len() == width by {
            if q != 0 {
                assert(marks@[q] == blank[q]);
            }
        }
        assert(reach(cells(walls@), height as nat, width as nat, 0, 0, 0));
        assert forall|a: int, b: int|
            0 <= a < height && 0 <= b < width && #[trigger] marks[a]@[b] implies a == 0 && b == 0 by {
            if a != 0 {
                assert(marks@[a] == blank[a]);
            }
        }
        assert(stack@[0] == (0usize, 0usize));
    }
    while stack.len() > 0
        invariant
            has_shape(walls@, height as nat, width as nat),
            has_shape(marks@, height as nat, width as nat),
            height >= 1,
            width >= 1,
            marks[0]@[0],
            forall|k: int|
                0 <= k < stack.len() ==> (#[trigger] stack[k]).0 < height && stack[k].1 < width
                    && marks[stack[k].0 as int]@[stack[k].1 as int],
            forall|a: int, b: int|
                0 <= a < height && 0 <= b < width && #[trigger] marks[a]@[b] ==> reachable(cells(walls@), height as nat, width as nat,
                    a,
                    b,
                ),
            forall|a: int, b: int|
                0 <= a < height && 0 <= b < width && #[trigger] marks[a]@[b] ==> stack@.contains(
                    (a as usize, b as usize),
                ) || closed(cells(walls@), height as nat, width as nat, marks@, a, b),
        decreases empty_places(marks@, marks@.len()), stack.len(),
    {
        let ghost full_stack = stack@;
        let (r, c) = stack.pop().unwrap();
        let mut near: Vec<(usize, usize)> = Vec::new();
        if r > 0 {
            near.push((r - 1, c));
        }
        if r + 1 < height {
            near.push((r + 1, c));
        }
        if c > 0 {
            near.push((r, c - 1));
        }
        if c + 1 < width {
            near.push((r, c + 1));
        }
        let ghost popped = stack.len();
        let ghost start = marks@;
        proof {
            assert forall|a: int, b: int|
                0 <= a < height && 0 <= b < width && #[trigger] marks[a]@[b] implies stack@.contains(
                (a as usize, b as usize),
            ) || closed(cells(walls@), height as nat, width as nat, marks@, a, b) || (a == r && b == c) by {
                if full_stack.contains((a as usize, b as usize)) {
                    let w = choose|w: int|
                        0 <= w < full_stack.len() && full_stack[w] == (a as usize, b as usize);
                    if w < stack.len() {
                        assert(stack@[w] == (a as usize, b as usize));
                    }
                }
            }
            assert(r > 0 ==> near@.contains(((r - 1) as usize, c))) by {
                if r > 0 {
                    assert(near@[0] == ((r - 1) as usize, c));
                }
            }
            assert(r + 1 < height ==> near@.contains(((r + 1) as usize, c))) by {
                if r + 1 < height {
                    let at = if r > 0 {
                        1int
                    } else {
                        0int
                    };
                    assert(near@[at] == ((r + 1) as usize, c));
                }
            }
            assert(c > 0 ==> near@.contains((r, (c - 1) as usize))) by {
                if c > 0 {
                    let at = (if r > 0 {
                        1int
                    } else {
                        0int
                    }) + (if r + 1 < height {
                        1int
                    } else {
                        0int
                    });
                    assert(near@[at] == (r, (c - 1) as usize));
                }
            }
            assert(c + 1 < width ==> near@.contains((r, (c + 1) as usize))) by {
                if c + 1 < width {
                    assert(near@[near.len() - 1] == (r, (c + 1) as usize));
                }
            }
        }
        for k in 0..near.len()
            invariant
                has_shape(walls@, height as nat, width as nat),
                has_shape(marks@, height as nat, width as nat),
                has_shape(start, height as nat, width as nat),
                r < height,
                c < width,
                marks[0]@[0],
                marks[r as int]@[c as int],
                forall|q: int|
                    0 <= q < near.len() ==> (#[trigger] near[q]).0 < height && near[q].1 < width && (
                    (near[q].0 + 1 == r && near[q].1 == c) || (near[q].0 == r + 1 && near[q].1 == c)
                        || (near[q].0 == r && near[q].1 + 1 == c) || (near[q].0 == r && near[q].1
                        == c + 1)),
                forall|q: int|
                    0 <= q < k ==> free(cells(walls@), height as nat, width as nat, (#[trigger] near[q]).0 as int, near[q].1 as int)
                        ==> marks[near[q].0 as int]@[near[q].1 as int],
                forall|q: int|
                    0 <= q < stack.len() ==> (#[trigger] stack[q]).0 < height && stack[q].1 < width
                        && marks[stack[q].0 as int]@[stack[q].1 as int],
                forall|a: int, b: int|
                    0 <= a < height && 0 <= b < width && #[trigger] marks[a]@[b] ==> reachable(cells(walls@), height as nat, width as nat,
                        a,
                        b,
                    ),
                forall|a: int, b: int|
                    0 <= a < height && 0 <= b < width && #[trigger] marks[a]@[b]
                        ==> stack@.contains((a as usize, b as usize)) || closed(cells(walls@), height as nat, width as nat,
                        marks@,
                        a,
                        b,
                    ) || (a == r && b == c),
                forall|a: int, b: int|
                    0 <= a < height && 0 <= b < width && start[a]@[b] ==> #[trigger] marks[a]@[b],
                empty_places(marks@, marks@.len()) <= empty_places(start, start.len()),
                empty_places(marks@, marks@.len()) == empty_places(start, start.len())
                    ==> stack.len() == popped,
        {
            let (nr, nc) = near[k];
            if !marks[nr][nc] && !walls[nr][nc] {
                let ghost before = marks@;
                let ghost before_stack = stack@;
                marks[nr][nc] = true;
                stack.push((nr, nc));
                proof {
                    assert forall|q: int| 0 <= q < height implies (#[trigger] marks@[q]).len()
                        == width by {
                        if q != nr {
                            assert(marks@[q] == before[q]);
                        }
                    }
                    assert forall|a: int, b: int|
                        0 <= a < height && 0 <= b < width && before[a]@[b] implies #[trigger] marks[a]@[b] by {
                        if a != nr {
                            assert(marks@[a] == before[a]);
                        }
                    }
                    assert forall|a: int, b: int|
                        0 <= a < before.len() && 0 <= b < before[a].len() && before[a]@[b] implies #[trigger] marks@[a]@[b] by {
                        if a != nr {
                            assert(marks@[a] == before[a]);
                        }
                    }
                    assert(same_shape(before, marks@));
                    lemma_grid_fills(before, marks@, before.len(), nr as int, nc as int);
                    // the new cell can be reached by one more step
                    let m = choose|m: nat| reach(cells(walls@), height as nat, width as nat, m, r as int, c as int);
                    assert(reach(cells(walls@), height as nat, width as nat, (m + 1) as nat, nr as int, nc as int));
                    assert(stack@[stack.len() - 1] == (nr, nc));
                    assert forall|q: int| 0 <= q < stack.len() implies (#[trigger] stack[q]).0
                        < height && stack[q].1 < width && marks[stack[q].0 as int]@[stack[q].1 as int] by {
                        if q < before_stack.len() {
                            assert(stack[q] == before_stack[q]);
                            assert(before[stack[q].0 as int]@[stack[q].1 as int]);
                        }
                    }
                    assert forall|a: int, b: int|
                        0 <= a < height && 0 <= b < width && #[trigger] marks[a]@[b] implies stack@.contains(
                        (a as usize, b as usize),
                    ) || closed(cells(walls@), height as nat, width as nat, marks@, a, b) || (a == r && b == c) by {
                        if a == nr && b == nc {
                        } else {
                            assert(before[a]@[b]) by {
                                if a != nr {
                                    assert(marks@[a] == before[a]);
                                }
                            }
                            if before_stack.contains((a as usize, b as usize)) {
                                let w = choose|w: int|
                                    0 <= w < before_stack.len() && before_stack[w] == (
                                        a as usize,
                                        b as usize,
                                    );
                                assert(stack@[w] == (a as usize, b as usize));
                            } else if closed(cells(walls@), height as nat, width as nat, before, a, b) {
                                assert(closed(cells(walls@), height as nat, width as nat, marks@, a, b));
                            }
                        }
                    }
                    assert forall|q: int|
                        0 <= q < k + 1 && free(cells(walls@), height as nat, width as nat,
                            (#[trigger] near[q]).0 as int,
                            near[q].1 as int,
                        ) implies marks[near[q].0 as int]@[near[q].1 as int] by {
                        if q < k {
                            assert(before[near[q].0 as int]@[near[q].1 as int]);
                        }
                    }
                }
            }
        }
        proof {
            assert(closed(cells(walls@), height as nat, width as nat, marks@, r as int, c as int)) by {
                if free(cells(walls@), height as nat, width as nat, r - 1, c as int) {
                    let w = choose|w: int| 0 <= w < near.len() && near@[w] == ((r - 1) as usize, c);
                    assert(free(cells(walls@), height as nat, width as nat, near[w].0 as int, near[w].1 as int));
                }
                if free(cells(walls@), height as nat, width as nat, r + 1, c as int) {
                    let w = choose|w: int| 0 <= w < near.len() && near@[w] == ((r + 1) as usize, c);
                    assert(free(cells(walls@), height as nat, width as nat, near[w].0 as int, near[w].1 as int));
                }
                if free(cells(walls@), height as nat, width as nat, r as int, c - 1) {
                    let w = choose|w: int| 0 <= w < near.len() && near@[w] == (r, (c - 1) as usize);
                    assert(free(cells(walls@), height as nat, width as nat, near[w].0 as int, near[w].1 as int));
                }
                if free(cells(walls@), height as nat, width as nat, r as int, c + 1) {
                    let w = choose|w: int| 0 <= w < near.len() && near@[w] == (r, (c + 1) as usize);
                    assert(free(cells(walls@), height as nat, width as nat, near[w].0 as int, near[w].1 as int));
                }
            }
        }
    }
    proof {
        assert forall|a: int, b: int|
            0 <= a < height && 0 <= b < width && #[trigger] marks@[a]@[b] implies closed(cells(walls@), height as nat, width as nat,
            marks@,
            a,
            b,
        ) by {
            assert(!stack@.contains((a as usize, b as usize)));
        }
        assert forall|r: int, c: int| 0 <= r < height && 0 <= c < width implies #[trigger] marks[r]@[c]
            == reachable(cells(walls@), height as nat, width as nat, r, c) by {
            if reachable(cells(walls@), height as nat, width as nat, r, c) {
                let m = choose|m: nat| reach(cells(walls@), height as nat, width as nat, m, r, c);
                lemma_marks_complete(cells(walls@), height as nat, width as nat, marks@, m, r, c);
            }
        }
    }
    marks
}

// ---------------------------------------------------------------------------
// Counting marked cells
// ---------------------------------------------------------------------------

/// The number of marked cells among the first `c` of a row.
pub open spec fn row_count(row: Seq<bool>, c: nat) -> nat
    decreases c,
{
    if c == 0 {
        0
    } else {
        row_count(row, (c - 1) as nat) + if row[c - 1] {
            1nat
        } else {
            0nat
        }
    }
}

/// The number of marked cells among the first `c` of each of the first `r`
/// rows.
pub open spec fn block_count(grid: Seq<Vec<bool>>, r: nat, c: nat) -> nat
    decreases r,
{
    if r == 0 {
        0
    } else {
        block_count(grid, (r - 1) as nat, c) + row_count(grid[r - 1]@, c)
    }
}

/// The number of marked cells in the rows from `r1` up to `r2` and the
/// columns from `c1` up to `c2`, the upper ends left out.
pub open spec fn box_count(grid: Seq<Vec<bool>>, r1: nat, c1: nat, r2: nat, c2: nat) -> int {
    block_count(grid, r2, c2) - block_count(grid, r1, c2) - block_count(grid, r2, c1)
        + block_count(grid, r1, c1)
}

/// The table holds, for each cell, the number of marked cells above and
/// left of it, the cell's own row and column counted in.
pub open spec fn is_table(table: Seq<Vec<u64>>, grid: Seq<Vec<bool>>, h: nat, w: nat) -> bool {
    &&& table.len() == h
    &&& forall|r: int| 0 <= r < h ==> (#[trigger] table[r]).len() == w
    &&& forall|r: int, c: int|
        0 <= r < h && 0 <= c < w ==> (#[trigger] table[r]@[c]) == block_count(
            grid,
            (r + 1) as nat,
            (c + 1) as nat,
        )
}

proof fn lemma_row_count_bound(row: Seq<bool>, c: nat)
    ensures
        row_count(row, c) <= c,
    decreases c,
{
    if c > 0 {
        lemma_row_count_bound(row, (c - 1) as nat);
    }
}

proof fn lemma_block_bound(grid: Seq<Vec<bool>>, r: nat, c: nat)
    ensures
        block_count(grid, r, c) <= r * c,
    decreases r,
{
    if r > 0 {
        lemma_block_bound(grid, (r - 1) as nat, c);
        lemma_row_count_bound(grid[r - 1]@, c);
        assert((r - 1) * c + c == r * c) by (nonlinear_arith);
    }
}

proof fn lemma_block_no_columns(grid: Seq<Vec<bool>>, r: nat)
    ensures
        block_count(grid, r, 0) == 0,
    decreases r,
{
    if r > 0 {
        lemma_block_no_columns(grid, (r - 1) as nat);
    }
}

/// A stretch of a row counts zero exactly when it holds no marked cell.
proof fn lemma_span(row: Seq<bool>, c1: nat, c2: nat)
    requires
        c1 <= c2 <= row.len(),
    ensures
        row_count(row, c2) >= row_count(row, c1),
        row_count(row, c2) == row_count(row, c1) <==> forall|c: int| c1 <= c < c2 ==> !row[c],
    decreases c2,
{
    if c1 < c2 {
        lemma_span(row, c1, (c2 - 1) as nat);
        if row_count(row, c2) == row_count(row, c1) {
            assert forall|c: int| c1 <= c < c2 implies !row[c] by {}
        } else if !row[c2 - 1] {
            let c = choose|c: int| c1 <= c < c2 - 1 && row[c];
            assert(row[c]);
        }
    }
}

/// A box counts zero exactly when it holds no marked cell.
proof fn lemma_box(grid: Seq<Vec<bool>>, r1: nat, c1: nat, r2: nat, c2: nat)
    requires
        r1 <= r2 <= grid.len(),
        c1 <= c2,
        forall|r: int| 0 <= r < grid.len() ==> c2 <= (#[trigger] grid[r]).len(),
    ensures
        box_count(grid, r1, c1, r2, c2) >= 0,
        box_count(grid, r1, c1, r2, c2) == 0 <==> forall|r: int, c: int|
            r1 <= r < r2 && c1 <= c < c2 ==> !(#[trigger] grid[r]@[c]),
    decreases r2,
{
    if r1 < r2 {
        let above = (r2 - 1) as nat;
        lemma_box(grid, r1, c1, above, c2);
        lemma_span(grid[r2 - 1]@, c1, c2);
        let last = row_count(grid[r2 - 1]@, c2) - row_count(grid[r2 - 1]@, c1);
        assert(box_count(grid, r1, c1, r2, c2) == box_count(grid, r1, c1, above, c2) + last);
        if box_count(grid, r1, c1, r2, c2) == 0 {
            assert forall|r: int, c: int| r1 <= r < r2 && c1 <= c < c2 implies !(
            #[trigger] grid[r]@[c]) by {}
        } else if last == 0 {
            let (r, c) = choose|r: int, c: int|
                r1 <= r < above && c1 <= c < c2 && #[trigger] grid[r]@[c];
            assert(grid[r]@[c]);
        } else {
            let row = grid[r2 - 1]@;
            let c = choose|c: int| c1 <= c < c2 && row[c];
            assert(grid[r2 - 1]@[c]);
        }
    }
}

/// The table of the counts of marked cells above and left of each cell;
/// `None` when the grid has more cells than a `u64` counts.
pub fn prefix_sums(marks: &Vec<Vec<bool>>, height: usize, width: usize) -> (sums: Option<
    Vec<Vec<u64>>,
>)
    requires
        has_shape(marks@, height as nat, width as nat),
    ensures
        sums matches Some(table) ==> is_table(table@, marks@, height as nat, width as nat),
        sums.is_none() ==> height * width > u64::MAX,
{
    let mut table: Vec<Vec<u64>> = Vec::new();
    for r in 0..height
        invariant
            has_shape(marks@, height as nat, width as nat),
            is_table(table@, marks@, r as nat, width as nat),
    {
        let mut row: Vec<u64> = Vec::new();
        for c in 0..width
            invariant
                has_shape(marks@, height as nat, width as nat),
                r < height,
                is_table(table@, marks@, r as nat, width as nat),
                row.len() == c,
                forall|q: int|
                    0 <= q < c ==> (#[trigger] row[q]) == block_count(
                        marks@,
                        (r + 1) as nat,
                        (q + 1) as nat,
                    ),
        {
            let val: i128 = if marks[r][c] {
                1
            } else {
                0
            };
            let top: i128 = if r > 0 {
                table[r - 1][c] as i128
            } else {
                0
            };
            let left: i128 = if c > 0 {
                row[c - 1] as i128
            } else {
                0
            };
            let top_left: i128 = if r > 0 && c > 0 {
                table[r - 1][c - 1] as i128
            } else {
                0
            };
            let sum = val + top + left - top_left;
            proof {
                lemma_block_no_columns(marks@, r as nat);
                lemma_block_no_columns(marks@, (r + 1) as nat);
                assert(top == block_count(marks@, r as nat, (c + 1) as nat));
                assert(left == block_count(marks@, (r + 1) as nat, c as nat));
                assert(top_left == block_count(marks@, r as nat, c as nat));
                assert(row_count(marks@[r as int]@, (c + 1) as nat) == row_count(
                    marks@[r as int]@,
                    c as nat,
                ) + val);
                assert(sum == block_count(marks@, (r + 1) as nat, (c + 1) as nat));
                lemma_block_bound(marks@, (r + 1) as nat, (c + 1) as nat);
                assert((r + 1) * (c + 1) <= height * width) by (nonlinear_arith)
                    requires
                        0 <= r < height,
                        0 <= c < width,
                ;
            }
            if sum < 0 || sum > 0xffff_ffff_ffff_ffff {
                return None;
            }
            row.push(sum as u64);
        }
        table.push(row);
    }
    Some(table)
}

/// Whether the rows from `r1` to `r2` hold no marked cell in the columns
/// from `c1` to `c2`, all four counted in.
fn region_is_clean(
    sums: &Vec<Vec<u64>>,
    Ghost(marks): Ghost<Seq<Vec<bool>>>,
    height: usize,
    width: usize,
    r1: usize,
    c1: usize,
    r2: usize,
    c2: usize,
) -> (clean: bool)
    requires
        has_shape(marks, height as nat, width as nat),
        is_table(sums@, marks, height as nat, width as nat),
        r1 <= r2 < height,
        c1 <= c2 < width,
    ensures
        clean <==> forall|r: int, c: int|
            r1 <= r <= r2 && c1 <= c <= c2 ==> !(#[trigger] marks[r]@[c]),
{
    let mut total: i128 = sums[r2][c2] as i128;
    if r1 > 0 {
        total = total - sums[r1 - 1][c2] as i128;
    }
    if c1 > 0 {
        total = total - sums[r2][c1 - 1] as i128;
    }
    if r1 > 0 && c1 > 0 {
        total = total + sums[r1 - 1][c1 - 1] as i128;
    }
    proof {
        lemma_block_no_columns(marks, r1 as nat);
        lemma_block_no_columns(marks, (r2 + 1) as nat);
        assert(total == box_count(marks, r1 as nat, c1 as nat, (r2 + 1) as nat, (c2 + 1) as nat));
        lemma_box(marks, r1 as nat, c1 as nat, (r2 + 1) as nat, (c2 + 1) as nat);
    }
    total == 0
}

// ---------------------------------------------------------------------------
// The loop of tiles on the grid of strips
// ---------------------------------------------------------------------------

/// The first coordinates of the tiles.
pub open spec fn xs_of(tiles: Seq<(i32, i32)>) -> Seq<i32> {
    Seq::new(tiles.len(), |k: int| tiles[k].0)
}

/// The second coordinates of the tiles.
pub open spec fn ys_of(tiles: Seq<(i32, i32)>) -> Seq<i32> {
    Seq::new(tiles.len(), |k: int| tiles[k].1)
}

/// The axis holds the values in rising order, each once.
pub open spec fn is_axis(axis: Seq<i32>, values: Seq<i32>) -> bool {
    &&& forall|a: int, b: int| 0 <= a < b < axis.len() ==> (#[trigger] axis[a]) < (#[trigger] axis[b])
    &&& forall|k: int| 0 <= k < values.len() ==> axis.contains(#[trigger] values[k])
    &&& forall|k: int| 0 <= k < axis.len() ==> values.contains(#[trigger] axis[k])
}

/// The strip of the grid that stands for the coordinate `v`: the strips with
/// odd numbers stand for the values of the axis, those with even numbers
/// for what lies between and around them.
pub open spec fn strip(axis: Seq<i32>, v: i32) -> int {
    2 * (choose|k: int| 0 <= k < axis.len() && axis[k] == v) + 1
}

/// Column and row of each tile on the grid of strips.
pub open spec fn corners(tiles: Seq<(i32, i32)>, xs: Seq<i32>, ys: Seq<i32>) -> Seq<(int, int)> {
    Seq::new(tiles.len(), |k: int| (strip(xs, tiles[k].0), strip(ys, tiles[k].1)))
}

/// `v` lies between `a` and `b`, both counted in.
pub open spec fn between(a: int, b: int, v: int) -> bool {
    (a <= v <= b) || (b <= v <= a)
}

/// The cell lies in the rectangle with corners `p` and `q`, each a column
/// and a row.
pub open spec fn in_box(p: (int, int), q: (int, int), r: int, c: int) -> bool {
    between(p.1, q.1, r) && between(p.0, q.0, c)
}

/// The place after `k` in a loop of `n` places.
pub open spec fn following(n: int, k: int) -> int {
    if k + 1 == n {
        0
    } else {
        k + 1
    }
}

/// The cell lies between one of the first `k` corners and the corner that
/// follows it in the loop.
pub open spec fn on_wall_before(corners: Seq<(int, int)>, k: int, r: int, c: int) -> bool {
    exists|q: int|
        0 <= q < k && in_box(#[trigger] corners[q], corners[following(corners.len() as int, q)], r, c)
}

/// The cells between each corner and the next: the loop, drawn on the grid.
pub open spec fn walls(corners: Seq<(int, int)>) -> spec_fn(int, int) -> bool {
    |r: int, c: int| on_wall_before(corners, corners.len() as int, r, c)
}

/// No cell of the rectangle between the tiles `i` and `j` can be reached
/// from the corner of the grid without crossing the loop.
pub open spec fn inside(tiles: Seq<(i32, i32)>, xs: Seq<i32>, ys: Seq<i32>, i: int, j: int) -> bool {
    let all = corners(tiles, xs, ys);
    let h = 2 * ys.len() + 1;
    let w = 2 * xs.len() + 1;
    forall|r: int, c: int|
        0 <= r < h && 0 <= c < w && in_box(all[i], all[j], r, c) ==> !#[trigger] reachable(
            walls(all),
            h,
            w,
            r,
            c,
        )
}

/// `best` is the area of a rectangle between two tiles that lies inside the
/// loop, and no such rectangle is larger; zero if there is none.
pub open spec fn is_greatest_inside(
    tiles: Seq<(i32, i32)>,
    xs: Seq<i32>,
    ys: Seq<i32>,
    best: int,
) -> bool {
    &&& forall|i: int, j: int|
        0 <= i < j < tiles.len() && #[trigger] inside(tiles, xs, ys, i, j) ==> area(
            tiles[i],
            tiles[j],
        ) <= best
    &&& best == 0 || exists|i: int, j: int|
        0 <= i < j < tiles.len() && #[trigger] inside(tiles, xs, ys, i, j) && best == area(
            tiles[i],
            tiles[j],
        )
}

/// `best` is the greatest area inside the loop, on the grid of strips that
/// the coordinates of the tiles cut.
pub open spec fn is_greatest_in_loop(tiles: Seq<(i32, i32)>, best: int) -> bool {
    exists|xs: Seq<i32>, ys: Seq<i32>|
        is_axis(xs, xs_of(tiles)) && is_axis(ys, ys_of(tiles)) && #[trigger] is_greatest_inside(
            tiles,
            xs,
            ys,
            best,
        )
}

/// The corners as they are held: column and row of each.
pub open spec fn places(mapped: Seq<(usize, usize)>) -> Seq<(int, int)> {
    Seq::new(mapped.len(), |k: int| (mapped[k].0 as int, mapped[k].1 as int))
}

/// The values in rising order, each once.
pub fn sorted_unique(values: &Vec<i32>) -> (out: Vec<i32>)
    ensures
        forall|a: int, b: int| 0 <= a < b < out.len() ==> (#[trigger] out[a]) < (#[trigger] out[b]),
        forall|k: int| 0 <= k < values.len() ==> out@.contains(#[trigger] values[k]),
        forall|k: int| 0 <= k < out.len() ==> values@.contains(#[trigger] out[k]),
        out.len() <= values.len(),
{
    let mut out: Vec<i32> = Vec::new();
    for i in 0..values.len()
        invariant
            out.len() <= i,
            forall|a: int, b: int|
                0 <= a < b < out.len() ==> (#[trigger] out[a]) < (#[trigger] out[b]),
            forall|k: int| 0 <= k < i ==> out@.contains(#[trigger] values[k]),
            forall|k: int| 0 <= k < out.len() ==> values@.contains(#[trigger] out[k]),
    {
        let v = values[i];
        let mut p: usize = 0;
        while p < out.len() && out[p] < v
            invariant
                p <= out.len(),
                forall|q: int| 0 <= q < p ==> (#[trigger] out[q]) < v,
            decreases out.len() - p,
        {
            p += 1;
        }
        let ghost before = out@;
        if p < out.len() && out[p] == v {
            assert(out@.contains(values[i as int]));
        } else {
            out.insert(p, v);
            proof {
                let after = out@;
                assert(after[p as int] == v);
                assert forall|a: int, b: int| 0 <= a < b < after.len() implies (
                #[trigger] after[a]) < (#[trigger] after[b]) by {
                    if b < p {
                        assert(after[a] == before[a] && after[b] == before[b]);
                    } else if b == p {
                        assert(after[a] == before[a]);
                    } else if a < p {
                        assert(after[a] == before[a] && after[b] == before[b - 1]);
                        if b - 1 > p {
                            assert(before[p as int] < before[b - 1]);
                        }
                    } else if a == p {
                        assert(after[b] == before[b - 1]);
                        if b - 1 > p {
                            assert(before[p as int] < before[b - 1]);
                        }
                    } else {
                        assert(after[a] == before[a - 1] && after[b] == before[b - 1]);
                    }
                }
                assert forall|k: int| 0 <= k < i + 1 implies after.contains(
                    #[trigger] values[k],
                ) by {
                    if k < i {
                        let w = choose|w: int| 0 <= w < before.len() && before[w] == values[k];
                        if w < p {
                            assert(after[w] == values[k]);
                        } else {
                            assert(after[w + 1] == values[k]);
                        }
                    }
                }
                assert forall|k: int| 0 <= k < after.len() implies values@.contains(
                    #[trigger] after[k],
                ) by {
                    if k < p {
                        assert(after[k] == before[k]);
                    } else if k == p {
                        assert(values@[i as int] == v);
                    } else {
                        assert(after[k] == before[k - 1]);
                    }
                }
            }
        }
    }
    out
}

/// The place of `v` among the values.
pub fn place_in(values: &Vec<i32>, v: i32) -> (r: Option<usize>)
    ensures
        match r {
            Some(k) => k < values.len() && values[k as int] == v,
            None => !values@.contains(v),
        },
{
    for k in 0..values.len()
        invariant
            forall|q: int| 0 <= q < k ==> values[q] != v,
    {
        if values[k] == v {
            return Some(k);
        }
    }
    None
}

/// The lesser of two places.
fn lesser(a: usize, b: usize) -> (m: usize)
    ensures
        m == if a <= b {
            a
        } else {
            b
        },
{
    if a <= b {
        a
    } else {
        b
    }
}

/// The greater of two places.
fn greater(a: usize, b: usize) -> (m: usize)
    ensures
        m == if a >= b {
            a
        } else {
            b
        },
{
    if a >= b {
        a
    } else {
        b
    }
}

/// Marks the cells of the rows from `r_min` to `r_max` in the columns from
/// `c_min` to `c_max`.
fn paint(
    grid: &mut Vec<Vec<bool>>,
    height: usize,
    width: usize,
    r_min: usize,
    r_max: usize,
    c_min: usize,
    c_max: usize,
)
    requires
        has_shape(old(grid)@, height as nat, width as nat),
        r_min <= r_max < height,
        c_min <= c_max < width,
    ensures
        has_shape(final(grid)@, height as nat, width as nat),
        forall|a: int, b: int|
            0 <= a < height && 0 <= b < width ==> #[trigger] final(grid)[a]@[b] == (old(grid)[a]@[b]
                || (r_min <= a <= r_max && c_min <= b <= c_max)),
{
    let ghost start = grid@;
    for r in r_min..(r_max + 1)
        invariant
            r_min <= r_max < height,
            c_min <= c_max < width,
            has_shape(start, height as nat, width as nat),
            has_shape(grid@, height as nat, width as nat),
            forall|a: int, b: int|
                0 <= a < height && 0 <= b < width ==> #[trigger] grid[a]@[b] == (start[a]@[b] || (
                r_min <= a < r && c_min <= b <= c_max)),
    {
        for c in c_min..(c_max + 1)
            invariant
                r_min <= r <= r_max < height,
                c_min <= c_max < width,
                has_shape(start, height as nat, width as nat),
                has_shape(grid@, height as nat, width as nat),
                forall|a: int, b: int|
                    0 <= a < height && 0 <= b < width ==> #[trigger] grid[a]@[b] == (start[a]@[b]
                        || (r_min <= a < r && c_min <= b <= c_max) || (a == r && c_min <= b < c)),
        {
            let ghost before = grid@;
            grid[r][c] = true;
            proof {
                assert forall|q: int| 0 <= q < height implies (#[trigger] grid@[q]).len()
                    == width by {
                    if q != r {
                        assert(grid@[q] == before[q]);
                    }
                }
                assert forall|a: int, b: int| 0 <= a < height && 0 <= b < width implies #[trigger] grid[a]@[b]
                    == (start[a]@[b] || (r_min <= a < r && c_min <= b <= c_max) || (a == r && c_min
                    <= b < c + 1)) by {
                    if a != r {
                        assert(grid@[a] == before[a]);
                    }
                    assert(before[a]@[b] == (start[a]@[b] || (r_min <= a < r && c_min <= b <= c_max)
                        || (a == r && c_min <= b < c)));
                }
            }
        }
    }
}

/// The grid with the loop through the corners drawn on it.
fn draw(mapped: &Vec<(usize, usize)>, height: usize, width: usize) -> (grid: Vec<Vec<bool>>)
    requires
        forall|q: int|
            0 <= q < mapped.len() ==> (#[trigger] mapped[q]).0 < width && mapped[q].1 < height,
    ensures
        has_shape(grid@, height as nat, width as nat),
        forall|a: int, b: int|
            0 <= a < height && 0 <= b < width ==> #[trigger] grid[a]@[b] == walls(places(mapped@))(
                a,
                b,
            ),
{
    let n = mapped.len();
    let mut grid = blank_grid(height, width, false);
    let ghost all = places(mapped@);
    for k in 0..n
        invariant
            n == mapped.len(),
            all == places(mapped@),
            forall|q: int| 0 <= q < n ==> (#[trigger] mapped[q]).0 < width && mapped[q].1 < height,
            has_shape(grid@, height as nat, width as nat),
            forall|a: int, b: int|
                0 <= a < height && 0 <= b < width ==> #[trigger] grid[a]@[b] == on_wall_before(
                    all,
                    k as int,
                    a,
                    b,
                ),
    {
        let (c1, r1) = mapped[k];
        let next = if k + 1 == n {
            0
        } else {
            k + 1
        };
        let (c2, r2) = mapped[next];
        let r_min = lesser(r1, r2);
        let r_max = greater(r1, r2);
        let c_min = lesser(c1, c2);
        let c_max = greater(c1, c2);
        let ghost before = grid@;
        paint(&mut grid, height, width, r_min, r_max, c_min, c_max);
        proof {
            assert(next == following(all.len() as int, k as int));
            assert(all[k as int] == (c1 as int, r1 as int));
            assert(all[next as int] == (c2 as int, r2 as int));
            assert forall|a: int, b: int| 0 <= a < height && 0 <= b < width implies #[trigger] grid[a]@[b]
                == on_wall_before(all, k + 1, a, b) by {
                let here = r_min <= a <= r_max && c_min <= b <= c_max;
                assert(here == in_box(all[k as int], all[next as int], a, b));
                assert(grid[a]@[b] == (before[a]@[b] || here));
                assert(before[a]@[b] == on_wall_before(all, k as int, a, b));
                if on_wall_before(all, k + 1, a, b) {
                    let q = choose|q: int|
                        0 <= q < k + 1 && in_box(
                            #[trigger] all[q],
                            all[following(all.len() as int, q)],
                            a,
                            b,
                        );
                    if q < k {
                        assert(on_wall_before(all, k as int, a, b));
                    }
                }
                if on_wall_before(all, k as int, a, b) {
                    let q = choose|q: int|
                        0 <= q < k && in_box(
                            #[trigger] all[q],
                            all[following(all.len() as int, q)],
                            a,
                            b,
                        );
                    assert(on_wall_before(all, k + 1, a, b));
                }
                if here {
                    assert(in_box(
                        all[k as int],
                        all[following(all.len() as int, k as int)],
                        a,
                        b,
                    ));
                }
            }
        }
    }
    grid
}

/// The coordinates of the tiles along each axis, in rising order, each once.
fn axes(tiles: &Vec<(i32, i32)>) -> (both: (Vec<i32>, Vec<i32>))
    ensures
        is_axis(both.0@, xs_of(tiles@)),
        is_axis(both.1@, ys_of(tiles@)),
        both.0.len() <= tiles.len(),
        both.1.len() <= tiles.len(),
{
    let n = tiles.len();
    let mut all_x: Vec<i32> = Vec::new();
    let mut all_y: Vec<i32> = Vec::new();
    for k in 0..n
        invariant
            n == tiles.len(),
            all_x.len() == k,
            all_y.len() == k,
            forall|q: int| 0 <= q < k ==> all_x[q] == tiles[q].0 && all_y[q] == tiles[q].1,
    {
        all_x.push(tiles[k].0);
        all_y.push(tiles[k].1);
    }
    assert(all_x@ =~= xs_of(tiles@));
    assert(all_y@ =~= ys_of(tiles@));
    let xs = sorted_unique(&all_x);
    let ys = sorted_unique(&all_y);
    (xs, ys)
}

/// The strip of a value is twice its place on the axis and one more.
proof fn lemma_strip(axis: Seq<i32>, values: Seq<i32>, i: int)
    requires
        is_axis(axis, values),
        0 <= i < axis.len(),
    ensures
        strip(axis, axis[i]) == 2 * i + 1,
{
    let k = choose|k: int| 0 <= k < axis.len() && axis[k] == axis[i];
    if k < i {
        assert(axis[k] < axis[i]);
    } else if i < k {
        assert(axis[i] < axis[k]);
    }
}

/// Where each tile lies on the grid of strips: its column and its row.
fn strips(tiles: &Vec<(i32, i32)>, xs: &Vec<i32>, ys: &Vec<i32>) -> (mapped: Vec<(usize, usize)>)
    requires
        is_axis(xs@, xs_of(tiles@)),
        is_axis(ys@, ys_of(tiles@)),
        2 * xs.len() + 1 <= usize::MAX,
        2 * ys.len() + 1 <= usize::MAX,
    ensures
        mapped.len() == tiles.len(),
        places(mapped@) == corners(tiles@, xs@, ys@),
        forall|q: int|
            0 <= q < mapped.len() ==> 1 <= (#[trigger] mapped[q]).0 < 2 * xs.len() + 1 && 1
                <= mapped[q].1 < 2 * ys.len() + 1,
{
    let n = tiles.len();
    let mut mapped: Vec<(usize, usize)> = Vec::new();
    for k in 0..n
        invariant
            n == tiles.len(),
            is_axis(xs@, xs_of(tiles@)),
            is_axis(ys@, ys_of(tiles@)),
            2 * xs.len() + 1 <= usize::MAX,
            2 * ys.len() + 1 <= usize::MAX,
            mapped.len() == k,
            forall|q: int|
                0 <= q < k ==> 1 <= (#[trigger] mapped[q]).0 < 2 * xs.len() + 1 && 1 <= mapped[q].1
                    < 2 * ys.len() + 1,
            forall|q: int|
                0 <= q < k ==> (#[trigger] mapped[q]).0 == strip(xs@, tiles[q].0) && mapped[q].1
                    == strip(ys@, tiles[q].1),
    {
        proof {
            assert(xs_of(tiles@)[k as int] == tiles[k as int].0);
            assert(ys_of(tiles@)[k as int] == tiles[k as int].1);
            assert(xs@.contains(tiles[k as int].0));
            assert(ys@.contains(tiles[k as int].1));
        }
        let c = match place_in(xs, tiles[k].0) {
            Some(i) => {
                proof {
                    lemma_strip(xs@, xs_of(tiles@), i as int);
                }
                i * 2 + 1
            },
            None => 1,
        };
        let r = match place_in(ys, tiles[k].1) {
            Some(i) => {
                proof {
                    lemma_strip(ys@, ys_of(tiles@), i as int);
                }
                i * 2 + 1
            },
            None => 1,
        };
        mapped.push((c, r));
    }
    assert(places(mapped@) =~= corners(tiles@, xs@, ys@));
    mapped
}

/// The grid of strips is laid out: the corners are placed, `outside` marks
/// the cells within reach of the corner of the grid, and `sums` counts them.
spec fn surveyed(
    tiles: Seq<(i32, i32)>,
    xs: Seq<i32>,
    ys: Seq<i32>,
    mapped: Seq<(usize, usize)>,
    outside: Seq<Vec<bool>>,
    sums: Seq<Vec<u64>>,
) -> bool {
    let h = 2 * ys.len() + 1;
    let w = 2 * xs.len() + 1;
    &&& h <= usize::MAX
    &&& w <= usize::MAX
    &&& places(mapped) == corners(tiles, xs, ys)
    &&& forall|q: int| 0 <= q < mapped.len() ==> (#[trigger] mapped[q]).0 < w && mapped[q].1 < h
    &&& has_shape(outside, h, w)
    &&& is_table(sums, outside, h, w)
    &&& forall|a: int, b: int|
        0 <= a < h && 0 <= b < w ==> #[trigger] outside[a]@[b] == reachable(
            walls(corners(tiles, xs, ys)),
            h,
            w,
            a,
            b,
        )
}

/// Whether the rectangle between the tiles `i` and `j` lies inside the loop.
fn lies_inside(
    mapped: &Vec<(usize, usize)>,
    sums: &Vec<Vec<u64>>,
    i: usize,
    j: usize,
    Ghost(tiles): Ghost<Seq<(i32, i32)>>,
    Ghost(xs): Ghost<Seq<i32>>,
    Ghost(ys): Ghost<Seq<i32>>,
    Ghost(outside): Ghost<Seq<Vec<bool>>>,
) -> (clean: bool)
    requires
        surveyed(tiles, xs, ys, mapped@, outside, sums@),
        i < mapped.len(),
        j < mapped.len(),
    ensures
        clean == inside(tiles, xs, ys, i as int, j as int),
{
    let ghost all = corners(tiles, xs, ys);
    let ghost h = (2 * ys.len() + 1) as nat;
    let ghost w = (2 * xs.len() + 1) as nat;
    let (c1, r1) = mapped[i];
    let (c2, r2) = mapped[j];
    let r_min = lesser(r1, r2);
    let r_max = greater(r1, r2);
    let c_min = lesser(c1, c2);
    let c_max = greater(c1, c2);
    assert(sums.len() == h);
    assert(sums[0].len() == w);
    let height = sums.len();
    let width = sums[0].len();
    let clean = region_is_clean(sums, Ghost(outside), height, width, r_min, c_min, r_max, c_max);
    proof {
        assert(all[i as int] == places(mapped@)[i as int]);
        assert(all[j as int] == places(mapped@)[j as int]);
        if clean {
            assert forall|a: int, b: int|
                0 <= a < h && 0 <= b < w && in_box(
                    all[i as int],
                    all[j as int],
                    a,
                    b,
                ) implies !#[trigger] reachable(walls(all), h, w, a, b) by {
                assert(!outside[a]@[b]);
            }
            assert(inside(tiles, xs, ys, i as int, j as int));
        }
        if inside(tiles, xs, ys, i as int, j as int) {
            assert forall|a: int, b: int| r_min <= a <= r_max && c_min <= b <= c_max implies !(
            #[trigger] outside[a]@[b]) by {
                assert(in_box(all[i as int], all[j as int], a, b));
                assert(!reachable(walls(all), h, w, a, b));
            }
        }
    }
    clean
}

/// The greatest area among the rectangles with two of the tiles as opposite
/// corners that lie inside the loop which the tiles form, taken in their
/// order and closed from the last to the first. The floor is cut into
/// strips at the coordinates of the tiles, the strips outside the loop are
/// those within reach of a corner of the floor, and a rectangle counts if it
/// holds no strip outside. Zero if no rectangle counts; `None` only for more
/// tiles than the grid of strips can hold.
pub fn greatest_inside(tiles: &Vec<(i32, i32)>) -> (r: Option<i128>)
    ensures
        r matches Some(best) ==> is_greatest_in_loop(tiles@, best as int),
        r.is_none() ==> tiles.len() > 0x7fff_ffff,
{
    let n = tiles.len();
    let (xs, ys) = axes(tiles);
    if xs.len() > (usize::MAX - 1) / 2 || ys.len() > (usize::MAX - 1) / 2 {
        return None;
    }
    let height = 2 * ys.len() + 1;
    let width = 2 * xs.len() + 1;
    let mapped = strips(tiles, &xs, &ys);
    let grid = draw(&mapped, height, width);
    let ghost all = corners(tiles@, xs@, ys@);
    proof {
        assert(!grid[0]@[0]) by {
            if on_wall_before(all, all.len() as int, 0, 0) {
                let q = choose|q: int|
                    0 <= q < all.len() && in_box(
                        #[trigger] all[q],
                        all[following(all.len() as int, q)],
                        0,
                        0,
                    );
                let next = following(all.len() as int, q);
                assert(all[q] == places(mapped@)[q]);
                assert(all[next] == places(mapped@)[next]);
                assert(mapped[q].1 >= 1 && mapped[next].1 >= 1);
            }
        }
    }
    let outside = flood(&grid, height, width);
    let sums = match prefix_sums(&outside, height, width) {
        Some(table) => table,
        None => {
            proof {
                if tiles.len() <= 0x7fff_ffff {
                    assert(height * width <= 0xffff_ffff * 0xffff_ffff) by (nonlinear_arith)
                        requires
                            0 <= height <= 0xffff_ffff,
                            0 <= width <= 0xffff_ffff,
                    ;
                }
            }
            return None;
        },
    };
    proof {
        assert forall|a: int, b: int| 0 <= a < height && 0 <= b < width implies #[trigger] outside[a]@[b]
            == reachable(walls(all), height as nat, width as nat, a, b) by {
            let first = cells(grid@);
            let second = walls(all);
            assert forall|m: nat|
                reach(first, height as nat, width as nat, m, a, b) == reach(
                    second,
                    height as nat,
                    width as nat,
                    m,
                    a,
                    b,
                ) by {
                lemma_reach_same(first, second, height as nat, width as nat, m, a, b);
            }
        }
    }
    let mut best: i128 = 0;
    let ghost mut found: (int, int) = (0, 0);
    for i in 0..n
        invariant
            n == tiles.len(),
            mapped.len() == n,
            surveyed(tiles@, xs@, ys@, mapped@, outside@, sums@),
            forall|a: int, b: int|
                0 <= a < b < n && a < i && #[trigger] inside(tiles@, xs@, ys@, a, b) ==> area(
                    tiles[a],
                    tiles[b],
                ) <= best,
            best == 0 || (0 <= found.0 < found.1 < n && inside(tiles@, xs@, ys@, found.0, found.1)
                && best == area(tiles[found.0], tiles[found.1])),
    {
        for j in (i + 1)..n
            invariant
                n == tiles.len(),
                i < n,
                mapped.len() == n,
                surveyed(tiles@, xs@, ys@, mapped@, outside@, sums@),
                forall|a: int, b: int|
                    0 <= a < b < n && (a < i || (a == i && b < j)) && #[trigger] inside(
                        tiles@,
                        xs@,
                        ys@,
                        a,
                        b,
                    ) ==> area(tiles[a], tiles[b]) <= best,
                best == 0 || (0 <= found.0 < found.1 < n && inside(
                    tiles@,
                    xs@,
                    ys@,
                    found.0,
                    found.1,
                ) && best == area(tiles[found.0], tiles[found.1])),
        {
            let clean = lies_inside(
                &mapped,
                &sums,
                i,
                j,
                Ghost(tiles@),
                Ghost(xs@),
                Ghost(ys@),
                Ghost(outside@),
            );
            if clean {
                let a = rectangle(tiles[i], tiles[j]);
                if a > best {
                    best = a;
                    proof {
                        found = (i as int, j as int);
                    }
                }
            }
        }
    }
    proof {
        if best != 0 {
            assert(inside(tiles@, xs@, ys@, found.0, found.1));
        }
        assert(is_greatest_inside(tiles@, xs@, ys@, best as int));
    }
    Some(best)
}

/// The greatest area of a rectangle between two of the tiles in `input`
/// that lies inside the loop which they form, blanks around the input left
/// out. `None` when the input is not a list of tiles, when there are more
/// tiles than the grid of strips can hold, or when the area is too big for
/// an `i64`.
pub fn part2(input: &str) -> (r: Option<i64>)
    ensures
        ({
            let all = lines_of(trimmed(input.spec_bytes()));
            let tiles = tiles_of(all);
            &&& r matches Some(best) ==> tiles_well_formed(all) && is_greatest_in_loop(
                tiles,
                best as int,
            )
            &&& r.is_none() ==> !tiles_well_formed(all) || tiles.len() > 0x7fff_ffff || exists|
                i: int,
                j: int,
            |
                0 <= i < j < tiles.len() && #[trigger] area(tiles[i], tiles[j]) > i64::MAX
        }),
{
    let body = trim(input.as_bytes());
    let tiles = match read_tiles(body.as_slice()) {
        Some(list) => list,
        None => {
            return None;
        },
    };
    match greatest_inside(&tiles) {
        Some(best) => if best <= 0x7fff_ffff_ffff_ffff {
            proof {
                lemma_greatest_is_area(tiles@, best as int);
            }
            Some(best as i64)
        } else {
            proof {
                lemma_greatest_is_area(tiles@, best as int);
            }
            None
        },
        None => None,
    }
}

/// The greatest area inside the loop is zero or the area between two of
/// the tiles.
pub proof fn lemma_greatest_is_area(tiles: Seq<(i32, i32)>, best: int)
    requires
        is_greatest_in_loop(tiles, best),
    ensures
        best == 0 || exists|i: int, j: int|
            0 <= i < j < tiles.len() && best == #[trigger] area(tiles[i], tiles[j]),
{
    let (xs, ys) = choose|xs: Seq<i32>, ys: Seq<i32>|
        is_axis(xs, xs_of(tiles)) && is_axis(ys, ys_of(tiles)) && #[trigger] is_greatest_inside(
            tiles,
            xs,
            ys,
            best,
        );
    if best != 0 {
        let (i, j) = choose|i: int, j: int|
            0 <= i < j < tiles.len() && #[trigger] inside(tiles, xs, ys, i, j) && best == area(
                tiles[i],
                tiles[j],
            );
        assert(best == area(tiles[i], tiles[j]));
    }
}

} // verus!
