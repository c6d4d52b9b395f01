//! Indicator lights: the least number of button presses that brings every
//! light to its target state, found by elimination over the two-element field
//! followed by a search over the free variables.

use crate::machine::{Machine, Outcome};
use crate::vectors::swap_entries;
use vstd::prelude::*;

verus! {

// ---------------------------------------------------------------------------
// The puzzle, stated mathematically
// ---------------------------------------------------------------------------

/// State of `light` after the first `k` buttons were pressed as `presses` says,
/// all lights starting dark: the exclusive-or of the pressed buttons' bits.
pub open spec fn light_after(
    buttons: Seq<Seq<bool>>,
    presses: Seq<bool>,
    light: int,
    k: nat,
) -> bool
    decreases k,
{
    if k == 0 {
        false
    } else {
        light_after(buttons, presses, light, (k - 1) as nat) != (presses[k - 1] && buttons[k
            - 1][light])
    }
}

/// `presses` names one choice per button and leaves every light as `target` asks.
pub open spec fn solves_lights(
    buttons: Seq<Seq<bool>>,
    target: Seq<bool>,
    presses: Seq<bool>,
) -> bool {
    &&& presses.len() == buttons.len()
    &&& forall|i: int|
        0 <= i < target.len() ==> #[trigger] light_after(buttons, presses, i, buttons.len())
            == target[i]
}

/// Number of buttons pressed.
pub open spec fn weight(presses: Seq<bool>) -> nat
    decreases presses.len(),
{
    if presses.len() == 0 {
        0
    } else {
        weight(presses.drop_last()) + if presses.last() {
            1nat
        } else {
            0nat
        }
    }
}

/// Some choice of presses reaches the target.
pub open spec fn lights_feasible(buttons: Seq<Seq<bool>>, target: Seq<bool>) -> bool {
    exists|x: Seq<bool>| solves_lights(buttons, target, x)
}

/// `w` is the weight of a solution, and no solution is lighter.
pub open spec fn is_least_presses(buttons: Seq<Seq<bool>>, target: Seq<bool>, w: nat) -> bool {
    &&& exists|x: Seq<bool>| solves_lights(buttons, target, x) && weight(x) == w
    &&& forall|x: Seq<bool>| solves_lights(buttons, target, x) ==> weight(x) >= w
}

/// Every entry of `target` is false.
pub open spec fn all_dark(target: Seq<bool>) -> bool {
    forall|i: int| 0 <= i < target.len() ==> !target[i]
}

// ---------------------------------------------------------------------------
// Rows of the augmented matrix
// ---------------------------------------------------------------------------

/// Exclusive-or of `row[j] && x[j]` over the first `k` columns.
pub open spec fn row_parity(row: Seq<bool>, x: Seq<bool>, k: nat) -> bool
    decreases k,
{
    if k == 0 {
        false
    } else {
        row_parity(row, x, (k - 1) as nat) != (row[k - 1] && x[k - 1])
    }
}

/// As `row_parity`, leaving out column `skip`.
pub open spec fn parity_except(row: Seq<bool>, x: Seq<bool>, skip: int, k: nat) -> bool
    decreases k,
{
    if k == 0 {
        false
    } else {
        parity_except(row, x, skip, (k - 1) as nat) != (k - 1 != skip && row[k - 1] && x[k - 1])
    }
}

/// `x` satisfies the equation that `row` stands for, whose right side is column `m`.
pub open spec fn row_ok(row: Seq<bool>, x: Seq<bool>, m: nat) -> bool {
    row_parity(row, x, m) == row[m as int]
}

/// `x` satisfies every row of the matrix.
pub open spec fn all_rows_ok(mat: Seq<Vec<bool>>, x: Seq<bool>, m: nat) -> bool {
    forall|i: int| 0 <= i < mat.len() ==> row_ok(#[trigger] mat[i]@, x, m)
}

/// Every row has `m` variable columns and one target column.
pub open spec fn has_width(mat: Seq<Vec<bool>>, m: nat) -> bool {
    forall|i: int| 0 <= i < mat.len() ==> (#[trigger] mat[i]).len() == m + 1
}

/// The state of elimination once the columns before `col` are done: each
/// pivot column holds a single one, in its own row, and the rows from the
/// frontier on are zero before `col`.
pub open spec fn eliminated(mat: Seq<Vec<bool>>, m: nat, pivots: Seq<usize>, col: nat) -> bool {
    &&& has_width(mat, m)
    &&& pivots.len() <= mat.len()
    &&& col <= m
    &&& forall|k: int| 0 <= k < pivots.len() ==> (#[trigger] pivots[k]) < col
    &&& forall|k1: int, k2: int|
        0 <= k1 < k2 < pivots.len() ==> (#[trigger] pivots[k1]) < (#[trigger] pivots[k2])
    &&& forall|k: int, r: int|
        #![trigger mat[r], pivots[k]]
        0 <= k < pivots.len() && 0 <= r < mat.len() ==> mat[r]@[pivots[k] as int] == (r == k)
    &&& forall|r: int, c: int|
        pivots.len() <= r < mat.len() && 0 <= c < col ==> !(#[trigger] mat[r]@[c])
}

/// `flags` marks exactly the pivot columns, and `free` lists the others in
/// increasing order.
pub open spec fn columns_split(
    m: nat,
    pivots: Seq<usize>,
    flags: Seq<bool>,
    free: Seq<usize>,
) -> bool {
    &&& flags.len() == m
    &&& forall|k: int| 0 <= k < pivots.len() ==> pivots[k] < m && flags[(#[trigger] pivots[k]) as int]
    &&& forall|j: int| 0 <= j < free.len() ==> free[j] < m && !flags[(#[trigger] free[j]) as int]
    &&& forall|j1: int, j2: int|
        0 <= j1 < j2 < free.len() ==> (#[trigger] free[j1]) < (#[trigger] free[j2])
    &&& forall|c: int|
        0 <= c < m && !(#[trigger] flags[c]) ==> exists|j: int|
            0 <= j < free.len() && free[j] == c
    &&& forall|c: int|
        0 <= c < m && (#[trigger] flags[c]) ==> exists|k: int|
            0 <= k < pivots.len() && pivots[k] == c
}

/// `x` and `s` hold the same value at each of the first `idx` free columns.
pub open spec fn agree_on(x: Seq<bool>, s: Seq<bool>, free: Seq<usize>, idx: nat) -> bool {
    forall|j: int| 0 <= j < idx ==> x[(#[trigger] free[j]) as int] == s[free[j] as int]
}

// ---------------------------------------------------------------------------
// Lemmas on rows
// ---------------------------------------------------------------------------

/// The parity of the exclusive-or of two rows is the exclusive-or of their parities.
proof fn lemma_parity_xor(a: Seq<bool>, p: Seq<bool>, c: Seq<bool>, x: Seq<bool>, k: nat)
    requires
        k <= a.len(),
        k <= p.len(),
        k <= c.len(),
        forall|j: int| 0 <= j < k ==> c[j] == (a[j] != p[j]),
    ensures
        row_parity(c, x, k) == (row_parity(a, x, k) != row_parity(p, x, k)),
    decreases k,
{
    if k > 0 {
        lemma_parity_xor(a, p, c, x, (k - 1) as nat);
    }
}

/// A row of zeros has parity zero.
proof fn lemma_parity_zero_row(row: Seq<bool>, x: Seq<bool>, k: nat)
    requires
        k <= row.len(),
        forall|j: int| 0 <= j < k ==> !row[j],
    ensures
        !row_parity(row, x, k),
    decreases k,
{
    if k > 0 {
        lemma_parity_zero_row(row, x, (k - 1) as nat);
    }
}

/// Splitting one column off the parity of a row.
proof fn lemma_parity_split(row: Seq<bool>, x: Seq<bool>, skip: int, k: nat)
    ensures
        row_parity(row, x, k) == (parity_except(row, x, skip, k) != (0 <= skip < k && row[skip]
            && x[skip])),
    decreases k,
{
    if k > 0 {
        lemma_parity_split(row, x, skip, (k - 1) as nat);
    }
}

/// The parity outside column `skip` depends only on the entries of `x` that
/// the row selects.
proof fn lemma_parity_except_agree(row: Seq<bool>, x: Seq<bool>, y: Seq<bool>, skip: int, k: nat)
    requires
        forall|j: int| 0 <= j < k && j != skip && row[j] ==> x[j] == y[j],
    ensures
        parity_except(row, x, skip, k) == parity_except(row, y, skip, k),
    decreases k,
{
    if k > 0 {
        lemma_parity_except_agree(row, x, y, skip, (k - 1) as nat);
    }
}

/// The rows built from the machine say what the lights say.
proof fn lemma_parity_is_light(
    buttons: Seq<Seq<bool>>,
    row: Seq<bool>,
    x: Seq<bool>,
    light: int,
    k: nat,
)
    requires
        k <= buttons.len(),
        k <= row.len(),
        forall|j: int| 0 <= j < k ==> row[j] == buttons[j][light],
    ensures
        row_parity(row, x, k) == light_after(buttons, x, light, k),
    decreases k,
{
    if k > 0 {
        lemma_parity_is_light(buttons, row, x, light, (k - 1) as nat);
    }
}

/// The weight of a sequence grows by one with each true entry pushed.
proof fn lemma_weight_push(x: Seq<bool>, b: bool)
    ensures
        weight(x.push(b)) == weight(x) + if b {
            1nat
        } else {
            0nat
        },
{
    assert(x.push(b).drop_last() =~= x);
}

/// No more buttons are pressed than there are.
pub proof fn lemma_weight_bound(x: Seq<bool>)
    ensures
        weight(x) <= x.len(),
    decreases x.len(),
{
    if x.len() > 0 {
        lemma_weight_bound(x.drop_last());
    }
}

/// Replacing a row by its exclusive-or with another row that stays in the
/// matrix does not change which vectors satisfy all rows; nor does leaving a
/// row as it is.
proof fn lemma_clear_keeps_solutions(
    before: Seq<Vec<bool>>,
    after: Seq<Vec<bool>>,
    prow: int,
    col: int,
    m: nat,
    x: Seq<bool>,
)
    requires
        has_width(before, m),
        has_width(after, m),
        after.len() == before.len(),
        0 <= prow < before.len(),
        forall|r: int, c: int|
            #![trigger after[r]@[c]]
            0 <= r < before.len() && 0 <= c <= m ==> after[r]@[c] == if r != prow
                && before[r]@[col] {
                before[r]@[c] != before[prow]@[c]
            } else {
                before[r]@[c]
            },
    ensures
        all_rows_ok(after, x, m) == all_rows_ok(before, x, m),
{
    let p = before[prow]@;
    assert(after[prow]@ =~= p);
    assert forall|r: int| 0 <= r < before.len() && row_ok(p, x, m) implies (row_ok(
        #[trigger] after[r]@,
        x,
        m,
    ) == row_ok(before[r]@, x, m)) by {
        if r != prow && before[r]@[col] {
            lemma_parity_xor(before[r]@, p, after[r]@, x, m);
        } else {
            assert(after[r]@ =~= before[r]@);
        }
    }
    if all_rows_ok(before, x, m) {
        assert(row_ok(before[prow]@, x, m));
        assert forall|r: int| 0 <= r < after.len() implies row_ok(#[trigger] after[r]@, x, m) by {
            assert(row_ok(before[r]@, x, m));
        }
    }
    if all_rows_ok(after, x, m) {
        assert(row_ok(after[prow]@, x, m));
        assert forall|r: int| 0 <= r < before.len() implies row_ok(
            #[trigger] before[r]@,
            x,
            m,
        ) by {
            assert(row_ok(after[r]@, x, m));
        }
    }
}

/// Exchanging two rows does not change which vectors satisfy all rows.
proof fn lemma_swap_keeps_solutions(
    before: Seq<Vec<bool>>,
    after: Seq<Vec<bool>>,
    a: int,
    b: int,
    m: nat,
    x: Seq<bool>,
)
    requires
        0 <= a < before.len(),
        0 <= b < before.len(),
        after == before.update(a, before[b]).update(b, before[a]),
    ensures
        all_rows_ok(after, x, m) == all_rows_ok(before, x, m),
{
    if all_rows_ok(before, x, m) {
        assert forall|r: int| 0 <= r < after.len() implies row_ok(#[trigger] after[r]@, x, m) by {
            if r == a {
                assert(row_ok(before[b]@, x, m));
            } else if r == b {
                assert(row_ok(before[a]@, x, m));
            } else {
                assert(row_ok(before[r]@, x, m));
            }
        }
    }
    if all_rows_ok(after, x, m) {
        assert forall|r: int| 0 <= r < before.len() implies row_ok(
            #[trigger] before[r]@,
            x,
            m,
        ) by {
            if r == a {
                assert(row_ok(after[b]@, x, m));
            } else if r == b {
                assert(row_ok(after[a]@, x, m));
            } else {
                assert(row_ok(after[r]@, x, m));
            }
        }
    }
}

/// In a reduced system the free columns determine the solution.
proof fn lemma_unique_completion(
    mat: Seq<Vec<bool>>,
    m: nat,
    pivots: Seq<usize>,
    flags: Seq<bool>,
    free: Seq<usize>,
    x: Seq<bool>,
    y: Seq<bool>,
)
    requires
        eliminated(mat, m, pivots, m),
        columns_split(m, pivots, flags, free),
        x.len() == m,
        y.len() == m,
        all_rows_ok(mat, x, m),
        all_rows_ok(mat, y, m),
        agree_on(x, y, free, free.len()),
    ensures
        x == y,
{
    assert forall|c: int| 0 <= c < m && !flags[c] implies x[c] == y[c] by {
        let j = choose|j: int| 0 <= j < free.len() && free[j] == c;
        assert(x[free[j] as int] == y[free[j] as int]);
    }
    assert forall|c: int| 0 <= c < m implies x[c] == y[c] by {
        if flags[c] {
            let k = choose|k: int| 0 <= k < pivots.len() && pivots[k] == c;
            let row = mat[k]@;
            assert(row_ok(row, x, m));
            assert(row_ok(row, y, m));
            assert(mat[k]@[pivots[k] as int] == (k == k));
            assert forall|j: int| 0 <= j < m && j != c && row[j] implies x[j] == y[j] by {
                if flags[j] {
                    let k2 = choose|k2: int| 0 <= k2 < pivots.len() && pivots[k2] == j;
                    assert(mat[k]@[pivots[k2] as int] == (k == k2));
                }
            }
            lemma_parity_except_agree(row, x, y, c, m);
            lemma_parity_split(row, x, c, m);
            lemma_parity_split(row, y, c, m);
        }
    }
    assert(x =~= y);
}

// ---------------------------------------------------------------------------
// Elimination
// ---------------------------------------------------------------------------

/// The augmented matrix of the machine: one row per light, one column per
/// button, and the target in the last column.
fn build_matrix(machine: &Machine) -> (mat: Vec<Vec<bool>>)
    requires
        machine.lights_well_formed(),
    ensures
        mat.len() == machine.target.len(),
        has_width(mat@, machine.buttons.len() as nat),
        forall|i: int, j: int|
            0 <= i < mat.len() && 0 <= j < machine.buttons.len() ==> #[trigger] mat[i]@[j]
                == machine.buttons[j]@[i],
        forall|i: int|
            0 <= i < mat.len() ==> (#[trigger] mat[i])@[machine.buttons.len() as int]
                == machine.target[i],
{
    let n = machine.target.len();
    let m = machine.buttons.len();
    let mut mat: Vec<Vec<bool>> = Vec::new();
    for light in 0..n
        invariant
            n == machine.target.len(),
            m == machine.buttons.len(),
            machine.lights_well_formed(),
            mat.len() == light,
            has_width(mat@, m as nat),
            forall|i: int, j: int|
                0 <= i < mat.len() && 0 <= j < m ==> #[trigger] mat[i]@[j]
                    == machine.buttons[j]@[i],
            forall|i: int| 0 <= i < mat.len() ==> (#[trigger] mat[i])@[m as int] == machine.target[i],
    {
        let mut row: Vec<bool> = Vec::new();
        for button in 0..m
            invariant
                light < n,
                n == machine.target.len(),
                m == machine.buttons.len(),
                machine.lights_well_formed(),
                row.len() == button,
                forall|j: int| 0 <= j < button ==> row[j] == machine.buttons[j]@[light as int],
        {
            row.push(machine.buttons[button][light]);
        }
        row.push(machine.target[light]);
        mat.push(row);
    }
    mat
}

/// The first row at or after `row` with a one in column `col`.
fn find_pivot(mat: &Vec<Vec<bool>>, m: usize, row: usize, col: usize) -> (found: Option<usize>)
    requires
        has_width(mat@, m as nat),
        col < m,
        row <= mat.len(),
    ensures
        match found {
            Some(p) => row <= p < mat.len() && mat[p as int]@[col as int] && forall|r: int|
                row <= r < p ==> !(#[trigger] mat[r]@[col as int]),
            None => forall|r: int| row <= r < mat.len() ==> !(#[trigger] mat[r]@[col as int]),
        },
{
    let mut r = row;
    while r < mat.len()
        invariant
            has_width(mat@, m as nat),
            col < m,
            row <= r <= mat.len(),
            forall|q: int| row <= q < r ==> !(#[trigger] mat[q]@[col as int]),
        decreases mat.len() - r,
    {
        if mat[r][col] {
            return Some(r);
        }
        r += 1;
    }
    None
}

/// Adds row `prow` to every other row that has a one in column `col`.
fn clear_column(mat: &mut Vec<Vec<bool>>, m: usize, prow: usize, col: usize)
    requires
        has_width(old(mat)@, m as nat),
        col < m,
        prow < old(mat).len(),
    ensures
        final(mat).len() == old(mat).len(),
        has_width(final(mat)@, m as nat),
        forall|r: int, c: int|
            #![trigger final(mat)[r]@[c]]
            0 <= r < old(mat).len() && 0 <= c <= m ==> final(mat)[r]@[c] == if r != prow && old(
                mat,
            )[r]@[col as int] {
                old(mat)[r]@[c] != old(mat)[prow as int]@[c]
            } else {
                old(mat)[r]@[c]
            },
{
    let n = mat.len();
    for r in 0..n
        invariant
            n == mat.len(),
            n == old(mat).len(),
            has_width(old(mat)@, m as nat),
            has_width(mat@, m as nat),
            col < m,
            prow < n,
            forall|q: int| r <= q < n ==> #[trigger] mat[q] == old(mat)[q],
            mat[prow as int] == old(mat)[prow as int],
            forall|q: int, c: int|
                #![trigger mat[q]@[c]]
                0 <= q < r && 0 <= c <= m ==> mat[q]@[c] == if q != prow && old(mat)[q]@[col as int] {
                    old(mat)[q]@[c] != old(mat)[prow as int]@[c]
                } else {
                    old(mat)[q]@[c]
                },
    {
        if r != prow && mat[r][col] {
            let mut sum: Vec<bool> = Vec::new();
            let width = mat[r].len();
            for c in 0..width
                invariant
                    n == mat.len(),
                    has_width(mat@, m as nat),
                    width == m + 1,
                    r < n,
                    prow < n,
                    sum.len() == c,
                    forall|j: int|
                        0 <= j < c ==> sum[j] == (mat[r as int]@[j] != mat[prow as int]@[j]),
            {
                sum.push(mat[r][c] != mat[prow][c]);
            }
            mat[r] = sum;
        }
    }
}

/// Brings the matrix to reduced form, column by column from the left, and
/// returns the pivot columns in the order of their rows.
fn eliminate(mat: &mut Vec<Vec<bool>>, m: usize) -> (pivots: Vec<usize>)
    requires
        has_width(old(mat)@, m as nat),
    ensures
        final(mat).len() == old(mat).len(),
        eliminated(final(mat)@, m as nat, pivots@, m as nat),
        forall|x: Seq<bool>|
            x.len() == m ==> #[trigger] all_rows_ok(final(mat)@, x, m as nat) == all_rows_ok(
                old(mat)@,
                x,
                m as nat,
            ),
{
    let n = mat.len();
    let mut pivots: Vec<usize> = Vec::new();
    let mut row: usize = 0;
    for col in 0..m
        invariant
            n == mat.len(),
            n == old(mat).len(),
            row == pivots.len(),
            eliminated(mat@, m as nat, pivots@, col as nat),
            forall|x: Seq<bool>|
                x.len() == m ==> #[trigger] all_rows_ok(mat@, x, m as nat) == all_rows_ok(
                    old(mat)@,
                    x,
                    m as nat,
                ),
    {
        match find_pivot(mat, m, row, col) {
            None => {},
            Some(p) => {
                let ghost before_swap = mat@;
                if p != row {
                    swap_entries(mat, row, p);
                }
                let ghost swapped = mat@;
                proof {
                    if p != row {
                        assert forall|x: Seq<bool>| x.len() == m implies all_rows_ok(
                            swapped,
                            x,
                            m as nat,
                        ) == all_rows_ok(before_swap, x, m as nat) by {
                            lemma_swap_keeps_solutions(
                                before_swap,
                                swapped,
                                row as int,
                                p as int,
                                m as nat,
                                x,
                            );
                        }
                    }
                    assert(has_width(swapped, m as nat));
                    assert(swapped[row as int]@[col as int]);
                }
                clear_column(mat, m, row, col);
                proof {
                    let cleared = mat@;
                    assert forall|x: Seq<bool>| x.len() == m implies all_rows_ok(
                        cleared,
                        x,
                        m as nat,
                    ) == all_rows_ok(swapped, x, m as nat) by {
                        lemma_clear_keeps_solutions(
                            swapped,
                            cleared,
                            row as int,
                            col as int,
                            m as nat,
                            x,
                        );
                    }
                    let grown = pivots@.push(col);
                    assert forall|k: int, r: int|
                        #![trigger cleared[r], grown[k]]
                        0 <= k < grown.len() && 0 <= r < cleared.len() implies cleared[r]@[grown[k] as int]
                        == (r == k) by {
                        if k < pivots.len() {
                            assert(before_swap[row as int]@[pivots[k] as int] == (row == k));
                            assert(before_swap[p as int]@[pivots[k] as int] == (p == k));
                            assert(before_swap[r]@[pivots[k] as int] == (r == k));
                            assert(!swapped[row as int]@[pivots[k] as int]);
                            assert(cleared[r]@[pivots[k] as int] == swapped[r]@[pivots[k] as int]);
                        } else {
                            assert(cleared[r]@[col as int] == (r == row));
                        }
                    }
                    assert forall|r: int, c: int|
                        grown.len() <= r < cleared.len() && 0 <= c < col + 1 implies !(
                    #[trigger] cleared[r]@[c]) by {
                        if c < col {
                            assert(!before_swap[row as int]@[c]);
                            assert(!before_swap[p as int]@[c]);
                            assert(!before_swap[r]@[c]);
                            assert(!swapped[row as int]@[c]);
                            assert(!swapped[r]@[c]);
                        }
                    }
                }
                pivots.push(col);
                row += 1;
            },
        }
    }
    pivots
}

/// Marks the pivot columns and lists the free ones.
pub(crate) fn split_columns(pivots: &Vec<usize>, m: usize) -> (split: (Vec<bool>, Vec<usize>))
    requires
        forall|k: int| 0 <= k < pivots.len() ==> (#[trigger] pivots[k]) < m,
    ensures
        columns_split(m as nat, pivots@, split.0@, split.1@),
{
    let mut flags: Vec<bool> = vec![false; m];
    for k in 0..pivots.len()
        invariant
            flags.len() == m,
            forall|q: int| 0 <= q < pivots.len() ==> (#[trigger] pivots[q]) < m,
            forall|q: int| 0 <= q < k ==> flags[(#[trigger] pivots[q]) as int],
            forall|c: int|
                0 <= c < m && (#[trigger] flags[c]) ==> exists|q: int|
                    0 <= q < pivots.len() && pivots[q] == c,
    {
        let c = pivots[k];
        flags[c] = true;
    }
    let mut free: Vec<usize> = Vec::new();
    for c in 0..m
        invariant
            flags.len() == m,
            forall|j: int| 0 <= j < free.len() ==> free[j] < c && !flags[(#[trigger] free[j]) as int],
            forall|j1: int, j2: int|
                0 <= j1 < j2 < free.len() ==> (#[trigger] free[j1]) < (#[trigger] free[j2]),
            forall|d: int|
                0 <= d < c && !(#[trigger] flags[d]) ==> exists|j: int|
                    0 <= j < free.len() && free[j] == d,
    {
        if !flags[c] {
            let ghost shorter = free@;
            free.push(c);
            proof {
                assert forall|d: int| 0 <= d < c + 1 && !(#[trigger] flags[d]) implies exists|j: int|
                    0 <= j < free.len() && free[j] == d by {
                    if d < c {
                        let j = choose|j: int| 0 <= j < shorter.len() && shorter[j] == d;
                        assert(free[j] == d);
                    } else {
                        assert(free[free.len() - 1] == d);
                    }
                }
            }
        }
    }
    (flags, free)
}

/// Number of true entries.
fn count_pressed(sol: &Vec<bool>) -> (w: usize)
    ensures
        w == weight(sol@),
{
    let mut w: usize = 0;
    for i in 0..sol.len()
        invariant
            w == weight(sol@.take(i as int)),
            w <= i,
    {
        proof {
            assert(sol@.take(i + 1) =~= sol@.take(i as int).push(sol[i as int]));
            lemma_weight_push(sol@.take(i as int), sol[i as int]);
        }
        if sol[i] {
            w += 1;
        }
    }
    proof {
        assert(sol@.take(sol.len() as int) =~= sol@);
    }
    w
}

// ---------------------------------------------------------------------------
// Search over the free variables
// ---------------------------------------------------------------------------

/// Every row below the pivot rows asks for a dark light.
pub open spec fn consistent(mat: Seq<Vec<bool>>, m: nat, rank: nat) -> bool {
    forall|r: int| rank <= r < mat.len() ==> !(#[trigger] mat[r]@[m as int])
}

/// Back-substitution: sets each pivot variable to the value that its row
/// forces, given the free variables as `sol` holds them.
fn complete(
    mat: &Vec<Vec<bool>>,
    m: usize,
    pivots: &Vec<usize>,
    flags: &Vec<bool>,
    sol: &mut Vec<bool>,
)
    requires
        eliminated(mat@, m as nat, pivots@, m as nat),
        consistent(mat@, m as nat, pivots.len() as nat),
        flags.len() == m,
        forall|k: int| 0 <= k < pivots.len() ==> flags[(#[trigger] pivots[k]) as int],
        old(sol).len() == m,
    ensures
        final(sol).len() == m,
        forall|c: int| 0 <= c < m && !flags[c] ==> final(sol)[c] == old(sol)[c],
        all_rows_ok(mat@, final(sol)@, m as nat),
{
    let mut k = pivots.len();
    while k > 0
        invariant
            eliminated(mat@, m as nat, pivots@, m as nat),
            flags.len() == m,
            forall|q: int| 0 <= q < pivots.len() ==> flags[(#[trigger] pivots[q]) as int],
            k <= pivots.len(),
            sol.len() == m,
            forall|c: int| 0 <= c < m && !flags[c] ==> sol[c] == old(sol)[c],
            forall|q: int| k <= q < pivots.len() ==> row_ok(#[trigger] mat[q]@, sol@, m as nat),
        decreases k,
    {
        k -= 1;
        let col = pivots[k];
        let mut val = mat[k][m];
        for button in 0..m
            invariant
                has_width(mat@, m as nat),
                k < mat.len(),
                sol.len() == m,
                val == (mat[k as int]@[m as int] != parity_except(
                    mat[k as int]@,
                    sol@,
                    col as int,
                    button as nat,
                )),
        {
            if button != col && mat[k][button] && sol[button] {
                val = !val;
            }
        }
        let ghost prev = sol@;
        sol[col] = val;
        proof {
            let row = mat[k as int]@;
            assert(mat[k as int]@[pivots[k as int] as int] == (k == k));
            lemma_parity_except_agree(row, prev, sol@, col as int, m as nat);
            lemma_parity_split(row, sol@, col as int, m as nat);
            assert forall|q: int| k < q < pivots.len() implies row_ok(
                #[trigger] mat[q]@,
                sol@,
                m as nat,
            ) by {
                assert(mat[q]@[pivots[k as int] as int] == (q == k));
                lemma_parity_split(mat[q]@, prev, col as int, m as nat);
                lemma_parity_split(mat[q]@, sol@, col as int, m as nat);
                lemma_parity_except_agree(mat[q]@, prev, sol@, col as int, m as nat);
            }
        }
    }
    proof {
        assert forall|r: int| 0 <= r < mat.len() implies row_ok(#[trigger] mat[r]@, sol@, m as nat) by {
            if r >= pivots.len() {
                assert forall|c: int| 0 <= c < m implies !mat[r]@[c] by {
                    assert(!mat[r]@[c]);
                }
                lemma_parity_zero_row(mat[r]@, sol@, m as nat);
            }
        }
    }
}

/// The least weight among the solutions of the reduced system that keep the
/// first `idx` free variables as `sol` holds them.
fn search(
    mat: &Vec<Vec<bool>>,
    m: usize,
    pivots: &Vec<usize>,
    flags: &Vec<bool>,
    free: &Vec<usize>,
    idx: usize,
    sol: &mut Vec<bool>,
) -> (w: usize)
    requires
        eliminated(mat@, m as nat, pivots@, m as nat),
        consistent(mat@, m as nat, pivots.len() as nat),
        columns_split(m as nat, pivots@, flags@, free@),
        idx <= free.len(),
        old(sol).len() == m,
    ensures
        final(sol).len() == m,
        agree_on(final(sol)@, old(sol)@, free@, idx as nat),
        exists|x: Seq<bool>|
            x.len() == m && all_rows_ok(mat@, x, m as nat) && agree_on(
                x,
                old(sol)@,
                free@,
                idx as nat,
            ) && weight(x) == w,
        forall|x: Seq<bool>|
            x.len() == m && #[trigger] all_rows_ok(mat@, x, m as nat) && agree_on(
                x,
                old(sol)@,
                free@,
                idx as nat,
            ) ==> weight(x) >= w,
    decreases free.len() - idx,
{
    let ghost start = sol@;
    if idx == free.len() {
        complete(mat, m, pivots, flags, sol);
        let w = count_pressed(sol);
        proof {
            let found = sol@;
            assert(agree_on(found, start, free@, idx as nat));
            assert forall|x: Seq<bool>|
                x.len() == m && #[trigger] all_rows_ok(mat@, x, m as nat) && agree_on(
                    x,
                    start,
                    free@,
                    idx as nat,
                ) implies weight(x) >= w by {
                assert(agree_on(x, found, free@, free.len() as nat));
                lemma_unique_completion(mat@, m as nat, pivots@, flags@, free@, x, found);
            }
        }
        w
    } else {
        let var = free[idx];
        sol[var] = false;
        let ghost off = sol@;
        let w0 = search(mat, m, pivots, flags, free, idx + 1, sol);
        let ghost mid = sol@;
        sol[var] = true;
        let ghost on = sol@;
        let w1 = search(mat, m, pivots, flags, free, idx + 1, sol);
        proof {
            assert(agree_on(off, start, free@, idx as nat));
            assert(agree_on(mid, start, free@, idx as nat));
            assert(agree_on(on, start, free@, idx as nat));
            assert(agree_on(sol@, start, free@, idx as nat));
            let x0 = choose|x: Seq<bool>|
                x.len() == m && all_rows_ok(mat@, x, m as nat) && agree_on(
                    x,
                    off,
                    free@,
                    (idx + 1) as nat,
                ) && weight(x) == w0;
            assert(agree_on(x0, start, free@, idx as nat));
            let x1 = choose|x: Seq<bool>|
                x.len() == m && all_rows_ok(mat@, x, m as nat) && agree_on(
                    x,
                    on,
                    free@,
                    (idx + 1) as nat,
                ) && weight(x) == w1;
            assert(agree_on(x1, start, free@, idx as nat));
            assert forall|x: Seq<bool>|
                x.len() == m && #[trigger] all_rows_ok(mat@, x, m as nat) && agree_on(
                    x,
                    start,
                    free@,
                    idx as nat,
                ) implies weight(x) >= w0 || weight(x) >= w1 by {
                if x[var as int] {
                    assert(agree_on(x, on, free@, (idx + 1) as nat));
                } else {
                    assert(agree_on(x, off, free@, (idx + 1) as nat));
                }
            }
        }
        if w0 <= w1 {
            w0
        } else {
            w1
        }
    }
}

// ---------------------------------------------------------------------------
// The solver
// ---------------------------------------------------------------------------

/// With no buttons at all, the target is reachable exactly when it is dark
/// already, and then at no cost.
pub proof fn lemma_no_buttons(buttons: Seq<Seq<bool>>, target: Seq<bool>)
    requires
        buttons.len() == 0,
    ensures
        lights_feasible(buttons, target) <==> all_dark(target),
        all_dark(target) ==> is_least_presses(buttons, target, 0),
{
    let none = Seq::<bool>::empty();
    if all_dark(target) {
        assert(solves_lights(buttons, target, none));
        assert(weight(none) == 0);
    }
    if lights_feasible(buttons, target) {
        let x = choose|x: Seq<bool>| solves_lights(buttons, target, x);
        assert forall|i: int| 0 <= i < target.len() implies !target[i] by {
            assert(light_after(buttons, x, i, buttons.len()) == target[i]);
        }
    }
}

/// Two numbers that are both the least number of presses are equal: the
/// answer to an instance is determined by the instance.
pub proof fn lemma_least_presses_unique(
    buttons: Seq<Seq<bool>>,
    target: Seq<bool>,
    a: nat,
    b: nat,
)
    requires
        is_least_presses(buttons, target, a),
        is_least_presses(buttons, target, b),
    ensures
        a == b,
{
    let xa = choose|x: Seq<bool>| solves_lights(buttons, target, x) && weight(x) == a;
    let xb = choose|x: Seq<bool>| solves_lights(buttons, target, x) && weight(x) == b;
    assert(weight(xa) >= b);
    assert(weight(xb) >= a);
}

/// Whether every light of the target is dark.
fn is_all_dark(target: &Vec<bool>) -> (dark: bool)
    ensures
        dark == all_dark(target@),
{
    for i in 0..target.len()
        invariant
            forall|j: int| 0 <= j < i ==> !target[j],
    {
        if target[i] {
            return false;
        }
    }
    true
}

/// The least number of button presses that brings the lights of `machine`
/// from dark to its target, or `Infeasible` when no choice of presses does.
///
/// Pressing a button twice undoes it, so a choice of presses is one bit per
/// button; the cost is the number of buttons pressed.
pub fn solve_machine(machine: &Machine) -> (r: Outcome<usize>)
    requires
        machine.lights_well_formed(),
    ensures
        match r {
            Outcome::Cost(w) => is_least_presses(
                machine.light_buttons(),
                machine.target@,
                w as nat,
            ),
            Outcome::Infeasible => !lights_feasible(machine.light_buttons(), machine.target@),
        },
        machine.buttons.len() == 0 ==> r == if all_dark(machine.target@) {
            Outcome::Cost(0usize)
        } else {
            Outcome::Infeasible
        },
{
    let n = machine.target.len();
    let m = machine.buttons.len();
    let ghost buttons = machine.light_buttons();
    let ghost target = machine.target@;
    if m == 0 {
        let dark = is_all_dark(&machine.target);
        proof {
            lemma_no_buttons(buttons, target);
        }
        return if dark {
            Outcome::Cost(0)
        } else {
            Outcome::Infeasible
        };
    }
    let mut mat = build_matrix(machine);
    let ghost initial = mat@;
    proof {
        assert forall|x: Seq<bool>| x.len() == m implies all_rows_ok(initial, x, m as nat)
            == solves_lights(buttons, target, x) by {
            assert forall|i: int| 0 <= i < n implies row_parity(initial[i]@, x, m as nat)
                == light_after(buttons, x, i, m as nat) by {
                lemma_parity_is_light(buttons, initial[i]@, x, i, m as nat);
            }
            if all_rows_ok(initial, x, m as nat) {
                assert forall|i: int| 0 <= i < target.len() implies #[trigger] light_after(
                    buttons,
                    x,
                    i,
                    buttons.len(),
                ) == target[i] by {
                    assert(row_ok(initial[i]@, x, m as nat));
                }
            }
            if solves_lights(buttons, target, x) {
                assert forall|i: int| 0 <= i < initial.len() implies row_ok(
                    #[trigger] initial[i]@,
                    x,
                    m as nat,
                ) by {
                    assert(light_after(buttons, x, i, buttons.len()) == target[i]);
                }
            }
        }
    }
    let pivots = eliminate(&mut mat, m);
    assert forall|x: Seq<bool>| x.len() == m implies #[trigger] all_rows_ok(mat@, x, m as nat)
        == solves_lights(buttons, target, x) by {
        assert(all_rows_ok(mat@, x, m as nat) == all_rows_ok(initial, x, m as nat));
    }
    let mut r = pivots.len();
    while r < n
        invariant
            n == mat.len(),
            m == machine.buttons.len(),
            m > 0,
            buttons == machine.light_buttons(),
            target == machine.target@,
            eliminated(mat@, m as nat, pivots@, m as nat),
            forall|x: Seq<bool>|
                x.len() == m ==> #[trigger] all_rows_ok(mat@, x, m as nat) == solves_lights(
                    buttons,
                    target,
                    x,
                ),
            pivots.len() <= r <= n,
            forall|q: int| pivots.len() <= q < r ==> !(#[trigger] mat[q]@[m as int]),
        decreases n - r,
    {
        if mat[r][m] {
            proof {
                assert forall|x: Seq<bool>| !solves_lights(buttons, target, x) by {
                    if solves_lights(buttons, target, x) {
                        assert(all_rows_ok(mat@, x, m as nat));
                        assert(row_ok(mat[r as int]@, x, m as nat));
                        assert forall|c: int| 0 <= c < m implies !mat[r as int]@[c] by {
                            assert(!mat[r as int]@[c]);
                        }
                        lemma_parity_zero_row(mat[r as int]@, x, m as nat);
                    }
                }
            }
            return Outcome::Infeasible;
        }
        r += 1;
    }
    let (flags, free) = split_columns(&pivots, m);
    let mut sol: Vec<bool> = vec![false; m];
    let ghost start = sol@;
    let w = search(&mat, m, &pivots, &flags, &free, 0, &mut sol);
    proof {
        let best = choose|x: Seq<bool>|
            x.len() == m && all_rows_ok(mat@, x, m as nat) && agree_on(x, start, free@, 0)
                && weight(x) == w;
        assert(solves_lights(buttons, target, best));
        assert forall|x: Seq<bool>| solves_lights(buttons, target, x) implies weight(x) >= w by {
            assert(all_rows_ok(mat@, x, m as nat));
            assert(agree_on(x, start, free@, 0));
        }
    }
    Outcome::Cost(w)
}

// ---------------------------------------------------------------------------
// A second copy of a button
// ---------------------------------------------------------------------------

/// The lights depend only on the buttons and presses that were counted.
proof fn lemma_light_prefix(
    b1: Seq<Seq<bool>>,
    x1: Seq<bool>,
    b2: Seq<Seq<bool>>,
    x2: Seq<bool>,
    light: int,
    k: nat,
)
    requires
        forall|j: int| 0 <= j < k ==> b1[j] == b2[j] && x1[j] == x2[j],
    ensures
        light_after(b1, x1, light, k) == light_after(b2, x2, light, k),
    decreases k,
{
    if k > 0 {
        lemma_light_prefix(b1, x1, b2, x2, light, (k - 1) as nat);
    }
}

/// Changing the choice for one button toggles exactly the lights of that
/// button.
proof fn lemma_light_update(buttons: Seq<Seq<bool>>, x: Seq<bool>, c: int, v: bool, light: int, k: nat)
    requires
        0 <= c < x.len(),
        k <= x.len(),
    ensures
        light_after(buttons, x.update(c, v), light, k) == (light_after(buttons, x, light, k) != (c
            < k && v != x[c] && buttons[c][light])),
    decreases k,
{
    if k > 0 {
        lemma_light_update(buttons, x, c, v, light, (k - 1) as nat);
    }
}

/// Changing one choice changes the weight by that choice.
proof fn lemma_weight_update(x: Seq<bool>, c: int, v: bool)
    requires
        0 <= c < x.len(),
    ensures
        weight(x.update(c, v)) + (if x[c] {
            1int
        } else {
            0int
        }) == weight(x) + (if v {
            1int
        } else {
            0int
        }),
    decreases x.len(),
{
    if c == x.len() - 1 {
        assert(x.update(c, v).drop_last() =~= x.drop_last());
    } else {
        lemma_weight_update(x.drop_last(), c, v);
        assert(x.update(c, v).drop_last() =~= x.drop_last().update(c, v));
    }
}

/// A second copy of a button changes nothing about what can be reached: a
/// solution without the copy gives one of the same weight with it, and a
/// solution with the copy gives one that is no heavier without it.
pub proof fn lemma_copy_keeps_solutions(buttons: Seq<Seq<bool>>, target: Seq<bool>, c: int)
    requires
        0 <= c < buttons.len(),
    ensures
        forall|x: Seq<bool>| #[trigger]
            solves_lights(buttons, target, x) ==> solves_lights(
                buttons.push(buttons[c]),
                target,
                x.push(false),
            ) && weight(x.push(false)) == weight(x),
        forall|y: Seq<bool>| #[trigger]
            solves_lights(buttons.push(buttons[c]), target, y) ==> solves_lights(
                buttons,
                target,
                y.drop_last().update(c, y[c] != y.last()),
            ) && weight(y.drop_last().update(c, y[c] != y.last())) <= weight(y),
{
    let more = buttons.push(buttons[c]);
    let m = buttons.len();
    assert forall|x: Seq<bool>| #[trigger] solves_lights(buttons, target, x) implies solves_lights(
        more,
        target,
        x.push(false),
    ) && weight(x.push(false)) == weight(x) by {
        lemma_weight_push(x, false);
        assert forall|i: int| 0 <= i < target.len() implies #[trigger] light_after(
            more,
            x.push(false),
            i,
            more.len(),
        ) == target[i] by {
            lemma_light_prefix(more, x.push(false), buttons, x, i, m);
            assert(light_after(buttons, x, i, buttons.len()) == target[i]);
        }
    }
    assert forall|y: Seq<bool>| #[trigger] solves_lights(more, target, y) implies solves_lights(
        buttons,
        target,
        y.drop_last().update(c, y[c] != y.last()),
    ) && weight(y.drop_last().update(c, y[c] != y.last())) <= weight(y) by {
        let short = y.drop_last();
        let x = short.update(c, y[c] != y.last());
        lemma_weight_update(short, c, y[c] != y.last());
        assert forall|i: int| 0 <= i < target.len() implies #[trigger] light_after(
            buttons,
            x,
            i,
            buttons.len(),
        ) == target[i] by {
            assert(light_after(more, y, i, more.len()) == target[i]);
            lemma_light_prefix(more, y, buttons, short, i, m);
            lemma_light_update(buttons, short, c, y[c] != y.last(), i, m);
        }
    }
}

/// Adding a second copy of a button never changes the least number of
/// presses of an instance that can be solved.
pub proof fn lemma_copy_keeps_least_presses(
    buttons: Seq<Seq<bool>>,
    target: Seq<bool>,
    c: int,
    w: nat,
)
    requires
        0 <= c < buttons.len(),
        is_least_presses(buttons, target, w),
    ensures
        is_least_presses(buttons.push(buttons[c]), target, w),
{
    lemma_copy_keeps_solutions(buttons, target, c);
    let more = buttons.push(buttons[c]);
    let x = choose|x: Seq<bool>| solves_lights(buttons, target, x) && weight(x) == w;
    assert(solves_lights(more, target, x.push(false)));
    assert forall|y: Seq<bool>| solves_lights(more, target, y) implies weight(y) >= w by {
        let back = y.drop_last().update(c, y[c] != y.last());
        assert(solves_lights(buttons, target, back));
    }
}

} // verus!
