//! Counters: the least total number of button presses that brings every
//! counter from zero to its target, found by elimination over the rationals
//! followed by a bounded search over the free variables.

use crate::machine::{Machine, Outcome};
use crate::ratio::{is_reduced, q_add, q_div, q_int, q_mul, q_sub, Ratio};
use crate::ratio_laws::{
    lemma_add_commutes,
    lemma_add_sub_cancel,
    lemma_add_sub_merge,
    lemma_add_swap,
    lemma_add_zero,
    lemma_div_add,
    lemma_div_mul_cancel,
    lemma_div_mul_swap,
    lemma_int_add,
    lemma_int_mul,
    lemma_int_reduced,
    lemma_div_self,
    lemma_mul_add_distributes,
    lemma_mul_associates,
    lemma_mul_one,
    lemma_mul_zero,
    lemma_sub_self,
    lemma_one_mul,
    lemma_results_reduced,
    lemma_sub_add_cancel,
    lemma_sub_add_swap,
    lemma_sub_mul_distributes,
    lemma_sub_zero,
    lemma_zero_div,
    lemma_zero_mul,
};
use crate::rational::{ArithError, Rat};
use crate::lights::{columns_split, split_columns};
use crate::vectors::swap_entries;
use vstd::prelude::*;

verus! {

// ---------------------------------------------------------------------------
// The puzzle, stated mathematically
// ---------------------------------------------------------------------------

/// The button increments the counter: the counter's index is in its list.
pub open spec fn touches(button: Seq<usize>, counter: int) -> bool {
    exists|i: int| 0 <= i < button.len() && button[i] == counter
}

/// Value of `counter` after the first `k` buttons were pressed as often as
/// `presses` says, all counters starting at zero.
pub open spec fn counter_after(
    buttons: Seq<Seq<usize>>,
    presses: Seq<int>,
    counter: int,
    k: nat,
) -> int
    decreases k,
{
    if k == 0 {
        0
    } else {
        counter_after(buttons, presses, counter, (k - 1) as nat) + if touches(
            buttons[k - 1],
            counter,
        ) {
            presses[k - 1]
        } else {
            0
        }
    }
}

/// No entry is negative.
pub open spec fn non_negative(x: Seq<int>) -> bool {
    forall|j: int| 0 <= j < x.len() ==> x[j] >= 0
}

/// `presses` names a count for each button, none negative, and brings every
/// counter to its target.
pub open spec fn solves_counters(
    buttons: Seq<Seq<usize>>,
    targets: Seq<int>,
    presses: Seq<int>,
) -> bool {
    &&& presses.len() == buttons.len()
    &&& non_negative(presses)
    &&& forall|i: int|
        0 <= i < targets.len() ==> #[trigger] counter_after(buttons, presses, i, buttons.len())
            == targets[i]
}

/// Sum of the first `k` entries.
pub open spec fn sum_to(x: Seq<int>, k: nat) -> int
    decreases k,
{
    if k == 0 {
        0
    } else {
        sum_to(x, (k - 1) as nat) + x[k - 1]
    }
}

/// Total number of presses.
pub open spec fn total(presses: Seq<int>) -> int {
    sum_to(presses, presses.len())
}

/// Some choice of press counts reaches the targets.
pub open spec fn counters_feasible(buttons: Seq<Seq<usize>>, targets: Seq<int>) -> bool {
    exists|x: Seq<int>| solves_counters(buttons, targets, x)
}

/// `c` is the total of a solution, and no solution has a smaller total.
pub open spec fn is_least_total(buttons: Seq<Seq<usize>>, targets: Seq<int>, c: int) -> bool {
    &&& exists|x: Seq<int>| solves_counters(buttons, targets, x) && total(x) == c
    &&& forall|x: Seq<int>| solves_counters(buttons, targets, x) ==> total(x) >= c
}

// ---------------------------------------------------------------------------
// Rows of fractions
// ---------------------------------------------------------------------------

/// The sum of `row[j] * x[j]` over the first `k` columns.
pub open spec fn dot(row: Seq<Rat>, x: Seq<int>, k: nat) -> Ratio
    decreases k,
{
    if k == 0 {
        q_int(0)
    } else {
        q_add(dot(row, x, (k - 1) as nat), q_mul(row[k - 1]@, q_int(x[k - 1])))
    }
}

/// What is left of `t` once the terms of the columns that `flags` does not
/// mark, among the first `k`, are taken away.
pub open spec fn rest(row: Seq<Rat>, t: Ratio, x: Seq<int>, flags: Seq<bool>, k: nat) -> Ratio
    decreases k,
{
    if k == 0 {
        t
    } else {
        let before = rest(row, t, x, flags, (k - 1) as nat);
        if flags[k - 1] {
            before
        } else {
            q_sub(before, q_mul(row[k - 1]@, q_int(x[k - 1])))
        }
    }
}

/// Every entry of the row is in lowest terms.
pub open spec fn row_wf(row: Seq<Rat>) -> bool {
    forall|c: int| 0 <= c < row.len() ==> (#[trigger] row[c]).wf()
}

/// `x` satisfies the equation with coefficients `row` and right side `t`.
pub open spec fn row_holds(row: Seq<Rat>, t: Rat, x: Seq<int>, m: nat) -> bool {
    dot(row, x, m) == t@
}

/// The matrix has `m` columns, one right side for each row, and every
/// fraction in it is in lowest terms.
pub open spec fn system_wf(mat: Seq<Vec<Rat>>, tv: Seq<Rat>, m: nat) -> bool {
    &&& tv.len() == mat.len()
    &&& forall|i: int| 0 <= i < mat.len() ==> (#[trigger] mat[i]).len() == m && row_wf(mat[i]@)
    &&& row_wf(tv)
}

/// `x` satisfies every equation of the system.
pub open spec fn all_hold(mat: Seq<Vec<Rat>>, tv: Seq<Rat>, x: Seq<int>, m: nat) -> bool {
    forall|i: int| 0 <= i < mat.len() ==> row_holds(#[trigger] mat[i]@, tv[i], x, m)
}

/// A sum of products of fractions in lowest terms is in lowest terms.
proof fn lemma_dot_reduced(row: Seq<Rat>, x: Seq<int>, k: nat)
    requires
        k <= row.len(),
        row_wf(row),
    ensures
        is_reduced(dot(row, x, k)),
    decreases k,
{
    if k == 0 {
        lemma_int_reduced(0);
    } else {
        lemma_dot_reduced(row, x, (k - 1) as nat);
        lemma_int_reduced(x[k - 1]);
        lemma_results_reduced(row[k - 1]@, q_int(x[k - 1]));
        lemma_results_reduced(dot(row, x, (k - 1) as nat), q_mul(row[k - 1]@, q_int(x[k - 1])));
    }
}

/// What is left of a fraction in lowest terms is in lowest terms.
proof fn lemma_rest_reduced(row: Seq<Rat>, t: Ratio, x: Seq<int>, flags: Seq<bool>, k: nat)
    requires
        k <= row.len(),
        row_wf(row),
        is_reduced(t),
    ensures
        is_reduced(rest(row, t, x, flags, k)),
    decreases k,
{
    if k > 0 {
        lemma_rest_reduced(row, t, x, flags, (k - 1) as nat);
        lemma_int_reduced(x[k - 1]);
        lemma_results_reduced(row[k - 1]@, q_int(x[k - 1]));
        lemma_results_reduced(
            rest(row, t, x, flags, (k - 1) as nat),
            q_mul(row[k - 1]@, q_int(x[k - 1])),
        );
    }
}

/// A row of zeros sums to zero.
proof fn lemma_dot_zero_row(row: Seq<Rat>, x: Seq<int>, k: nat)
    requires
        k <= row.len(),
        forall|c: int| 0 <= c < k ==> (#[trigger] row[c])@ == q_int(0),
    ensures
        dot(row, x, k) == q_int(0),
    decreases k,
{
    if k > 0 {
        lemma_dot_zero_row(row, x, (k - 1) as nat);
        lemma_int_reduced(0);
        lemma_int_reduced(x[k - 1]);
        assert(row[k - 1]@ == q_int(0));
        lemma_zero_mul(q_int(x[k - 1]));
        lemma_add_zero(q_int(0));
    }
}

/// Dividing every entry of a row by the same fraction divides its sum.
proof fn lemma_dot_scaled(old_row: Seq<Rat>, new_row: Seq<Rat>, pv: Ratio, x: Seq<int>, k: nat)
    requires
        k <= old_row.len(),
        k <= new_row.len(),
        row_wf(old_row),
        is_reduced(pv),
        pv.num != 0,
        forall|c: int| 0 <= c < k ==> (#[trigger] new_row[c])@ == q_div(old_row[c]@, pv),
    ensures
        dot(new_row, x, k) == q_div(dot(old_row, x, k), pv),
    decreases k,
{
    if k == 0 {
        lemma_zero_div(pv);
    } else {
        let j = (k - 1) as nat;
        lemma_dot_scaled(old_row, new_row, pv, x, j);
        lemma_dot_reduced(old_row, x, j);
        let a = old_row[k - 1]@;
        let xi = q_int(x[k - 1]);
        lemma_int_reduced(x[k - 1]);
        assert(new_row[k - 1]@ == q_div(a, pv));
        lemma_results_reduced(a, xi);
        lemma_div_mul_swap(a, pv, xi);
        lemma_div_add(dot(old_row, x, j), q_mul(a, xi), pv);
    }
}

/// Taking a multiple of one row away from another takes the same multiple
/// of its sum away.
proof fn lemma_dot_combined(
    old_row: Seq<Rat>,
    pivot_row: Seq<Rat>,
    new_row: Seq<Rat>,
    f: Ratio,
    x: Seq<int>,
    k: nat,
)
    requires
        k <= old_row.len(),
        k <= pivot_row.len(),
        k <= new_row.len(),
        row_wf(old_row),
        row_wf(pivot_row),
        is_reduced(f),
        forall|c: int|
            0 <= c < k ==> (#[trigger] new_row[c])@ == q_sub(old_row[c]@, q_mul(f, pivot_row[c]@)),
    ensures
        dot(new_row, x, k) == q_sub(dot(old_row, x, k), q_mul(f, dot(pivot_row, x, k))),
    decreases k,
{
    lemma_int_reduced(0);
    if k == 0 {
        lemma_mul_zero(f);
        lemma_sub_zero(q_int(0));
    } else {
        let j = (k - 1) as nat;
        lemma_dot_combined(old_row, pivot_row, new_row, f, x, j);
        lemma_dot_reduced(old_row, x, j);
        lemma_dot_reduced(pivot_row, x, j);
        let big_a = dot(old_row, x, j);
        let big_p = dot(pivot_row, x, j);
        let a = old_row[k - 1]@;
        let p = pivot_row[k - 1]@;
        let xi = q_int(x[k - 1]);
        lemma_int_reduced(x[k - 1]);
        assert(new_row[k - 1]@ == q_sub(a, q_mul(f, p)));
        lemma_results_reduced(f, p);
        lemma_results_reduced(f, big_p);
        lemma_results_reduced(a, xi);
        lemma_results_reduced(p, xi);
        lemma_results_reduced(f, q_mul(p, xi));
        lemma_sub_mul_distributes(a, q_mul(f, p), xi);
        lemma_mul_associates(f, p, xi);
        lemma_sub_add_swap(big_a, q_mul(f, big_p), q_mul(a, xi), q_mul(f, q_mul(p, xi)));
        lemma_mul_add_distributes(f, big_p, q_mul(p, xi));
    }
}

/// What is left depends only on the entries of `x` at the unmarked columns.
proof fn lemma_rest_agree(
    row: Seq<Rat>,
    t: Ratio,
    x: Seq<int>,
    y: Seq<int>,
    flags: Seq<bool>,
    k: nat,
)
    requires
        forall|c: int| 0 <= c < k && !flags[c] ==> x[c] == y[c],
    ensures
        rest(row, t, x, flags, k) == rest(row, t, y, flags, k),
    decreases k,
{
    if k > 0 {
        lemma_rest_agree(row, t, x, y, flags, (k - 1) as nat);
    }
}

/// In a row with a one at column `pc`, zeros at the other marked columns,
/// the sum and what is left add up to the right side plus the entry of `x`
/// at `pc`.
proof fn lemma_dot_rest(
    row: Seq<Rat>,
    t: Ratio,
    x: Seq<int>,
    flags: Seq<bool>,
    pc: int,
    k: nat,
)
    requires
        k <= row.len(),
        row_wf(row),
        is_reduced(t),
        flags.len() >= k,
        0 <= pc < row.len(),
        forall|c: int|
            0 <= c < k && flags[c] ==> (#[trigger] row[c])@ == if c == pc {
                q_int(1)
            } else {
                q_int(0)
            },
        pc < k ==> flags[pc],
    ensures
        q_add(dot(row, x, k), rest(row, t, x, flags, k)) == q_add(
            t,
            if pc < k {
                q_int(x[pc])
            } else {
                q_int(0)
            },
        ),
    decreases k,
{
    lemma_int_reduced(0);
    if k == 0 {
        lemma_add_commutes(q_int(0), t);
    } else {
        let j = (k - 1) as nat;
        lemma_dot_rest(row, t, x, flags, pc, j);
        lemma_dot_reduced(row, x, j);
        lemma_rest_reduced(row, t, x, flags, j);
        let d = dot(row, x, j);
        let r = rest(row, t, x, flags, j);
        let xi = q_int(x[k - 1]);
        lemma_int_reduced(x[k - 1]);
        let y = q_mul(row[k - 1]@, xi);
        lemma_results_reduced(row[k - 1]@, xi);
        if !flags[k - 1] {
            lemma_add_sub_merge(d, y, r);
        } else if k - 1 == pc {
            assert(row[k - 1]@ == q_int(1));
            lemma_one_mul(xi);
            lemma_add_swap(d, xi, r);
            lemma_add_zero(t);
        } else {
            assert(row[k - 1]@ == q_int(0));
            lemma_zero_mul(xi);
            lemma_add_zero(d);
        }
    }
}

/// In such a row, `x` satisfies the equation exactly when what is left is
/// the entry of `x` at the row's own column.
proof fn lemma_row_holds_iff_rest(
    row: Seq<Rat>,
    t: Rat,
    x: Seq<int>,
    flags: Seq<bool>,
    pc: int,
    m: nat,
)
    requires
        m == row.len(),
        row_wf(row),
        t.wf(),
        flags.len() == m,
        0 <= pc < m,
        flags[pc],
        forall|c: int|
            0 <= c < m && flags[c] ==> (#[trigger] row[c])@ == if c == pc {
                q_int(1)
            } else {
                q_int(0)
            },
    ensures
        row_holds(row, t, x, m) <==> rest(row, t@, x, flags, m) == q_int(x[pc]),
{
    lemma_dot_rest(row, t@, x, flags, pc, m);
    lemma_dot_reduced(row, x, m);
    lemma_rest_reduced(row, t@, x, flags, m);
    let d = dot(row, x, m);
    let r = rest(row, t@, x, flags, m);
    let xi = q_int(x[pc]);
    lemma_int_reduced(x[pc]);
    // d + r == t + xi
    if d == t@ {
        lemma_add_commutes(t@, r);
        lemma_add_commutes(t@, xi);
        lemma_add_sub_cancel(r, t@);
        lemma_add_sub_cancel(xi, t@);
    }
    if r == xi {
        lemma_add_sub_cancel(d, xi);
        lemma_add_sub_cancel(t@, xi);
    }
}

// ---------------------------------------------------------------------------
// Row operations keep the solutions
// ---------------------------------------------------------------------------

/// Exchanging two equations does not change which vectors satisfy them all.
proof fn lemma_swap_keeps_solutions(
    mat0: Seq<Vec<Rat>>,
    tv0: Seq<Rat>,
    mat1: Seq<Vec<Rat>>,
    tv1: Seq<Rat>,
    a: int,
    b: int,
    m: nat,
    x: Seq<int>,
)
    requires
        tv0.len() == mat0.len(),
        0 <= a < mat0.len(),
        0 <= b < mat0.len(),
        mat1 == mat0.update(a, mat0[b]).update(b, mat0[a]),
        tv1 == tv0.update(a, tv0[b]).update(b, tv0[a]),
    ensures
        all_hold(mat1, tv1, x, m) == all_hold(mat0, tv0, x, m),
{
    if all_hold(mat0, tv0, x, m) {
        assert forall|r: int| 0 <= r < mat1.len() implies row_holds(
            #[trigger] mat1[r]@,
            tv1[r],
            x,
            m,
        ) by {
            if r == a {
                assert(row_holds(mat0[b]@, tv0[b], x, m));
            } else if r == b {
                assert(row_holds(mat0[a]@, tv0[a], x, m));
            } else {
                assert(row_holds(mat0[r]@, tv0[r], x, m));
            }
        }
    }
    if all_hold(mat1, tv1, x, m) {
        assert forall|r: int| 0 <= r < mat0.len() implies row_holds(
            #[trigger] mat0[r]@,
            tv0[r],
            x,
            m,
        ) by {
            if r == a {
                assert(row_holds(mat1[b]@, tv1[b], x, m));
            } else if r == b {
                assert(row_holds(mat1[a]@, tv1[a], x, m));
            } else {
                assert(row_holds(mat1[r]@, tv1[r], x, m));
            }
        }
    }
}

/// Dividing one equation through by a fraction other than zero does not
/// change which vectors satisfy the system.
proof fn lemma_scale_keeps_solutions(
    mat0: Seq<Vec<Rat>>,
    tv0: Seq<Rat>,
    mat1: Seq<Vec<Rat>>,
    tv1: Seq<Rat>,
    prow: int,
    pv: Ratio,
    m: nat,
    x: Seq<int>,
)
    requires
        system_wf(mat0, tv0, m),
        system_wf(mat1, tv1, m),
        mat1.len() == mat0.len(),
        0 <= prow < mat0.len(),
        is_reduced(pv),
        pv.num != 0,
        forall|r: int| 0 <= r < mat0.len() && r != prow ==> #[trigger] mat1[r] == mat0[r],
        forall|r: int| 0 <= r < mat0.len() && r != prow ==> #[trigger] tv1[r] == tv0[r],
        forall|c: int|
            0 <= c < m ==> (#[trigger] mat1[prow]@[c])@ == q_div(mat0[prow]@[c]@, pv),
        tv1[prow]@ == q_div(tv0[prow]@, pv),
    ensures
        all_hold(mat1, tv1, x, m) == all_hold(mat0, tv0, x, m),
{
    let before = mat0[prow]@;
    let after = mat1[prow]@;
    lemma_dot_scaled(before, after, pv, x, m);
    lemma_dot_reduced(before, x, m);
    let d = dot(before, x, m);
    let t = tv0[prow]@;
    assert(tv0[prow].wf());
    lemma_div_mul_cancel(d, pv);
    lemma_div_mul_cancel(t, pv);
    assert(row_holds(after, tv1[prow], x, m) == row_holds(before, tv0[prow], x, m));
    if all_hold(mat0, tv0, x, m) {
        assert forall|r: int| 0 <= r < mat1.len() implies row_holds(
            #[trigger] mat1[r]@,
            tv1[r],
            x,
            m,
        ) by {
            assert(row_holds(mat0[r]@, tv0[r], x, m));
        }
    }
    if all_hold(mat1, tv1, x, m) {
        assert forall|r: int| 0 <= r < mat0.len() implies row_holds(
            #[trigger] mat0[r]@,
            tv0[r],
            x,
            m,
        ) by {
            assert(row_holds(mat1[r]@, tv1[r], x, m));
        }
    }
}

/// Taking multiples of one equation away from the others does not change
/// which vectors satisfy the system.
proof fn lemma_clear_keeps_solutions(
    mat0: Seq<Vec<Rat>>,
    tv0: Seq<Rat>,
    mat1: Seq<Vec<Rat>>,
    tv1: Seq<Rat>,
    prow: int,
    col: int,
    m: nat,
    x: Seq<int>,
)
    requires
        system_wf(mat0, tv0, m),
        system_wf(mat1, tv1, m),
        mat1.len() == mat0.len(),
        0 <= prow < mat0.len(),
        0 <= col < m,
        mat1[prow] == mat0[prow],
        tv1[prow] == tv0[prow],
        forall|r: int, c: int|
            #![trigger mat1[r]@[c]]
            0 <= r < mat0.len() && r != prow && 0 <= c < m ==> mat1[r]@[c]@ == q_sub(
                mat0[r]@[c]@,
                q_mul(mat0[r]@[col]@, mat0[prow]@[c]@),
            ),
        forall|r: int|
            0 <= r < mat0.len() && r != prow ==> (#[trigger] tv1[r])@ == q_sub(
                tv0[r]@,
                q_mul(mat0[r]@[col]@, tv0[prow]@),
            ),
    ensures
        all_hold(mat1, tv1, x, m) == all_hold(mat0, tv0, x, m),
{
    let p = mat0[prow]@;
    let pt = tv0[prow];
    assert forall|r: int|
        0 <= r < mat0.len() && row_holds(p, pt, x, m) implies (row_holds(
        #[trigger] mat1[r]@,
        tv1[r],
        x,
        m,
    ) == row_holds(mat0[r]@, tv0[r], x, m)) by {
        if r != prow {
            let f = mat0[r]@[col]@;
            assert(mat0[r]@[col].wf());
            assert forall|c: int| 0 <= c < m implies (#[trigger] mat1[r]@[c])@ == q_sub(
                mat0[r]@[c]@,
                q_mul(f, p[c]@),
            ) by {
                assert(mat1[r]@[c]@ == q_sub(mat0[r]@[c]@, q_mul(mat0[r]@[col]@, mat0[prow]@[c]@)));
            }
            lemma_dot_combined(mat0[r]@, p, mat1[r]@, f, x, m);
            lemma_dot_reduced(mat0[r]@, x, m);
            lemma_dot_reduced(p, x, m);
            let y = q_mul(f, pt@);
            assert(pt.wf());
            assert(tv0[r].wf());
            lemma_results_reduced(f, pt@);
            lemma_sub_add_cancel(dot(mat0[r]@, x, m), y);
            lemma_sub_add_cancel(tv0[r]@, y);
        }
    }
    if all_hold(mat0, tv0, x, m) {
        assert(row_holds(mat0[prow]@, tv0[prow], x, m));
        assert forall|r: int| 0 <= r < mat1.len() implies row_holds(
            #[trigger] mat1[r]@,
            tv1[r],
            x,
            m,
        ) by {
            assert(row_holds(mat0[r]@, tv0[r], x, m));
        }
    }
    if all_hold(mat1, tv1, x, m) {
        assert(row_holds(mat1[prow]@, tv1[prow], x, m));
        assert forall|r: int| 0 <= r < mat0.len() implies row_holds(
            #[trigger] mat0[r]@,
            tv0[r],
            x,
            m,
        ) by {
            assert(row_holds(mat1[r]@, tv1[r], x, m));
        }
    }
}

// ---------------------------------------------------------------------------
// Elimination
// ---------------------------------------------------------------------------

/// Whether `counter` is in the button's list.
fn button_touches(button: &Vec<usize>, counter: usize) -> (hit: bool)
    ensures
        hit == touches(button@, counter as int),
{
    for i in 0..button.len()
        invariant
            forall|j: int| 0 <= j < i ==> button[j] != counter,
    {
        if button[i] == counter {
            return true;
        }
    }
    false
}

/// The coefficient of a button in the equation of a counter.
pub open spec fn coefficient(button: Seq<usize>, counter: int) -> int {
    if touches(button, counter) {
        1
    } else {
        0
    }
}

/// The system of the machine: one equation per counter, one column per
/// button, with a one where the button increments the counter.
fn build_system(machine: &Machine) -> (sys: (Vec<Vec<Rat>>, Vec<Rat>))
    ensures
        sys.0.len() == machine.targets.len(),
        system_wf(sys.0@, sys.1@, machine.button_indices.len() as nat),
        forall|i: int, c: int|
            0 <= i < sys.0.len() && 0 <= c < machine.button_indices.len() ==> (
            #[trigger] sys.0[i]@[c])@ == q_int(coefficient(machine.button_indices[c]@, i)),
        forall|i: int| 0 <= i < sys.0.len() ==> (#[trigger] sys.1[i])@ == q_int(machine.targets[i] as int),
{
    let n = machine.targets.len();
    let m = machine.button_indices.len();
    let mut mat: Vec<Vec<Rat>> = Vec::new();
    let mut tv: Vec<Rat> = Vec::new();
    for r in 0..n
        invariant
            n == machine.targets.len(),
            m == machine.button_indices.len(),
            mat.len() == r,
            system_wf(mat@, tv@, m as nat),
            forall|i: int, c: int|
                0 <= i < mat.len() && 0 <= c < m ==> (#[trigger] mat[i]@[c])@ == q_int(
                    coefficient(machine.button_indices[c]@, i),
                ),
            forall|i: int| 0 <= i < mat.len() ==> (#[trigger] tv[i])@ == q_int(machine.targets[i] as int),
    {
        let mut row: Vec<Rat> = Vec::new();
        for c in 0..m
            invariant
                r < n,
                m == machine.button_indices.len(),
                row.len() == c,
                row_wf(row@),
                forall|j: int|
                    0 <= j < c ==> (#[trigger] row[j])@ == q_int(
                        coefficient(machine.button_indices[j]@, r as int),
                    ),
        {
            if button_touches(&machine.button_indices[c], r) {
                row.push(Rat::one());
            } else {
                row.push(Rat::zero());
            }
        }
        mat.push(row);
        tv.push(Rat::from_i64(machine.targets[r]));
    }
    (mat, tv)
}

/// The first row at or after `row` whose entry in column `col` is not zero.
fn find_pivot_row(mat: &Vec<Vec<Rat>>, m: usize, row: usize, col: usize) -> (found: Option<usize>)
    requires
        forall|i: int| 0 <= i < mat.len() ==> (#[trigger] mat[i]).len() == m,
        col < m,
        row <= mat.len(),
    ensures
        match found {
            Some(p) => row <= p < mat.len() && mat[p as int]@[col as int]@.num != 0,
            None => forall|r: int| row <= r < mat.len() ==> (#[trigger] mat[r]@[col as int])@.num == 0,
        },
{
    let mut r = row;
    while r < mat.len()
        invariant
            forall|i: int| 0 <= i < mat.len() ==> (#[trigger] mat[i]).len() == m,
            col < m,
            row <= r <= mat.len(),
            forall|q: int| row <= q < r ==> (#[trigger] mat[q]@[col as int])@.num == 0,
        decreases mat.len() - r,
    {
        if !mat[r][col].is_zero() {
            return Some(r);
        }
        r += 1;
    }
    None
}

/// Divides the equation `prow` through by its entry in column `col`, which
/// is not zero; the entries before `col` are zero and stay.
fn scale_row(mat: &mut Vec<Vec<Rat>>, tv: &mut Vec<Rat>, m: usize, prow: usize, col: usize)
    requires
        system_wf(old(mat)@, old(tv)@, m as nat),
        prow < old(mat).len(),
        col < m,
        old(mat)[prow as int]@[col as int]@.num != 0,
        forall|c: int| 0 <= c < col ==> (#[trigger] old(mat)[prow as int]@[c])@ == q_int(0),
    ensures
        system_wf(final(mat)@, final(tv)@, m as nat),
        final(mat).len() == old(mat).len(),
        forall|r: int|
            0 <= r < old(mat).len() && r != prow ==> #[trigger] final(mat)[r] == old(mat)[r],
        forall|r: int| 0 <= r < old(mat).len() && r != prow ==> #[trigger] final(tv)[r] == old(tv)[r],
        forall|c: int|
            0 <= c < m ==> (#[trigger] final(mat)[prow as int]@[c])@ == q_div(
                old(mat)[prow as int]@[c]@,
                old(mat)[prow as int]@[col as int]@,
            ),
        final(tv)[prow as int]@ == q_div(old(tv)[prow as int]@, old(mat)[prow as int]@[col as int]@),
{
    let pivot = mat[prow][col].duplicate();
    let ghost pv = pivot@;
    assert(mat[prow as int]@[col as int].wf());
    let mut scaled: Vec<Rat> = Vec::new();
    for c in 0..m
        invariant
            system_wf(mat@, tv@, m as nat),
            mat@ == old(mat)@,
            prow < mat.len(),
            col < m,
            pv == mat[prow as int]@[col as int]@,
            pivot@ == pv,
            is_reduced(pv),
            pv.num != 0,
            forall|j: int| 0 <= j < col ==> (#[trigger] mat[prow as int]@[j])@ == q_int(0),
            scaled.len() == c,
            row_wf(scaled@),
            forall|j: int| 0 <= j < c ==> (#[trigger] scaled[j])@ == q_div(mat[prow as int]@[j]@, pv),
    {
        assert(mat[prow as int]@[c as int].wf());
        if c < col {
            proof {
                lemma_zero_div(pv);
            }
            scaled.push(mat[prow][c].duplicate());
        } else {
            match mat[prow][c].div(&pivot) {
                Ok(q) => {
                    scaled.push(q);
                },
                Err(_) => {
                    assert(false);
                },
            }
        }
    }
    assert(tv[prow as int].wf());
    match tv[prow].div(&pivot) {
        Ok(q) => {
            tv[prow] = q;
        },
        Err(_) => {
            assert(false);
        },
    }
    mat[prow] = scaled;
}

/// Takes from every other equation the multiple of equation `prow` that
/// clears its entry in column `col`; the entries of `prow` before `col` are
/// zero, so those columns stay as they are.
fn clear_column(mat: &mut Vec<Vec<Rat>>, tv: &mut Vec<Rat>, m: usize, prow: usize, col: usize)
    requires
        system_wf(old(mat)@, old(tv)@, m as nat),
        prow < old(mat).len(),
        col < m,
        forall|c: int| 0 <= c < col ==> (#[trigger] old(mat)[prow as int]@[c])@ == q_int(0),
    ensures
        system_wf(final(mat)@, final(tv)@, m as nat),
        final(mat).len() == old(mat).len(),
        final(mat)[prow as int] == old(mat)[prow as int],
        final(tv)[prow as int] == old(tv)[prow as int],
        forall|r: int, c: int|
            #![trigger final(mat)[r]@[c]]
            0 <= r < old(mat).len() && r != prow && 0 <= c < m ==> final(mat)[r]@[c]@ == q_sub(
                old(mat)[r]@[c]@,
                q_mul(old(mat)[r]@[col as int]@, old(mat)[prow as int]@[c]@),
            ),
        forall|r: int|
            0 <= r < old(mat).len() && r != prow ==> (#[trigger] final(tv)[r])@ == q_sub(
                old(tv)[r]@,
                q_mul(old(mat)[r]@[col as int]@, old(tv)[prow as int]@),
            ),
{
    let n = mat.len();
    for r in 0..n
        invariant
            n == mat.len(),
            n == old(mat).len(),
            system_wf(old(mat)@, old(tv)@, m as nat),
            system_wf(mat@, tv@, m as nat),
            prow < n,
            col < m,
            forall|c: int| 0 <= c < col ==> (#[trigger] old(mat)[prow as int]@[c])@ == q_int(0),
            forall|q: int| r <= q < n ==> #[trigger] mat[q] == old(mat)[q],
            forall|q: int| r <= q < n ==> #[trigger] tv[q] == old(tv)[q],
            mat[prow as int] == old(mat)[prow as int],
            tv[prow as int] == old(tv)[prow as int],
            forall|q: int, c: int|
                #![trigger mat[q]@[c]]
                0 <= q < r && q != prow && 0 <= c < m ==> mat[q]@[c]@ == q_sub(
                    old(mat)[q]@[c]@,
                    q_mul(old(mat)[q]@[col as int]@, old(mat)[prow as int]@[c]@),
                ),
            forall|q: int|
                0 <= q < r && q != prow ==> (#[trigger] tv[q])@ == q_sub(
                    old(tv)[q]@,
                    q_mul(old(mat)[q]@[col as int]@, old(tv)[prow as int]@),
                ),
    {
        if r != prow {
            assert(mat[r as int]@[col as int].wf());
            assert(tv[r as int].wf());
            assert(tv[prow as int].wf());
            let ghost f = mat[r as int]@[col as int]@;
            if mat[r][col].is_zero() {
                proof {
                    lemma_int_reduced(0);
                    assert(f == q_int(0)) by {
                        crate::ratio::lemma_same_value(f, q_int(0), f.num, f.den, 0, 1);
                    }
                    assert forall|c: int| 0 <= c < m implies (#[trigger] mat[r as int]@[c])@
                        == q_sub(
                        old(mat)[r as int]@[c]@,
                        q_mul(f, old(mat)[prow as int]@[c]@),
                    ) by {
                        assert(mat[r as int]@[c].wf());
                        assert(mat[prow as int]@[c].wf());
                        lemma_zero_mul(mat[prow as int]@[c]@);
                        lemma_sub_zero(mat[r as int]@[c]@);
                    }
                    lemma_zero_mul(tv[prow as int]@);
                    lemma_sub_zero(tv[r as int]@);
                }
            } else {
                let factor = mat[r][col].duplicate();
                let mut changed: Vec<Rat> = Vec::new();
                for c in 0..m
                    invariant
                        n == mat.len(),
                        system_wf(mat@, tv@, m as nat),
                        r < n,
                        prow < n,
                        col < m,
                        mat[r as int] == old(mat)[r as int],
                        mat[prow as int] == old(mat)[prow as int],
                        forall|j: int| 0 <= j < col ==> (#[trigger] mat[prow as int]@[j])@ == q_int(0),
                        factor@ == f,
                        is_reduced(f),
                        changed.len() == c,
                        row_wf(changed@),
                        forall|j: int|
                            0 <= j < c ==> (#[trigger] changed[j])@ == q_sub(
                                mat[r as int]@[j]@,
                                q_mul(f, mat[prow as int]@[j]@),
                            ),
                {
                    assert(mat[r as int]@[c as int].wf());
                    assert(mat[prow as int]@[c as int].wf());
                    if c < col {
                        proof {
                            lemma_mul_zero(f);
                            lemma_sub_zero(mat[r as int]@[c as int]@);
                        }
                        changed.push(mat[r][c].duplicate());
                    } else {
                        let step = factor.mul(&mat[prow][c]);
                        changed.push(mat[r][c].sub(&step));
                    }
                }
                let step = factor.mul(&tv[prow]);
                let lowered = tv[r].sub(&step);
                tv[r] = lowered;
                mat[r] = changed;
            }
        }
    }
}

/// The state of elimination once the columns before `col` are done: each
/// pivot column holds a single one, in its own row, and the rows from the
/// frontier on are zero before `col`.
pub open spec fn reduced_form(
    mat: Seq<Vec<Rat>>,
    tv: Seq<Rat>,
    m: nat,
    pivots: Seq<usize>,
    col: nat,
) -> bool {
    &&& system_wf(mat, tv, m)
    &&& pivots.len() <= mat.len()
    &&& col <= m
    &&& forall|k: int| 0 <= k < pivots.len() ==> (#[trigger] pivots[k]) < col
    &&& forall|k1: int, k2: int|
        0 <= k1 < k2 < pivots.len() ==> (#[trigger] pivots[k1]) < (#[trigger] pivots[k2])
    &&& forall|k: int, r: int|
        #![trigger mat[r], pivots[k]]
        0 <= k < pivots.len() && 0 <= r < mat.len() ==> mat[r]@[pivots[k] as int]@ == if r == k {
            q_int(1)
        } else {
            q_int(0)
        }
    &&& forall|r: int, c: int|
        pivots.len() <= r < mat.len() && 0 <= c < col ==> (#[trigger] mat[r]@[c])@ == q_int(0)
}

/// The only fraction in lowest terms with numerator zero is zero over one.
proof fn lemma_zero_numerator(q: Ratio)
    requires
        is_reduced(q),
        q.num == 0,
    ensures
        q == q_int(0),
{
    lemma_int_reduced(0);
    crate::ratio::lemma_same_value(q, q_int(0), q.num, q.den, 0, 1);
}

/// Makes column `col` a pivot column: brings row `p` to the frontier,
/// divides it through by its entry in that column and clears the column
/// from every other row.
fn pivot_on(
    mat: &mut Vec<Vec<Rat>>,
    tv: &mut Vec<Rat>,
    m: usize,
    pivots: &mut Vec<usize>,
    p: usize,
    col: usize,
)
    requires
        reduced_form(old(mat)@, old(tv)@, m as nat, old(pivots)@, col as nat),
        col < m,
        old(pivots).len() <= p < old(mat).len(),
        old(mat)[p as int]@[col as int]@.num != 0,
    ensures
        final(mat).len() == old(mat).len(),
        final(pivots)@ == old(pivots)@.push(col),
        reduced_form(final(mat)@, final(tv)@, m as nat, final(pivots)@, (col + 1) as nat),
        forall|x: Seq<int>|
            x.len() == m ==> #[trigger] all_hold(final(mat)@, final(tv)@, x, m as nat) == all_hold(
                old(mat)@,
                old(tv)@,
                x,
                m as nat,
            ),
{
    let row = pivots.len();
    let ghost mat0 = mat@;
    let ghost tv0 = tv@;
    if p != row {
        swap_entries(mat, row, p);
        swap_entries(tv, row, p);
    }
    let ghost mat1 = mat@;
    let ghost tv1 = tv@;
    proof {
        assert forall|x: Seq<int>| x.len() == m implies all_hold(mat1, tv1, x, m as nat)
            == all_hold(mat0, tv0, x, m as nat) by {
            if p != row {
                lemma_swap_keeps_solutions(mat0, tv0, mat1, tv1, row as int, p as int, m as nat, x);
            }
        }
        assert(system_wf(mat1, tv1, m as nat)) by {
            assert forall|i: int| 0 <= i < mat1.len() implies (#[trigger] mat1[i]).len() == m
                && row_wf(mat1[i]@) by {
                if i == row {
                    assert(mat1[i] == mat0[p as int]);
                } else if i == p {
                    assert(mat1[i] == mat0[row as int]);
                } else {
                    assert(mat1[i] == mat0[i]);
                }
            }
            assert forall|i: int| 0 <= i < tv1.len() implies (#[trigger] tv1[i]).wf() by {
                if i == row {
                    assert(tv1[i] == tv0[p as int]);
                } else if i == p {
                    assert(tv1[i] == tv0[row as int]);
                } else {
                    assert(tv1[i] == tv0[i]);
                }
            }
        }
        assert(mat1[row as int] == mat0[p as int]);
        assert forall|c: int| 0 <= c < col implies (#[trigger] mat1[row as int]@[c])@ == q_int(
            0,
        ) by {
            assert(mat0[p as int]@[c]@ == q_int(0));
        }
    }
    let ghost pv = mat1[row as int]@[col as int]@;
    assert(mat1[row as int]@[col as int].wf());
    scale_row(mat, tv, m, row, col);
    let ghost mat2 = mat@;
    let ghost tv2 = tv@;
    proof {
        assert forall|x: Seq<int>| x.len() == m implies all_hold(mat2, tv2, x, m as nat)
            == all_hold(mat1, tv1, x, m as nat) by {
            lemma_scale_keeps_solutions(mat1, tv1, mat2, tv2, row as int, pv, m as nat, x);
        }
        lemma_zero_div(pv);
        lemma_div_self(pv);
        assert forall|c: int| 0 <= c < col implies (#[trigger] mat2[row as int]@[c])@ == q_int(
            0,
        ) by {
            assert(mat1[row as int]@[c]@ == q_int(0));
        }
        assert(mat2[row as int]@[col as int]@ == q_int(1));
    }
    clear_column(mat, tv, m, row, col);
    let ghost mat3 = mat@;
    let ghost tv3 = tv@;
    let ghost before = pivots@;
    pivots.push(col);
    proof {
        let grown = pivots@;
        lemma_int_reduced(0);
        lemma_int_reduced(1);
        assert forall|x: Seq<int>| x.len() == m implies #[trigger] all_hold(mat3, tv3, x, m as nat)
            == all_hold(mat0, tv0, x, m as nat) by {
            lemma_clear_keeps_solutions(mat2, tv2, mat3, tv3, row as int, col as int, m as nat, x);
            assert(all_hold(mat2, tv2, x, m as nat) == all_hold(mat1, tv1, x, m as nat));
            assert(all_hold(mat1, tv1, x, m as nat) == all_hold(mat0, tv0, x, m as nat));
        }
        // every row of the swapped matrix from the frontier on is zero before `col`
        assert forall|r: int, c: int| row <= r < mat1.len() && 0 <= c < col implies (
        #[trigger] mat1[r]@[c])@ == q_int(0) by {
            if r == row {
                assert(mat0[p as int]@[c]@ == q_int(0));
            } else if r == p {
                assert(mat0[row as int]@[c]@ == q_int(0));
            } else {
                assert(mat1[r] == mat0[r]);
                assert(mat0[r]@[c]@ == q_int(0));
            }
        }
        // the old pivot columns are as they were in the swapped matrix
        assert forall|k: int, r: int|
            0 <= k < before.len() && 0 <= r < mat1.len() implies mat1[r]@[before[k] as int]@
            == if r == k {
            q_int(1)
        } else {
            q_int(0)
        } by {
            assert(mat0[row as int]@[before[k] as int]@ == q_int(0));
            assert(mat0[p as int]@[before[k] as int]@ == q_int(0));
            if r == row {
            } else if r == p {
            } else {
                assert(mat1[r] == mat0[r]);
                assert(mat0[r]@[before[k] as int]@ == if r == k {
                    q_int(1)
                } else {
                    q_int(0)
                });
            }
        }
        assert forall|k: int, r: int|
            #![trigger mat3[r], grown[k]]
            0 <= k < grown.len() && 0 <= r < mat3.len() implies mat3[r]@[grown[k] as int]@
            == if r == k {
            q_int(1)
        } else {
            q_int(0)
        } by {
            let c = grown[k] as int;
            if r == row {
                assert(mat3[r] == mat2[r]);
                if k < before.len() {
                    assert(c < col);
                    assert(mat2[row as int]@[c]@ == q_int(0));
                }
            } else {
                assert(mat2[r] == mat1[r]);
                let f = mat2[r]@[col as int]@;
                assert(mat2[r]@[col as int].wf());
                assert(mat3[r]@[c]@ == q_sub(mat2[r]@[c]@, q_mul(f, mat2[row as int]@[c]@)));
                if k < before.len() {
                    assert(c < col);
                    assert(mat2[row as int]@[c]@ == q_int(0));
                    assert(mat1[r]@[before[k] as int]@ == if r == k {
                        q_int(1)
                    } else {
                        q_int(0)
                    });
                    lemma_mul_zero(f);
                    lemma_sub_zero(mat2[r]@[c]@);
                } else {
                    lemma_mul_one(f);
                    lemma_sub_self(f);
                }
            }
        }
        assert forall|r: int, c: int|
            grown.len() <= r < mat3.len() && 0 <= c < col + 1 implies (#[trigger] mat3[r]@[c])@
            == q_int(0) by {
            assert(mat2[r] == mat1[r]);
            let f = mat2[r]@[col as int]@;
            assert(mat2[r]@[col as int].wf());
            assert(mat3[r]@[c]@ == q_sub(mat2[r]@[c]@, q_mul(f, mat2[row as int]@[c]@)));
            if c < col {
                assert(mat1[r]@[c]@ == q_int(0));
                assert(mat2[row as int]@[c]@ == q_int(0));
                lemma_mul_zero(f);
                lemma_sub_zero(q_int(0));
            } else {
                lemma_mul_one(f);
                lemma_sub_self(f);
            }
        }
    }
}

/// Brings the system to reduced form, column by column from the left, and
/// returns the pivot columns in the order of their rows.
fn eliminate(mat: &mut Vec<Vec<Rat>>, tv: &mut Vec<Rat>, m: usize) -> (pivots: Vec<usize>)
    requires
        system_wf(old(mat)@, old(tv)@, m as nat),
    ensures
        final(mat).len() == old(mat).len(),
        reduced_form(final(mat)@, final(tv)@, m as nat, pivots@, m as nat),
        forall|x: Seq<int>|
            x.len() == m ==> #[trigger] all_hold(final(mat)@, final(tv)@, x, m as nat) == all_hold(
                old(mat)@,
                old(tv)@,
                x,
                m as nat,
            ),
{
    let mut pivots: Vec<usize> = Vec::new();
    for col in 0..m
        invariant
            mat.len() == old(mat).len(),
            reduced_form(mat@, tv@, m as nat, pivots@, col as nat),
            forall|x: Seq<int>|
                x.len() == m ==> #[trigger] all_hold(mat@, tv@, x, m as nat) == all_hold(
                    old(mat)@,
                    old(tv)@,
                    x,
                    m as nat,
                ),
    {
        match find_pivot_row(mat, m, pivots.len(), col) {
            None => {
                proof {
                    assert forall|r: int, c: int|
                        pivots.len() <= r < mat.len() && 0 <= c < col + 1 implies (
                    #[trigger] mat[r]@[c])@ == q_int(0) by {
                        if c == col {
                            assert(mat[r]@[c].wf());
                            lemma_zero_numerator(mat[r]@[c]@);
                        }
                    }
                }
            },
            Some(p) => {
                pivot_on(mat, tv, m, &mut pivots, p, col);
            },
        }
    }
    pivots
}

// ---------------------------------------------------------------------------
// One assignment of the free variables
// ---------------------------------------------------------------------------

/// The entries as mathematical integers.
pub open spec fn ints(vals: Seq<i128>) -> Seq<int> {
    Seq::new(vals.len(), |c: int| vals[c] as int)
}

/// Every equation below the pivot rows has right side zero.
pub open spec fn consistent(tv: Seq<Rat>, rank: nat) -> bool {
    forall|r: int| rank <= r < tv.len() ==> (#[trigger] tv[r])@ == q_int(0)
}

/// `x` is a solution of the reduced system without negative entries that
/// holds the values of `vals` at every free column.
pub open spec fn completes(
    mat: Seq<Vec<Rat>>,
    tv: Seq<Rat>,
    m: nat,
    flags: Seq<bool>,
    vals: Seq<int>,
    x: Seq<int>,
) -> bool {
    &&& x.len() == m
    &&& non_negative(x)
    &&& all_hold(mat, tv, x, m)
    &&& forall|c: int| 0 <= c < m && !flags[c] ==> x[c] == vals[c]
}

/// Changing one entry changes the sum by the difference.
proof fn lemma_sum_update(x: Seq<int>, c: int, v: int, k: nat)
    requires
        0 <= c < x.len(),
        k <= x.len(),
    ensures
        sum_to(x.update(c, v), k) == sum_to(x, k) + if c < k {
            v - x[c]
        } else {
            0
        },
    decreases k,
{
    if k > 0 {
        lemma_sum_update(x, c, v, (k - 1) as nat);
    }
}

/// A sum of entries none of which is negative is not negative.
pub proof fn lemma_sum_non_negative(x: Seq<int>, k: nat)
    requires
        k <= x.len(),
        non_negative(x),
    ensures
        sum_to(x, k) >= 0,
    decreases k,
{
    if k > 0 {
        lemma_sum_non_negative(x, (k - 1) as nat);
    }
}

/// In a pivot row of a reduced system the marked columns hold a one at the
/// row's own pivot and zeros elsewhere.
proof fn lemma_pivot_row_shape(
    mat: Seq<Vec<Rat>>,
    tv: Seq<Rat>,
    m: nat,
    pivots: Seq<usize>,
    flags: Seq<bool>,
    free: Seq<usize>,
    k: int,
)
    requires
        reduced_form(mat, tv, m, pivots, m),
        columns_split(m, pivots, flags, free),
        0 <= k < pivots.len(),
    ensures
        forall|c: int|
            0 <= c < m && flags[c] ==> (#[trigger] mat[k]@[c])@ == if c == pivots[k] {
                q_int(1)
            } else {
                q_int(0)
            },
{
    assert forall|c: int| 0 <= c < m && flags[c] implies (#[trigger] mat[k]@[c])@ == if c
        == pivots[k] {
        q_int(1)
    } else {
        q_int(0)
    } by {
        let k2 = choose|k2: int| 0 <= k2 < pivots.len() && pivots[k2] == c;
        assert(mat[k]@[pivots[k2] as int]@ == if k == k2 {
            q_int(1)
        } else {
            q_int(0)
        });
        if k2 < k {
            assert(pivots[k2] < pivots[k]);
        }
        if k < k2 {
            assert(pivots[k] < pivots[k2]);
        }
    }
}

/// In a reduced system whose rows below the pivots have right side zero, a
/// vector satisfies every equation exactly when each pivot variable is what
/// is left of its row's right side.
proof fn lemma_all_hold_iff_rest(
    mat: Seq<Vec<Rat>>,
    tv: Seq<Rat>,
    m: nat,
    pivots: Seq<usize>,
    flags: Seq<bool>,
    free: Seq<usize>,
    x: Seq<int>,
)
    requires
        reduced_form(mat, tv, m, pivots, m),
        columns_split(m, pivots, flags, free),
        consistent(tv, pivots.len()),
        x.len() == m,
    ensures
        all_hold(mat, tv, x, m) <==> forall|k: int|
            0 <= k < pivots.len() ==> rest(mat[k]@, tv[k]@, x, flags, m) == q_int(
                x[(#[trigger] pivots[k]) as int],
            ),
{
    assert forall|k: int| 0 <= k < pivots.len() implies (row_holds(mat[k]@, tv[k], x, m) <==> rest(
        mat[k]@,
        tv[k]@,
        x,
        flags,
        m,
    ) == q_int(x[(#[trigger] pivots[k]) as int])) by {
        lemma_pivot_row_shape(mat, tv, m, pivots, flags, free, k);
        assert(tv[k].wf());
        lemma_row_holds_iff_rest(mat[k]@, tv[k], x, flags, pivots[k] as int, m);
    }
    assert forall|r: int| pivots.len() <= r < mat.len() implies row_holds(
        #[trigger] mat[r]@,
        tv[r],
        x,
        m,
    ) by {
        assert forall|c: int| 0 <= c < m implies (#[trigger] mat[r]@[c])@ == q_int(0) by {}
        lemma_dot_zero_row(mat[r]@, x, m);
    }
    if all_hold(mat, tv, x, m) {
        assert forall|k: int| 0 <= k < pivots.len() implies rest(mat[k]@, tv[k]@, x, flags, m)
            == q_int(x[(#[trigger] pivots[k]) as int]) by {
            assert(row_holds(mat[k]@, tv[k], x, m));
        }
    }
    if forall|k: int|
        0 <= k < pivots.len() ==> rest(mat[k]@, tv[k]@, x, flags, m) == q_int(
            x[(#[trigger] pivots[k]) as int],
        ) {
        assert forall|r: int| 0 <= r < mat.len() implies row_holds(#[trigger] mat[r]@, tv[r], x, m) by {
            if r < pivots.len() {
                assert(rest(mat[r]@, tv[r]@, x, flags, m) == q_int(x[pivots[r] as int]));
            }
        }
    }
}

/// What is left of the right side `t` of an equation once the terms of the
/// free columns are taken away, for the values that `vals` gives them.
fn residual(row: &Vec<Rat>, t: &Rat, flags: &Vec<bool>, vals: &Vec<i128>, m: usize) -> (val: Rat)
    requires
        row.len() == m,
        flags.len() == m,
        vals.len() == m,
        row_wf(row@),
        t.wf(),
    ensures
        val.wf(),
        val@ == rest(row@, t@, ints(vals@), flags@, m as nat),
{
    let mut val = t.duplicate();
    for c in 0..m
        invariant
            row.len() == m,
            flags.len() == m,
            vals.len() == m,
            row_wf(row@),
            val.wf(),
            val@ == rest(row@, t@, ints(vals@), flags@, c as nat),
    {
        if !flags[c] {
            assert(row[c as int].wf());
            let amount = Rat::from_i128(vals[c]);
            assert(ints(vals@)[c as int] == vals[c as int]);
            if !row[c].is_zero() {
                let step = row[c].mul(&amount);
                val = val.sub(&step);
            } else {
                proof {
                    lemma_zero_numerator(row[c as int]@);
                    lemma_zero_mul(amount@);
                    lemma_sub_zero(val@);
                }
            }
        }
    }
    val
}

/// The total of the one solution that holds the free values of `vals`, if
/// its pivot variables come out whole and not negative; `None` if not.
fn evaluate(
    mat: &Vec<Vec<Rat>>,
    tv: &Vec<Rat>,
    m: usize,
    pivots: &Vec<usize>,
    flags: &Vec<bool>,
    free: &Vec<usize>,
    vals: &Vec<i128>,
) -> (found: Option<Rat>)
    requires
        reduced_form(mat@, tv@, m as nat, pivots@, m as nat),
        columns_split(m as nat, pivots@, flags@, free@),
        consistent(tv@, pivots.len() as nat),
        vals.len() == m,
        forall|c: int| 0 <= c < m ==> vals[c] >= 0,
        forall|c: int| 0 <= c < m && flags[c] ==> vals[c] == 0,
    ensures
        match found {
            Some(cost) => cost.wf() && exists|x: Seq<int>|
                completes(mat@, tv@, m as nat, flags@, ints(vals@), x) && cost@ == q_int(total(x)),
            None => true,
        },
        forall|x: Seq<int>|
            completes(mat@, tv@, m as nat, flags@, ints(vals@), x) ==> found.is_some()
                && found.unwrap()@ == q_int(total(x)),
{
    let ghost start = ints(vals@);
    let mut sum = Rat::zero();
    for c in 0..m
        invariant
            vals.len() == m,
            start == ints(vals@),
            sum.wf(),
            sum@ == q_int(sum_to(start, c as nat)),
    {
        let amount = Rat::from_i128(vals[c]);
        proof {
            lemma_int_add(sum_to(start, c as nat), start[c as int]);
        }
        sum = sum.add(&amount);
    }
    let ghost mut x = start;
    for k in 0..pivots.len()
        invariant
            reduced_form(mat@, tv@, m as nat, pivots@, m as nat),
            columns_split(m as nat, pivots@, flags@, free@),
            consistent(tv@, pivots.len() as nat),
            vals.len() == m,
            start == ints(vals@),
            forall|c: int| 0 <= c < m ==> vals[c] >= 0,
            x.len() == m,
            non_negative(x),
            forall|c: int| 0 <= c < m && !flags[c] ==> x[c] == start[c],
            forall|q: int| k <= q < pivots.len() ==> x[(#[trigger] pivots[q]) as int] == 0,
            forall|q: int|
                0 <= q < k ==> rest(mat[q]@, tv[q]@, x, flags@, m as nat) == q_int(
                    x[(#[trigger] pivots[q]) as int],
                ),
            sum.wf(),
            sum@ == q_int(sum_to(x, m as nat)),
    {
        assert(tv[k as int].wf());
        let val = residual(&mat[k], &tv[k], flags, vals, m);
        let ghost pc = pivots[k as int] as int;
        proof {
            lemma_rest_agree(mat[k as int]@, tv[k as int]@, start, x, flags@, m as nat);
        }
        if !val.is_integer() || val.is_negative() {
            proof {
                assert forall|y: Seq<int>|
                    completes(mat@, tv@, m as nat, flags@, start, y) implies false by {
                    lemma_all_hold_iff_rest(mat@, tv@, m as nat, pivots@, flags@, free@, y);
                    assert(rest(mat[k as int]@, tv[k as int]@, y, flags@, m as nat) == q_int(
                        y[pivots[k as int] as int],
                    ));
                    lemma_rest_agree(mat[k as int]@, tv[k as int]@, start, y, flags@, m as nat);
                }
            }
            return None;
        }
        proof {
            let ghost before = x;
            x = x.update(pc, val@.num);
            assert(val@ == q_int(val@.num));
            lemma_sum_update(before, pc, val@.num, m as nat);
            lemma_int_add(sum_to(before, m as nat), val@.num);
            assert forall|q: int| 0 <= q < k + 1 implies rest(
                mat[q]@,
                tv[q]@,
                x,
                flags@,
                m as nat,
            ) == q_int(x[(#[trigger] pivots[q]) as int]) by {
                lemma_rest_agree(mat[q]@, tv[q]@, before, x, flags@, m as nat);
                if q < k {
                    assert(pivots[q] < pivots[k as int]);
                    assert(rest(mat[q]@, tv[q]@, before, flags@, m as nat) == q_int(
                        before[pivots[q] as int],
                    ));
                }
            }
            assert forall|q: int| k + 1 <= q < pivots.len() implies x[(
            #[trigger] pivots[q]) as int] == 0 by {
                assert(pivots[k as int] < pivots[q]);
            }
        }
        sum = sum.add(&val);
    }
    proof {
        lemma_all_hold_iff_rest(mat@, tv@, m as nat, pivots@, flags@, free@, x);
        assert(completes(mat@, tv@, m as nat, flags@, start, x));
        assert forall|y: Seq<int>| completes(mat@, tv@, m as nat, flags@, start, y) implies y
            == x by {
            lemma_all_hold_iff_rest(mat@, tv@, m as nat, pivots@, flags@, free@, y);
            assert forall|c: int| 0 <= c < m implies y[c] == x[c] by {
                if flags@[c] {
                    let q = choose|q: int| 0 <= q < pivots.len() && pivots[q] == c;
                    lemma_rest_agree(mat[q]@, tv[q]@, x, y, flags@, m as nat);
                    assert(rest(mat[q]@, tv[q]@, y, flags@, m as nat) == q_int(
                        y[pivots[q] as int],
                    ));
                    assert(rest(mat[q]@, tv[q]@, x, flags@, m as nat) == q_int(
                        x[pivots[q] as int],
                    ));
                }
            }
            assert(y =~= x);
        }
    }
    Some(sum)
}

// ---------------------------------------------------------------------------
// Search over the free variables
// ---------------------------------------------------------------------------

/// `x` is a solution of the reduced system without negative entries that
/// holds the values of `vals` at the first `idx` free columns and stays at
/// or below `limit` at the others.
pub open spec fn candidate(
    mat: Seq<Vec<Rat>>,
    tv: Seq<Rat>,
    m: nat,
    free: Seq<usize>,
    idx: nat,
    limit: int,
    vals: Seq<int>,
    x: Seq<int>,
) -> bool {
    &&& x.len() == m
    &&& non_negative(x)
    &&& all_hold(mat, tv, x, m)
    &&& forall|j: int| 0 <= j < idx ==> x[(#[trigger] free[j]) as int] == vals[free[j] as int]
    &&& forall|j: int| idx <= j < free.len() ==> x[(#[trigger] free[j]) as int] <= limit
}

/// `best` is the least total among the vectors that `keep` admits: `None`
/// when it admits none.
pub open spec fn is_least_among(best: Option<Rat>, keep: spec_fn(Seq<int>) -> bool) -> bool {
    match best {
        Some(cost) => cost.wf() && (exists|x: Seq<int>| #[trigger] keep(x) && cost@ == q_int(total(x)))
            && (forall|x: Seq<int>| #[trigger] keep(x) ==> total(x) >= cost@.num),
        None => forall|x: Seq<int>| !(#[trigger] keep(x)),
    }
}

/// The smaller of two optional totals, where `None` stands for no total.
fn lesser(a: Option<Rat>, b: Option<Rat>) -> (least: Option<Rat>)
    ensures
        match (a, b) {
            (Some(p), Some(q)) => least == if q@.num * p@.den < p@.num * q@.den {
                Some(q)
            } else {
                Some(p)
            },
            (Some(p), None) => least == Some(p),
            (None, _) => least == b,
        },
{
    match a {
        None => b,
        Some(p) => match b {
            None => Some(p),
            Some(q) => if q.less_than(&p) {
                Some(q)
            } else {
                Some(p)
            },
        },
    }
}

/// The least total among the solutions of the reduced system, without
/// negative entries, that keep the first `idx` free variables as `vals`
/// holds them and give each other free variable a value from 0 to `limit`.
/// Every free variable from `idx` on is tried at each of these values in
/// turn; `vals` is handed back as it came.
pub fn solve_recursive(
    idx: usize,
    free: &Vec<usize>,
    pivots: &Vec<usize>,
    flags: &Vec<bool>,
    mat: &Vec<Vec<Rat>>,
    tv: &Vec<Rat>,
    limit: i128,
    vals: &mut Vec<i128>,
    m: usize,
) -> (best: Option<Rat>)
    requires
        reduced_form(mat@, tv@, m as nat, pivots@, m as nat),
        columns_split(m as nat, pivots@, flags@, free@),
        consistent(tv@, pivots.len() as nat),
        idx <= free.len(),
        limit < i128::MAX,
        old(vals).len() == m,
        forall|c: int| 0 <= c < m ==> old(vals)[c] >= 0,
        forall|c: int| 0 <= c < m && flags[c] ==> old(vals)[c] == 0,
    ensures
        final(vals)@ == old(vals)@,
        is_least_among(
            best,
            |x: Seq<int>|
                candidate(mat@, tv@, m as nat, free@, idx as nat, limit as int, ints(old(vals)@), x),
        ),
    decreases free.len() - idx,
{
    let ghost start = ints(vals@);
    let ghost keep = |x: Seq<int>|
        candidate(mat@, tv@, m as nat, free@, idx as nat, limit as int, start, x);
    if idx == free.len() {
        let found = evaluate(mat, tv, m, pivots, flags, free, vals);
        proof {
            assert forall|x: Seq<int>| #[trigger] keep(x) == completes(
                mat@,
                tv@,
                m as nat,
                flags@,
                start,
                x,
            ) by {
                if keep(x) {
                    assert forall|c: int| 0 <= c < m && !flags@[c] implies x[c] == start[c] by {
                        let j = choose|j: int| 0 <= j < free.len() && free[j] == c;
                        assert(x[free[j] as int] == start[free[j] as int]);
                    }
                }
            }
            if found.is_some() {
                let cost = found.unwrap();
                let x = choose|x: Seq<int>|
                    completes(mat@, tv@, m as nat, flags@, start, x) && cost@ == q_int(total(x));
                assert(keep(x));
            }
        }
        found
    } else {
        let var = free[idx];
        let saved = vals[var];
        let mut best: Option<Rat> = None;
        let mut val: i128 = 0;
        while val <= limit
            invariant
                reduced_form(mat@, tv@, m as nat, pivots@, m as nat),
                columns_split(m as nat, pivots@, flags@, free@),
                consistent(tv@, pivots.len() as nat),
                idx < free.len(),
                var == free[idx as int],
                limit < i128::MAX,
                0 <= val <= limit + 1 || (val == 0 && limit < 0),
                vals.len() == m,
                old(vals).len() == m,
                start == ints(old(vals)@),
                forall|c: int| 0 <= c < m && c != var ==> vals[c] == old(vals)[c],
                forall|c: int| 0 <= c < m && flags[c] ==> vals[c] == 0,
                forall|c: int| 0 <= c < m ==> vals[c] >= 0,
                keep == (|x: Seq<int>|
                    candidate(mat@, tv@, m as nat, free@, idx as nat, limit as int, start, x)),
                is_least_among(best, |x: Seq<int>| keep(x) && x[var as int] < val),
            decreases limit + 1 - val,
        {
            vals[var] = val;
            let ghost now = ints(vals@);
            let sub = solve_recursive(idx + 1, free, pivots, flags, mat, tv, limit, vals, m);
            let ghost below = |x: Seq<int>| keep(x) && x[var as int] < val;
            let ghost here = |x: Seq<int>|
                candidate(mat@, tv@, m as nat, free@, (idx + 1) as nat, limit as int, now, x);
            let ghost upto = |x: Seq<int>| keep(x) && x[var as int] < val + 1;
            let ghost previous = best;
            let ghost deeper = sub;
            best = lesser(best, sub);
            proof {
                assert forall|x: Seq<int>| #[trigger] here(x) == (keep(x) && x[var as int] == val) by {
                    if here(x) {
                        assert(x[free[idx as int] as int] == now[free[idx as int] as int]);
                        assert forall|j: int| 0 <= j < idx implies x[(#[trigger] free[j]) as int]
                            == start[free[j] as int] by {
                            assert(free[j] < free[idx as int]);
                            assert(x[free[j] as int] == now[free[j] as int]);
                        }
                        assert(keep(x));
                    }
                    if keep(x) && x[var as int] == val {
                        assert forall|j: int| 0 <= j < idx + 1 implies x[(
                        #[trigger] free[j]) as int] == now[free[j] as int] by {
                            if j < idx {
                                assert(free[j] < free[idx as int]);
                                assert(x[free[j] as int] == start[free[j] as int]);
                            }
                        }
                        assert(here(x));
                    }
                }
                assert forall|x: Seq<int>| #[trigger] upto(x) == (below(x) || here(x)) by {}
                lemma_least_of_two(previous, deeper, below, here, upto);
            }
            val += 1;
        }
        vals[var] = saved;
        proof {
            assert(vals@ =~= old(vals)@);
            let ghost tried = |x: Seq<int>| keep(x) && x[var as int] < val;
            assert forall|x: Seq<int>|
                #![trigger tried(x)]
                #![trigger keep(x)]
                tried(x) == keep(x) by {
                if keep(x) {
                    assert(x[free[idx as int] as int] <= limit);
                }
            }
            lemma_least_same(best, tried, keep);
        }
        best
    }
}

/// The lesser of the least totals of two sets is the least total of their
/// union.
proof fn lemma_least_of_two(
    a: Option<Rat>,
    b: Option<Rat>,
    first: spec_fn(Seq<int>) -> bool,
    second: spec_fn(Seq<int>) -> bool,
    both: spec_fn(Seq<int>) -> bool,
)
    requires
        is_least_among(a, first),
        is_least_among(b, second),
        forall|x: Seq<int>| #[trigger] both(x) == (first(x) || second(x)),
    ensures
        is_least_among(
            match (a, b) {
                (Some(p), Some(q)) => if q@.num * p@.den < p@.num * q@.den {
                    Some(q)
                } else {
                    Some(p)
                },
                (Some(p), None) => Some(p),
                (None, _) => b,
            },
            both,
        ),
{
    match (a, b) {
        (Some(p), Some(q)) => {
            let xp = choose|x: Seq<int>| first(x) && p@ == q_int(total(x));
            let xq = choose|x: Seq<int>| second(x) && q@ == q_int(total(x));
            assert(both(xp));
            assert(both(xq));
            assert(p@.den == 1 && q@.den == 1);
            assert(q@.num * p@.den == q@.num && p@.num * q@.den == p@.num) by (nonlinear_arith)
                requires
                    p@.den == 1,
                    q@.den == 1,
            ;
        },
        (Some(p), None) => {
            let xp = choose|x: Seq<int>| first(x) && p@ == q_int(total(x));
            assert(both(xp));
        },
        (None, Some(q)) => {
            let xq = choose|x: Seq<int>| second(x) && q@ == q_int(total(x));
            assert(both(xq));
        },
        (None, None) => {},
    }
}

/// The least total of a set is the least total of any set with the same
/// members.
proof fn lemma_least_same(
    best: Option<Rat>,
    first: spec_fn(Seq<int>) -> bool,
    second: spec_fn(Seq<int>) -> bool,
)
    requires
        is_least_among(best, first),
        forall|x: Seq<int>|
            #![trigger first(x)]
            #![trigger second(x)]
            first(x) == second(x),
    ensures
        is_least_among(best, second),
{
    match best {
        Some(cost) => {
            let x = choose|x: Seq<int>| first(x) && cost@ == q_int(total(x));
            assert(second(x));
        },
        None => {},
    }
}

// ---------------------------------------------------------------------------
// The solver
// ---------------------------------------------------------------------------

/// The button increments one of the first `n` counters.
pub open spec fn touches_any(button: Seq<usize>, n: nat) -> bool {
    exists|i: int| 0 <= i < n && touches(button, i)
}

/// `x` with the presses of the buttons that increment no counter taken out.
pub open spec fn trimmed(buttons: Seq<Seq<usize>>, n: nat, x: Seq<int>) -> Seq<int> {
    Seq::new(
        x.len(),
        |c: int|
            if touches_any(buttons[c], n) {
                x[c]
            } else {
                0
            },
    )
}

/// No counter goes below zero, and none ends below the number of presses of
/// a button that increments it.
proof fn lemma_counter_bounds(buttons: Seq<Seq<usize>>, x: Seq<int>, i: int, k: nat)
    requires
        k <= x.len(),
        non_negative(x),
    ensures
        counter_after(buttons, x, i, k) >= 0,
        forall|c: int| 0 <= c < k && touches(buttons[c], i) ==> x[c] <= counter_after(buttons, x, i, k),
    decreases k,
{
    if k > 0 {
        lemma_counter_bounds(buttons, x, i, (k - 1) as nat);
    }
}

/// Buttons that increment no counter do not matter to any counter.
proof fn lemma_trim_counter(buttons: Seq<Seq<usize>>, n: nat, x: Seq<int>, i: int, k: nat)
    requires
        0 <= i < n,
        k <= x.len(),
    ensures
        counter_after(buttons, trimmed(buttons, n, x), i, k) == counter_after(buttons, x, i, k),
    decreases k,
{
    if k > 0 {
        lemma_trim_counter(buttons, n, x, i, (k - 1) as nat);
    }
}

/// Taking presses out does not raise the total.
proof fn lemma_trim_sum(buttons: Seq<Seq<usize>>, n: nat, x: Seq<int>, k: nat)
    requires
        k <= x.len(),
        non_negative(x),
    ensures
        sum_to(trimmed(buttons, n, x), k) <= sum_to(x, k),
    decreases k,
{
    if k > 0 {
        lemma_trim_sum(buttons, n, x, (k - 1) as nat);
    }
}

/// The equations built from the machine say what the counters say.
proof fn lemma_dot_is_counter(
    buttons: Seq<Seq<usize>>,
    row: Seq<Rat>,
    x: Seq<int>,
    i: int,
    k: nat,
)
    requires
        k <= row.len(),
        k <= buttons.len(),
        forall|c: int| 0 <= c < k ==> (#[trigger] row[c])@ == q_int(coefficient(buttons[c], i)),
    ensures
        dot(row, x, k) == q_int(counter_after(buttons, x, i, k)),
    decreases k,
{
    if k > 0 {
        lemma_dot_is_counter(buttons, row, x, i, (k - 1) as nat);
        let a = coefficient(buttons[k - 1], i);
        assert(row[k - 1]@ == q_int(a));
        lemma_int_mul(a, x[k - 1]);
        assert(a * x[k - 1] == if touches(buttons[k - 1], i) {
            x[k - 1]
        } else {
            0
        }) by (nonlinear_arith)
            requires
                a == if touches(buttons[k - 1], i) {
                    1int
                } else {
                    0int
                },
        ;
        lemma_int_add(counter_after(buttons, x, i, (k - 1) as nat), a * x[k - 1]);
    }
}

/// Pressing nothing leaves every counter at zero, at no cost.
proof fn lemma_no_presses(buttons: Seq<Seq<usize>>, x: Seq<int>, i: int, k: nat)
    requires
        k <= x.len(),
        forall|c: int| 0 <= c < x.len() ==> x[c] == 0,
    ensures
        counter_after(buttons, x, i, k) == 0,
        sum_to(x, k) == 0,
    decreases k,
{
    if k > 0 {
        lemma_no_presses(buttons, x, i, (k - 1) as nat);
    }
}

/// Two numbers that are both the least total are equal: the answer to an
/// instance is determined by the instance.
pub proof fn lemma_least_total_unique(
    buttons: Seq<Seq<usize>>,
    targets: Seq<int>,
    a: int,
    b: int,
)
    requires
        is_least_total(buttons, targets, a),
        is_least_total(buttons, targets, b),
    ensures
        a == b,
{
    let xa = choose|x: Seq<int>| solves_counters(buttons, targets, x) && total(x) == a;
    let xb = choose|x: Seq<int>| solves_counters(buttons, targets, x) && total(x) == b;
    assert(total(xa) >= b);
    assert(total(xb) >= a);
}

/// Whether every target is zero.
fn all_zero(targets: &Vec<i64>) -> (zero: bool)
    ensures
        zero == (forall|i: int| 0 <= i < targets.len() ==> targets[i] == 0),
{
    for i in 0..targets.len()
        invariant
            forall|j: int| 0 <= j < i ==> targets[j] == 0,
    {
        if targets[i] != 0 {
            return false;
        }
    }
    true
}

/// The greatest target, or zero when there is none.
fn greatest_target(targets: &Vec<i64>) -> (top: i64)
    ensures
        forall|i: int| 0 <= i < targets.len() ==> targets[i] <= top,
{
    if targets.len() == 0 {
        return 0;
    }
    let mut top = targets[0];
    for i in 1..targets.len()
        invariant
            forall|j: int| 0 <= j < i ==> targets[j] <= top,
    {
        if targets[i] > top {
            top = targets[i];
        }
    }
    top
}

/// The least total number of button presses that brings the counters of
/// `machine` from zero to their targets, or `Infeasible` when no counts of
/// presses do; `RangeOverflow` when that least total is more than an `i64`
/// holds.
///
/// Each press of a button adds one to every counter in its list. The search
/// gives each free variable the values from zero to the greatest target plus
/// two; since no button that counts can be pressed more often than the
/// greatest target, that loses no solution.
pub fn solve_joltage(machine: &Machine) -> (r: Result<Outcome<i64>, ArithError>)
    ensures
        match r {
            Ok(Outcome::Cost(c)) => is_least_total(
                machine.counter_buttons(),
                machine.counter_targets(),
                c as int,
            ),
            Ok(Outcome::Infeasible) => !counters_feasible(
                machine.counter_buttons(),
                machine.counter_targets(),
            ),
            Err(e) => e == ArithError::RangeOverflow && exists|c: int|
                c > i64::MAX && is_least_total(
                    machine.counter_buttons(),
                    machine.counter_targets(),
                    c,
                ),
        },
{
    let n = machine.targets.len();
    let m = machine.button_indices.len();
    let ghost buttons = machine.counter_buttons();
    let ghost targets = machine.counter_targets();
    let nothing_asked = all_zero(&machine.targets);
    if m == 0 || nothing_asked {
        proof {
            let none = Seq::new(m as nat, |c: int| 0int);
            if nothing_asked {
                assert forall|i: int| 0 <= i < targets.len() implies #[trigger] counter_after(
                    buttons,
                    none,
                    i,
                    buttons.len(),
                ) == targets[i] by {
                    lemma_no_presses(buttons, none, i, m as nat);
                }
                lemma_no_presses(buttons, none, 0, m as nat);
                assert(solves_counters(buttons, targets, none));
                assert forall|x: Seq<int>| solves_counters(buttons, targets, x) implies total(x)
                    >= 0 by {
                    lemma_sum_non_negative(x, x.len());
                }
            } else {
                assert forall|x: Seq<int>| !solves_counters(buttons, targets, x) by {
                    if solves_counters(buttons, targets, x) {
                        let i = choose|i: int| 0 <= i < machine.targets.len() && machine.targets[i] != 0;
                        assert(counter_after(buttons, x, i, buttons.len()) == targets[i]);
                    }
                }
            }
        }
        return Ok(
            if nothing_asked {
                Outcome::Cost(0)
            } else {
                Outcome::Infeasible
            },
        );
    }
    let (mut mat, mut tv) = build_system(machine);
    let ghost mat0 = mat@;
    let ghost tv0 = tv@;
    proof {
        assert forall|x: Seq<int>| x.len() == m implies (all_hold(mat0, tv0, x, m as nat)
            <==> forall|i: int|
            0 <= i < targets.len() ==> #[trigger] counter_after(buttons, x, i, buttons.len())
                == targets[i]) by {
            assert forall|i: int| 0 <= i < n implies dot(mat0[i]@, x, m as nat) == q_int(
                counter_after(buttons, x, i, m as nat),
            ) by {
                assert forall|c: int| 0 <= c < m implies (#[trigger] mat0[i]@[c])@ == q_int(
                    coefficient(buttons[c], i),
                ) by {}
                lemma_dot_is_counter(buttons, mat0[i]@, x, i, m as nat);
            }
            if all_hold(mat0, tv0, x, m as nat) {
                assert forall|i: int| 0 <= i < targets.len() implies #[trigger] counter_after(
                    buttons,
                    x,
                    i,
                    buttons.len(),
                ) == targets[i] by {
                    assert(row_holds(mat0[i]@, tv0[i], x, m as nat));
                }
            }
            if forall|i: int|
                0 <= i < targets.len() ==> #[trigger] counter_after(buttons, x, i, buttons.len())
                    == targets[i] {
                assert forall|i: int| 0 <= i < mat0.len() implies row_holds(
                    #[trigger] mat0[i]@,
                    tv0[i],
                    x,
                    m as nat,
                ) by {
                    assert(counter_after(buttons, x, i, buttons.len()) == targets[i]);
                }
            }
        }
    }
    let pivots = eliminate(&mut mat, &mut tv, m);
    proof {
        assert forall|x: Seq<int>| non_negative(x) && x.len() == m implies (#[trigger] all_hold(
            mat@,
            tv@,
            x,
            m as nat,
        ) <==> solves_counters(buttons, targets, x)) by {
            assert(all_hold(mat@, tv@, x, m as nat) == all_hold(mat0, tv0, x, m as nat));
        }
    }
    let mut r = pivots.len();
    while r < n
        invariant
            n == mat.len(),
            m == machine.button_indices.len(),
            buttons == machine.counter_buttons(),
            targets == machine.counter_targets(),
            reduced_form(mat@, tv@, m as nat, pivots@, m as nat),
            forall|x: Seq<int>|
                non_negative(x) && x.len() == m ==> (#[trigger] all_hold(mat@, tv@, x, m as nat)
                    <==> solves_counters(buttons, targets, x)),
            pivots.len() <= r <= n,
            forall|q: int| pivots.len() <= q < r ==> (#[trigger] tv[q])@ == q_int(0),
        decreases n - r,
    {
        assert(tv[r as int].wf());
        if !tv[r].is_zero() {
            proof {
                assert forall|x: Seq<int>| !solves_counters(buttons, targets, x) by {
                    if solves_counters(buttons, targets, x) {
                        assert(all_hold(mat@, tv@, x, m as nat));
                        assert(row_holds(mat[r as int]@, tv[r as int], x, m as nat));
                        assert forall|c: int| 0 <= c < m implies (#[trigger] mat[r as int]@[c])@
                            == q_int(0) by {}
                        lemma_dot_zero_row(mat[r as int]@, x, m as nat);
                    }
                }
            }
            return Ok(Outcome::Infeasible);
        }
        proof {
            lemma_zero_numerator(tv[r as int]@);
        }
        r += 1;
    }
    let (flags, free) = split_columns(&pivots, m);
    let top = greatest_target(&machine.targets);
    let limit: i128 = top as i128 + 2;
    let mut vals: Vec<i128> = vec![0i128; m];
    let ghost start = ints(vals@);
    let ghost keep = |x: Seq<int>|
        candidate(mat@, tv@, m as nat, free@, 0, limit as int, start, x);
    let best = if free.len() == 0 {
        let found = evaluate(&mat, &tv, m, &pivots, &flags, &free, &vals);
        proof {
            if found.is_some() {
                let cost = found.unwrap();
                let x = choose|x: Seq<int>|
                    completes(mat@, tv@, m as nat, flags@, start, x) && cost@ == q_int(total(x));
                assert(keep(x));
            }
            assert forall|x: Seq<int>| #[trigger] keep(x) implies completes(
                mat@,
                tv@,
                m as nat,
                flags@,
                start,
                x,
            ) by {
                assert forall|c: int| 0 <= c < m && !flags@[c] implies x[c] == start[c] by {
                }
            }
            assert(is_least_among(found, keep));
        }
        found
    } else {
        let ghost idx: nat = 0;
        let ghost asked = |x: Seq<int>|
            candidate(mat@, tv@, m as nat, free@, idx, limit as int, start, x);
        let found = solve_recursive(0, &free, &pivots, &flags, &mat, &tv, limit, &mut vals, m);
        proof {
            assert(is_least_among(found, asked));
            assert forall|x: Seq<int>|
                #![trigger asked(x)]
                #![trigger keep(x)]
                asked(x) == keep(x) by {}
            lemma_least_same(found, asked, keep);
        }
        found
    };
    proof {
        // every solution has a candidate of no greater total
        assert forall|y: Seq<int>| solves_counters(buttons, targets, y) implies keep(
            trimmed(buttons, n as nat, y),
        ) && total(trimmed(buttons, n as nat, y)) <= total(y) by {
            let t = trimmed(buttons, n as nat, y);
            lemma_trim_sum(buttons, n as nat, y, m as nat);
            assert forall|i: int| 0 <= i < targets.len() implies #[trigger] counter_after(
                buttons,
                t,
                i,
                buttons.len(),
            ) == targets[i] by {
                lemma_trim_counter(buttons, n as nat, y, i, m as nat);
                assert(counter_after(buttons, y, i, buttons.len()) == targets[i]);
            }
            assert(solves_counters(buttons, targets, t));
            assert(all_hold(mat@, tv@, t, m as nat));
            assert forall|j: int| 0 <= j < free.len() implies t[(#[trigger] free[j]) as int]
                <= limit by {
                let c = free[j] as int;
                if touches_any(buttons[c], n as nat) {
                    let i = choose|i: int| 0 <= i < n && touches(buttons[c], i);
                    lemma_counter_bounds(buttons, y, i, m as nat);
                    assert(counter_after(buttons, y, i, buttons.len()) == targets[i]);
                    assert(machine.targets[i] <= top);
                } else {
                    let i = choose|i: int| 0 <= i < machine.targets.len() && machine.targets[i] != 0;
                    lemma_counter_bounds(buttons, y, i, m as nat);
                    assert(counter_after(buttons, y, i, buttons.len()) == targets[i]);
                    assert(machine.targets[i] <= top);
                }
            }
        }
    }
    match best {
        None => {
            proof {
                assert forall|y: Seq<int>| !solves_counters(buttons, targets, y) by {
                    if solves_counters(buttons, targets, y) {
                        assert(keep(trimmed(buttons, n as nat, y)));
                    }
                }
            }
            Ok(Outcome::Infeasible)
        },
        Some(cost) => {
            proof {
                let x = choose|x: Seq<int>| #[trigger] keep(x) && cost@ == q_int(total(x));
                assert(solves_counters(buttons, targets, x));
                lemma_sum_non_negative(x, x.len());
                assert forall|y: Seq<int>| solves_counters(buttons, targets, y) implies total(y)
                    >= cost@.num by {
                    assert(keep(trimmed(buttons, n as nat, y)));
                }
                assert(is_least_total(buttons, targets, cost@.num));
            }
            match cost.to_i64() {
                Ok(v) => Ok(Outcome::Cost(v)),
                Err(e) => Err(e),
            }
        },
    }
}

// ---------------------------------------------------------------------------
// A second copy of a button
// ---------------------------------------------------------------------------

/// The counters depend only on the buttons and presses that were counted.
proof fn lemma_counter_prefix(
    b1: Seq<Seq<usize>>,
    x1: Seq<int>,
    b2: Seq<Seq<usize>>,
    x2: Seq<int>,
    counter: int,
    k: nat,
)
    requires
        forall|j: int| 0 <= j < k ==> b1[j] == b2[j] && x1[j] == x2[j],
    ensures
        counter_after(b1, x1, counter, k) == counter_after(b2, x2, counter, k),
        sum_to(x1, k) == sum_to(x2, k),
    decreases k,
{
    if k > 0 {
        lemma_counter_prefix(b1, x1, b2, x2, counter, (k - 1) as nat);
    }
}

/// Changing the presses of one button changes the counters of that button
/// by the difference.
proof fn lemma_counter_update(
    buttons: Seq<Seq<usize>>,
    x: Seq<int>,
    c: int,
    v: int,
    counter: int,
    k: nat,
)
    requires
        0 <= c < x.len(),
        k <= x.len(),
    ensures
        counter_after(buttons, x.update(c, v), counter, k) == counter_after(buttons, x, counter, k)
            + if c < k && touches(buttons[c], counter) {
            v - x[c]
        } else {
            0
        },
    decreases k,
{
    if k > 0 {
        lemma_counter_update(buttons, x, c, v, counter, (k - 1) as nat);
    }
}

/// Adding a second copy of a button never changes the least total of
/// presses of an instance that can be solved.
pub proof fn lemma_copy_keeps_least_total(
    buttons: Seq<Seq<usize>>,
    targets: Seq<int>,
    c: int,
    least: int,
)
    requires
        0 <= c < buttons.len(),
        is_least_total(buttons, targets, least),
    ensures
        is_least_total(buttons.push(buttons[c]), targets, least),
{
    let more = buttons.push(buttons[c]);
    let m = buttons.len();
    let x = choose|x: Seq<int>| solves_counters(buttons, targets, x) && total(x) == least;
    let wide = x.push(0);
    assert(solves_counters(more, targets, wide) && total(wide) == least) by {
        lemma_counter_prefix(more, wide, buttons, x, 0, m);
        assert forall|i: int| 0 <= i < targets.len() implies #[trigger] counter_after(
            more,
            wide,
            i,
            more.len(),
        ) == targets[i] by {
            lemma_counter_prefix(more, wide, buttons, x, i, m);
            assert(counter_after(buttons, x, i, buttons.len()) == targets[i]);
        }
    }
    assert forall|y: Seq<int>| solves_counters(more, targets, y) implies total(y) >= least by {
        let short = y.drop_last();
        let back = short.update(c, y[c] + y.last());
        lemma_sum_update(short, c, y[c] + y.last(), m);
        lemma_counter_prefix(more, y, buttons, short, 0, m);
        assert forall|i: int| 0 <= i < targets.len() implies #[trigger] counter_after(
            buttons,
            back,
            i,
            buttons.len(),
        ) == targets[i] by {
            assert(counter_after(more, y, i, more.len()) == targets[i]);
            lemma_counter_prefix(more, y, buttons, short, i, m);
            lemma_counter_update(buttons, short, c, y[c] + y.last(), i, m);
        }
        assert(solves_counters(buttons, targets, back));
        assert(total(back) == total(y));
    }
}

} // verus!
