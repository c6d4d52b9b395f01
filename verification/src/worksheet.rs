//! A worksheet of problems written side by side: the problems are parted by
//! columns of spaces, the last row holds the operator of each problem, and
//! the rows above hold its numbers.

use crate::machine::i64_of;
use crate::text::{lines, lines_of, parse_i64, trim, trimmed, views};
use vstd::prelude::*;
use vstd::string::StringSliceAdditionalSpecFns;

verus! {

/// What a block of columns comes to.
#[derive(Debug, Clone, Copy, PartialEq, Eq)]
pub enum Answer {
    /// The sum or the product of the numbers of the problem.
    Value(i64),
    /// The block holds no operator or no number: it is no problem.
    NoProblem,
    /// The sum or the product is more than an `i64` holds.
    Overflow,
}

// ---------------------------------------------------------------------------
// The sheet, stated mathematically
// ---------------------------------------------------------------------------

/// The length of the longest of the first `k` lines.
pub open spec fn widest(all: Seq<Seq<u8>>, k: nat) -> nat
    decreases k,
{
    if k == 0 {
        0
    } else {
        let before = widest(all, (k - 1) as nat);
        if all[k - 1].len() > before {
            all[k - 1].len()
        } else {
            before
        }
    }
}

/// The character at row `r`, column `c`; a space beyond the end of a line.
pub open spec fn at(all: Seq<Seq<u8>>, r: int, c: int) -> u8 {
    if 0 <= c < all[r].len() {
        all[r][c]
    } else {
        32
    }
}

/// Column `c` of the sheet, from top to bottom.
pub open spec fn column(all: Seq<Seq<u8>>, c: int) -> Seq<u8> {
    Seq::new(all.len(), |r: int| at(all, r, c))
}

/// The columns of the sheet, from left to right.
pub open spec fn columns_of(all: Seq<Seq<u8>>) -> Seq<Seq<u8>> {
    Seq::new(widest(all, all.len()), |c: int| column(all, c))
}

/// The column holds nothing but spaces.
pub open spec fn separator(col: Seq<u8>) -> bool {
    forall|r: int| 0 <= r < col.len() ==> col[r] == 32
}

/// Row `r` of a block of columns, from left to right.
pub open spec fn row_of(block: Seq<Seq<u8>>, r: int) -> Seq<u8> {
    Seq::new(block.len(), |c: int| block[c][r])
}

/// How many rows a block has: as many as its first column.
pub open spec fn rows_of(block: Seq<Seq<u8>>) -> nat {
    if block.len() > 0 {
        block[0].len()
    } else {
        0
    }
}

/// The numbers that the first `k` rows of the block spell; rows that spell
/// none are left out.
pub open spec fn row_numbers(block: Seq<Seq<u8>>, k: nat) -> Seq<i64>
    decreases k,
{
    if k == 0 {
        Seq::<i64>::empty()
    } else {
        let before = row_numbers(block, (k - 1) as nat);
        match i64_of(trimmed(row_of(block, k - 1))) {
            Some(n) => before.push(n),
            None => before,
        }
    }
}

/// The characters of the column above the last row that are no spaces.
pub open spec fn column_digits(col: Seq<u8>, k: nat) -> Seq<u8>
    decreases k,
{
    if k == 0 {
        Seq::<u8>::empty()
    } else {
        let before = column_digits(col, (k - 1) as nat);
        if col[k - 1] != 32 {
            before.push(col[k - 1])
        } else {
            before
        }
    }
}

/// The numbers that the last `k` columns of the block spell from top to
/// bottom, the rightmost column first; columns that spell none are left out.
pub open spec fn column_numbers(block: Seq<Seq<u8>>, k: nat) -> Seq<i64>
    decreases k,
{
    if k == 0 {
        Seq::<i64>::empty()
    } else {
        let before = column_numbers(block, (k - 1) as nat);
        let col = block[block.len() - k];
        match i64_of(column_digits(col, (rows_of(block) - 1) as nat)) {
            Some(n) => before.push(n),
            None => before,
        }
    }
}

/// The sum or the product of the first `k` numbers, as long as every step
/// on the way stays within `i64`.
pub open spec fn folded(numbers: Seq<i64>, times: bool, k: nat) -> Option<int>
    decreases k,
{
    if k == 0 {
        Some(
            if times {
                1int
            } else {
                0int
            },
        )
    } else {
        match folded(numbers, times, (k - 1) as nat) {
            Some(a) => {
                let v = if times {
                    a * numbers[k - 1]
                } else {
                    a + numbers[k - 1]
                };
                if i64::MIN <= v <= i64::MAX {
                    Some(v)
                } else {
                    None
                }
            },
            None => None,
        }
    }
}

/// What the numbers come to under the operator.
pub open spec fn answer_of(numbers: Seq<i64>, times: bool) -> Answer {
    if numbers.len() == 0 {
        Answer::NoProblem
    } else {
        match folded(numbers, times, numbers.len()) {
            Some(v) => Answer::Value(v as i64),
            None => Answer::Overflow,
        }
    }
}

/// What a block comes to when its numbers are read row by row: the last row,
/// without the spaces around it, must be `*` or `+`.
pub open spec fn by_rows(block: Seq<Seq<u8>>) -> Answer {
    let op = trimmed(row_of(block, rows_of(block) - 1));
    if block.len() == 0 || rows_of(block) == 0 {
        Answer::NoProblem
    } else if op == seq![42u8] {
        answer_of(row_numbers(block, (rows_of(block) - 1) as nat), true)
    } else if op == seq![43u8] {
        answer_of(row_numbers(block, (rows_of(block) - 1) as nat), false)
    } else {
        Answer::NoProblem
    }
}

/// The first of the first `k` characters that is `*` or `+`.
pub open spec fn first_operator(row: Seq<u8>, k: nat) -> Option<u8>
    decreases k,
{
    if k == 0 {
        None
    } else {
        match first_operator(row, (k - 1) as nat) {
            Some(op) => Some(op),
            None => if row[k - 1] == 42 || row[k - 1] == 43 {
                Some(row[k - 1])
            } else {
                None
            },
        }
    }
}

/// What a block comes to when its numbers are read column by column, from
/// right to left: the operator is the first `*` or `+` of the last row.
pub open spec fn by_columns(block: Seq<Seq<u8>>) -> Answer {
    if block.len() == 0 || rows_of(block) == 0 {
        Answer::NoProblem
    } else {
        match first_operator(row_of(block, rows_of(block) - 1), block.len()) {
            Some(op) => answer_of(column_numbers(block, block.len()), op == 42),
            None => Answer::NoProblem,
        }
    }
}

/// What a block comes to, read one way or the other.
pub open spec fn block_answer(block: Seq<Seq<u8>>, columnwise: bool) -> Answer {
    if columnwise {
        by_columns(block)
    } else {
        by_rows(block)
    }
}

/// The state after the first `k` columns: the sum of the blocks that are
/// closed (`None` once a block or the sum is too big), and the columns of the
/// block that is still open.
pub open spec fn swept(cols: Seq<Seq<u8>>, columnwise: bool, k: nat) -> (Option<int>, Seq<Seq<u8>>)
    decreases k,
{
    if k == 0 {
        (Some(0int), Seq::<Seq<u8>>::empty())
    } else {
        let (sum, open) = swept(cols, columnwise, (k - 1) as nat);
        if separator(cols[k - 1]) {
            if open.len() > 0 {
                (with_block(sum, block_answer(open, columnwise)), Seq::<Seq<u8>>::empty())
            } else {
                (sum, open)
            }
        } else {
            (sum, open.push(cols[k - 1]))
        }
    }
}

/// The sum with what one more block comes to.
pub open spec fn with_block(sum: Option<int>, answer: Answer) -> Option<int> {
    match (sum, answer) {
        (Some(s), Answer::Value(v)) => if s + v <= i64::MAX && s + v >= i64::MIN {
            Some(s + v)
        } else {
            None
        },
        (Some(s), Answer::NoProblem) => Some(s),
        _ => None,
    }
}

/// The sum of what all the blocks of the sheet come to.
pub open spec fn sheet_total(all: Seq<Seq<u8>>, columnwise: bool) -> Option<int> {
    let cols = columns_of(all);
    let (sum, open) = swept(cols, columnwise, cols.len());
    if open.len() > 0 {
        with_block(sum, block_answer(open, columnwise))
    } else {
        sum
    }
}

// ---------------------------------------------------------------------------
// The functions
// ---------------------------------------------------------------------------

/// The columns of the sheet.
fn sheet_columns(all: &Vec<Vec<u8>>) -> (cols: Vec<Vec<u8>>)
    ensures
        views(cols@) == columns_of(views(all@)),
{
    let ghost texts = views(all@);
    let mut width: usize = 0;
    for r in 0..all.len()
        invariant
            texts == views(all@),
            width == widest(texts, r as nat),
    {
        assert(texts[r as int] == all[r as int]@);
        if all[r].len() > width {
            width = all[r].len();
        }
    }
    let mut cols: Vec<Vec<u8>> = Vec::new();
    for c in 0..width
        invariant
            texts == views(all@),
            width == widest(texts, texts.len()),
            cols.len() == c,
            forall|q: int| 0 <= q < c ==> (#[trigger] cols[q])@ == column(texts, q),
    {
        let mut col: Vec<u8> = Vec::new();
        for r in 0..all.len()
            invariant
                texts == views(all@),
                col.len() == r,
                forall|q: int| 0 <= q < r ==> col[q] == at(texts, q, c as int),
        {
            assert(texts[r as int] == all[r as int]@);
            if c < all[r].len() {
                col.push(all[r][c]);
            } else {
                col.push(32);
            }
        }
        assert(col@ =~= column(texts, c as int));
        cols.push(col);
    }
    assert(views(cols@) =~= columns_of(texts));
    cols
}

/// Whether the column holds nothing but spaces.
fn is_separator(col: &Vec<u8>) -> (r: bool)
    ensures
        r == separator(col@),
{
    for i in 0..col.len()
        invariant
            forall|q: int| 0 <= q < i ==> col[q] == 32,
    {
        if col[i] != 32 {
            return false;
        }
    }
    true
}

/// Row `r` of the block.
fn block_row(block: &Vec<Vec<u8>>, r: usize) -> (row: Vec<u8>)
    requires
        forall|c: int| 0 <= c < block.len() ==> r < (#[trigger] block[c]).len(),
    ensures
        row@ == row_of(views(block@), r as int),
{
    let mut row: Vec<u8> = Vec::new();
    for c in 0..block.len()
        invariant
            forall|q: int| 0 <= q < block.len() ==> r < (#[trigger] block[q]).len(),
            row.len() == c,
            forall|q: int| 0 <= q < c ==> row[q] == views(block@)[q][r as int],
    {
        assert(views(block@)[c as int] == block[c as int]@);
        row.push(block[c][r]);
    }
    assert(row@ =~= row_of(views(block@), r as int));
    row
}

/// The sum or the product of the numbers.
fn combine(numbers: &Vec<i64>, times: bool) -> (answer: Answer)
    ensures
        answer == answer_of(numbers@, times),
{
    if numbers.len() == 0 {
        return Answer::NoProblem;
    }
    let mut acc: i64 = if times {
        1
    } else {
        0
    };
    for k in 0..numbers.len()
        invariant
            folded(numbers@, times, k as nat) == Some(acc as int),
    {
        let next = if times {
            acc.checked_mul(numbers[k])
        } else {
            acc.checked_add(numbers[k])
        };
        match next {
            Some(v) => {
                acc = v;
            },
            None => {
                proof {
                    lemma_folded_stays_none(numbers@, times, (k + 1) as nat, numbers.len() as nat);
                }
                return Answer::Overflow;
            },
        }
    }
    Answer::Value(acc)
}

/// Once a step leaves the range, no later step comes back.
proof fn lemma_folded_stays_none(numbers: Seq<i64>, times: bool, i: nat, k: nat)
    requires
        i <= k,
        folded(numbers, times, i).is_none(),
    ensures
        folded(numbers, times, k).is_none(),
    decreases k,
{
    if i < k {
        lemma_folded_stays_none(numbers, times, i, (k - 1) as nat);
    }
}

/// Every column of the block has as many rows as the first.
pub open spec fn even(block: Seq<Seq<u8>>) -> bool {
    forall|c: int| 0 <= c < block.len() ==> (#[trigger] block[c]).len() == rows_of(block)
}

/// What a block of columns comes to when its numbers are read row by row.
pub fn solve_problem(problem: &Vec<Vec<u8>>) -> (answer: Answer)
    requires
        even(views(problem@)),
    ensures
        answer == by_rows(views(problem@)),
{
    let ghost block = views(problem@);
    if problem.len() == 0 {
        return Answer::NoProblem;
    }
    assert(block[0] == problem[0]@);
    let rows = problem[0].len();
    if rows == 0 {
        return Answer::NoProblem;
    }
    assert forall|c: int| 0 <= c < problem.len() implies (#[trigger] problem[c]).len() == rows by {
        assert(block[c] == problem[c]@);
    }
    let last = block_row(problem, rows - 1);
    let op = trim(last.as_slice());
    if op.len() != 1 || (op[0] != 42 && op[0] != 43) {
        proof {
            if op@ == seq![42u8] || op@ == seq![43u8] {
                assert(op@[0] == 42 || op@[0] == 43);
            }
        }
        return Answer::NoProblem;
    }
    let times = op[0] == 42;
    proof {
        if times {
            assert(op@ =~= seq![42u8]);
        } else {
            assert(op@ =~= seq![43u8]);
            assert(op@ != seq![42u8]) by {
                assert(seq![42u8][0] == 42u8);
            }
        }
    }
    let mut numbers: Vec<i64> = Vec::new();
    for r in 0..(rows - 1)
        invariant
            block == views(problem@),
            rows >= 1,
            forall|c: int| 0 <= c < problem.len() ==> (#[trigger] problem[c]).len() == rows,
            numbers@ == row_numbers(block, r as nat),
    {
        let row = block_row(problem, r);
        let text = trim(row.as_slice());
        match parse_i64(text.as_slice()) {
            Some(n) => {
                numbers.push(n);
            },
            None => {},
        }
    }
    combine(&numbers, times)
}

/// What a block of columns comes to when its numbers are read column by
/// column, from right to left.
pub fn solve_problem_part2(problem: &Vec<Vec<u8>>) -> (answer: Answer)
    requires
        even(views(problem@)),
    ensures
        answer == by_columns(views(problem@)),
{
    let ghost block = views(problem@);
    if problem.len() == 0 {
        return Answer::NoProblem;
    }
    assert(block[0] == problem[0]@);
    let rows = problem[0].len();
    if rows == 0 {
        return Answer::NoProblem;
    }
    assert forall|c: int| 0 <= c < problem.len() implies (#[trigger] problem[c]).len() == rows by {
        assert(block[c] == problem[c]@);
    }
    let last = block_row(problem, rows - 1);
    let mut operator: Option<u8> = None;
    for c in 0..last.len()
        invariant
            operator == first_operator(last@, c as nat),
    {
        if operator.is_none() && (last[c] == 42 || last[c] == 43) {
            operator = Some(last[c]);
        }
    }
    let op = match operator {
        Some(op) => op,
        None => {
            return Answer::NoProblem;
        },
    };
    let count = problem.len();
    let mut numbers: Vec<i64> = Vec::new();
    for k in 0..count
        invariant
            block == views(problem@),
            count == problem.len(),
            rows >= 1,
            rows == rows_of(block),
            forall|c: int| 0 <= c < problem.len() ==> (#[trigger] problem[c]).len() == rows,
            numbers@ == column_numbers(block, k as nat),
    {
        let col = &problem[count - 1 - k];
        assert(block[count - 1 - k] == col@);
        let mut digits: Vec<u8> = Vec::new();
        for r in 0..(rows - 1)
            invariant
                rows >= 1,
                col.len() == rows,
                digits@ == column_digits(col@, r as nat),
        {
            if col[r] != 32 {
                digits.push(col[r]);
            }
        }
        match parse_i64(digits.as_slice()) {
            Some(n) => {
                numbers.push(n);
            },
            None => {},
        }
    }
    combine(&numbers, op == 42)
}

/// A sum with what one more block comes to.
fn add_block(sum: Option<i64>, answer: Answer) -> (r: Option<i64>)
    ensures
        (match r {
            Some(v) => Some(v as int),
            None => None,
        }) == with_block(
            match sum {
                Some(v) => Some(v as int),
                None => None,
            },
            answer,
        ),
{
    match (sum, answer) {
        (Some(s), Answer::Value(v)) => s.checked_add(v),
        (Some(s), Answer::NoProblem) => Some(s),
        _ => None,
    }
}

/// The sum with an open block, if there is one.
fn solve_block(sum: Option<i64>, open: &Vec<Vec<u8>>, columnwise: bool) -> (r: Option<i64>)
    requires
        even(views(open@)),
    ensures
        (match r {
            Some(v) => Some(v as int),
            None => None,
        }) == with_block(
            match sum {
                Some(v) => Some(v as int),
                None => None,
            },
            block_answer(views(open@), columnwise),
        ),
{
    let answer = if columnwise {
        solve_problem_part2(open)
    } else {
        solve_problem(open)
    };
    add_block(sum, answer)
}

/// The sum of what all the blocks of the sheet come to; `None` when a block
/// or the sum is more than an `i64` holds.
fn total(input: &[u8], columnwise: bool) -> (r: Option<i64>)
    ensures
        (match r {
            Some(v) => Some(v as int),
            None => None,
        }) == sheet_total(lines_of(input@), columnwise),
{
    let all = lines(input);
    let cols = sheet_columns(&all);
    let ghost texts = lines_of(input@);
    let ghost sheet = views(cols@);
    assert(sheet.len() == cols.len());
    let mut sum: Option<i64> = Some(0);
    let mut open: Vec<Vec<u8>> = Vec::new();
    assert(views(open@) =~= Seq::<Seq<u8>>::empty());
    for k in 0..cols.len()
        invariant
            sheet == views(cols@),
            sheet == columns_of(texts),
            cols.len() == widest(texts, texts.len()),
            swept(sheet, columnwise, k as nat) == ((match sum {
                Some(v) => Some(v as int),
                None => None,
            }), views(open@)),
            forall|c: int| 0 <= c < open.len() ==> (#[trigger] open[c]).len() == texts.len(),
    {
        assert(sheet[k as int] == cols[k as int]@);
        assert(sheet[k as int] == column(texts, k as int));
        let ghost before = views(open@);
        if is_separator(&cols[k]) {
            if open.len() > 0 {
                proof {
                    lemma_even(views(open@), texts.len());
                }
                sum = solve_block(sum, &open, columnwise);
                open = Vec::new();
                assert(views(open@) =~= Seq::<Seq<u8>>::empty());
            }
        } else {
            open.push(cols[k].clone());
            proof {
                assert(open[open.len() - 1]@ == cols[k as int]@);
                assert(views(open@) =~= before.push(sheet[k as int]));
            }
        }
    }
    if open.len() > 0 {
        proof {
            lemma_even(views(open@), texts.len());
        }
        sum = solve_block(sum, &open, columnwise);
    }
    sum
}

/// Columns that all have `n` rows form an even block.
proof fn lemma_even(block: Seq<Seq<u8>>, n: nat)
    requires
        forall|c: int| 0 <= c < block.len() ==> (#[trigger] block[c]).len() == n,
    ensures
        even(block),
{
    if block.len() > 0 {
        assert(block[0].len() == n);
    }
}

/// The sum over the problems of the sheet in `input`, each read row by row;
/// `None` when a problem or the sum is more than an `i64` holds.
pub fn parse_and_solve(input: &str) -> (r: Option<i64>)
    ensures
        (match r {
            Some(v) => Some(v as int),
            None => None,
        }) == sheet_total(lines_of(input.spec_bytes()), false),
{
    total(input.as_bytes(), false)
}

/// The sum over the problems of the sheet in `input`, each read row by row;
/// `None` when a problem or the sum is more than an `i64` holds.
pub fn part1(input: &str) -> (r: Option<i64>)
    ensures
        (match r {
            Some(v) => Some(v as int),
            None => None,
        }) == sheet_total(lines_of(input.spec_bytes()), false),
{
    parse_and_solve(input)
}

/// The sum over the problems of the sheet in `input`, each read column by
/// column from right to left; `None` when a problem or the sum is more than
/// an `i64` holds.
pub fn part2(input: &str) -> (r: Option<i64>)
    ensures
        (match r {
            Some(v) => Some(v as int),
            None => None,
        }) == sheet_total(lines_of(input.spec_bytes()), true),
{
    total(input.as_bytes(), true)
}

} // verus!
