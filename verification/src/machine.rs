//! A button-press machine and the tagged result of solving one.

use crate::counters::{counters_feasible, is_least_total, lemma_least_total_unique, solve_joltage};
use crate::lights::{
    is_least_presses,
    lemma_least_presses_unique,
    lights_feasible,
    solve_machine,
};
use crate::rational::ArithError;
use crate::text::{
    lines,
    lines_of,
    parse_i64,
    parse_usize,
    signed_of,
    split_any,
    split_at_byte,
    split_where,
    trim,
    trimmed,
    unsigned_of,
    views,
};
use vstd::prelude::*;
use vstd::string::StringSliceAdditionalSpecFns;

verus! {

/// One puzzle instance: indicator lights with their buttons as bit vectors,
/// and counters with their buttons as lists of counter indices.
#[derive(Debug, Clone)]
pub struct Machine {
    /// Required state of each indicator light.
    pub target: Vec<bool>,
    /// For each button, which lights it toggles.
    pub buttons: Vec<Vec<bool>>,
    /// For each button, the counters it increments by one.
    pub button_indices: Vec<Vec<usize>>,
    /// Required value of each counter.
    pub targets: Vec<i64>,
}

/// What a solver reports for one instance.
#[derive(Debug, Clone, Copy, PartialEq, Eq)]
pub enum Outcome<C> {
    /// The least number of button presses that reaches the target.
    Cost(C),
    /// No combination of presses reaches the target.
    Infeasible,
}

impl Machine {
    /// The light buttons as a sequence of bit vectors.
    pub open spec fn light_buttons(&self) -> Seq<Seq<bool>> {
        Seq::new(self.buttons.len() as nat, |j: int| self.buttons[j]@)
    }

    /// The counter buttons as a sequence of index lists.
    pub open spec fn counter_buttons(&self) -> Seq<Seq<usize>> {
        Seq::new(self.button_indices.len() as nat, |j: int| self.button_indices[j]@)
    }

    /// The counter targets as mathematical integers.
    pub open spec fn counter_targets(&self) -> Seq<int> {
        Seq::new(self.targets.len() as nat, |i: int| self.targets[i] as int)
    }

    /// Every light button is a bit vector over exactly the lights of the target.
    pub open spec fn lights_well_formed(&self) -> bool {
        forall|j: int|
            0 <= j < self.buttons.len() ==> (#[trigger] self.buttons[j]).len()
                == self.target.len()
    }
}

// ---------------------------------------------------------------------------
// The text of a machine
// ---------------------------------------------------------------------------
//
// A line reads `[.##.] (3) (1,3) {3,5,4,7}`: the lights between square
// brackets, `#` for lit; then one group in parentheses for each button, the
// indices of what it acts on; then the counter targets between braces.

/// The four bracket bytes that part a line into its fields.
pub open spec fn brackets() -> Seq<u8> {
    seq![91u8, 93u8, 123u8, 125u8]
}

/// Those of the first `k` parts that hold more than blanks.
pub open spec fn non_blank(parts: Seq<Seq<u8>>, k: nat) -> Seq<Seq<u8>>
    decreases k,
{
    if k == 0 {
        Seq::<Seq<u8>>::empty()
    } else {
        let before = non_blank(parts, (k - 1) as nat);
        if trimmed(parts[k - 1]).len() > 0 {
            before.push(parts[k - 1])
        } else {
            before
        }
    }
}

/// The fields of a line: what stands between brackets, blanks left out.
pub open spec fn fields(line: Seq<u8>) -> Seq<Seq<u8>> {
    let parts = split_where(line, brackets());
    non_blank(parts, parts.len())
}

/// The `i`-th field without blanks around it, or nothing if the line has no
/// such field.
pub open spec fn field(line: Seq<u8>, i: int) -> Seq<u8> {
    if 0 <= i < fields(line).len() {
        trimmed(fields(line)[i])
    } else {
        Seq::<u8>::empty()
    }
}

/// The target of the lights: one entry for each byte of the first field,
/// true where the byte is `#`.
pub open spec fn lights_of(line: Seq<u8>) -> Seq<bool> {
    Seq::new(field(line, 0).len(), |i: int| field(line, 0)[i] == 35)
}

/// `s` without the opening parentheses at its start.
pub open spec fn strip_open(s: Seq<u8>) -> Seq<u8>
    decreases s.len(),
{
    if s.len() > 0 && s[0] == 40 {
        strip_open(s.skip(1))
    } else {
        s
    }
}

/// What a piece that ends before a closing parenthesis holds inside.
pub open spec fn group_body(piece: Seq<u8>) -> Seq<u8> {
    trimmed(strip_open(trimmed(piece)))
}

/// The bodies of the first `k` pieces, empty bodies left out.
pub open spec fn bodies(pieces: Seq<Seq<u8>>, k: nat) -> Seq<Seq<u8>>
    decreases k,
{
    if k == 0 {
        Seq::<Seq<u8>>::empty()
    } else {
        let before = bodies(pieces, (k - 1) as nat);
        if group_body(pieces[k - 1]).len() > 0 {
            before.push(group_body(pieces[k - 1]))
        } else {
            before
        }
    }
}

/// The bodies of the button groups of a line.
pub open spec fn groups(line: Seq<u8>) -> Seq<Seq<u8>> {
    let pieces = split_where(field(line, 1), seq![41u8]);
    bodies(pieces, pieces.len())
}

/// The index that `s` spells, if it spells one.
pub open spec fn usize_of(s: Seq<u8>) -> Option<usize> {
    match unsigned_of(s) {
        Some(v) => if v <= usize::MAX {
            Some(v as usize)
        } else {
            None
        },
        None => None,
    }
}

/// The integer that `s` spells, if it spells one.
pub open spec fn i64_of(s: Seq<u8>) -> Option<i64> {
    match signed_of(s) {
        Some(v) => if i64::MIN <= v <= i64::MAX {
            Some(v as i64)
        } else {
            None
        },
        None => None,
    }
}

/// The indices that the first `k` pieces spell; pieces that spell none are
/// left out.
pub open spec fn indices(pieces: Seq<Seq<u8>>, k: nat) -> Seq<usize>
    decreases k,
{
    if k == 0 {
        Seq::<usize>::empty()
    } else {
        let before = indices(pieces, (k - 1) as nat);
        match usize_of(trimmed(pieces[k - 1])) {
            Some(i) => before.push(i),
            None => before,
        }
    }
}

/// The integers that the first `k` pieces spell; pieces that spell none are
/// left out.
pub open spec fn integers(pieces: Seq<Seq<u8>>, k: nat) -> Seq<i64>
    decreases k,
{
    if k == 0 {
        Seq::<i64>::empty()
    } else {
        let before = integers(pieces, (k - 1) as nat);
        match i64_of(trimmed(pieces[k - 1])) {
            Some(i) => before.push(i),
            None => before,
        }
    }
}

/// The indices in a list separated by commas.
pub open spec fn index_list(body: Seq<u8>) -> Seq<usize> {
    let pieces = split_where(body, seq![44u8]);
    indices(pieces, pieces.len())
}

/// The integers in a list separated by commas.
pub open spec fn integer_list(body: Seq<u8>) -> Seq<i64> {
    let pieces = split_where(body, seq![44u8]);
    integers(pieces, pieces.len())
}

/// The buttons of a line, each as the list of indices in its group.
pub open spec fn buttons_of(line: Seq<u8>) -> Seq<Seq<usize>> {
    Seq::new(groups(line).len(), |j: int| index_list(groups(line)[j]))
}

/// A list of indices as a bit vector of length `n`.
pub open spec fn mask_of(list: Seq<usize>, n: nat) -> Seq<bool> {
    Seq::new(n, |i: int| list.contains(i as usize))
}

/// The buttons of a line, each as a bit vector over the lights.
pub open spec fn masks_of(line: Seq<u8>) -> Seq<Seq<bool>> {
    Seq::new(
        groups(line).len(),
        |j: int| mask_of(index_list(groups(line)[j]), lights_of(line).len()),
    )
}

/// The counter targets of a line.
pub open spec fn targets_of(line: Seq<u8>) -> Seq<int> {
    Seq::new(
        integer_list(field(line, 2)).len(),
        |i: int| integer_list(field(line, 2))[i] as int,
    )
}

/// Those parts that hold more than blanks.
fn keep_non_blank(parts: Vec<Vec<u8>>) -> (kept: Vec<Vec<u8>>)
    ensures
        views(kept@) == non_blank(views(parts@), parts.len() as nat),
{
    let mut kept: Vec<Vec<u8>> = Vec::new();
    for i in 0..parts.len()
        invariant
            views(kept@) == non_blank(views(parts@), i as nat),
    {
        let ghost before = views(kept@);
        if trim(parts[i].as_slice()).len() > 0 {
            kept.push(parts[i].clone());
            proof {
                assert(kept[kept.len() - 1]@ == parts[i as int]@);
                assert(views(kept@) =~= before.push(parts[i as int]@));
            }
        }
        proof {
            assert(views(parts@)[i as int] == parts[i as int]@);
        }
    }
    kept
}

/// `s` without the opening parentheses at its start.
fn without_open(s: &[u8]) -> (t: Vec<u8>)
    ensures
        t@ == strip_open(s@),
{
    let mut start: usize = 0;
    proof {
        assert(s@.skip(0) =~= s@);
    }
    while start < s.len() && s[start] == 40
        invariant
            start <= s.len(),
            strip_open(s@) == strip_open(s@.skip(start as int)),
        decreases s.len() - start,
    {
        proof {
            assert(s@.skip(start as int).skip(1) =~= s@.skip(start + 1));
        }
        start += 1;
    }
    let mut t: Vec<u8> = Vec::new();
    for i in start..s.len()
        invariant
            start <= s.len(),
            t@ == s@.subrange(start as int, i as int),
    {
        t.push(s[i]);
        proof {
            assert(s@.subrange(start as int, i + 1) =~= s@.subrange(start as int, i as int).push(
                s@[i as int],
            ));
        }
    }
    proof {
        assert(s@.subrange(start as int, s.len() as int) =~= s@.skip(start as int));
    }
    t
}

/// The indices in a list separated by commas.
fn read_indices(body: &[u8]) -> (list: Vec<usize>)
    ensures
        list@ == index_list(body@),
{
    let pieces = split_at_byte(body, 44);
    let mut list: Vec<usize> = Vec::new();
    for k in 0..pieces.len()
        invariant
            views(pieces@) == split_where(body@, seq![44u8]),
            list@ == indices(views(pieces@), k as nat),
    {
        proof {
            assert(views(pieces@)[k as int] == pieces[k as int]@);
        }
        let piece = trim(pieces[k].as_slice());
        match parse_usize(piece.as_slice()) {
            Some(i) => {
                list.push(i);
            },
            None => {},
        }
    }
    list
}

/// The integers in a list separated by commas.
fn read_integers(body: &[u8]) -> (list: Vec<i64>)
    ensures
        list@ == integer_list(body@),
{
    let pieces = split_at_byte(body, 44);
    let mut list: Vec<i64> = Vec::new();
    for k in 0..pieces.len()
        invariant
            views(pieces@) == split_where(body@, seq![44u8]),
            list@ == integers(views(pieces@), k as nat),
    {
        proof {
            assert(views(pieces@)[k as int] == pieces[k as int]@);
        }
        let piece = trim(pieces[k].as_slice());
        match parse_i64(piece.as_slice()) {
            Some(i) => {
                list.push(i);
            },
            None => {},
        }
    }
    list
}

/// The bodies of the button groups in the field of the buttons.
fn read_groups(buttons_field: &[u8]) -> (found: Vec<Vec<u8>>)
    ensures
        views(found@) == bodies(
            split_where(buttons_field@, seq![41u8]),
            split_where(buttons_field@, seq![41u8]).len(),
        ),
{
    let pieces = split_at_byte(buttons_field, 41);
    let mut found: Vec<Vec<u8>> = Vec::new();
    for k in 0..pieces.len()
        invariant
            views(pieces@) == split_where(buttons_field@, seq![41u8]),
            views(found@) == bodies(views(pieces@), k as nat),
    {
        proof {
            assert(views(pieces@)[k as int] == pieces[k as int]@);
        }
        let ghost before = views(found@);
        let outer = trim(pieces[k].as_slice());
        let inner = without_open(outer.as_slice());
        let body = trim(inner.as_slice());
        if body.len() > 0 {
            found.push(body);
            proof {
                assert(views(found@) =~= before.push(found[found.len() - 1]@));
            }
        }
    }
    found
}

/// Whether `i` is among the first `k` entries of the list.
pub open spec fn listed(list: Seq<usize>, k: nat, i: int) -> bool
    decreases k,
{
    if k == 0 {
        false
    } else {
        listed(list, (k - 1) as nat, i) || list[k - 1] == i
    }
}

/// To be listed among all the entries is to be contained.
proof fn lemma_listed(list: Seq<usize>, k: nat, i: int)
    requires
        k <= list.len(),
        0 <= i <= usize::MAX,
    ensures
        listed(list, k, i) <==> list.take(k as int).contains(i as usize),
    decreases k,
{
    if k > 0 {
        lemma_listed(list, (k - 1) as nat, i);
        let shorter = list.take(k - 1);
        let longer = list.take(k as int);
        if shorter.contains(i as usize) {
            let w = choose|w: int| 0 <= w < shorter.len() && shorter[w] == i as usize;
            assert(longer[w] == i as usize);
        }
        if list[k - 1] == i {
            assert(longer[k - 1] == i as usize);
        }
        if longer.contains(i as usize) {
            let w = choose|w: int| 0 <= w < longer.len() && longer[w] == i as usize;
            if w < k - 1 {
                assert(shorter[w] == i as usize);
            }
        }
    }
}

/// A list of indices as a bit vector of length `n`.
fn mask(list: &Vec<usize>, n: usize) -> (bits: Vec<bool>)
    ensures
        bits@ == mask_of(list@, n as nat),
{
    let mut bits: Vec<bool> = vec![false; n];
    for k in 0..list.len()
        invariant
            bits.len() == n,
            forall|i: int| 0 <= i < n ==> bits[i] == listed(list@, k as nat, i),
    {
        let idx = list[k];
        if idx < n {
            bits[idx] = true;
        }
    }
    proof {
        assert(list@.take(list.len() as int) =~= list@);
        assert forall|i: int| 0 <= i < n implies bits[i] == list@.contains(i as usize) by {
            lemma_listed(list@, list.len() as nat, i);
        }
        assert(bits@ =~= mask_of(list@, n as nat));
    }
    bits
}

/// Reads one machine from its line of text.
pub fn parse_machine(line: &str) -> (machine: Machine)
    ensures
        machine.lights_well_formed(),
        machine.target@ == lights_of(line.spec_bytes()),
        machine.light_buttons() == masks_of(line.spec_bytes()),
        machine.counter_buttons() == buttons_of(line.spec_bytes()),
        machine.counter_targets() == targets_of(line.spec_bytes()),
{
    machine_from_bytes(line.as_bytes())
}

/// Reads one machine from the bytes of its line.
pub fn machine_from_bytes(bytes: &[u8]) -> (machine: Machine)
    ensures
        machine.lights_well_formed(),
        machine.target@ == lights_of(bytes@),
        machine.light_buttons() == masks_of(bytes@),
        machine.counter_buttons() == buttons_of(bytes@),
        machine.counter_targets() == targets_of(bytes@),
{
    let seps = [91u8, 93u8, 123u8, 125u8];
    assert(seps@ =~= brackets());
    let parts = keep_non_blank(split_any(bytes, &seps));
    proof {
        assert(views(parts@) == fields(bytes@));
        assert forall|i: int| 0 <= i < parts.len() implies field(bytes@, i) == trimmed(
            #[trigger] parts[i]@,
        ) by {
            assert(views(parts@)[i] == parts[i]@);
        }
    }
    let first = if parts.len() > 0 {
        trim(parts[0].as_slice())
    } else {
        Vec::new()
    };
    let second = if parts.len() > 1 {
        trim(parts[1].as_slice())
    } else {
        Vec::new()
    };
    let third = if parts.len() > 2 {
        trim(parts[2].as_slice())
    } else {
        Vec::new()
    };
    assert(first@ == field(bytes@, 0));
    assert(second@ == field(bytes@, 1));
    assert(third@ == field(bytes@, 2));
    let mut target: Vec<bool> = Vec::new();
    for i in 0..first.len()
        invariant
            target.len() == i,
            forall|j: int| 0 <= j < i ==> target[j] == (first[j] == 35),
    {
        target.push(first[i] == 35);
    }
    assert(target@ =~= lights_of(bytes@));
    let found = read_groups(second.as_slice());
    let mut buttons: Vec<Vec<bool>> = Vec::new();
    let mut button_indices: Vec<Vec<usize>> = Vec::new();
    for j in 0..found.len()
        invariant
            views(found@) == groups(bytes@),
            target@ == lights_of(bytes@),
            buttons.len() == j,
            button_indices.len() == j,
            forall|q: int| 0 <= q < j ==> (#[trigger] button_indices[q])@ == index_list(found[q]@),
            forall|q: int|
                0 <= q < j ==> (#[trigger] buttons[q])@ == mask_of(
                    index_list(found[q]@),
                    target.len() as nat,
                ),
    {
        let list = read_indices(found[j].as_slice());
        buttons.push(mask(&list, target.len()));
        button_indices.push(list);
    }
    let targets = read_integers(third.as_slice());
    let machine = Machine { target, buttons, button_indices, targets };
    proof {
        assert forall|q: int| 0 <= q < found.len() implies groups(bytes@)[q] == found[q]@ by {
            assert(views(found@)[q] == found[q]@);
        }
        assert(machine.light_buttons() =~= masks_of(bytes@));
        assert(machine.counter_buttons() =~= buttons_of(bytes@));
        assert(machine.counter_targets() =~= targets_of(bytes@));
    }
    machine
}

// ---------------------------------------------------------------------------
// Many machines
// ---------------------------------------------------------------------------

/// What the lights of one line cost: the least number of presses, or
/// nothing when the target cannot be reached.
pub open spec fn lights_cost(line: Seq<u8>) -> nat {
    if exists|w: nat| is_least_presses(masks_of(line), lights_of(line), w) {
        choose|w: nat| is_least_presses(masks_of(line), lights_of(line), w)
    } else {
        0
    }
}

/// The cost of the lights of the first `k` lines together.
pub open spec fn lights_sum(all: Seq<Seq<u8>>, k: nat) -> nat
    decreases k,
{
    if k == 0 {
        0
    } else {
        lights_sum(all, (k - 1) as nat) + lights_cost(all[k - 1])
    }
}

/// What the counters of one line cost: the least total of presses, or
/// nothing when the targets cannot be reached.
pub open spec fn counters_cost(line: Seq<u8>) -> int {
    if exists|c: int| is_least_total(buttons_of(line), targets_of(line), c) {
        choose|c: int| is_least_total(buttons_of(line), targets_of(line), c)
    } else {
        0
    }
}

/// The cost of the counters of the first `k` lines together.
pub open spec fn counters_sum(all: Seq<Seq<u8>>, k: nat) -> int
    decreases k,
{
    if k == 0 {
        0
    } else {
        counters_sum(all, (k - 1) as nat) + counters_cost(all[k - 1])
    }
}

/// The sum of the costs does not shrink as lines are added.
proof fn lemma_lights_sum_grows(all: Seq<Seq<u8>>, i: nat, k: nat)
    requires
        i <= k,
    ensures
        lights_sum(all, i) <= lights_sum(all, k),
    decreases k,
{
    if i < k {
        lemma_lights_sum_grows(all, i, (k - 1) as nat);
    }
}

/// No line costs less than nothing.
proof fn lemma_counters_cost_non_negative(line: Seq<u8>)
    ensures
        counters_cost(line) >= 0,
{
    if exists|c: int| is_least_total(buttons_of(line), targets_of(line), c) {
        let c = counters_cost(line);
        let y = choose|y: Seq<int>|
            crate::counters::solves_counters(buttons_of(line), targets_of(line), y)
                && crate::counters::total(y) == c;
        crate::counters::lemma_sum_non_negative(y, y.len());
    }
}

/// The sum of the costs does not shrink as lines are added.
proof fn lemma_counters_sum_grows(all: Seq<Seq<u8>>, i: nat, k: nat)
    requires
        i <= k,
    ensures
        counters_sum(all, i) <= counters_sum(all, k),
    decreases k,
{
    if i < k {
        lemma_counters_sum_grows(all, i, (k - 1) as nat);
        lemma_counters_cost_non_negative(all[k - 1]);
    }
}

/// The fewest presses that set the lights of every machine in `input`, one
/// machine to a line, summed over the machines whose lights can be set; a
/// machine whose lights cannot be set adds nothing. `RangeOverflow` when
/// the sum is more than a `usize` holds.
pub fn part1(input: &str) -> (r: Result<usize, ArithError>)
    ensures
        match r {
            Ok(sum) => sum == lights_sum(
                lines_of(input.spec_bytes()),
                lines_of(input.spec_bytes()).len(),
            ),
            Err(e) => e == ArithError::RangeOverflow && lights_sum(
                lines_of(input.spec_bytes()),
                lines_of(input.spec_bytes()).len(),
            ) > usize::MAX,
        },
{
    let all = lines(input.as_bytes());
    let ghost texts = lines_of(input.spec_bytes());
    let mut sum: usize = 0;
    for i in 0..all.len()
        invariant
            views(all@) == texts,
            texts == lines_of(input.spec_bytes()),
            sum == lights_sum(texts, i as nat),
    {
        proof {
            assert(views(all@)[i as int] == all[i as int]@);
        }
        let ghost line = all[i as int]@;
        let machine = machine_from_bytes(all[i].as_slice());
        let cost = match solve_machine(&machine) {
            Outcome::Cost(w) => {
                proof {
                    let w2 = lights_cost(line);
                    lemma_least_presses_unique(masks_of(line), lights_of(line), w as nat, w2);
                }
                w
            },
            Outcome::Infeasible => {
                proof {
                    assert(!lights_feasible(masks_of(line), lights_of(line)));
                }
                0
            },
        };
        assert(cost == lights_cost(line));
        if cost > usize::MAX - sum {
            proof {
                lemma_lights_sum_grows(texts, (i + 1) as nat, texts.len());
            }
            return Err(ArithError::RangeOverflow);
        }
        sum = sum + cost;
    }
    Ok(sum)
}

/// The fewest presses that bring the counters of every machine in `input`
/// to their targets, one machine to a line, summed over the machines whose
/// targets can be reached; a machine whose targets cannot be reached adds
/// nothing. `RangeOverflow` when the sum is more than an `i64` holds.
pub fn part2(input: &str) -> (r: Result<i64, ArithError>)
    ensures
        match r {
            Ok(sum) => sum == counters_sum(
                lines_of(input.spec_bytes()),
                lines_of(input.spec_bytes()).len(),
            ),
            Err(e) => e == ArithError::RangeOverflow && counters_sum(
                lines_of(input.spec_bytes()),
                lines_of(input.spec_bytes()).len(),
            ) > i64::MAX,
        },
{
    let all = lines(input.as_bytes());
    let ghost texts = lines_of(input.spec_bytes());
    let mut sum: i64 = 0;
    for i in 0..all.len()
        invariant
            views(all@) == texts,
            texts == lines_of(input.spec_bytes()),
            sum == counters_sum(texts, i as nat),
            sum >= 0,
    {
        proof {
            assert(views(all@)[i as int] == all[i as int]@);
            lemma_counters_cost_non_negative(texts[i as int]);
            lemma_counters_sum_grows(texts, (i + 1) as nat, texts.len());
        }
        let ghost line = all[i as int]@;
        let machine = machine_from_bytes(all[i].as_slice());
        match solve_joltage(&machine) {
            Ok(Outcome::Cost(c)) => {
                proof {
                    lemma_least_total_unique(
                        buttons_of(line),
                        targets_of(line),
                        c as int,
                        counters_cost(line),
                    );
                }
                if c > i64::MAX - sum {
                    return Err(ArithError::RangeOverflow);
                }
                sum = sum + c;
            },
            Ok(Outcome::Infeasible) => {
                proof {
                    assert(!counters_feasible(buttons_of(line), targets_of(line)));
                }
            },
            Err(e) => {
                proof {
                    let c = choose|c: int|
                        c > i64::MAX && is_least_total(buttons_of(line), targets_of(line), c);
                    lemma_least_total_unique(
                        buttons_of(line),
                        targets_of(line),
                        c,
                        counters_cost(line),
                    );
                }
                return Err(e);
            },
        }
    }
    Ok(sum)
}

} // verus!
