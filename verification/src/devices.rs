//! Devices and their outputs: in how many ways a signal can travel from one
//! device to another, perhaps by way of some devices that it must visit.

use crate::text::{ lines, lines_of, split_any, split_at_byte, split_where, trim, trimmed, views};
use vstd::prelude::*;
use vstd::string::StringSliceAdditionalSpecFns;

verus! {

/// The devices in the order of their lines, each with the names of the
/// devices that its outputs lead to. Where a name has several lines, the last
/// one counts.
#[derive(Debug)]
pub struct Graph {
    pub names: Vec<Vec<u8>>,
    pub outputs: Vec<Vec<Vec<u8>>>,
}

// ---------------------------------------------------------------------------
// Stated mathematically
// ---------------------------------------------------------------------------

/// The place of the last of the first `k` names that is `name`.
pub open spec fn last_place(names: Seq<Seq<u8>>, name: Seq<u8>, k: nat) -> Option<int>
    decreases k,
{
    if k == 0 {
        None
    } else if names[k - 1] == name {
        Some(k - 1)
    } else {
        last_place(names, name, (k - 1) as nat)
    }
}

/// The wiring of the devices: their names in the order of their lines, and
/// for each the names of the devices that its outputs lead to.
pub struct Wiring {
    pub names: Seq<Seq<u8>>,
    pub outputs: Seq<Seq<Seq<u8>>>,
}

impl Wiring {
    /// The outputs of the device called `name`: none if there is no such
    /// device. Where a name has several lines, the last one counts.
    pub open spec fn outputs_of(self, name: Seq<u8>) -> Seq<Seq<u8>> {
        match last_place(self.names, name, self.names.len()) {
            Some(i) => self.outputs[i],
            None => Seq::<Seq<u8>>::empty(),
        }
    }
}

impl Graph {
    /// One list of outputs for each name.
    pub open spec fn wf(&self) -> bool {
        self.names.len() == self.outputs.len()
    }

    /// The wiring that the graph holds.
    pub open spec fn wiring(&self) -> Wiring {
        Wiring {
            names: views(self.names@),
            outputs: Seq::new(self.outputs.len() as nat, |i: int| views(self.outputs[i]@)),
        }
    }

    /// The names of the devices.
    pub open spec fn device_names(&self) -> Seq<Seq<u8>> {
        views(self.names@)
    }

    /// The outputs of the device called `name`: none if there is no such
    /// device.
    pub open spec fn outputs_of(&self, name: Seq<u8>) -> Seq<Seq<u8>> {
        self.wiring().outputs_of(name)
    }
}

/// The bit of the `i`-th required device.
pub open spec fn bit(i: nat) -> u8 {
    if i == 0 {
        1
    } else if i == 1 {
        2
    } else if i == 2 {
        4
    } else if i == 3 {
        8
    } else if i == 4 {
        16
    } else if i == 5 {
        32
    } else if i == 6 {
        64
    } else {
        128
    }
}

/// `mask` with the bits of those of the first `k` required devices that are
/// called `name`.
pub open spec fn marked(required: Seq<Seq<u8>>, name: Seq<u8>, mask: u8, k: nat) -> u8
    decreases k,
{
    if k == 0 {
        mask
    } else {
        let before = marked(required, name, mask, (k - 1) as nat);
        if required[k - 1] == name {
            before | bit((k - 1) as nat)
        } else {
            before
        }
    }
}

/// The mask with the bits of the first `k` required devices.
pub open spec fn full_mask(k: nat) -> u8
    decreases k,
{
    if k == 0 {
        0
    } else {
        full_mask((k - 1) as nat) | bit((k - 1) as nat)
    }
}

/// In how many ways the signal can go on from `current`, having visited the
/// required devices that `mask` marks, and reach `target` with every required
/// device visited, in at most `fuel` steps and without passing `target` on
/// the way.
pub open spec fn ways_from(
    graph: Wiring,
    current: Seq<u8>,
    target: Seq<u8>,
    required: Seq<Seq<u8>>,
    mask: u8,
    fuel: nat,
) -> nat
    decreases fuel, 1nat, 0nat,
{
    if current == target {
        if mask == full_mask(required.len()) {
            1
        } else {
            0
        }
    } else if fuel == 0 {
        0
    } else {
        ways_through(
            graph,
            current,
            target,
            required,
            mask,
            fuel,
            graph.outputs_of(current).len(),
        )
    }
}

/// The ways that take one of the first `k` outputs of `current` first.
pub open spec fn ways_through(
    graph: Wiring,
    current: Seq<u8>,
    target: Seq<u8>,
    required: Seq<Seq<u8>>,
    mask: u8,
    fuel: nat,
    k: nat,
) -> nat
    decreases fuel, 0nat, k,
{
    if k == 0 || fuel == 0 {
        0
    } else {
        let next = graph.outputs_of(current)[k - 1];
        ways_through(graph, current, target, required, mask, fuel, (k - 1) as nat) + ways_from(
            graph,
            next,
            target,
            required,
            marked(required, next, mask, required.len()),
            (fuel - 1) as nat,
        )
    }
}

/// `n`, or the greatest `usize` if `n` is more than that.
pub open spec fn capped(n: nat) -> usize {
    if n >= usize::MAX {
        usize::MAX
    } else {
        n as usize
    }
}

// ---------------------------------------------------------------------------
// The text
// ---------------------------------------------------------------------------

/// The bytes that part words.
pub open spec fn blanks() -> Seq<u8> {
    seq![9u8, 10u8, 11u8, 12u8, 13u8, 32u8]
}

/// Those of the first `k` pieces that are not empty.
pub open spec fn filled(pieces: Seq<Seq<u8>>, k: nat) -> Seq<Seq<u8>>
    decreases k,
{
    if k == 0 {
        Seq::<Seq<u8>>::empty()
    } else {
        let before = filled(pieces, (k - 1) as nat);
        if pieces[k - 1].len() > 0 {
            before.push(pieces[k - 1])
        } else {
            before
        }
    }
}

/// The words of `s`: what stands between blanks.
pub open spec fn words_of(s: Seq<u8>) -> Seq<Seq<u8>> {
    let pieces = split_where(s, blanks());
    filled(pieces, pieces.len())
}

/// The line names a device: it holds more than blanks and exactly one colon.
pub open spec fn is_device_line(line: Seq<u8>) -> bool {
    trimmed(line).len() > 0 && split_where(line, seq![58u8]).len() == 2
}

/// The names of the devices on the first `k` lines.
pub open spec fn line_names(all: Seq<Seq<u8>>, k: nat) -> Seq<Seq<u8>>
    decreases k,
{
    if k == 0 {
        Seq::<Seq<u8>>::empty()
    } else {
        let before = line_names(all, (k - 1) as nat);
        if is_device_line(all[k - 1]) {
            before.push(trimmed(split_where(all[k - 1], seq![58u8])[0]))
        } else {
            before
        }
    }
}

/// The outputs of the devices on the first `k` lines.
pub open spec fn line_outputs(all: Seq<Seq<u8>>, k: nat) -> Seq<Seq<Seq<u8>>>
    decreases k,
{
    if k == 0 {
        Seq::<Seq<Seq<u8>>>::empty()
    } else {
        let before = line_outputs(all, (k - 1) as nat);
        if is_device_line(all[k - 1]) {
            before.push(words_of(split_where(all[k - 1], seq![58u8])[1]))
        } else {
            before
        }
    }
}

/// The wiring that the lines describe, one device to a line: a name, a
/// colon, and the names that the outputs lead to.
pub open spec fn wiring_of(all: Seq<Seq<u8>>) -> Wiring {
    Wiring { names: line_names(all, all.len()), outputs: line_outputs(all, all.len()) }
}

/// In how many ways the signal can go from `from` to `to` through the
/// devices that the lines describe, by way of every required device, in at
/// most as many steps as there are devices.
pub open spec fn paths(
    all: Seq<Seq<u8>>,
    from: Seq<u8>,
    to: Seq<u8>,
    required: Seq<Seq<u8>>,
) -> nat {
    ways_from(wiring_of(all), from, to, required, 0, wiring_of(all).names.len())
}

/// The words of `s`.
pub fn words(s: &[u8]) -> (found: Vec<Vec<u8>>)
    ensures
        views(found@) == words_of(s@),
{
    let seps = [9u8, 10u8, 11u8, 12u8, 13u8, 32u8];
    assert(seps@ =~= blanks());
    let pieces = split_any(s, &seps);
    let mut found: Vec<Vec<u8>> = Vec::new();
    for k in 0..pieces.len()
        invariant
            views(pieces@) == split_where(s@, blanks()),
            views(found@) == filled(views(pieces@), k as nat),
    {
        assert(views(pieces@)[k as int] == pieces[k as int]@);
        let ghost before = views(found@);
        if pieces[k].len() > 0 {
            found.push(pieces[k].clone());
            proof {
                assert(found[found.len() - 1]@ == pieces[k as int]@);
                assert(views(found@) =~= before.push(pieces[k as int]@));
            }
        }
    }
    found
}

/// The devices in `input`, one to a line: a name, a colon, and the names that
/// the outputs lead to. Lines that hold only blanks, or not exactly one
/// colon, are passed over.
pub fn parse_graph(input: &str) -> (graph: Graph)
    ensures
        graph.wf(),
        graph.wiring() == wiring_of(lines_of(input.spec_bytes())),
{
    let all = lines(input.as_bytes());
    let ghost texts = lines_of(input.spec_bytes());
    let mut names: Vec<Vec<u8>> = Vec::new();
    let mut outputs: Vec<Vec<Vec<u8>>> = Vec::new();
    assert(views(names@) =~= line_names(texts, 0));
    for k in 0..all.len()
        invariant
            views(all@) == texts,
            names.len() == outputs.len(),
            views(names@) == line_names(texts, k as nat),
            line_outputs(texts, k as nat).len() == outputs.len(),
            forall|i: int|
                0 <= i < outputs.len() ==> views((#[trigger] outputs[i])@) == line_outputs(
                    texts,
                    k as nat,
                )[i],
    {
        assert(texts[k as int] == all[k as int]@);
        let line = &all[k];
        let ghost before = views(names@);
        if trim(line.as_slice()).len() > 0 {
            let parts = split_at_byte(line.as_slice(), 58);
            if parts.len() == 2 {
                assert(views(parts@)[0] == parts[0]@);
                assert(views(parts@)[1] == parts[1]@);
                names.push(trim(parts[0].as_slice()));
                outputs.push(words(parts[1].as_slice()));
                proof {
                    assert(views(names@) =~= before.push(names[names.len() - 1]@));
                }
            }
        }
    }
    let graph = Graph { names, outputs };
    proof {
        let wanted = wiring_of(texts);
        assert(graph.wiring().names == wanted.names);
        assert(graph.wiring().outputs =~= wanted.outputs);
    }
    graph
}

// ---------------------------------------------------------------------------
// Counting
// ---------------------------------------------------------------------------

/// Whether two names are the same.
pub fn same_name(a: &[u8], b: &[u8]) -> (same: bool)
    ensures
        same == (a@ == b@),
{
    if a.len() != b.len() {
        return false;
    }
    for i in 0..a.len()
        invariant
            a.len() == b.len(),
            forall|j: int| 0 <= j < i ==> a@[j] == b@[j],
    {
        if a[i] != b[i] {
            return false;
        }
    }
    assert(a@ =~= b@);
    true
}

impl Graph {
    /// The place of the device called `name`.
    pub fn place_of(&self, name: &[u8]) -> (place: Option<usize>)
        ensures
            (match place {
                Some(i) => Some(i as int),
                None => None,
            }) == last_place(self.device_names(), name@, self.names.len() as nat),
            place matches Some(i) ==> i < self.names.len(),
    {
        let mut k = self.names.len();
        while k > 0
            invariant
                k <= self.names.len(),
                last_place(self.device_names(), name@, self.names.len() as nat) == last_place(
                    self.device_names(),
                    name@,
                    k as nat,
                ),
            decreases k,
        {
            assert(self.device_names()[k - 1] == self.names[k - 1]@);
            if same_name(self.names[k - 1].as_slice(), name) {
                return Some(k - 1);
            }
            k -= 1;
        }
        None
    }
}

impl Graph {
    /// The outputs of the device called `name`, if there is such a device.
    pub fn get(&self, name: &str) -> (found: Option<&Vec<Vec<u8>>>)
        requires
            self.wf(),
        ensures
            found.is_some() == last_place(
                self.device_names(),
                name.spec_bytes(),
                self.names.len() as nat,
            ).is_some(),
            found matches Some(outs) ==> views(outs@) == self.outputs_of(name.spec_bytes()),
    {
        match self.place_of(name.as_bytes()) {
            Some(i) => Some(&self.outputs[i]),
            None => None,
        }
    }
}

/// The bit of the `i`-th required device.
fn bit_of(i: usize) -> (b: u8)
    requires
        i < 8,
    ensures
        b == bit(i as nat),
{
    if i == 0 {
        1
    } else if i == 1 {
        2
    } else if i == 2 {
        4
    } else if i == 3 {
        8
    } else if i == 4 {
        16
    } else if i == 5 {
        32
    } else if i == 6 {
        64
    } else {
        128
    }
}

/// `mask` with the bits of the required devices that are called `name`.
fn mark(required: &Vec<Vec<u8>>, name: &[u8], mask: u8) -> (new_mask: u8)
    requires
        required.len() <= 8,
    ensures
        new_mask == marked(views(required@), name@, mask, required.len() as nat),
{
    let mut new_mask = mask;
    for i in 0..required.len()
        invariant
            required.len() <= 8,
            new_mask == marked(views(required@), name@, mask, i as nat),
    {
        assert(views(required@)[i as int] == required[i as int]@);
        if same_name(required[i].as_slice(), name) {
            new_mask = new_mask | bit_of(i);
        }
    }
    new_mask
}

/// The mask with the bits of the first `k` required devices.
fn all_required(k: usize) -> (mask: u8)
    requires
        k <= 8,
    ensures
        mask == full_mask(k as nat),
{
    let mut mask: u8 = 0;
    for i in 0..k
        invariant
            k <= 8,
            mask == full_mask(i as nat),
    {
        mask = mask | bit_of(i);
    }
    mask
}

/// The sum of two counts, or the greatest `usize` if that is less.
fn capped_sum(a: usize, b: usize) -> (s: usize)
    ensures
        s == if a + b >= usize::MAX {
            usize::MAX
        } else {
            (a + b) as usize
        },
{
    if a > usize::MAX - b {
        usize::MAX
    } else {
        a + b
    }
}

/// The counts that were found, by the fuel that is left, the place of the
/// device and the mask.
pub struct Memo {
    pub known: Vec<Vec<Vec<Option<usize>>>>,
}

impl Memo {
    /// Every count that is kept is the right one for `graph`, `target` and
    /// `required`.
    pub open spec fn ok(
        &self,
        graph: Graph,
        target: Seq<u8>,
        required: Seq<Seq<u8>>,
    ) -> bool {
        forall|f: int, i: int, m: int|
            0 <= f < self.known.len() && 0 <= i < self.known[f].len() && 0 <= m
                < self.known[f][i].len() ==> match #[trigger] self.known[f][i][m] {
                Some(n) => i < graph.names.len() && m <= u8::MAX && n == capped(
                    ways_from(
                        graph.wiring(),
                        graph.device_names()[i],
                        target,
                        required,
                        m as u8,
                        f as nat,
                    ),
                ),
                None => true,
            }
    }

    /// The table has a place for each of `fuel` numbers of steps, `devices`
    /// devices and `masks` masks, and holds no count.
    pub open spec fn is_blank(&self, fuel: nat, devices: nat, masks: nat) -> bool {
        &&& self.known.len() == fuel
        &&& forall|f: int| 0 <= f < fuel ==> (#[trigger] self.known[f]).len() == devices
        &&& forall|f: int, i: int|
            0 <= f < fuel && 0 <= i < devices ==> (#[trigger] self.known[f][i]).len() == masks
        &&& forall|f: int, i: int, m: int|
            0 <= f < fuel && 0 <= i < devices && 0 <= m < masks ==> (
            #[trigger] self.known[f][i][m]).is_none()
    }

    /// A table without counts, for `fuel` steps, `devices` devices and masks
    /// below `masks`. As it holds no count, every count that it holds is
    /// right, whatever the graph.
    pub fn new(fuel: usize, devices: usize, masks: usize) -> (memo: Memo)
        ensures
            memo.is_blank(fuel as nat, devices as nat, masks as nat),
            forall|graph: Graph, target: Seq<u8>, required: Seq<Seq<u8>>|
                memo.ok(graph, target, required),
    {
        let mut known: Vec<Vec<Vec<Option<usize>>>> = Vec::new();
        for f in 0..fuel
            invariant
                known.len() == f,
                forall|a: int| 0 <= a < f ==> (#[trigger] known[a]).len() == devices,
                forall|a: int, b: int|
                    0 <= a < f && 0 <= b < devices ==> (#[trigger] known[a][b]).len() == masks,
                forall|a: int, b: int, c: int|
                    0 <= a < f && 0 <= b < devices && 0 <= c < masks ==> (
                    #[trigger] known[a][b][c]).is_none(),
        {
            let mut level: Vec<Vec<Option<usize>>> = Vec::new();
            for i in 0..devices
                invariant
                    level.len() == i,
                    forall|b: int| 0 <= b < i ==> (#[trigger] level[b]).len() == masks,
                    forall|b: int, c: int|
                        0 <= b < i && 0 <= c < masks ==> (#[trigger] level[b][c]).is_none(),
            {
                let mut row: Vec<Option<usize>> = Vec::new();
                for m in 0..masks
                    invariant
                        row.len() == m,
                        forall|c: int| 0 <= c < m ==> (#[trigger] row[c]).is_none(),
                {
                    row.push(None);
                }
                level.push(row);
            }
            known.push(level);
        }
        Memo { known }
    }
}

/// In how many ways the signal can go on from `current` and reach `target`
/// with every required device visited, in at most `fuel` steps; the greatest
/// `usize` stands for that many or more. Counts that were found are kept in
/// `memo`.
pub fn count_paths_memo(
    graph: &Graph,
    current: &[u8],
    target: &[u8],
    required: &Vec<Vec<u8>>,
    visited_mask: u8,
    fuel: usize,
    memo: &mut Memo,
) -> (count: usize)
    requires
        graph.wf(),
        required.len() <= 8,
        old(memo).ok(*graph, target@, views(required@)),
    ensures
        final(memo).ok(*graph, target@, views(required@)),
        count == capped(
            ways_from(
                graph.wiring(),
                current@,
                target@,
                views(required@),
                visited_mask,
                fuel as nat,
            ),
        ),
    decreases fuel,
{
    let ghost req = views(required@);
    if same_name(current, target) {
        return if visited_mask == all_required(required.len()) {
            1
        } else {
            0
        };
    }
    if fuel == 0 {
        return 0;
    }
    let place = match graph.place_of(current) {
        Some(place) => place,
        None => {
            return 0;
        },
    };
    assert(graph.device_names()[place as int] == current@) by {
        lemma_last_place(graph.device_names(), current@, graph.names.len() as nat);
    }
    let mask_at = visited_mask as usize;
    if fuel < memo.known.len() && place < memo.known[fuel].len() && mask_at
        < memo.known[fuel][place].len() {
        match memo.known[fuel][place][mask_at] {
            Some(known) => {
                return known;
            },
            None => {},
        }
    }
    let outs = &graph.outputs[place];
    assert(graph.outputs_of(current@) == views(outs@));
    let mut total: usize = 0;
    for k in 0..outs.len()
        invariant
            graph.wf(),
            required.len() <= 8,
            req == views(required@),
            fuel > 0,
            memo.ok(*graph, target@, req),
            graph.outputs_of(current@) == views(outs@),
            total == capped(
                ways_through(
                    graph.wiring(),
                    current@,
                    target@,
                    req,
                    visited_mask,
                    fuel as nat,
                    k as nat,
                ),
            ),
    {
        assert(views(outs@)[k as int] == outs[k as int]@);
        let next = outs[k].as_slice();
        let new_mask = mark(required, next, visited_mask);
        let onward = count_paths_memo(graph, next, target, required, new_mask, fuel - 1, memo);
        total = capped_sum(total, onward);
    }
    if fuel < memo.known.len() && place < memo.known[fuel].len() && mask_at
        < memo.known[fuel][place].len() {
        let ghost before = memo.known;
        memo.known[fuel][place][mask_at] = Some(total);
        proof {
            assert forall|f: int, i: int, m: int|
                0 <= f < memo.known.len() && 0 <= i < memo.known[f].len() && 0 <= m
                    < memo.known[f][i].len() implies match #[trigger] memo.known[f][i][m] {
                Some(n) => i < graph.names.len() && m <= u8::MAX && n == capped(
                    ways_from(
                        graph.wiring(),
                        graph.device_names()[i],
                        target@,
                        req,
                        m as u8,
                        f as nat,
                    ),
                ),
                None => true,
            } by {
                if f != fuel || i != place || m != mask_at {
                    assert(memo.known[f][i][m] == before[f][i][m]);
                }
            }
        }
    }
    total
}

/// The place that `last_place` finds holds the name.
proof fn lemma_last_place(names: Seq<Seq<u8>>, name: Seq<u8>, k: nat)
    requires
        k <= names.len(),
    ensures
        last_place(names, name, k) matches Some(i) ==> 0 <= i < k && names[i] == name,
    decreases k,
{
    if k > 0 && names[k - 1] != name {
        lemma_last_place(names, name, (k - 1) as nat);
    }
}

/// In how many ways the signal can go from `from` to `to` by way of every
/// required device, in at most as many steps as there are devices; `None`
/// when the count is not less than the greatest `usize`.
pub fn count_ways(graph: &Graph, from: &[u8], to: &[u8], required: &Vec<Vec<u8>>) -> (r: Option<
    usize,
>)
    requires
        graph.wf(),
        required.len() <= 7,
    ensures
        r.is_some() <==> ways_from(
            graph.wiring(),
            from@,
            to@,
            views(required@),
            0,
            graph.names.len() as nat,
        ) < usize::MAX,
        r matches Some(n) ==> n == ways_from(
            graph.wiring(),
            from@,
            to@,
            views(required@),
            0,
            graph.names.len() as nat,
        ),
{
    let fuel = graph.names.len();
    let masks: usize = if required.len() == 0 {
        1
    } else if required.len() == 1 {
        2
    } else if required.len() == 2 {
        4
    } else if required.len() == 3 {
        8
    } else if required.len() == 4 {
        16
    } else if required.len() == 5 {
        32
    } else if required.len() == 6 {
        64
    } else {
        128
    };
    let levels = if fuel < usize::MAX {
        fuel + 1
    } else {
        fuel
    };
    let mut memo = Memo::new(levels, graph.names.len(), masks);
    let count = count_paths_memo(graph, from, to, required, 0, fuel, &mut memo);
    if count == usize::MAX {
        None
    } else {
        Some(count)
    }
}

/// In how many ways the signal can go from `you` to `out` through the
/// devices in `input`; `None` when the count is not less than the greatest
/// `usize`.
pub fn part1(input: &str) -> (r: Option<usize>)
    ensures
        r.is_some() <==> paths(
            lines_of(input.spec_bytes()),
            seq![121u8, 111u8, 117u8],
            seq![111u8, 117u8, 116u8],
            Seq::<Seq<u8>>::empty(),
        ) < usize::MAX,
        r matches Some(n) ==> n == paths(
            lines_of(input.spec_bytes()),
            seq![121u8, 111u8, 117u8],
            seq![111u8, 117u8, 116u8],
            Seq::<Seq<u8>>::empty(),
        ),
{
    let graph = parse_graph(input);
    let from = [121u8, 111u8, 117u8];
    let to = [111u8, 117u8, 116u8];
    let required: Vec<Vec<u8>> = Vec::new();
    assert(from@ =~= seq![121u8, 111u8, 117u8]);
    assert(to@ =~= seq![111u8, 117u8, 116u8]);
    assert(views(required@) =~= Seq::<Seq<u8>>::empty());
    count_ways(&graph, &from, &to, &required)
}

/// In how many ways the signal can go from `svr` to `out` through the
/// devices in `input` by way of both `dac` and `fft`; `None` when the count
/// is not less than the greatest `usize`.
pub fn part2(input: &str) -> (r: Option<usize>)
    ensures
        r.is_some() <==> paths(
            lines_of(input.spec_bytes()),
            seq![115u8, 118u8, 114u8],
            seq![111u8, 117u8, 116u8],
            seq![seq![100u8, 97u8, 99u8], seq![102u8, 102u8, 116u8]],
        ) < usize::MAX,
        r matches Some(n) ==> n == paths(
            lines_of(input.spec_bytes()),
            seq![115u8, 118u8, 114u8],
            seq![111u8, 117u8, 116u8],
            seq![seq![100u8, 97u8, 99u8], seq![102u8, 102u8, 116u8]],
        ),
{
    let graph = parse_graph(input);
    let from = [115u8, 118u8, 114u8];
    let to = [111u8, 117u8, 116u8];
    let mut required: Vec<Vec<u8>> = Vec::new();
    let mut dac: Vec<u8> = Vec::new();
    dac.push(100);
    dac.push(97);
    dac.push(99);
    let mut fft: Vec<u8> = Vec::new();
    fft.push(102);
    fft.push(102);
    fft.push(116);
    required.push(dac);
    required.push(fft);
    assert(from@ =~= seq![115u8, 118u8, 114u8]);
    assert(to@ =~= seq![111u8, 117u8, 116u8]);
    assert(required[0]@ =~= seq![100u8, 97u8, 99u8]);
    assert(required[1]@ =~= seq![102u8, 102u8, 116u8]);
    assert(views(required@) =~= seq![seq![100u8, 97u8, 99u8], seq![102u8, 102u8, 116u8]]);
    count_ways(&graph, &from, &to, &required)
}

} // verus!
