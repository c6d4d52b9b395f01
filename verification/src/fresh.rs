//! Fresh ingredients: an identifier is fresh when one of the given ranges
//! holds it.

use crate::ranges::{parse_range, range_of, u64_of, Range};
use crate::text::{lines, lines_of, parse_u64, trim, trimmed, views};
use vstd::prelude::*;
use vstd::set_lib::{lemma_int_range, lemma_set_disjoint_lens, set_int_range};
use vstd::string::StringSliceAdditionalSpecFns;

verus! {

// ---------------------------------------------------------------------------
// Stated mathematically
// ---------------------------------------------------------------------------

/// One of the first `k` ranges holds `id`.
pub open spec fn covered_by(ranges: Seq<Range>, k: int, id: int) -> bool {
    exists|j: int| 0 <= j < k && j < ranges.len() && (#[trigger] ranges[j]).holds(id)
}

/// One of the ranges holds `id`.
pub open spec fn covered(ranges: Seq<Range>, id: int) -> bool {
    covered_by(ranges, ranges.len() as int, id)
}

/// The identifiers that the first `k` ranges hold.
pub open spec fn cover_set(ranges: Seq<Range>, k: int) -> Set<int> {
    Set::new(|id: int| covered_by(ranges, k, id))
}

/// How many identifiers the ranges hold between them.
pub open spec fn covered_count(ranges: Seq<Range>) -> nat {
    cover_set(ranges, ranges.len() as int).len()
}

/// Every range starts at or before its end.
pub open spec fn proper(ranges: Seq<Range>) -> bool {
    forall|k: int| 0 <= k < ranges.len() ==> (#[trigger] ranges[k]).start <= ranges[k].end
}

/// The ranges are in order, and between any two of them lies an identifier
/// that neither holds.
pub open spec fn apart(ranges: Seq<Range>) -> bool {
    forall|i: int, j: int|
        0 <= i < j < ranges.len() ==> (#[trigger] ranges[i]).end + 1 < (#[trigger] ranges[j]).start
}

/// The ranges are in the order of their starts.
pub open spec fn by_start(ranges: Seq<Range>) -> bool {
    forall|i: int, j: int|
        0 <= i < j < ranges.len() ==> (#[trigger] ranges[i]).start <= (#[trigger] ranges[j]).start
}

/// How many of the first `k` identifiers are covered.
pub open spec fn fresh_count(ranges: Seq<Range>, ids: Seq<u64>, k: nat) -> nat
    decreases k,
{
    if k == 0 {
        0
    } else {
        fresh_count(ranges, ids, (k - 1) as nat) + if covered(ranges, ids[k - 1] as int) {
            1nat
        } else {
            0nat
        }
    }
}

/// The sum of the sizes of the first `k` ranges.
pub open spec fn sizes(ranges: Seq<Range>, k: nat) -> int
    decreases k,
{
    if k == 0 {
        0
    } else {
        sizes(ranges, (k - 1) as nat) + (ranges[k - 1].end - ranges[k - 1].start + 1)
    }
}

/// Ranges that lie apart hold as many identifiers as the sum of their sizes.
proof fn lemma_apart_count(ranges: Seq<Range>, k: nat)
    requires
        proper(ranges),
        apart(ranges),
        k <= ranges.len(),
    ensures
        cover_set(ranges, k as int).finite(),
        cover_set(ranges, k as int).len() == sizes(ranges, k),
    decreases k,
{
    if k == 0 {
        assert(cover_set(ranges, 0) =~= Set::<int>::empty());
    } else {
        lemma_apart_count(ranges, (k - 1) as nat);
        let before = cover_set(ranges, k - 1);
        let last = ranges[k - 1];
        let block = set_int_range(last.start as int, last.end + 1);
        lemma_int_range(last.start as int, last.end + 1);
        assert(before.disjoint(block)) by {
            assert forall|id: int| !(before.contains(id) && block.contains(id)) by {
                if before.contains(id) {
                    let j = choose|j: int|
                        0 <= j < k - 1 && j < ranges.len() && (#[trigger] ranges[j]).holds(id);
                    assert(ranges[j].end + 1 < ranges[k - 1].start);
                }
            }
        }
        lemma_set_disjoint_lens(before, block);
        assert(cover_set(ranges, k as int) =~= before + block) by {
            assert forall|id: int| cover_set(ranges, k as int).contains(id) <==> (before + block).contains(
                id,
            ) by {
                if covered_by(ranges, k as int, id) {
                    let j = choose|j: int|
                        0 <= j < k && j < ranges.len() && (#[trigger] ranges[j]).holds(id);
                    if j < k - 1 {
                        assert(covered_by(ranges, k - 1, id));
                    }
                }
                if before.contains(id) {
                    let j = choose|j: int|
                        0 <= j < k - 1 && j < ranges.len() && (#[trigger] ranges[j]).holds(id);
                    assert(ranges[j].holds(id));
                }
                if block.contains(id) {
                    assert(ranges[k - 1].holds(id));
                }
            }
        }
    }
}

// ---------------------------------------------------------------------------
// Freshness
// ---------------------------------------------------------------------------

/// Whether one of the ranges holds `id`.
pub fn is_fresh(id: u64, ranges: &Vec<Range>) -> (fresh: bool)
    ensures
        fresh == covered(ranges@, id as int),
{
    for k in 0..ranges.len()
        invariant
            !covered_by(ranges@, k as int, id as int),
    {
        if ranges[k].contains(id) {
            assert(ranges@[k as int].holds(id as int));
            return true;
        }
        proof {
            assert forall|j: int| 0 <= j < k + 1 && j < ranges.len() implies !(
            #[trigger] ranges@[j]).holds(id as int) by {
                if j < k {
                    assert(!covered_by(ranges@, k as int, id as int));
                }
            }
        }
    }
    false
}

/// The identifiers that one range holds.
pub open spec fn block(range: Range) -> Set<int> {
    Set::new(|id: int| range.holds(id))
}

/// All the identifiers that the ranges hold.
pub open spec fn cover(ranges: Seq<Range>) -> Set<int> {
    cover_set(ranges, ranges.len() as int)
}

/// One more range adds its identifiers.
proof fn lemma_cover_step(s: Seq<Range>, i: int)
    requires
        0 <= i < s.len(),
    ensures
        cover_set(s, i + 1) == cover_set(s, i) + block(s[i]),
{
    assert forall|id: int| cover_set(s, i + 1).contains(id) <==> (cover_set(s, i) + block(
        s[i],
    )).contains(id) by {
        if covered_by(s, i + 1, id) {
            let j = choose|j: int| 0 <= j < i + 1 && j < s.len() && (#[trigger] s[j]).holds(id);
            if j < i {
                assert(covered_by(s, i, id));
            }
        }
        if covered_by(s, i, id) {
            let j = choose|j: int| 0 <= j < i && j < s.len() && (#[trigger] s[j]).holds(id);
            assert(s[j].holds(id));
        }
        if s[i].holds(id) {
            assert(covered_by(s, i + 1, id));
        }
    }
    assert(cover_set(s, i + 1) =~= cover_set(s, i) + block(s[i]));
}

/// A range put in anywhere adds its identifiers.
proof fn lemma_cover_insert(s: Seq<Range>, p: int, r: Range)
    requires
        0 <= p <= s.len(),
    ensures
        cover(s.insert(p, r)) == cover(s) + block(r),
{
    let t = s.insert(p, r);
    assert forall|id: int| cover(t).contains(id) <==> (cover(s) + block(r)).contains(id) by {
        if cover(t).contains(id) {
            let j = choose|j: int| 0 <= j < t.len() && j < t.len() && (#[trigger] t[j]).holds(id);
            if j < p {
                assert(s[j].holds(id));
            } else if j > p {
                assert(s[j - 1].holds(id));
            }
        }
        if cover(s).contains(id) {
            let j = choose|j: int| 0 <= j < s.len() && j < s.len() && (#[trigger] s[j]).holds(id);
            if j < p {
                assert(t[j].holds(id));
            } else {
                assert(t[j + 1].holds(id));
            }
        }
        if r.holds(id) {
            assert(t[p].holds(id));
        }
    }
    assert(cover(t) =~= cover(s) + block(r));
}

/// A range that takes the place of another adds what it holds beyond the
/// other.
proof fn lemma_cover_widen(s: Seq<Range>, at: int, wider: Range, extra: Range)
    requires
        0 <= at < s.len(),
        block(wider) == block(s[at]) + block(extra),
    ensures
        cover(s.update(at, wider)) == cover(s) + block(extra),
{
    let t = s.update(at, wider);
    assert forall|id: int| cover(t).contains(id) <==> (cover(s) + block(extra)).contains(id) by {
        assert(wider.holds(id) == block(wider).contains(id));
        assert((block(s[at]) + block(extra)).contains(id) == (s[at].holds(id) || extra.holds(
            id,
        )));
        if cover(t).contains(id) {
            let j = choose|j: int| 0 <= j < t.len() && j < t.len() && (#[trigger] t[j]).holds(id);
            if j != at {
                assert(s[j].holds(id));
            } else if s[at].holds(id) {
                assert(s[at].holds(id));
            }
        }
        if cover(s).contains(id) {
            let j = choose|j: int| 0 <= j < s.len() && j < s.len() && (#[trigger] s[j]).holds(id);
            if j != at {
                assert(t[j].holds(id));
            } else {
                assert(t[at].holds(id));
            }
        }
        if extra.holds(id) {
            assert(t[at].holds(id));
        }
    }
    assert(cover(t) =~= cover(s) + block(extra));
}

/// The ranges in the order of their starts.
pub fn sorted_by_start(ranges: &Vec<Range>) -> (out: Vec<Range>)
    ensures
        out.len() == ranges.len(),
        by_start(out@),
        cover(out@) == cover(ranges@),
        proper(ranges@) ==> proper(out@),
{
    let mut out: Vec<Range> = Vec::new();
    proof {
        assert(cover(out@) =~= cover_set(ranges@, 0));
    }
    for i in 0..ranges.len()
        invariant
            out.len() == i,
            by_start(out@),
            cover(out@) == cover_set(ranges@, i as int),
            proper(ranges@) ==> proper(out@),
    {
        let range = ranges[i];
        let mut p: usize = 0;
        while p < out.len() && out[p].start <= range.start
            invariant
                p <= out.len(),
                forall|q: int| 0 <= q < p ==> (#[trigger] out[q]).start <= range.start,
            decreases out.len() - p,
        {
            p += 1;
        }
        let ghost before = out@;
        out.insert(p, range);
        proof {
            let after = out@;
            lemma_cover_insert(before, p as int, range);
            lemma_cover_step(ranges@, i as int);
            assert forall|a: int, b: int| 0 <= a < b < after.len() implies (
            #[trigger] after[a]).start <= (#[trigger] after[b]).start by {
                if b < p {
                    assert(after[a] == before[a] && after[b] == before[b]);
                } else if b == p {
                    assert(after[a] == before[a]);
                } else if a < p {
                    assert(after[a] == before[a] && after[b] == before[b - 1]);
                    assert(before[p as int].start > range.start);
                    if b - 1 > p {
                        assert(before[p as int].start <= before[b - 1].start);
                    }
                } else if a == p {
                    assert(after[b] == before[b - 1]);
                    if b - 1 > p {
                        assert(before[p as int].start <= before[b - 1].start);
                    }
                } else {
                    assert(after[a] == before[a - 1] && after[b] == before[b - 1]);
                    assert(before[a - 1].start <= before[b - 1].start);
                }
            }
            if proper(ranges@) {
                assert forall|k: int| 0 <= k < after.len() implies (#[trigger] after[k]).start
                    <= after[k].end by {
                    if k < p {
                        assert(after[k] == before[k]);
                    } else if k == p {
                        assert(after[k] == ranges@[i as int]);
                    } else {
                        assert(after[k] == before[k - 1]);
                    }
                }
            }
        }
    }
    out
}

/// The fewest ranges that hold the same identifiers: in order, and no two of
/// them touching or overlapping.
pub fn merge_ranges(ranges: &Vec<Range>) -> (merged: Vec<Range>)
    requires
        proper(ranges@),
    ensures
        proper(merged@),
        apart(merged@),
        cover(merged@) == cover(ranges@),
{
    if ranges.len() == 0 {
        let none: Vec<Range> = Vec::new();
        assert(cover(none@) =~= cover(ranges@));
        return none;
    }
    let sorted = sorted_by_start(ranges);
    let mut merged: Vec<Range> = Vec::new();
    merged.push(sorted[0]);
    proof {
        lemma_cover_step(sorted@, 0);
        lemma_cover_step(merged@, 0);
        assert(cover_set(sorted@, 0) =~= cover_set(merged@, 0));
    }
    for i in 1..sorted.len()
        invariant
            by_start(sorted@),
            proper(sorted@),
            merged.len() >= 1,
            proper(merged@),
            apart(merged@),
            forall|k: int|
                i <= k < sorted.len() ==> merged[merged.len() - 1].start <= (
                #[trigger] sorted[k]).start,
            cover(merged@) == cover_set(sorted@, i as int),
    {
        let range = sorted[i];
        let at = merged.len() - 1;
        let last = merged[at];
        let ghost before = merged@;
        proof {
            lemma_cover_step(sorted@, i as int);
            assert(last.start <= range.start);
            assert(last.start <= last.end);
            assert(range.start <= range.end);
        }
        if last.end == u64::MAX || range.start <= last.end + 1 {
            let end = if range.end > last.end {
                range.end
            } else {
                last.end
            };
            let wider = Range { start: last.start, end };
            merged[at] = wider;
            proof {
                let after = merged@;
                assert(block(wider) =~= block(last) + block(range));
                lemma_cover_widen(before, at as int, wider, range);
                assert forall|a: int, b: int| 0 <= a < b < after.len() implies (
                #[trigger] after[a]).end + 1 < (#[trigger] after[b]).start by {
                    assert(after[a] == before[a]);
                    assert(before[a].end + 1 < before[b].start);
                }
                assert forall|k: int| 0 <= k < after.len() implies (#[trigger] after[k]).start
                    <= after[k].end by {
                    if k < at {
                        assert(after[k] == before[k]);
                    }
                }
            }
        } else {
            merged.push(range);
            proof {
                let after = merged@;
                assert(after =~= before.insert(before.len() as int, range));
                lemma_cover_insert(before, before.len() as int, range);
                assert forall|a: int, b: int| 0 <= a < b < after.len() implies (
                #[trigger] after[a]).end + 1 < (#[trigger] after[b]).start by {
                    if b < before.len() {
                        assert(before[a].end + 1 < before[b].start);
                    } else if a < at {
                        assert(before[a].end + 1 < before[at as int].start);
                    }
                }
                assert forall|k: int| 0 <= k < after.len() implies (#[trigger] after[k]).start
                    <= after[k].end by {
                    if k < before.len() {
                        assert(after[k] == before[k]);
                    }
                }
            }
        }
    }
    merged
}

/// The sizes do not shrink as ranges are added.
proof fn lemma_sizes_grow(ranges: Seq<Range>, i: nat, k: nat)
    requires
        proper(ranges),
        i <= k <= ranges.len(),
    ensures
        sizes(ranges, i) <= sizes(ranges, k),
    decreases k,
{
    if i < k {
        lemma_sizes_grow(ranges, i, (k - 1) as nat);
    }
}

/// How many identifiers the ranges hold between them; `None` when that is
/// more than a `u64` holds.
pub fn count_ids_in_ranges(ranges: &Vec<Range>) -> (count: Option<u64>)
    requires
        proper(ranges@),
    ensures
        count.is_some() <==> covered_count(ranges@) <= u64::MAX,
        count matches Some(n) ==> n == covered_count(ranges@),
{
    let merged = merge_ranges(ranges);
    proof {
        lemma_apart_count(merged@, merged.len() as nat);
    }
    let mut total: u64 = 0;
    for k in 0..merged.len()
        invariant
            proper(merged@),
            covered_count(ranges@) == sizes(merged@, merged.len() as nat),
            total == sizes(merged@, k as nat),
    {
        let width = merged[k].end - merged[k].start;
        if width == u64::MAX || width + 1 > u64::MAX - total {
            proof {
                lemma_sizes_grow(merged@, (k + 1) as nat, merged.len() as nat);
            }
            return None;
        }
        total = total + (width + 1);
    }
    Some(total)
}

// ---------------------------------------------------------------------------
// The text
// ---------------------------------------------------------------------------

/// `g` is the place of the first empty line, or the number of lines if no
/// line is empty.
pub open spec fn is_gap(all: Seq<Seq<u8>>, g: int) -> bool {
    &&& 0 <= g <= all.len()
    &&& forall|j: int| 0 <= j < g ==> (#[trigger] all[j]).len() > 0
    &&& g < all.len() ==> all[g].len() == 0
}

/// The place of the first empty line.
pub open spec fn gap_of(all: Seq<Seq<u8>>) -> int {
    choose|g: int| is_gap(all, g)
}

/// The lines before the first empty line spell ranges, the lines after it
/// spell identifiers.
pub open spec fn well_formed(all: Seq<Seq<u8>>) -> bool {
    &&& forall|j: int| 0 <= j < gap_of(all) ==> range_of(#[trigger] all[j]).is_some()
    &&& forall|j: int| gap_of(all) < j < all.len() ==> u64_of(#[trigger] all[j]).is_some()
}

/// The ranges that the lines before the first empty line spell.
pub open spec fn ranges_of(all: Seq<Seq<u8>>) -> Seq<Range> {
    Seq::new(gap_of(all) as nat, |j: int| range_of(all[j]).unwrap())
}

/// The identifiers that the lines after the first empty line spell.
pub open spec fn ids_of(all: Seq<Seq<u8>>) -> Seq<u64> {
    Seq::new(
        if gap_of(all) < all.len() {
            (all.len() - gap_of(all) - 1) as nat
        } else {
            0
        },
        |j: int| u64_of(all[gap_of(all) + 1 + j]).unwrap(),
    )
}

/// There is only one first empty line.
proof fn lemma_gap_unique(all: Seq<Seq<u8>>, g: int)
    requires
        is_gap(all, g),
    ensures
        gap_of(all) == g,
{
    let h = gap_of(all);
    if h < g {
        assert(all[h].len() > 0);
    }
    if g < h {
        assert(all[g].len() > 0);
    }
}

/// The ranges and the identifiers in `input`: ranges one to a line, an empty
/// line, identifiers one to a line. `None` unless every line spells what
/// its place asks for.
pub fn parse_input(input: &str) -> (r: Option<(Vec<Range>, Vec<u64>)>)
    ensures
        r.is_some() <==> well_formed(lines_of(input.spec_bytes())),
        r matches Some((ranges, ids)) ==> ranges@ == ranges_of(lines_of(input.spec_bytes()))
            && ids@ == ids_of(lines_of(input.spec_bytes())),
{
    read_lists(input.as_bytes())
}

/// As `parse_input`, on bytes.
pub fn read_lists(input: &[u8]) -> (r: Option<(Vec<Range>, Vec<u64>)>)
    ensures
        r.is_some() <==> well_formed(lines_of(input@)),
        r matches Some((ranges, ids)) ==> ranges@ == ranges_of(lines_of(input@)) && ids@ == ids_of(
            lines_of(input@),
        ),
{
    let all = lines(input);
    let ghost texts = lines_of(input@);
    let mut gap: usize = 0;
    while gap < all.len() && all[gap].len() > 0
        invariant
            views(all@) == texts,
            gap <= all.len(),
            forall|j: int| 0 <= j < gap ==> (#[trigger] texts[j]).len() > 0,
        decreases all.len() - gap,
    {
        proof {
            assert(views(all@)[gap as int] == all[gap as int]@);
        }
        gap += 1;
    }
    proof {
        if gap < all.len() {
            assert(views(all@)[gap as int] == all[gap as int]@);
        }
        lemma_gap_unique(texts, gap as int);
    }
    let mut ranges: Vec<Range> = Vec::new();
    for j in 0..gap
        invariant
            views(all@) == texts,
            texts == lines_of(input@),
            gap <= all.len(),
            gap_of(texts) == gap,
            ranges.len() == j,
            forall|q: int| 0 <= q < j ==> range_of(#[trigger] texts[q]) == Some(ranges[q]),
    {
        proof {
            assert(views(all@)[j as int] == all[j as int]@);
        }
        match parse_range(all[j].as_slice()) {
            Some(range) => {
                ranges.push(range);
            },
            None => {
                proof {
                    assert(range_of(texts[j as int]).is_none());
                }
                return None;
            },
        }
    }
    let mut ids: Vec<u64> = Vec::new();
    if gap < all.len() {
        for j in (gap + 1)..all.len()
            invariant
                views(all@) == texts,
                texts == lines_of(input@),
                gap < all.len(),
                gap_of(texts) == gap,
                ids.len() == j - gap - 1,
                forall|q: int| 0 <= q < gap ==> range_of(#[trigger] texts[q]) == Some(ranges[q]),
                ranges.len() == gap,
                forall|q: int|
                    gap < q < j ==> u64_of(#[trigger] texts[q]) == Some(ids[q - gap - 1]),
        {
            proof {
                assert(views(all@)[j as int] == all[j as int]@);
            }
            match parse_u64(all[j].as_slice()) {
                Some(id) => {
                    ids.push(id);
                },
                None => {
                    proof {
                        assert(u64_of(texts[j as int]).is_none());
                    }
                    return None;
                },
            }
        }
    }
    proof {
        assert(ranges@ =~= ranges_of(texts));
        assert(ids@ =~= ids_of(texts)) by {
            assert forall|q: int| 0 <= q < ids.len() implies ids@[q] == ids_of(texts)[q] by {
                assert(u64_of(texts[gap + 1 + q]) == Some(ids[q]));
            }
        }
    }
    Some((ranges, ids))
}

/// How many of the identifiers in `input`, blanks around it left out, are
/// fresh; `None` when the input is not of the form that `parse_input` reads.
pub fn part1(input: &str) -> (r: Option<usize>)
    ensures
        r.is_some() <==> well_formed(lines_of(trimmed(input.spec_bytes()))),
        r matches Some(count) ==> count == fresh_count(
            ranges_of(lines_of(trimmed(input.spec_bytes()))),
            ids_of(lines_of(trimmed(input.spec_bytes()))),
            ids_of(lines_of(trimmed(input.spec_bytes()))).len(),
        ),
{
    let body = trim(input.as_bytes());
    let (ranges, ids) = match read_lists(body.as_slice()) {
        Some(lists) => lists,
        None => {
            return None;
        },
    };
    let mut count: usize = 0;
    for k in 0..ids.len()
        invariant
            count == fresh_count(ranges@, ids@, k as nat),
            count <= k,
    {
        if is_fresh(ids[k], &ranges) {
            count += 1;
        }
    }
    Some(count)
}

/// How many identifiers the ranges in `input` hold between them; `None`
/// when the input is not of the form that `parse_input` reads, when a range
/// ends before it starts, or when the count is more than a `u64` holds.
pub fn part2(input: &str) -> (r: Option<u64>)
    ensures
        r.is_some() <==> well_formed(lines_of(trimmed(input.spec_bytes()))) && proper(
            ranges_of(lines_of(trimmed(input.spec_bytes()))),
        ) && covered_count(ranges_of(lines_of(trimmed(input.spec_bytes())))) <= u64::MAX,
        r matches Some(count) ==> count == covered_count(
            ranges_of(lines_of(trimmed(input.spec_bytes()))),
        ),
{
    let body = trim(input.as_bytes());
    let (ranges, _ids) = match read_lists(body.as_slice()) {
        Some(lists) => lists,
        None => {
            return None;
        },
    };
    for k in 0..ranges.len()
        invariant
            ranges@ == ranges_of(lines_of(trimmed(input.spec_bytes()))),
            forall|q: int| 0 <= q < k ==> (#[trigger] ranges[q]).start <= ranges[q].end,
    {
        if ranges[k].start > ranges[k].end {
            proof {
                assert(!(ranges@[k as int].start <= ranges@[k as int].end));
            }
            return None;
        }
    }
    count_ids_in_ranges(&ranges)
}

} // verus!
