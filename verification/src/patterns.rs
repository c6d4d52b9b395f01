//! Identifiers whose decimal digits are one block of digits repeated.

use crate::ranges::{parse_range, range_of, Range};
use crate::text::{split_at_byte, split_where, trim, trimmed, views};
use vstd::prelude::*;
use vstd::string::StringSliceAdditionalSpecFns;

verus! {

// ---------------------------------------------------------------------------
// Digits
// ---------------------------------------------------------------------------

/// The decimal digits of `n`, without leading zeros; zero is `0`.
pub open spec fn digits_of(n: nat) -> Seq<u8>
    decreases n,
{
    if n < 10 {
        seq![(48 + n) as u8]
    } else {
        digits_of(n / 10).push((48 + n % 10) as u8)
    }
}

/// The decimal digits of `n`.
pub fn digits(n: u64) -> (s: Vec<u8>)
    ensures
        s@ == digits_of(n as nat),
        s.len() >= 1,
    decreases n,
{
    if n < 10 {
        let mut s: Vec<u8> = Vec::new();
        s.push(48 + n as u8);
        assert(s@ =~= seq![(48 + n) as u8]);
        s
    } else {
        let mut s = digits(n / 10);
        s.push(48 + (n % 10) as u8);
        s
    }
}

/// The digits are two copies of one block.
pub open spec fn is_doubled(s: Seq<u8>) -> bool {
    s.len() % 2 == 0 && s.subrange(0, s.len() as int / 2) == s.subrange(
        s.len() as int / 2,
        s.len() as int,
    ) && s[0] != 48
}

/// The digits are copies of their first `p` digits.
pub open spec fn repeats_block(s: Seq<u8>, p: int) -> bool {
    &&& 1 <= p
    &&& (s.len() as int) % p == 0
    &&& s[0] != 48
    &&& forall|i: int| 0 <= i < s.len() ==> s[i] == s[#[trigger] (i % p)]
}

/// The digits are two or more copies of one block.
pub open spec fn is_repeated(s: Seq<u8>) -> bool {
    exists|p: int| 1 <= p <= s.len() / 2 && #[trigger] repeats_block(s, p)
}

/// Whether the digits of `n` are two copies of one block.
pub fn is_repeated_pattern(n: u64) -> (r: bool)
    ensures
        r == is_doubled(digits_of(n as nat)),
{
    let s = digits(n);
    let len = s.len();
    if len % 2 != 0 {
        return false;
    }
    let mid = len / 2;
    if s[0] == 48 {
        return false;
    }
    for i in 0..mid
        invariant
            s@ == digits_of(n as nat),
            len == s.len(),
            mid == len / 2,
            len % 2 == 0,
            s[0] != 48,
            forall|j: int| 0 <= j < i ==> #[trigger] s[j] == s[mid + j],
    {
        if s[i] != s[mid + i] {
            proof {
                assert(s@.subrange(0, mid as int)[i as int] != s@.subrange(mid as int, len as int)[i as int]);
            }
            return false;
        }
    }
    proof {
        assert(s@.subrange(0, mid as int) =~= s@.subrange(mid as int, len as int));
    }
    true
}

/// Whether the digits are copies of their first `p` digits.
fn has_block(s: &Vec<u8>, p: usize) -> (r: bool)
    requires
        1 <= p <= s.len(),
    ensures
        r == repeats_block(s@, p as int),
{
    if s.len() % p != 0 {
        return false;
    }
    if s[0] == 48 {
        return false;
    }
    for i in 0..s.len()
        invariant
            1 <= p <= s.len(),
            forall|j: int| 0 <= j < i ==> s[j] == s[#[trigger] (j % (p as int))],
    {
        if s[i] != s[i % p] {
            return false;
        }
    }
    true
}

/// Whether the digits of `n` are two or more copies of one block.
pub fn is_repeated_pattern_v2(n: u64) -> (r: bool)
    ensures
        r == is_repeated(digits_of(n as nat)),
{
    let s = digits(n);
    let half = s.len() / 2;
    let mut p: usize = 1;
    while p <= half
        invariant
            s@ == digits_of(n as nat),
            1 <= p <= half + 1,
            half == s.len() / 2,
            forall|q: int| 1 <= q < p ==> !#[trigger] repeats_block(s@, q),
        decreases half + 1 - p,
    {
        if has_block(&s, p) {
            return true;
        }
        p += 1;
    }
    false
}

// ---------------------------------------------------------------------------
// The text
// ---------------------------------------------------------------------------

/// The pieces of the input between commas.
pub open spec fn pieces_of(input: Seq<u8>) -> Seq<Seq<u8>> {
    split_where(trimmed(input), seq![44u8])
}

/// Every piece spells a range.
pub open spec fn ranges_well_formed(input: Seq<u8>) -> bool {
    forall|i: int| 0 <= i < pieces_of(input).len() ==> range_of(#[trigger] pieces_of(input)[i]).is_some()
}

/// The ranges that the pieces spell.
pub open spec fn ranges_of(input: Seq<u8>) -> Seq<Range> {
    Seq::new(pieces_of(input).len(), |i: int| range_of(pieces_of(input)[i]).unwrap())
}

/// The ranges in `input`, with commas between them; `None` unless every
/// piece between commas spells a range.
pub fn parse_ranges(input: &str) -> (r: Option<Vec<Range>>)
    ensures
        r.is_some() <==> ranges_well_formed(input.spec_bytes()),
        r matches Some(list) ==> list@ == ranges_of(input.spec_bytes()),
{
    let body = trim(input.as_bytes());
    let pieces = split_at_byte(body.as_slice(), 44);
    let ghost texts = pieces_of(input.spec_bytes());
    let mut list: Vec<Range> = Vec::new();
    for i in 0..pieces.len()
        invariant
            views(pieces@) == texts,
            texts == pieces_of(input.spec_bytes()),
            list.len() == i,
            forall|j: int| 0 <= j < i ==> range_of(#[trigger] texts[j]) == Some(list[j]),
    {
        proof {
            assert(views(pieces@)[i as int] == pieces[i as int]@);
        }
        match parse_range(pieces[i].as_slice()) {
            Some(range) => {
                list.push(range);
            },
            None => {
                proof {
                    assert(range_of(texts[i as int]).is_none());
                }
                return None;
            },
        }
    }
    proof {
        assert(list@ =~= ranges_of(input.spec_bytes()));
    }
    Some(list)
}

// ---------------------------------------------------------------------------
// Sums
// ---------------------------------------------------------------------------

/// The sum of the identifiers among the `count` from `start` on that `keep`
/// admits.
pub open spec fn kept_sum(start: int, count: nat, keep: spec_fn(nat) -> bool) -> nat
    decreases count,
{
    if count == 0 {
        0
    } else {
        let id = (start + count - 1) as nat;
        kept_sum(start, (count - 1) as nat, keep) + if keep(id) {
            id
        } else {
            0
        }
    }
}

/// How many identifiers a range holds.
pub open spec fn width(range: Range) -> nat {
    if range.start <= range.end {
        (range.end - range.start + 1) as nat
    } else {
        0
    }
}

/// The sum of the identifiers in the first `k` ranges that `keep` admits.
pub open spec fn ranges_sum(ranges: Seq<Range>, k: nat, keep: spec_fn(nat) -> bool) -> nat
    decreases k,
{
    if k == 0 {
        0
    } else {
        ranges_sum(ranges, (k - 1) as nat, keep) + kept_sum(
            ranges[k - 1].start as int,
            width(ranges[k - 1]),
            keep,
        )
    }
}

/// The sum does not shrink as identifiers are added.
proof fn lemma_kept_sum_grows(start: int, i: nat, k: nat, keep: spec_fn(nat) -> bool)
    requires
        i <= k,
    ensures
        kept_sum(start, i, keep) <= kept_sum(start, k, keep),
    decreases k,
{
    if i < k {
        lemma_kept_sum_grows(start, i, (k - 1) as nat, keep);
    }
}

/// The sum does not shrink as ranges are added.
proof fn lemma_ranges_sum_grows(ranges: Seq<Range>, i: nat, k: nat, keep: spec_fn(nat) -> bool)
    requires
        i <= k,
    ensures
        ranges_sum(ranges, i, keep) <= ranges_sum(ranges, k, keep),
    decreases k,
{
    if i < k {
        lemma_ranges_sum_grows(ranges, i, (k - 1) as nat, keep);
    }
}

/// The digits of the identifier are two copies of one block.
pub open spec fn doubled_id(id: nat) -> bool {
    is_doubled(digits_of(id))
}

/// The digits of the identifier are two or more copies of one block.
pub open spec fn repeated_id(id: nat) -> bool {
    is_repeated(digits_of(id))
}

/// The sum of the identifiers in the ranges that are admitted: by
/// `is_repeated_pattern_v2` if `any_count` is set, by `is_repeated_pattern`
/// if not. `None` when the sum is more than a `u64` holds.
fn sum_ranges(ranges: &Vec<Range>, any_count: bool) -> (r: Option<u64>)
    ensures
        ({
            let keep = if any_count {
                |id: nat| repeated_id(id)
            } else {
                |id: nat| doubled_id(id)
            };
            &&& r.is_some() <==> ranges_sum(ranges@, ranges.len() as nat, keep) <= u64::MAX
            &&& r matches Some(sum) ==> sum == ranges_sum(ranges@, ranges.len() as nat, keep)
        }),
{
    let ghost keep = if any_count {
        |id: nat| repeated_id(id)
    } else {
        |id: nat| doubled_id(id)
    };
    let mut sum: u64 = 0;
    for i in 0..ranges.len()
        invariant
            keep == (if any_count {
                |id: nat| repeated_id(id)
            } else {
                |id: nat| doubled_id(id)
            }),
            sum == ranges_sum(ranges@, i as nat, keep),
    {
        let range = ranges[i];
        if range.start <= range.end {
            let ghost before = sum;
            let mut id = range.start;
            let mut done = false;
            while !done
                invariant
                    i < ranges.len(),
                    range == ranges[i as int],
                    range.start <= id <= range.end,
                    keep == (if any_count {
                        |id: nat| repeated_id(id)
                    } else {
                        |id: nat| doubled_id(id)
                    }),
                    before == ranges_sum(ranges@, i as nat, keep),
                    !done ==> sum == before + kept_sum(
                        range.start as int,
                        (id - range.start) as nat,
                        keep,
                    ),
                    done ==> id == range.end && sum == before + kept_sum(
                        range.start as int,
                        width(range),
                        keep,
                    ),
                decreases range.end - id + if done {
                    0int
                } else {
                    1int
                },
            {
                let admitted = if any_count {
                    is_repeated_pattern_v2(id)
                } else {
                    is_repeated_pattern(id)
                };
                assert(admitted == keep(id as nat));
                if admitted {
                    if id > u64::MAX - sum {
                        proof {
                            lemma_kept_sum_grows(
                                range.start as int,
                                (id - range.start + 1) as nat,
                                width(range),
                                keep,
                            );
                            lemma_ranges_sum_grows(ranges@, (i + 1) as nat, ranges.len() as nat, keep);
                        }
                        return None;
                    }
                    sum = sum + id;
                }
                if id == range.end {
                    done = true;
                } else {
                    id = id + 1;
                }
            }
        }
    }
    Some(sum)
}

/// The sum of the identifiers in the ranges of `input` whose digits are two
/// copies of one block; `None` when the input is not a list of ranges or the
/// sum is more than a `u64` holds.
pub fn part1(input: &str) -> (r: Option<u64>)
    ensures
        r.is_some() <==> ranges_well_formed(input.spec_bytes()) && ranges_sum(
            ranges_of(input.spec_bytes()),
            ranges_of(input.spec_bytes()).len(),
            |id: nat| doubled_id(id),
        ) <= u64::MAX,
        r matches Some(sum) ==> sum == ranges_sum(
            ranges_of(input.spec_bytes()),
            ranges_of(input.spec_bytes()).len(),
            |id: nat| doubled_id(id),
        ),
{
    match parse_ranges(input) {
        Some(ranges) => sum_ranges(&ranges, false),
        None => None,
    }
}

/// The sum of the identifiers in the ranges of `input` whose digits are two
/// or more copies of one block; `None` when the input is not a list of
/// ranges or the sum is more than a `u64` holds.
pub fn part2(input: &str) -> (r: Option<u64>)
    ensures
        r.is_some() <==> ranges_well_formed(input.spec_bytes()) && ranges_sum(
            ranges_of(input.spec_bytes()),
            ranges_of(input.spec_bytes()).len(),
            |id: nat| repeated_id(id),
        ) <= u64::MAX,
        r matches Some(sum) ==> sum == ranges_sum(
            ranges_of(input.spec_bytes()),
            ranges_of(input.spec_bytes()).len(),
            |id: nat| repeated_id(id),
        ),
{
    match parse_ranges(input) {
        Some(ranges) => sum_ranges(&ranges, true),
        None => None,
    }
}

} // verus!
