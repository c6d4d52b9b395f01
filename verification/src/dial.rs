//! A dial with the numbers 0 to 99 that starts at 50 and is turned left and
//! right: how often it stops at zero, and how often it passes zero.

use crate::text::{lines, lines_of, parse_u64, unsigned_of, views};
use vstd::prelude::*;
use vstd::string::StringSliceAdditionalSpecFns;

verus! {

/// Which way the dial is turned.
#[derive(Debug, Clone, Copy, PartialEq, Eq)]
pub enum Direction {
    Left,
    Right,
}

/// One turn of the dial by a number of clicks.
#[derive(Debug, Clone, Copy, PartialEq, Eq)]
pub struct Rotation {
    pub direction: Direction,
    pub distance: i32,
}

// ---------------------------------------------------------------------------
// The text
// ---------------------------------------------------------------------------

/// The direction that a letter stands for: `L` or `R`.
pub open spec fn direction_of(b: u8) -> Option<Direction> {
    if b == 76 {
        Some(Direction::Left)
    } else if b == 82 {
        Some(Direction::Right)
    } else {
        None
    }
}

/// The rotation that a line spells: a letter and a number of clicks.
pub open spec fn rotation_of(line: Seq<u8>) -> Option<Rotation> {
    if line.len() == 0 {
        None
    } else {
        match (direction_of(line[0]), unsigned_of(line.skip(1))) {
            (Some(direction), Some(clicks)) => if clicks <= i32::MAX {
                Some(Rotation { direction, distance: clicks as i32 })
            } else {
                None
            },
            _ => None,
        }
    }
}

/// Every line spells a rotation, and there is at least one line.
pub open spec fn well_formed(all: Seq<Seq<u8>>) -> bool {
    all.len() > 0 && forall|i: int| 0 <= i < all.len() ==> rotation_of(#[trigger] all[i]).is_some()
}

/// The rotations that the lines spell.
pub open spec fn rotations_of(all: Seq<Seq<u8>>) -> Seq<Rotation> {
    Seq::new(all.len(), |i: int| rotation_of(all[i]).unwrap())
}

/// The direction that a letter stands for.
pub fn parse_direction(b: u8) -> (r: Option<Direction>)
    ensures
        r == direction_of(b),
{
    if b == 76 {
        Some(Direction::Left)
    } else if b == 82 {
        Some(Direction::Right)
    } else {
        None
    }
}

/// The rotation that a line spells.
pub fn parse_rotation(line: &[u8]) -> (r: Option<Rotation>)
    ensures
        r == rotation_of(line@),
{
    if line.len() == 0 {
        return None;
    }
    let mut rest: Vec<u8> = Vec::new();
    for i in 1..line.len()
        invariant
            rest@ == line@.subrange(1, i as int),
    {
        rest.push(line[i]);
        proof {
            assert(line@.subrange(1, i + 1) =~= line@.subrange(1, i as int).push(line@[i as int]));
        }
    }
    proof {
        assert(line@.subrange(1, line.len() as int) =~= line@.skip(1));
    }
    match (parse_direction(line[0]), parse_u64(rest.as_slice())) {
        (Some(direction), Some(clicks)) => if clicks <= 0x7fff_ffff {
            Some(Rotation { direction, distance: clicks as i32 })
        } else {
            None
        },
        _ => None,
    }
}

/// The rotations in `input`, one to a line; `None` unless every line spells
/// a rotation and there is at least one.
pub fn parse_rotations(input: &str) -> (r: Option<Vec<Rotation>>)
    ensures
        r.is_some() <==> well_formed(lines_of(input.spec_bytes())),
        r matches Some(list) ==> list@ == rotations_of(lines_of(input.spec_bytes())) && forall|
            i: int,
        |
            0 <= i < list.len() ==> (#[trigger] list[i]).distance >= 0,
{
    let all = lines(input.as_bytes());
    let ghost texts = lines_of(input.spec_bytes());
    if all.len() == 0 {
        return None;
    }
    let mut list: Vec<Rotation> = Vec::new();
    for i in 0..all.len()
        invariant
            views(all@) == texts,
            texts == lines_of(input.spec_bytes()),
            list.len() == i,
            forall|j: int| 0 <= j < i ==> rotation_of(#[trigger] texts[j]) == Some(list[j]),
            forall|j: int| 0 <= j < i ==> (#[trigger] list[j]).distance >= 0,
    {
        proof {
            assert(views(all@)[i as int] == all[i as int]@);
        }
        match parse_rotation(all[i].as_slice()) {
            Some(rotation) => {
                list.push(rotation);
            },
            None => {
                proof {
                    assert(rotation_of(texts[i as int]).is_none());
                }
                return None;
            },
        }
    }
    proof {
        assert(list@ =~= rotations_of(texts));
    }
    Some(list)
}

// ---------------------------------------------------------------------------
// The dial
// ---------------------------------------------------------------------------

/// Where the dial points after one rotation from `position`.
pub open spec fn turned(position: int, rotation: Rotation) -> int {
    match rotation.direction {
        Direction::Left => (position - rotation.distance) % 100,
        Direction::Right => (position + rotation.distance) % 100,
    }
}

/// Where the dial points after the first `k` rotations.
pub open spec fn dial_at(rotations: Seq<Rotation>, k: nat) -> int
    decreases k,
{
    if k == 0 {
        50
    } else {
        turned(dial_at(rotations, (k - 1) as nat), rotations[k - 1])
    }
}

/// How many of the first `k` rotations leave the dial at zero.
pub open spec fn stops_at_zero(rotations: Seq<Rotation>, k: nat) -> nat
    decreases k,
{
    if k == 0 {
        0
    } else {
        stops_at_zero(rotations, (k - 1) as nat) + if dial_at(rotations, k) == 0 {
            1nat
        } else {
            0nat
        }
    }
}

/// How many of the first `clicks` clicks of a turn from `position` bring
/// the dial to zero.
pub open spec fn zeros_passed(position: int, direction: Direction, clicks: nat) -> nat
    decreases clicks,
{
    if clicks == 0 {
        0
    } else {
        let here = match direction {
            Direction::Left => (position - clicks) % 100,
            Direction::Right => (position + clicks) % 100,
        };
        zeros_passed(position, direction, (clicks - 1) as nat) + if here == 0 {
            1nat
        } else {
            0nat
        }
    }
}

/// How many clicks of the first `k` rotations bring the dial to zero.
pub open spec fn clicks_at_zero(rotations: Seq<Rotation>, k: nat) -> nat
    decreases k,
{
    if k == 0 {
        0
    } else {
        clicks_at_zero(rotations, (k - 1) as nat) + zeros_passed(
            dial_at(rotations, (k - 1) as nat),
            rotations[k - 1].direction,
            rotations[k - 1].distance as nat,
        )
    }
}

/// Turning right passes zero once for every hundred that is crossed.
proof fn lemma_zeros_passed_right(position: int, clicks: nat)
    requires
        0 <= position,
    ensures
        zeros_passed(position, Direction::Right, clicks) == (position + clicks) / 100 - position
            / 100,
    decreases clicks,
{
    if clicks > 0 {
        lemma_zeros_passed_right(position, (clicks - 1) as nat);
    }
}

/// Turning left passes zero first after `position` clicks, or after a
/// hundred from zero, and then every hundred clicks.
proof fn lemma_zeros_passed_left(position: int, clicks: nat)
    requires
        0 <= position < 100,
    ensures
        zeros_passed(position, Direction::Left, clicks) == if position == 0 {
            clicks as int / 100
        } else if clicks >= position {
            (clicks - position) / 100 + 1
        } else {
            0
        },
    decreases clicks,
{
    if clicks > 0 {
        lemma_zeros_passed_left(position, (clicks - 1) as nat);
    }
}

/// The dial stays between 0 and 99.
proof fn lemma_dial_range(rotations: Seq<Rotation>, k: nat)
    ensures
        0 <= dial_at(rotations, k) < 100,
    decreases k,
{
    if k > 0 {
        lemma_dial_range(rotations, (k - 1) as nat);
    }
}

/// Where the dial points after one rotation from `position`.
pub fn turn(position: i64, rotation: Rotation) -> (next: i64)
    requires
        0 <= position < 100,
        rotation.distance >= 0,
    ensures
        next == turned(position as int, rotation),
        0 <= next < 100,
{
    let step = (rotation.distance % 100) as i64;
    proof {
        let d = rotation.distance as int;
        let whole = d / 100;
        assert(d == 100 * whole + step);
        vstd::arithmetic::div_mod::lemma_mod_multiples_vanish(
            -1 - whole,
            position + 100 - step,
            100,
        );
        vstd::arithmetic::div_mod::lemma_mod_multiples_vanish(whole, position + step, 100);
        assert(100 * (-1 - whole) + (position + 100 - step) == position - d);
        assert(100 * whole + (position + step) == position + d);
    }
    match rotation.direction {
        Direction::Left => (position + 100 - step) % 100,
        Direction::Right => (position + step) % 100,
    }
}

/// How many clicks of one rotation from `position` bring the dial to zero.
pub fn clicks_through_zero(position: i64, rotation: Rotation) -> (count: i64)
    requires
        0 <= position < 100,
        rotation.distance >= 0,
    ensures
        count == zeros_passed(position as int, rotation.direction, rotation.distance as nat),
        0 <= count <= i32::MAX,
{
    let distance = rotation.distance as i64;
    proof {
        lemma_zeros_passed_right(position as int, rotation.distance as nat);
        lemma_zeros_passed_left(position as int, rotation.distance as nat);
    }
    match rotation.direction {
        Direction::Right => (position + distance) / 100 - position / 100,
        Direction::Left => {
            if position == 0 {
                distance / 100
            } else if distance >= position {
                (distance - position) / 100 + 1
            } else {
                0
            }
        },
    }
}

/// The rotations of `k` lines stop at zero at most `k` times.
proof fn lemma_stops_bounded(rotations: Seq<Rotation>, k: nat)
    ensures
        stops_at_zero(rotations, k) <= k,
    decreases k,
{
    if k > 0 {
        lemma_stops_bounded(rotations, (k - 1) as nat);
    }
}

/// The count of clicks at zero does not shrink as rotations are added.
proof fn lemma_clicks_grow(rotations: Seq<Rotation>, i: nat, k: nat)
    requires
        i <= k,
    ensures
        clicks_at_zero(rotations, i) <= clicks_at_zero(rotations, k),
    decreases k,
{
    if i < k {
        lemma_clicks_grow(rotations, i, (k - 1) as nat);
    }
}

/// How often the dial is left pointing at zero by the rotations in `input`;
/// `None` when the input is not a list of rotations or the count is more
/// than an `i64` holds.
pub fn part1(input: &str) -> (r: Option<i64>)
    ensures
        r.is_some() <==> well_formed(lines_of(input.spec_bytes())) && stops_at_zero(
            rotations_of(lines_of(input.spec_bytes())),
            lines_of(input.spec_bytes()).len(),
        ) <= i64::MAX,
        r matches Some(count) ==> count == stops_at_zero(
            rotations_of(lines_of(input.spec_bytes())),
            lines_of(input.spec_bytes()).len(),
        ),
{
    let rotations = match parse_rotations(input) {
        Some(list) => list,
        None => {
            return None;
        },
    };
    let ghost all = rotations@;
    let mut position: i64 = 50;
    let mut count: u64 = 0;
    for i in 0..rotations.len()
        invariant
            all == rotations@,
            forall|j: int| 0 <= j < rotations.len() ==> (#[trigger] rotations[j]).distance >= 0,
            position == dial_at(all, i as nat),
            0 <= position < 100,
            count == stops_at_zero(all, i as nat),
            count <= i,
    {
        position = turn(position, rotations[i]);
        if position == 0 {
            count += 1;
        }
    }
    if count > 0x7fff_ffff_ffff_ffff {
        None
    } else {
        Some(count as i64)
    }
}

/// How often the dial shows zero at the end of any click while the
/// rotations in `input` are made; `None` when the input is not a list of
/// rotations or the count is more than an `i64` holds.
pub fn part2(input: &str) -> (r: Option<i64>)
    ensures
        r.is_some() <==> well_formed(lines_of(input.spec_bytes())) && clicks_at_zero(
            rotations_of(lines_of(input.spec_bytes())),
            lines_of(input.spec_bytes()).len(),
        ) <= i64::MAX,
        r matches Some(count) ==> count == clicks_at_zero(
            rotations_of(lines_of(input.spec_bytes())),
            lines_of(input.spec_bytes()).len(),
        ),
{
    let rotations = match parse_rotations(input) {
        Some(list) => list,
        None => {
            return None;
        },
    };
    let ghost all = rotations@;
    let mut position: i64 = 50;
    let mut count: i64 = 0;
    for i in 0..rotations.len()
        invariant
            all == rotations@,
            forall|j: int| 0 <= j < rotations.len() ==> (#[trigger] rotations[j]).distance >= 0,
            all == rotations_of(lines_of(input.spec_bytes())),
            well_formed(lines_of(input.spec_bytes())),
            position == dial_at(all, i as nat),
            0 <= position < 100,
            count == clicks_at_zero(all, i as nat),
            count >= 0,
    {
        let passed = clicks_through_zero(position, rotations[i]);
        if passed > i64::MAX - count {
            proof {
                lemma_clicks_grow(all, (i + 1) as nat, all.len());
            }
            return None;
        }
        count = count + passed;
        position = turn(position, rotations[i]);
    }
    Some(count)
}

} // verus!
