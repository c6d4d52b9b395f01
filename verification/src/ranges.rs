//! Ranges of identifiers, written as two numbers with a dash between them.

use crate::text::{parse_u64, split_at_byte, split_where, trim, trimmed, unsigned_of, views};
use vstd::prelude::*;

verus! {

/// The identifiers from `start` to `end`, both included.
#[derive(Debug, Clone, Copy, PartialEq, Eq)]
pub struct Range {
    pub start: u64,
    pub end: u64,
}

impl Range {
    /// Whether `id` lies in the range.
    pub open spec fn holds(&self, id: int) -> bool {
        self.start <= id <= self.end
    }

    /// Whether `id` lies in the range.
    pub fn contains(&self, id: u64) -> (inside: bool)
        ensures
            inside == self.holds(id as int),
    {
        id >= self.start && id <= self.end
    }
}

/// The number that `s` spells, if it fits in a `u64`.
pub open spec fn u64_of(s: Seq<u8>) -> Option<u64> {
    match unsigned_of(s) {
        Some(v) => if v <= u64::MAX {
            Some(v as u64)
        } else {
            None
        },
        None => None,
    }
}

/// The range that a piece spells: two numbers with a dash between them.
pub open spec fn range_of(piece: Seq<u8>) -> Option<Range> {
    let parts = split_where(trimmed(piece), seq![45u8]);
    if parts.len() == 2 {
        match (u64_of(parts[0]), u64_of(parts[1])) {
            (Some(start), Some(end)) => Some(Range { start, end }),
            _ => None,
        }
    } else {
        None
    }
}

/// The range that a piece spells.
pub fn parse_range(piece: &[u8]) -> (r: Option<Range>)
    ensures
        r == range_of(piece@),
{
    let body = trim(piece);
    let parts = split_at_byte(body.as_slice(), 45);
    if parts.len() != 2 {
        return None;
    }
    proof {
        assert(views(parts@)[0] == parts[0]@);
        assert(views(parts@)[1] == parts[1]@);
    }
    match (parse_u64(parts[0].as_slice()), parse_u64(parts[1].as_slice())) {
        (Some(start), Some(end)) => Some(Range { start, end }),
        _ => None,
    }
}

} // verus!
