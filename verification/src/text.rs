//! Reading puzzle text: splitting bytes into pieces, trimming blanks and
//! reading decimal numbers. Every function says exactly which pieces or which
//! number it returns.

use vstd::prelude::*;

verus! {

// ---------------------------------------------------------------------------
// What the functions compute
// ---------------------------------------------------------------------------

/// Tab, line feed, vertical tab, form feed, carriage return or space.
pub open spec fn is_blank(b: u8) -> bool {
    (9 <= b <= 13) || b == 32
}

/// A decimal digit.
pub open spec fn is_digit(b: u8) -> bool {
    48 <= b <= 57
}

/// The pieces of `s` between the bytes that occur in `seps`. There is always
/// one piece more than there are separators; pieces may be empty.
pub open spec fn split_where(s: Seq<u8>, seps: Seq<u8>) -> Seq<Seq<u8>>
    decreases s.len(),
{
    if s.len() == 0 {
        seq![Seq::<u8>::empty()]
    } else {
        let before = split_where(s.drop_last(), seps);
        if seps.contains(s.last()) {
            before.push(Seq::<u8>::empty())
        } else {
            before.update(before.len() - 1, before.last().push(s.last()))
        }
    }
}

/// `s` without the blanks at its start.
pub open spec fn skip_blanks(s: Seq<u8>) -> Seq<u8>
    decreases s.len(),
{
    if s.len() > 0 && is_blank(s[0]) {
        skip_blanks(s.skip(1))
    } else {
        s
    }
}

/// `s` without the blanks at its end.
pub open spec fn drop_blanks(s: Seq<u8>) -> Seq<u8>
    decreases s.len(),
{
    if s.len() > 0 && is_blank(s.last()) {
        drop_blanks(s.drop_last())
    } else {
        s
    }
}

/// `s` without the blanks at either end.
pub open spec fn trimmed(s: Seq<u8>) -> Seq<u8> {
    drop_blanks(skip_blanks(s))
}

/// Every byte is a decimal digit.
pub open spec fn all_digits(s: Seq<u8>) -> bool {
    forall|i: int| 0 <= i < s.len() ==> is_digit(#[trigger] s[i])
}

/// The number that the digits spell.
pub open spec fn decimal(s: Seq<u8>) -> nat
    decreases s.len(),
{
    if s.len() == 0 {
        0
    } else {
        decimal(s.drop_last()) * 10 + (s.last() - 48) as nat
    }
}

/// The number that `s` spells: digits, at least one, after an optional `+`.
pub open spec fn unsigned_of(s: Seq<u8>) -> Option<nat> {
    let digits = if s.len() > 0 && s[0] == 43 {
        s.skip(1)
    } else {
        s
    };
    if digits.len() > 0 && all_digits(digits) {
        Some(decimal(digits))
    } else {
        None
    }
}

/// The integer that `s` spells: digits, at least one, after an optional `+`
/// or `-`.
pub open spec fn signed_of(s: Seq<u8>) -> Option<int> {
    let negative = s.len() > 0 && s[0] == 45;
    let digits = if s.len() > 0 && (s[0] == 43 || s[0] == 45) {
        s.skip(1)
    } else {
        s
    };
    if digits.len() > 0 && all_digits(digits) {
        Some(
            if negative {
                -(decimal(digits) as int)
            } else {
                decimal(digits) as int
            },
        )
    } else {
        None
    }
}

/// A piece without a carriage return at its end.
pub open spec fn without_return(s: Seq<u8>) -> Seq<u8> {
    if s.len() > 0 && s.last() == 13 {
        s.drop_last()
    } else {
        s
    }
}

/// The lines of `s`: the pieces between line feeds, each without a carriage
/// return at its end; an empty piece after the last line feed is no line.
pub open spec fn lines_of(s: Seq<u8>) -> Seq<Seq<u8>> {
    let pieces = split_where(s, seq![10u8]);
    let kept = if pieces.last().len() == 0 {
        pieces.drop_last()
    } else {
        pieces
    };
    Seq::new(kept.len(), |i: int| without_return(kept[i]))
}

/// The byte sequences that the vectors hold.
pub open spec fn views(v: Seq<Vec<u8>>) -> Seq<Seq<u8>> {
    Seq::new(v.len(), |i: int| v[i]@)
}

// ---------------------------------------------------------------------------
// Lemmas
// ---------------------------------------------------------------------------

/// There is at least one piece.
pub proof fn lemma_split_nonempty(s: Seq<u8>, seps: Seq<u8>)
    ensures
        split_where(s, seps).len() >= 1,
    decreases s.len(),
{
    if s.len() > 0 {
        lemma_split_nonempty(s.drop_last(), seps);
    }
}

/// Digits spell a number that does not shrink as more digits follow.
proof fn lemma_decimal_grows(s: Seq<u8>, i: int)
    requires
        0 <= i <= s.len(),
        all_digits(s),
    ensures
        decimal(s.take(i)) <= decimal(s),
    decreases s.len() - i,
{
    if i < s.len() {
        lemma_decimal_grows(s, i + 1);
        assert(s.take(i + 1).drop_last() =~= s.take(i));
    } else {
        assert(s.take(i) =~= s);
    }
}

// ---------------------------------------------------------------------------
// The functions
// ---------------------------------------------------------------------------

/// Whether `b` is a blank.
pub fn blank(b: u8) -> (r: bool)
    ensures
        r == is_blank(b),
{
    (9 <= b && b <= 13) || b == 32
}

/// Whether `b` occurs in `seps`.
pub fn is_one_of(b: u8, seps: &[u8]) -> (r: bool)
    ensures
        r == seps@.contains(b),
{
    for i in 0..seps.len()
        invariant
            forall|j: int| 0 <= j < i ==> seps@[j] != b,
    {
        if seps[i] == b {
            return true;
        }
    }
    false
}

/// Splits `s` at every byte that occurs in `seps`.
pub fn split_any(s: &[u8], seps: &[u8]) -> (parts: Vec<Vec<u8>>)
    ensures
        views(parts@) == split_where(s@, seps@),
        parts.len() >= 1,
{
    let mut parts: Vec<Vec<u8>> = Vec::new();
    let mut piece: Vec<u8> = Vec::new();
    for i in 0..s.len()
        invariant
            views(parts@).push(piece@) == split_where(s@.take(i as int), seps@),
    {
        proof {
            assert(s@.take(i + 1).drop_last() =~= s@.take(i as int));
        }
        let ghost before = views(parts@);
        if is_one_of(s[i], seps) {
            parts.push(piece);
            piece = Vec::new();
            proof {
                assert(views(parts@) =~= before.push(parts[parts.len() - 1]@));
            }
        } else {
            let ghost shorter = piece@;
            piece.push(s[i]);
            proof {
                assert(before.push(piece@) =~= before.push(shorter).update(
                    before.len() as int,
                    shorter.push(s@[i as int]),
                ));
            }
        }
    }
    let ghost before = views(parts@);
    parts.push(piece);
    proof {
        assert(s@.take(s.len() as int) =~= s@);
        assert(views(parts@) =~= before.push(parts[parts.len() - 1]@));
    }
    parts
}

/// Splits `s` at every byte equal to `sep`.
pub fn split_at_byte(s: &[u8], sep: u8) -> (parts: Vec<Vec<u8>>)
    ensures
        views(parts@) == split_where(s@, seq![sep]),
        parts.len() >= 1,
{
    let seps = [sep];
    assert(seps@ =~= seq![sep]);
    split_any(s, &seps)
}

/// `s` without the blanks at either end.
pub fn trim(s: &[u8]) -> (t: Vec<u8>)
    ensures
        t@ == trimmed(s@),
{
    let mut start: usize = 0;
    proof {
        assert(s@.skip(0) =~= s@);
    }
    while start < s.len() && blank(s[start])
        invariant
            start <= s.len(),
            skip_blanks(s@) == skip_blanks(s@.skip(start as int)),
        decreases s.len() - start,
    {
        proof {
            assert(s@.skip(start as int).skip(1) =~= s@.skip(start + 1));
        }
        start += 1;
    }
    let mut end: usize = s.len();
    while end > start && blank(s[end - 1])
        invariant
            start <= end <= s.len(),
            skip_blanks(s@) == s@.skip(start as int),
            drop_blanks(s@.skip(start as int)) == drop_blanks(s@.subrange(start as int, end as int)),
        decreases end,
    {
        proof {
            assert(s@.subrange(start as int, end as int).drop_last() =~= s@.subrange(
                start as int,
                end - 1,
            ));
        }
        end -= 1;
    }
    proof {
        if start == 0 && end == s.len() {
            assert(s@.skip(0) =~= s@);
        }
        assert(s@.skip(start as int) =~= s@.subrange(start as int, s.len() as int));
    }
    let mut t: Vec<u8> = Vec::new();
    for i in start..end
        invariant
            start <= end <= s.len(),
            t@ == s@.subrange(start as int, i as int),
    {
        t.push(s[i]);
        proof {
            assert(s@.subrange(start as int, i + 1) =~= s@.subrange(start as int, i as int).push(
                s@[i as int],
            ));
        }
    }
    t
}

/// The number that the digits `s[from..]` spell, if they are digits, at
/// least one, and the number fits in a `u64`.
fn read_digits(s: &[u8], from: usize) -> (r: Option<u64>)
    requires
        from <= s.len(),
    ensures
        r == if s@.skip(from as int).len() > 0 && all_digits(s@.skip(from as int)) && decimal(
            s@.skip(from as int),
        ) <= u64::MAX {
            Some(decimal(s@.skip(from as int)) as u64)
        } else {
            None
        },
{
    let ghost digits = s@.skip(from as int);
    if from == s.len() {
        return None;
    }
    let mut value: u64 = 0;
    for i in from..s.len()
        invariant
            from <= s.len(),
            digits == s@.skip(from as int),
            all_digits(digits.take(i - from)),
            value == decimal(digits.take(i - from)),
    {
        let b = s[i];
        proof {
            assert(digits.take(i + 1 - from).drop_last() =~= digits.take(i - from));
            assert(digits[i - from] == b);
        }
        if !(48 <= b && b <= 57) {
            return None;
        }
        let digit = (b - 48) as u64;
        proof {
            assert(all_digits(digits.take(i + 1 - from))) by {
                assert forall|j: int| 0 <= j < i + 1 - from implies is_digit(
                    #[trigger] digits.take(i + 1 - from)[j],
                ) by {
                    if j < i - from {
                        assert(digits.take(i - from)[j] == digits[j]);
                    }
                }
            }
        }
        if value > (u64::MAX - digit) / 10 {
            proof {
                // the digits read so far already spell too much
                assert(decimal(digits.take(i + 1 - from)) > u64::MAX);
                if all_digits(digits) {
                    lemma_decimal_grows(digits, i + 1 - from);
                }
            }
            return None;
        }
        value = value * 10 + digit;
    }
    proof {
        assert(digits.take(s.len() - from) =~= digits);
    }
    Some(value)
}

/// The number that `s` spells, if it spells one that fits in a `u64`.
pub fn parse_u64(s: &[u8]) -> (r: Option<u64>)
    ensures
        r == match unsigned_of(s@) {
            Some(v) => if v <= u64::MAX {
                Some(v as u64)
            } else {
                None
            },
            None => None,
        },
{
    if s.len() > 0 && s[0] == 43 {
        read_digits(s, 1)
    } else {
        proof {
            assert(s@.skip(0) =~= s@);
        }
        read_digits(s, 0)
    }
}

/// The number that `s` spells, if it spells one that fits in a `usize`.
pub fn parse_usize(s: &[u8]) -> (r: Option<usize>)
    ensures
        r == match unsigned_of(s@) {
            Some(v) => if v <= usize::MAX {
                Some(v as usize)
            } else {
                None
            },
            None => None,
        },
{
    match parse_u64(s) {
        Some(v) => if v <= usize::MAX as u64 {
            Some(v as usize)
        } else {
            None
        },
        None => None,
    }
}

/// The integer that `s` spells, if it spells one that fits in an `i64`.
pub fn parse_i64(s: &[u8]) -> (r: Option<i64>)
    ensures
        r == match signed_of(s@) {
            Some(v) => if i64::MIN <= v <= i64::MAX {
                Some(v as i64)
            } else {
                None
            },
            None => None,
        },
{
    let negative = s.len() > 0 && s[0] == 45;
    let size = if s.len() > 0 && (s[0] == 43 || s[0] == 45) {
        read_digits(s, 1)
    } else {
        proof {
            assert(s@.skip(0) =~= s@);
        }
        read_digits(s, 0)
    };
    match size {
        None => None,
        Some(v) => if negative {
            if v <= 0x8000_0000_0000_0000u64 {
                if v == 0x8000_0000_0000_0000u64 {
                    Some(i64::MIN)
                } else {
                    Some(-(v as i64))
                }
            } else {
                None
            }
        } else {
            if v <= 0x7fff_ffff_ffff_ffffu64 {
                Some(v as i64)
            } else {
                None
            }
        },
    }
}

/// The lines of `s`.
pub fn lines(s: &[u8]) -> (out: Vec<Vec<u8>>)
    ensures
        views(out@) == lines_of(s@),
{
    let pieces = split_at_byte(s, 10);
    let ghost all = views(pieces@);
    let count = if pieces[pieces.len() - 1].len() == 0 {
        pieces.len() - 1
    } else {
        pieces.len()
    };
    let ghost kept = if all.last().len() == 0 {
        all.drop_last()
    } else {
        all
    };
    let mut out: Vec<Vec<u8>> = Vec::new();
    for i in 0..count
        invariant
            count <= pieces.len(),
            all == views(pieces@),
            kept.len() == count,
            forall|j: int| 0 <= j < count ==> kept[j] == all[j],
            out.len() == i,
            forall|j: int| 0 <= j < i ==> (#[trigger] out[j])@ == without_return(kept[j]),
    {
        let piece = &pieces[i];
        let keep = if piece.len() > 0 && piece[piece.len() - 1] == 13 {
            piece.len() - 1
        } else {
            piece.len()
        };
        let mut line: Vec<u8> = Vec::new();
        for k in 0..keep
            invariant
                keep <= piece.len(),
                line@ == piece@.take(k as int),
        {
            line.push(piece[k]);
            proof {
                assert(piece@.take(k + 1) =~= piece@.take(k as int).push(piece@[k as int]));
            }
        }
        proof {
            assert(piece@.take(piece.len() as int) =~= piece@);
            assert(piece@.take(piece.len() - 1) =~= piece@.drop_last());
            assert(all[i as int] == piece@);
        }
        out.push(line);
    }
    proof {
        assert(views(out@) =~= lines_of(s@));
    }
    out
}

} // verus!
