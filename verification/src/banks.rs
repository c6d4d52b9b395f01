//! Battery banks: each bank is a row of digits, and switching on some of
//! its batteries gives the number that their digits spell in order.

use crate::text::{all_digits, decimal, is_digit, lines, lines_of, trim, trimmed, views};
use vstd::prelude::*;
use vstd::string::StringSliceAdditionalSpecFns;

verus! {

/// The number that the digits at `i` and `j` spell.
pub open spec fn pair_value(bank: Seq<u8>, i: int, j: int) -> int {
    10 * (bank[i] - 48) + (bank[j] - 48)
}

/// `best` is the greatest number that two digits of the bank spell in
/// order, or zero for a bank with fewer than two digits.
pub open spec fn is_best_pair(bank: Seq<u8>, best: int) -> bool {
    &&& forall|i: int, j: int| 0 <= i < j < bank.len() ==> #[trigger] pair_value(bank, i, j) <= best
    &&& if bank.len() < 2 {
        best == 0
    } else {
        exists|i: int, j: int| 0 <= i < j < bank.len() && best == #[trigger] pair_value(bank, i, j)
    }
}

/// The greatest number that two batteries of the bank give.
pub fn max_joltage(bank: &str) -> (best: u32)
    requires
        all_digits(bank.spec_bytes()),
    ensures
        is_best_pair(bank.spec_bytes(), best as int),
{
    best_pair(bank.as_bytes())
}

/// The greatest number that two digits of the bank spell in order.
pub fn best_pair(digits: &[u8]) -> (best: u32)
    requires
        all_digits(digits@),
    ensures
        is_best_pair(digits@, best as int),
        best <= 99,
{
    let mut best: u32 = 0;
    let ghost mut at: (int, int) = (0, 1);
    for i in 0..digits.len()
        invariant
            all_digits(digits@),
            best <= 99,
            forall|a: int, b: int|
                0 <= a < i && a < b < digits.len() ==> #[trigger] pair_value(digits@, a, b) <= best,
            i == 0 || digits.len() < 2 ==> best == 0,
            best != 0 ==> 0 <= at.0 < at.1 < digits.len() && best == pair_value(digits@, at.0, at.1),
            i > 0 && digits.len() >= 2 && best == 0 ==> pair_value(digits@, 0, 1) == 0,
    {
        for j in (i + 1)..digits.len()
            invariant
                i < digits.len(),
                all_digits(digits@),
                best <= 99,
                forall|a: int, b: int|
                    0 <= a < i && a < b < digits.len() ==> #[trigger] pair_value(digits@, a, b)
                        <= best,
                forall|b: int| i < b < j ==> #[trigger] pair_value(digits@, i as int, b) <= best,
                digits.len() < 2 ==> best == 0,
                best != 0 ==> 0 <= at.0 < at.1 < digits.len() && best == pair_value(
                    digits@,
                    at.0,
                    at.1,
                ),
                (i > 0 || j > 1) && digits.len() >= 2 && best == 0 ==> pair_value(digits@, 0, 1)
                    == 0,
        {
            assert(is_digit(digits@[i as int]) && is_digit(digits@[j as int]));
            let value = 10 * (digits[i] - 48) as u32 + (digits[j] - 48) as u32;
            if value > best {
                best = value;
                proof {
                    at = (i as int, j as int);
                }
            }
        }
    }
    proof {
        if digits.len() >= 2 {
            if best == 0 {
                assert(best == pair_value(digits@, 0, 1));
            }
        }
    }
    best
}

// ---------------------------------------------------------------------------
// Keeping `n` batteries
// ---------------------------------------------------------------------------

/// The digits of `bank` at the places that `picks` names.
pub open spec fn picked(bank: Seq<u8>, picks: Seq<int>) -> Seq<u8> {
    Seq::new(picks.len(), |t: int| bank[picks[t]])
}

/// `picks` names places of the bank from left to right.
pub open spec fn in_order(bank: Seq<u8>, picks: Seq<int>) -> bool {
    &&& forall|t: int| 0 <= t < picks.len() ==> 0 <= #[trigger] picks[t] < bank.len()
    &&& forall|t: int, u: int| 0 <= t < u < picks.len() ==> #[trigger] picks[t] < #[trigger] picks[u]
}

/// Ten to the power `n`.
pub open spec fn ten_to(n: nat) -> nat
    decreases n,
{
    if n == 0 {
        1
    } else {
        10 * ten_to((n - 1) as nat)
    }
}

/// Digits spell a number below ten to the power of their count.
proof fn lemma_decimal_bound(s: Seq<u8>)
    requires
        all_digits(s),
    ensures
        decimal(s) < ten_to(s.len()),
    decreases s.len(),
{
    if s.len() > 0 {
        assert(all_digits(s.drop_last())) by {
            assert forall|i: int| 0 <= i < s.drop_last().len() implies is_digit(
                #[trigger] s.drop_last()[i],
            ) by {
                assert(s.drop_last()[i] == s[i]);
            }
        }
        lemma_decimal_bound(s.drop_last());
        assert(is_digit(s[s.len() - 1]));
    }
}

/// Powers of ten grow.
proof fn lemma_ten_to_grows(a: nat, b: nat)
    requires
        a <= b,
    ensures
        ten_to(a) <= ten_to(b),
    decreases b,
{
    if a < b {
        lemma_ten_to_grows(a, (b - 1) as nat);
    }
}

/// `picks` names `n` places of the bank from left to right.
pub open spec fn is_pick(bank: Seq<u8>, picks: Seq<int>, n: nat) -> bool {
    picks.len() == n && in_order(bank, picks)
}

/// `value` is the greatest number that `n` digits of the bank spell in their
/// order.
pub open spec fn is_greatest_pick(bank: Seq<u8>, n: nat, value: int) -> bool {
    &&& exists|picks: Seq<int>|
        is_pick(bank, picks, n) && value == decimal(#[trigger] picked(bank, picks))
    &&& forall|picks: Seq<int>|
        is_pick(bank, picks, n) ==> decimal(#[trigger] picked(bank, picks)) <= value
}

/// Among the first `t` digits that `q` picks, the first that differs from the
/// digit that `p` picks is smaller.
pub open spec fn lost(bank: Seq<u8>, p: Seq<int>, q: Seq<int>, t: int) -> bool {
    exists|k: int|
        0 <= k < t && bank[#[trigger] q[k]] < bank[p[k]] && forall|i: int|
            0 <= i < k ==> bank[#[trigger] q[i]] == bank[p[i]]
}

/// The first `t` digits that `q` picks are those that `p` picks, and `q` has
/// come at least as far as `p`.
pub open spec fn tied(bank: Seq<u8>, p: Seq<int>, q: Seq<int>, t: int) -> bool {
    &&& forall|i: int| 0 <= i < t ==> bank[#[trigger] q[i]] == bank[p[i]]
    &&& t > 0 ==> q[t - 1] >= p[t - 1]
}

/// After `t` digits, `q` has either fallen behind `p` or is level with it.
pub open spec fn settled(bank: Seq<u8>, p: Seq<int>, q: Seq<int>, t: int) -> bool {
    lost(bank, p, q, t) || tied(bank, p, q, t)
}

/// Places that come in order lie at least as far apart as they are apart in
/// the list.
proof fn lemma_spacing(bank: Seq<u8>, q: Seq<int>, t: int, u: int)
    requires
        in_order(bank, q),
        0 <= t <= u < q.len(),
    ensures
        q[u] - q[t] >= u - t,
    decreases u - t,
{
    if t < u {
        lemma_spacing(bank, q, t, u - 1);
        assert(q[u - 1] < q[u]);
    }
}

/// The digits that a pick takes from a bank of digits are digits.
proof fn lemma_picked_digits(bank: Seq<u8>, q: Seq<int>)
    requires
        all_digits(bank),
        in_order(bank, q),
    ensures
        all_digits(picked(bank, q)),
{
    assert forall|i: int| 0 <= i < picked(bank, q).len() implies is_digit(
        #[trigger] picked(bank, q)[i],
    ) by {
        assert(0 <= q[i] < bank.len());
        assert(is_digit(bank[q[i]]));
    }
}

/// Of two rows of digits of the same length, the one with the smaller digit
/// at the first place where they differ spells the smaller number.
proof fn lemma_first_difference(a: Seq<u8>, b: Seq<u8>, k: int)
    requires
        a.len() == b.len(),
        all_digits(a),
        all_digits(b),
        0 <= k < a.len(),
        a[k] < b[k],
        forall|i: int| 0 <= i < k ==> a[i] == b[i],
    ensures
        decimal(a) < decimal(b),
    decreases a.len(),
{
    let last = a.len() - 1;
    assert(is_digit(a[last]) && is_digit(b[last]));
    if k == last {
        assert(a.drop_last() =~= b.drop_last());
    } else {
        let shorter_a = a.drop_last();
        let shorter_b = b.drop_last();
        assert(all_digits(shorter_a)) by {
            assert forall|i: int| 0 <= i < shorter_a.len() implies is_digit(
                #[trigger] shorter_a[i],
            ) by {
                assert(shorter_a[i] == a[i]);
            }
        }
        assert(all_digits(shorter_b)) by {
            assert forall|i: int| 0 <= i < shorter_b.len() implies is_digit(
                #[trigger] shorter_b[i],
            ) by {
                assert(shorter_b[i] == b[i]);
            }
        }
        assert(shorter_a[k] == a[k] && shorter_b[k] == b[k]);
        assert forall|i: int| 0 <= i < k implies shorter_a[i] == shorter_b[i] by {
            assert(a[i] == b[i]);
        }
        lemma_first_difference(shorter_a, shorter_b, k);
    }
}

/// The greatest number that `n` batteries of the bank give, `n` at least one
/// and at most nineteen, so that the number fits.
pub fn max_joltage_n(bank: &str, n: usize) -> (value: u64)
    requires
        all_digits(bank.spec_bytes()),
        1 <= n <= bank.spec_bytes().len(),
        n <= 19,
    ensures
        is_greatest_pick(bank.spec_bytes(), n as nat, value as int),
{
    keep_digits(bank.as_bytes(), n)
}

/// The greatest number that `n` of the digits spell in their order: each
/// digit in turn is the greatest that leaves enough digits to its right, and
/// of several such the leftmost.
pub fn keep_digits(digits: &[u8], n: usize) -> (value: u64)
    requires
        all_digits(digits@),
        1 <= n <= digits.len(),
        n <= 19,
    ensures
        is_greatest_pick(digits@, n as nat, value as int),
{
    let ghost bank = digits@;
    let len = digits.len();
    let mut chosen: Vec<u8> = Vec::new();
    let ghost mut p: Seq<int> = Seq::empty();
    let mut start: usize = 0;
    for t in 0..n
        invariant
            bank == digits@,
            len == digits.len(),
            n <= len,
            start + (n - t) <= len,
            p.len() == t,
            in_order(bank, p),
            t > 0 ==> p[t - 1] == start - 1,
            t == 0 ==> start == 0,
            chosen@ == picked(bank, p),
            forall|q: Seq<int>| #[trigger] is_pick(bank, q, n as nat) ==> settled(bank, p, q, t as int),
    {
        let end = len - (n - t);
        let mut at = start;
        for i in (start + 1)..(end + 1)
            invariant
                bank == digits@,
                start <= at < i,
                i <= end + 1,
                end < digits.len(),
                forall|j: int| start <= j < i ==> bank[j] <= bank[at as int],
                forall|j: int| start <= j < at ==> bank[j] < bank[at as int],
        {
            if digits[i] > digits[at] {
                at = i;
            }
        }
        let ghost before = p;
        chosen.push(digits[at]);
        proof {
            p = p.push(at as int);
            assert(chosen@ =~= picked(bank, p));
            assert forall|a: int, b: int| 0 <= a < b < p.len() implies #[trigger] p[a]
                < #[trigger] p[b] by {
                if b < t {
                    assert(before[a] < before[b]);
                } else if a < t {
                    if a < t - 1 {
                        assert(before[a] < before[t - 1]);
                    }
                }
            }
            assert forall|q: Seq<int>| #[trigger] is_pick(bank, q, n as nat) implies settled(
                bank,
                p,
                q,
                t + 1,
            ) by {
                assert(settled(bank, before, q, t as int));
                if lost(bank, before, q, t as int) {
                    let k = choose|k: int|
                        0 <= k < t && bank[#[trigger] q[k]] < bank[before[k]] && forall|i: int|
                            0 <= i < k ==> bank[#[trigger] q[i]] == bank[before[i]];
                    assert(bank[q[k]] < bank[p[k]]);
                    assert forall|i: int| 0 <= i < k implies bank[#[trigger] q[i]]
                        == bank[p[i]] by {
                        assert(bank[q[i]] == bank[before[i]]);
                    }
                    assert(lost(bank, p, q, t + 1));
                } else {
                    lemma_spacing(bank, q, t as int, n - 1);
                    assert(q[n - 1] < bank.len());
                    if t > 0 {
                        assert(q[t - 1] < q[t as int]);
                    }
                    assert(start <= q[t as int] <= end);
                    if bank[q[t as int]] < bank[at as int] {
                        assert forall|i: int| 0 <= i < t implies bank[#[trigger] q[i]]
                            == bank[p[i]] by {
                            assert(bank[q[i]] == bank[before[i]]);
                        }
                        assert(lost(bank, p, q, t + 1));
                    } else {
                        assert(q[t as int] >= at);
                        assert forall|i: int| 0 <= i < t + 1 implies bank[#[trigger] q[i]]
                            == bank[p[i]] by {
                            if i < t {
                                assert(bank[q[i]] == bank[before[i]]);
                            }
                        }
                        assert(tied(bank, p, q, t + 1));
                    }
                }
            }
        }
        start = at + 1;
    }
    proof {
        lemma_picked_digits(bank, p);
    }
    let mut value: u64 = 0;
    for t in 0..chosen.len()
        invariant
            chosen.len() == n,
            n <= 19,
            all_digits(chosen@),
            value == decimal(chosen@.take(t as int)),
            value < ten_to(t as nat),
    {
        proof {
            assert(chosen@.take(t + 1).drop_last() =~= chosen@.take(t as int));
            assert(is_digit(chosen@[t as int]));
            lemma_ten_to_grows((t + 1) as nat, 19);
            assert(ten_to(19) == 10_000_000_000_000_000_000) by {
                reveal_with_fuel(ten_to, 20);
            }
        }
        value = value * 10 + (chosen[t] - 48) as u64;
    }
    proof {
        assert(chosen@.take(n as int) =~= chosen@);
        assert(is_pick(bank, p, n as nat));
        assert forall|q: Seq<int>| is_pick(bank, q, n as nat) implies decimal(
            #[trigger] picked(bank, q),
        ) <= value by {
            assert(settled(bank, p, q, n as int));
            lemma_picked_digits(bank, q);
            if lost(bank, p, q, n as int) {
                let k = choose|k: int|
                    0 <= k < n && bank[#[trigger] q[k]] < bank[p[k]] && forall|i: int|
                        0 <= i < k ==> bank[#[trigger] q[i]] == bank[p[i]];
                assert forall|i: int| 0 <= i < k implies picked(bank, q)[i] == picked(
                    bank,
                    p,
                )[i] by {
                    assert(bank[q[i]] == bank[p[i]]);
                }
                lemma_first_difference(picked(bank, q), picked(bank, p), k);
            } else {
                assert forall|i: int| 0 <= i < n implies picked(bank, q)[i] == picked(bank, p)[i] by {
                    assert(bank[q[i]] == bank[p[i]]);
                }
                assert(picked(bank, q) =~= picked(bank, p));
            }
        }
    }
    value
}

// ---------------------------------------------------------------------------
// Many banks
// ---------------------------------------------------------------------------

/// Every line is a bank: digits, at least one; and there is at least one
/// line.
pub open spec fn banks_well_formed(all: Seq<Seq<u8>>) -> bool {
    all.len() > 0 && forall|i: int|
        0 <= i < all.len() ==> (#[trigger] all[i]).len() > 0 && all_digits(all[i])
}

/// The banks in `input` without the blanks around it, one to a line; `None`
/// unless every line holds digits and nothing else.
pub fn parse_banks(input: &str) -> (r: Option<Vec<Vec<u8>>>)
    ensures
        r.is_some() <==> banks_well_formed(lines_of(trimmed(input.spec_bytes()))),
        r matches Some(banks) ==> views(banks@) == lines_of(trimmed(input.spec_bytes())),
{
    let body = trim(input.as_bytes());
    let banks = lines(body.as_slice());
    let ghost texts = lines_of(trimmed(input.spec_bytes()));
    if banks.len() == 0 {
        return None;
    }
    for i in 0..banks.len()
        invariant
            views(banks@) == texts,
            texts == lines_of(trimmed(input.spec_bytes())),
            forall|k: int| 0 <= k < i ==> (#[trigger] texts[k]).len() > 0 && all_digits(texts[k]),
    {
        proof {
            assert(views(banks@)[i as int] == banks[i as int]@);
        }
        if !is_bank(banks[i].as_slice()) {
            return None;
        }
    }
    Some(banks)
}

/// Whether the line is a bank: digits, at least one.
pub fn is_bank(line: &[u8]) -> (r: bool)
    ensures
        r == (line@.len() > 0 && all_digits(line@)),
{
    if line.len() == 0 {
        return false;
    }
    for j in 0..line.len()
        invariant
            forall|q: int| 0 <= q < j ==> is_digit(#[trigger] line@[q]),
    {
        let b = line[j];
        if !(48 <= b && b <= 57) {
            assert(!is_digit(line@[j as int]));
            return false;
        }
    }
    true
}

/// The greatest number that two digits of the bank spell in order.
pub open spec fn best_pair_of(bank: Seq<u8>) -> int {
    choose|best: int| is_best_pair(bank, best)
}

/// The sum of the best pairs of the first `k` banks.
pub open spec fn pairs_sum(all: Seq<Seq<u8>>, k: nat) -> int
    decreases k,
{
    if k == 0 {
        0
    } else {
        pairs_sum(all, (k - 1) as nat) + best_pair_of(all[k - 1])
    }
}

/// There is only one best pair value.
proof fn lemma_best_pair_unique(bank: Seq<u8>, a: int, b: int)
    requires
        is_best_pair(bank, a),
        is_best_pair(bank, b),
    ensures
        a == b,
{
    if bank.len() >= 2 {
        let (i, j) = choose|i: int, j: int|
            0 <= i < j < bank.len() && a == #[trigger] pair_value(bank, i, j);
        let (k, l) = choose|k: int, l: int|
            0 <= k < l < bank.len() && b == #[trigger] pair_value(bank, k, l);
        assert(pair_value(bank, i, j) <= b);
        assert(pair_value(bank, k, l) <= a);
    }
}

/// The sum of the best pairs does not shrink as banks of digits are added.
proof fn lemma_pairs_sum_grows(all: Seq<Seq<u8>>, i: nat, k: nat)
    requires
        i <= k <= all.len(),
        banks_well_formed(all),
    ensures
        pairs_sum(all, i) <= pairs_sum(all, k),
    decreases k,
{
    if i < k {
        lemma_pairs_sum_grows(all, i, (k - 1) as nat);
        lemma_best_pair_exists(all[k - 1]);
    }
}

/// Every bank of digits has a best pair value, and it is not negative.
proof fn lemma_best_pair_exists(bank: Seq<u8>)
    requires
        all_digits(bank),
    ensures
        is_best_pair(bank, best_pair_of(bank)),
        best_pair_of(bank) >= 0,
    decreases bank.len(),
{
    if bank.len() < 2 {
        assert(is_best_pair(bank, 0));
    } else {
        let shorter = bank.drop_last();
        assert(all_digits(shorter)) by {
            assert forall|i: int| 0 <= i < shorter.len() implies is_digit(#[trigger] shorter[i]) by {
                assert(shorter[i] == bank[i]);
            }
        }
        lemma_best_pair_exists(shorter);
        let inner = best_pair_of(shorter);
        let last = bank.len() - 1;
        // the best pair that ends at the last digit
        let lead = lemma_greatest_digit(bank, last as nat);
        let outer = pair_value(bank, lead, last);
        let best = if inner >= outer {
            inner
        } else {
            outer
        };
        assert forall|i: int, j: int| 0 <= i < j < bank.len() implies #[trigger] pair_value(
            bank,
            i,
            j,
        ) <= best by {
            if j < last {
                assert(pair_value(shorter, i, j) == pair_value(bank, i, j));
            } else {
                assert(bank[i] <= bank[lead]);
            }
        }
        if inner >= outer && shorter.len() >= 2 {
            let (i, j) = choose|i: int, j: int|
                0 <= i < j < shorter.len() && inner == #[trigger] pair_value(shorter, i, j);
            assert(pair_value(bank, i, j) == inner);
        } else {
            assert(is_digit(bank[lead]) && is_digit(bank[last]));
            assert(best == pair_value(bank, lead, last));
        }
        assert(is_best_pair(bank, best));
        assert(is_digit(bank[lead]) && is_digit(bank[last]));
    }
}

/// The place of a greatest digit among the first `k`.
proof fn lemma_greatest_digit(bank: Seq<u8>, k: nat) -> (at: int)
    requires
        0 < k <= bank.len(),
    ensures
        0 <= at < k,
        forall|i: int| 0 <= i < k ==> bank[i] <= bank[at],
    decreases k,
{
    if k == 1 {
        0
    } else {
        let before = lemma_greatest_digit(bank, (k - 1) as nat);
        if bank[k - 1] > bank[before] {
            k - 1
        } else {
            before
        }
    }
}

/// The sum over the banks in `input` of the greatest number that two
/// batteries of the bank give; `None` when the input is not a list of banks
/// or the sum is more than a `u32` holds.
pub fn part1(input: &str) -> (r: Option<u32>)
    ensures
        r.is_some() <==> banks_well_formed(lines_of(trimmed(input.spec_bytes()))) && pairs_sum(
            lines_of(trimmed(input.spec_bytes())),
            lines_of(trimmed(input.spec_bytes())).len(),
        ) <= u32::MAX,
        r matches Some(sum) ==> sum == pairs_sum(
            lines_of(trimmed(input.spec_bytes())),
            lines_of(trimmed(input.spec_bytes())).len(),
        ),
{
    let banks = match parse_banks(input) {
        Some(banks) => banks,
        None => {
            return None;
        },
    };
    let ghost texts = lines_of(trimmed(input.spec_bytes()));
    let mut sum: u32 = 0;
    for i in 0..banks.len()
        invariant
            views(banks@) == texts,
            texts == lines_of(trimmed(input.spec_bytes())),
            banks_well_formed(texts),
            sum == pairs_sum(texts, i as nat),
    {
        proof {
            assert(views(banks@)[i as int] == banks[i as int]@);
            lemma_best_pair_exists(texts[i as int]);
        }
        let best = best_pair(banks[i].as_slice());
        proof {
            lemma_best_pair_unique(texts[i as int], best as int, best_pair_of(texts[i as int]));
        }
        if best > u32::MAX - sum {
            proof {
                lemma_pairs_sum_grows(texts, (i + 1) as nat, texts.len());
            }
            return None;
        }
        sum = sum + best;
    }
    Some(sum)
}

/// The greatest number that `n` digits of the bank spell in their order.
pub open spec fn greatest_pick_of(bank: Seq<u8>, n: nat) -> int {
    choose|value: int| is_greatest_pick(bank, n, value)
}

/// The sum of the greatest picks of twelve digits of the first `k` banks.
pub open spec fn picks_sum(all: Seq<Seq<u8>>, k: nat) -> int
    decreases k,
{
    if k == 0 {
        0
    } else {
        picks_sum(all, (k - 1) as nat) + greatest_pick_of(all[k - 1], 12)
    }
}

/// Every bank has at least twelve batteries.
pub open spec fn long_enough(all: Seq<Seq<u8>>) -> bool {
    forall|i: int| 0 <= i < all.len() ==> (#[trigger] all[i]).len() >= 12
}

/// There is only one greatest pick value.
proof fn lemma_greatest_pick_unique(bank: Seq<u8>, n: nat, a: int, b: int)
    requires
        is_greatest_pick(bank, n, a),
        is_greatest_pick(bank, n, b),
    ensures
        a == b,
{
    let pa = choose|picks: Seq<int>|
        is_pick(bank, picks, n) && a == decimal(#[trigger] picked(bank, picks));
    let pb = choose|picks: Seq<int>|
        is_pick(bank, picks, n) && b == decimal(#[trigger] picked(bank, picks));
    assert(decimal(picked(bank, pa)) <= b);
    assert(decimal(picked(bank, pb)) <= a);
}

/// The sum does not shrink as banks are added whose greatest picks are not
/// negative.
proof fn lemma_picks_sum_grows(all: Seq<Seq<u8>>, i: nat, k: nat)
    requires
        i <= k <= all.len(),
        forall|j: int| 0 <= j < all.len() ==> greatest_pick_of(#[trigger] all[j], 12) >= 0,
    ensures
        picks_sum(all, i) <= picks_sum(all, k),
    decreases k,
{
    if i < k {
        lemma_picks_sum_grows(all, i, (k - 1) as nat);
    }
}

/// The sum over the banks in `input` of the greatest number that twelve
/// batteries of the bank give; `None` when the input is not a list of banks
/// of at least twelve batteries each, or the sum is more than a `u64` holds.
pub fn part2(input: &str) -> (r: Option<u64>)
    ensures
        r.is_some() <==> banks_well_formed(lines_of(trimmed(input.spec_bytes()))) && long_enough(
            lines_of(trimmed(input.spec_bytes())),
        ) && picks_sum(
            lines_of(trimmed(input.spec_bytes())),
            lines_of(trimmed(input.spec_bytes())).len(),
        ) <= u64::MAX,
        r matches Some(sum) ==> sum == picks_sum(
            lines_of(trimmed(input.spec_bytes())),
            lines_of(trimmed(input.spec_bytes())).len(),
        ),
{
    let banks = match parse_banks(input) {
        Some(banks) => banks,
        None => {
            return None;
        },
    };
    let ghost texts = lines_of(trimmed(input.spec_bytes()));
    let mut values: Vec<u64> = Vec::new();
    for i in 0..banks.len()
        invariant
            views(banks@) == texts,
            texts == lines_of(trimmed(input.spec_bytes())),
            banks_well_formed(texts),
            values.len() == i,
            forall|k: int| 0 <= k < i ==> (#[trigger] texts[k]).len() >= 12,
            forall|k: int| 0 <= k < i ==> greatest_pick_of(#[trigger] texts[k], 12) == values[k],
    {
        proof {
            assert(views(banks@)[i as int] == banks[i as int]@);
        }
        if banks[i].len() < 12 {
            proof {
                assert(texts[i as int].len() < 12);
            }
            return None;
        }
        let value = keep_digits(banks[i].as_slice(), 12);
        proof {
            lemma_greatest_pick_unique(
                texts[i as int],
                12,
                value as int,
                greatest_pick_of(texts[i as int], 12),
            );
        }
        values.push(value);
    }
    let mut sum: u64 = 0;
    for i in 0..values.len()
        invariant
            texts == lines_of(trimmed(input.spec_bytes())),
            values.len() == texts.len(),
            forall|k: int|
                0 <= k < texts.len() ==> greatest_pick_of(#[trigger] texts[k], 12) == values[k],
            sum == picks_sum(texts, i as nat),
    {
        if values[i] > u64::MAX - sum {
            proof {
                lemma_picks_sum_grows(texts, (i + 1) as nat, texts.len());
            }
            return None;
        }
        sum = sum + values[i];
    }
    Some(sum)
}

} // verus!
