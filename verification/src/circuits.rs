//! Junction boxes in space, joined pair by pair in the order of their
//! distances; the boxes that are joined, directly or not, form a circuit.

use crate::text::{lines, lines_of, parse_i64, split_at_byte, trim, trimmed, views};
use vstd::prelude::*;
use vstd::string::StringSliceAdditionalSpecFns;

verus! {

// ---------------------------------------------------------------------------
// Sets that are joined
// ---------------------------------------------------------------------------

/// The elements `0..n`, each in one set; sets can be joined.
pub struct UnionFind {
    parent: Vec<usize>,
    rank: Vec<usize>,
    /// For each element the one element of its set that stands for the set.
    head: Ghost<Seq<int>>,
    /// For each element a height that grows along the parents.
    height: Ghost<Seq<nat>>,
}

impl UnionFind {
    /// How many elements there are.
    pub closed spec fn size(&self) -> nat {
        self.parent.len() as nat
    }

    /// The element that stands for the set of `x`.
    pub closed spec fn head_of(&self, x: int) -> int {
        self.head@[x]
    }

    /// How far `x` lies below the element that stands for its set.
    pub closed spec fn climb(&self, x: int) -> int {
        self.height@[self.head@[x]] - self.height@[x]
    }

    /// For each element the element that stands for its set.
    pub closed spec fn heads(&self) -> Seq<int> {
        self.head@
    }

    /// How many sets there are.
    pub closed spec fn sets_count(&self) -> nat {
        heads_count(self.head@, self.head@.len())
    }

    /// For each element its height.
    pub closed spec fn heights(&self) -> Seq<nat> {
        self.height@
    }

    /// For each element its rank: a bound on the length of the chains of
    /// parents below it, by which the lower of two sets is put under the
    /// other when they are joined.
    pub closed spec fn ranks(&self) -> Seq<usize> {
        self.rank@
    }

    /// The sets are those of `before` with the sets of `x` and `y` joined.
    pub open spec fn joins(&self, before: &UnionFind, x: int, y: int) -> bool {
        forall|a: int, b: int|
            0 <= a < before.size() && 0 <= b < before.size() ==> (#[trigger] self.same_set(a, b)
                <==> before.same_set(a, b) || (before.same_set(a, x) && before.same_set(b, y))
                || (before.same_set(a, y) && before.same_set(b, x)))
    }

    /// The two elements are in the same set.
    pub open spec fn same_set(&self, a: int, b: int) -> bool {
        self.head_of(a) == self.head_of(b)
    }

    /// The structure is sound: every chain of parents ends at the element
    /// that stands for the set.
    pub closed spec fn wf(&self) -> bool {
        let n = self.parent.len();
        &&& self.rank.len() == n
        &&& self.head@.len() == n
        &&& self.height@.len() == n
        &&& forall|x: int| 0 <= x < n ==> (#[trigger] self.parent[x]) < n
        &&& forall|x: int|
            0 <= x < n ==> 0 <= (#[trigger] self.head@[x]) < n && self.head@[self.head@[x]]
                == self.head@[x] && self.parent[self.head@[x]] == self.head@[x]
        &&& forall|x: int|
            0 <= x < n ==> self.head@[(#[trigger] self.parent[x]) as int] == self.head@[x]
        &&& forall|x: int|
            0 <= x < n && (#[trigger] self.parent[x]) != x ==> self.height@[x]
                < self.height@[self.parent[x] as int]
        &&& forall|x: int| 0 <= x < n && (#[trigger] self.parent[x]) == x ==> self.head@[x] == x
        &&& forall|x: int| 0 <= x < n ==> (#[trigger] self.height@[x]) <= self.height@[self.head@[x]]
    }

    /// The heads are elements, and the head of a head is itself.
    pub proof fn lemma_heads(&self)
        requires
            self.wf(),
        ensures
            forall|x: int|
                0 <= x < self.size() ==> 0 <= #[trigger] self.head_of(x) < self.size()
                    && self.head_of(self.head_of(x)) == self.head_of(x),
    {
    }

    /// With one set, any two elements are in the same set; with two sets or
    /// more, two elements are not.
    pub proof fn lemma_sets_count(&self)
        requires
            self.wf(),
        ensures
            self.sets_count() <= 1 ==> forall|a: int, b: int|
                0 <= a < self.size() && 0 <= b < self.size() ==> #[trigger] self.same_set(a, b),
            self.sets_count() >= 2 ==> exists|a: int, b: int|
                0 <= a < self.size() && 0 <= b < self.size() && !#[trigger] self.same_set(a, b),
    {
        let heads = self.head@;
        if self.sets_count() <= 1 {
            assert forall|a: int, b: int|
                0 <= a < self.size() && 0 <= b < self.size() implies #[trigger] self.same_set(
                a,
                b,
            ) by {
                let ha = heads[a];
                let hb = heads[b];
                assert(heads[ha] == ha && heads[hb] == hb);
                if ha < hb {
                    lemma_single_head(heads, heads.len(), ha, hb);
                } else if hb < ha {
                    lemma_single_head(heads, heads.len(), hb, ha);
                }
            }
        }
        if self.sets_count() >= 2 {
            let (a, b) = lemma_two_heads(heads, heads.len());
            assert(!self.same_set(a, b));
        }
    }

    /// `size` elements, each in a set of its own.
    pub fn new(size: usize) -> (sets: UnionFind)
        ensures
            sets.wf(),
            sets.size() == size,
            sets.sets_count() == size,
            forall|x: int| 0 <= x < size ==> #[trigger] sets.head_of(x) == x,
    {
        let mut parent: Vec<usize> = Vec::new();
        let mut rank: Vec<usize> = Vec::new();
        for i in 0..size
            invariant
                parent.len() == i,
                rank.len() == i,
                forall|x: int| 0 <= x < i ==> parent[x] == x,
        {
            parent.push(i);
            rank.push(0);
        }
        proof {
            lemma_own_heads(Seq::new(size as nat, |x: int| x), size as nat);
        }
        UnionFind {
            parent,
            rank,
            head: Ghost(Seq::new(size as nat, |x: int| x)),
            height: Ghost(Seq::new(size as nat, |x: int| 0nat)),
        }
    }

    /// The element that stands for the set of `x`. The chain of parents of
    /// `x` is shortened on the way; the sets stay as they are.
    pub fn find(&mut self, x: usize) -> (root: usize)
        requires
            old(self).wf(),
            x < old(self).size(),
        ensures
            final(self).wf(),
            final(self).size() == old(self).size(),
            root == old(self).head_of(x as int),
            final(self).heads() == old(self).heads(),
            final(self).heights() == old(self).heights(),
            final(self).sets_count() == old(self).sets_count(),
        decreases old(self).climb(x as int),
    {
        let up = self.parent[x];
        if up != x {
            assert(self.head@[x as int] != x);
            assert(self.head@[up as int] == self.head@[x as int]);
            let root = self.find(up);
            let ghost mid = *self;
            assert(mid.parent[x as int] != x);
            assert(mid.height@[x as int] < mid.height@[mid.parent[x as int] as int]);
            assert(mid.height@[mid.parent[x as int] as int]
                <= mid.height@[mid.head@[mid.parent[x as int] as int]]);
            assert(mid.head@[mid.parent[x as int] as int] == mid.head@[x as int]);
            self.parent[x] = root;
            proof {
                assert forall|z: int| 0 <= z < self.parent.len() implies (
                #[trigger] self.parent[z]) < self.parent.len() && self.head@[self.parent[z] as int]
                    == self.head@[z] by {
                    if z != x {
                        assert(self.parent[z] == mid.parent[z]);
                    }
                }
                assert forall|z: int| 0 <= z < self.parent.len() && (#[trigger] self.parent[z])
                    != z implies self.height@[z] < self.height@[self.parent[z] as int] by {
                    if z != x {
                        assert(self.parent[z] == mid.parent[z]);
                    }
                }
                assert forall|z: int| 0 <= z < self.parent.len() && (#[trigger] self.parent[z])
                    == z implies self.head@[z] == z by {
                    if z != x {
                        assert(self.parent[z] == mid.parent[z]);
                    }
                }
                assert forall|z: int| 0 <= z < self.parent.len() implies 0 <= (
                #[trigger] self.head@[z]) < self.parent.len() && self.head@[self.head@[z]]
                    == self.head@[z] && self.parent[self.head@[z]] == self.head@[z] by {
                    assert(mid.parent[mid.head@[z]] == mid.head@[z]);
                    assert(mid.head@[z] != x);
                }
            }
            root
        } else {
            x
        }
    }

    /// Makes `top` the parent of `child`; both stand for their sets.
    fn link(&mut self, child: usize, top: usize)
        requires
            old(self).wf(),
            child < old(self).size(),
            top < old(self).size(),
            child != top,
            old(self).heads()[child as int] == child,
            old(self).heads()[top as int] == top,
        ensures
            final(self).wf(),
            final(self).size() == old(self).size(),
            final(self).heads() == relabelled(old(self).heads(), child as int, top as int),
            final(self).sets_count() + 1 == old(self).sets_count(),
    {
        let ghost before = *self;
        self.parent[child] = top;
        proof {
            let heads = before.head@;
            let heights = before.height@;
            let lifted = if heights[top as int] > heights[child as int] {
                heights[top as int]
            } else {
                heights[child as int] + 1
            };
            self.head@ = relabelled(heads, child as int, top as int);
            self.height@ = heights.update(top as int, lifted);
            lemma_relabelled_count(heads, child as int, top as int, heads.len());
            assert forall|z: int| 0 <= z < self.parent.len() implies (#[trigger] self.parent[z])
                < self.parent.len() by {
                if z != child {
                    assert(before.parent[z] == self.parent[z]);
                }
            }
            assert forall|z: int| 0 <= z < self.parent.len() && (#[trigger] self.parent[z])
                != z implies self.height@[z] < self.height@[self.parent[z] as int] by {
                if z != child {
                    assert(before.parent[z] == self.parent[z]);
                    assert(heights[z] < heights[before.parent[z] as int]);
                    assert(before.parent[top as int] == top);
                }
            }
            assert forall|z: int| 0 <= z < self.parent.len() implies (#[trigger] self.height@[z])
                <= self.height@[self.head@[z]] by {
                assert(heights[z] <= heights[heads[z]]);
            }
            assert forall|z: int| 0 <= z < self.parent.len() implies self.head@[(
            #[trigger] self.parent[z]) as int] == self.head@[z] by {
                if z != child {
                    assert(before.parent[z] == self.parent[z]);
                    assert(heads[before.parent[z] as int] == heads[z]);
                }
            }
            assert forall|z: int| 0 <= z < self.parent.len() implies 0 <= (
            #[trigger] self.head@[z]) < self.parent.len() && self.head@[self.head@[z]]
                == self.head@[z] && self.parent[self.head@[z]] == self.head@[z] by {
                assert(0 <= heads[z] < heads.len() && heads[heads[z]] == heads[z]
                    && before.parent[heads[z]] == heads[z]);
            }
            assert forall|z: int| 0 <= z < self.parent.len() && (#[trigger] self.parent[z])
                == z implies self.head@[z] == z by {
                assert(before.parent[z] == z);
                assert(heads[z] == z);
            }
        }
    }

    /// Raises the rank of `root` by one, unless it is the greatest already.
    /// The sets and the chains of parents stay as they are.
    fn raise(&mut self, root: usize)
        requires
            old(self).wf(),
            root < old(self).size(),
        ensures
            final(self).wf(),
            final(self).size() == old(self).size(),
            final(self).heads() == old(self).heads(),
            final(self).heights() == old(self).heights(),
            final(self).sets_count() == old(self).sets_count(),
            final(self).ranks() == old(self).ranks().update(
                root as int,
                raised(old(self).ranks()[root as int]),
            ),
    {
        if self.rank[root] < usize::MAX {
            self.rank[root] = self.rank[root] + 1;
        }
        assert(self.rank@ =~= old(self).rank@.update(
            root as int,
            raised(old(self).rank@[root as int]),
        ));
    }

    /// Whether the rank of `a` is below that of `b`.
    fn lower(&self, a: usize, b: usize) -> (r: bool)
        requires
            self.wf(),
            a < self.size(),
            b < self.size(),
        ensures
            r == (self.ranks()[a as int] < self.ranks()[b as int]),
    {
        self.rank[a] < self.rank[b]
    }

    /// Whether the ranks of `a` and `b` are the same.
    fn level(&self, a: usize, b: usize) -> (r: bool)
        requires
            self.wf(),
            a < self.size(),
            b < self.size(),
        ensures
            r == (self.ranks()[a as int] == self.ranks()[b as int]),
    {
        self.rank[a] == self.rank[b]
    }

    /// Joins the sets of `x` and `y`; returns whether they were two sets.
    pub fn union(&mut self, x: usize, y: usize) -> (joined: bool)
        requires
            old(self).wf(),
            x < old(self).size(),
            y < old(self).size(),
        ensures
            final(self).wf(),
            final(self).size() == old(self).size(),
            joined == !old(self).same_set(x as int, y as int),
            final(self).joins(old(self), x as int, y as int),
            final(self).sets_count() + (if joined {
                1nat
            } else {
                0nat
            }) == old(self).sets_count(),
    {
        proof {
            self.lemma_heads();
        }
        let root_x = self.find(x);
        let root_y = self.find(y);
        if root_x == root_y {
            return false;
        }
        proof {
            self.lemma_heads();
        }
        if self.lower(root_x, root_y) {
            self.link(root_x, root_y);
        } else if self.lower(root_y, root_x) {
            self.link(root_y, root_x);
        } else {
            self.link(root_y, root_x);
            self.raise(root_x);
        }
        true
    }

    /// The sizes of the sets, in the order of the elements that stand for
    /// them.
    pub fn component_sizes(&mut self) -> (sizes: Vec<usize>)
        requires
            old(self).wf(),
        ensures
            final(self).wf(),
            final(self).size() == old(self).size(),
            final(self).heads() == old(self).heads(),
            final(self).sets_count() == old(self).sets_count(),
            sizes@ == sizes_of(old(self).heads()),
    {
        let n = self.parent.len();
        let ghost heads = self.head@;
        let mut counts: Vec<usize> = Vec::new();
        for r in 0..n
            invariant
                counts.len() == r,
                forall|q: int| 0 <= q < r ==> counts[q] == 0,
        {
            counts.push(0);
        }
        for i in 0..n
            invariant
                self.wf(),
                self.parent.len() == n,
                self.head@ == heads,
                heads.len() == n,
                counts.len() == n,
                forall|r: int| 0 <= r < n ==> #[trigger] counts[r] == members(heads, r, i as nat),
        {
            let root = self.find(i);
            proof {
                lemma_members_bound(heads, root as int, i as nat);
            }
            counts[root] = counts[root] + 1;
        }
        let ghost all = member_counts(heads);
        let mut sizes: Vec<usize> = Vec::new();
        for r in 0..n
            invariant
                counts.len() == n,
                all.len() == n,
                forall|q: int| 0 <= q < n ==> #[trigger] counts[q] == all[q],
                sizes@ == positive(all, r as nat),
        {
            if counts[r] > 0 {
                sizes.push(counts[r]);
            }
        }
        sizes
    }
}

/// The rank one above `rank`, or `rank` itself if it is the greatest.
pub open spec fn raised(rank: usize) -> usize {
    if rank < usize::MAX {
        (rank + 1) as usize
    } else {
        rank
    }
}

/// How many of the first `k` elements stand for their own set.
pub open spec fn heads_count(heads: Seq<int>, k: nat) -> nat
    decreases k,
{
    if k == 0 {
        0
    } else {
        heads_count(heads, (k - 1) as nat) + if heads[k - 1] == k - 1 {
            1nat
        } else {
            0nat
        }
    }
}

/// Where every element stands for itself, there are as many sets as
/// elements.
proof fn lemma_own_heads(heads: Seq<int>, k: nat)
    requires
        k <= heads.len(),
        forall|x: int| 0 <= x < heads.len() ==> heads[x] == x,
    ensures
        heads_count(heads, k) == k,
    decreases k,
{
    if k > 0 {
        lemma_own_heads(heads, (k - 1) as nat);
    }
}

/// When the set of `child` goes over to `top`, one set fewer is left.
proof fn lemma_relabelled_count(heads: Seq<int>, child: int, top: int, k: nat)
    requires
        k <= heads.len(),
        0 <= child < heads.len(),
        0 <= top < heads.len(),
        child != top,
        heads[child] == child,
        heads[top] == top,
        forall|x: int| 0 <= x < heads.len() ==> 0 <= #[trigger] heads[x] < heads.len() && heads[heads[x]] == heads[x],
    ensures
        heads_count(relabelled(heads, child, top), k) + (if child < k {
            1nat
        } else {
            0nat
        }) == heads_count(heads, k),
    decreases k,
{
    if k > 0 {
        lemma_relabelled_count(heads, child, top, (k - 1) as nat);
        let z = k - 1;
        assert(heads[heads[z]] == heads[z]);
    }
}

/// Two heads among the first `k` elements, where there are at least two.
proof fn lemma_two_heads(heads: Seq<int>, k: nat) -> (pair: (int, int))
    requires
        k <= heads.len(),
        heads_count(heads, k) >= 2,
    ensures
        0 <= pair.0 < pair.1 < k,
        heads[pair.0] == pair.0,
        heads[pair.1] == pair.1,
    decreases k,
{
    if heads[k - 1] == k - 1 {
        let first = lemma_one_head(heads, (k - 1) as nat);
        (first, k - 1)
    } else {
        lemma_two_heads(heads, (k - 1) as nat)
    }
}

/// A head among the first `k` elements, where there is one.
proof fn lemma_one_head(heads: Seq<int>, k: nat) -> (head: int)
    requires
        k <= heads.len(),
        heads_count(heads, k) >= 1,
    ensures
        0 <= head < k,
        heads[head] == head,
    decreases k,
{
    if heads[k - 1] == k - 1 {
        k - 1
    } else {
        lemma_one_head(heads, (k - 1) as nat)
    }
}

/// Two heads among the first `k` elements make at least two sets.
proof fn lemma_single_head(heads: Seq<int>, k: nat, a: int, b: int)
    requires
        k <= heads.len(),
        0 <= a < b < k,
        heads[a] == a,
        heads[b] == b,
    ensures
        heads_count(heads, k) >= 2,
    decreases k,
{
    if b == k - 1 {
        lemma_head_counts(heads, (k - 1) as nat, a);
    } else {
        lemma_single_head(heads, (k - 1) as nat, a, b);
    }
}

/// A head among the first `k` elements is counted.
proof fn lemma_head_counts(heads: Seq<int>, k: nat, a: int)
    requires
        k <= heads.len(),
        0 <= a < k,
        heads[a] == a,
    ensures
        heads_count(heads, k) >= 1,
    decreases k,
{
    if a < k - 1 {
        lemma_head_counts(heads, (k - 1) as nat, a);
    }
}

/// How many of the first `k` elements have the head `r`.
pub open spec fn members(heads: Seq<int>, r: int, k: nat) -> nat
    decreases k,
{
    if k == 0 {
        0
    } else {
        members(heads, r, (k - 1) as nat) + if heads[k - 1] == r {
            1nat
        } else {
            0nat
        }
    }
}

/// Those of the first `k` counts that are not zero.
pub open spec fn positive(counts: Seq<nat>, k: nat) -> Seq<usize>
    decreases k,
{
    if k == 0 {
        Seq::<usize>::empty()
    } else {
        let before = positive(counts, (k - 1) as nat);
        if counts[k - 1] > 0 {
            before.push(counts[k - 1] as usize)
        } else {
            before
        }
    }
}

/// The heads once the set of `child` has gone over to `top`.
pub open spec fn relabelled(heads: Seq<int>, child: int, top: int) -> Seq<int> {
    Seq::new(
        heads.len(),
        |z: int|
            if heads[z] == child {
                top
            } else {
                heads[z]
            },
    )
}

/// The sizes of the sets, in the order of the elements that stand for them.
pub open spec fn sizes_of(heads: Seq<int>) -> Seq<usize> {
    positive(member_counts(heads), heads.len())
}

/// For each element the number of elements that it stands for.
pub open spec fn member_counts(heads: Seq<int>) -> Seq<nat> {
    Seq::new(heads.len(), |r: int| members(heads, r, heads.len()))
}

/// No head has more members among `k` elements than `k`.
proof fn lemma_members_bound(heads: Seq<int>, r: int, k: nat)
    ensures
        members(heads, r, k) <= k,
    decreases k,
{
    if k > 0 {
        lemma_members_bound(heads, r, (k - 1) as nat);
    }
}

// ---------------------------------------------------------------------------
// Positions and distances
// ---------------------------------------------------------------------------

/// The number that `s` spells, if it fits in an `i32`.
pub open spec fn i32_of(s: Seq<u8>) -> Option<i32> {
    match crate::text::signed_of(s) {
        Some(v) => if i32::MIN <= v <= i32::MAX {
            Some(v as i32)
        } else {
            None
        },
        None => None,
    }
}

/// The position that a line spells: numbers with commas between them, at
/// least three, of which the first three count.
pub open spec fn position_of(line: Seq<u8>) -> Option<(i32, i32, i32)> {
    let parts = crate::text::split_where(line, seq![44u8]);
    if parts.len() >= 3 && forall|k: int| 0 <= k < parts.len() ==> i32_of(#[trigger] parts[k]).is_some() {
        Some((i32_of(parts[0]).unwrap(), i32_of(parts[1]).unwrap(), i32_of(parts[2]).unwrap()))
    } else {
        None
    }
}

/// The number that `s` spells, if it fits in an `i32`.
pub fn parse_i32(s: &[u8]) -> (r: Option<i32>)
    ensures
        r == i32_of(s@),
{
    match parse_i64(s) {
        Some(v) => if -0x8000_0000 <= v && v <= 0x7fff_ffff {
            Some(v as i32)
        } else {
            None
        },
        None => None,
    }
}

/// The position that a line spells.
pub fn parse_position(line: &[u8]) -> (r: Option<(i32, i32, i32)>)
    ensures
        r == position_of(line@),
{
    let parts = split_at_byte(line, 44);
    let ghost texts = views(parts@);
    let mut numbers: Vec<i32> = Vec::new();
    for k in 0..parts.len()
        invariant
            texts == views(parts@),
            texts == crate::text::split_where(line@, seq![44u8]),
            numbers.len() == k,
            forall|q: int| 0 <= q < k ==> i32_of(#[trigger] texts[q]) == Some(numbers[q]),
    {
        assert(texts[k as int] == parts[k as int]@);
        match parse_i32(parts[k].as_slice()) {
            Some(v) => {
                numbers.push(v);
            },
            None => {
                assert(i32_of(texts[k as int]).is_none());
                return None;
            },
        }
    }
    if numbers.len() < 3 {
        return None;
    }
    Some((numbers[0], numbers[1], numbers[2]))
}

/// The positions in `input`, one to a line; `None` unless every line spells
/// a position.
pub fn parse_positions(input: &str) -> (r: Option<Vec<(i32, i32, i32)>>)
    ensures
        r.is_some() <==> forall|k: int|
            0 <= k < lines_of(input.spec_bytes()).len() ==> position_of(
                #[trigger] lines_of(input.spec_bytes())[k],
            ).is_some(),
        r matches Some(list) ==> list.len() == lines_of(input.spec_bytes()).len() && forall|k: int|
            0 <= k < list.len() ==> position_of(lines_of(input.spec_bytes())[k]) == Some(
                #[trigger] list[k],
            ),
{
    read_positions(input.as_bytes())
}

/// As `parse_positions`, on bytes.
pub fn read_positions(input: &[u8]) -> (r: Option<Vec<(i32, i32, i32)>>)
    ensures
        r.is_some() <==> forall|k: int|
            0 <= k < lines_of(input@).len() ==> position_of(#[trigger] lines_of(input@)[k]).is_some(),
        r matches Some(list) ==> list.len() == lines_of(input@).len() && forall|k: int|
            0 <= k < list.len() ==> position_of(lines_of(input@)[k]) == Some(#[trigger] list[k]),
{
    let all = lines(input);
    let ghost texts = lines_of(input@);
    let mut list: Vec<(i32, i32, i32)> = Vec::new();
    for k in 0..all.len()
        invariant
            views(all@) == texts,
            texts == lines_of(input@),
            list.len() == k,
            forall|q: int| 0 <= q < k ==> position_of(#[trigger] texts[q]) == Some(list[q]),
    {
        assert(texts[k as int] == all[k as int]@);
        match parse_position(all[k].as_slice()) {
            Some(p) => {
                list.push(p);
            },
            None => {
                assert(position_of(texts[k as int]).is_none());
                return None;
            },
        }
    }
    Some(list)
}

/// The square of the distance between two positions.
pub open spec fn squared(a: (i32, i32, i32), b: (i32, i32, i32)) -> int {
    (a.0 - b.0) * (a.0 - b.0) + (a.1 - b.1) * (a.1 - b.1) + (a.2 - b.2) * (a.2 - b.2)
}

/// The square of the distance between two positions; `None` when it is more
/// than an `i64` holds.
pub fn distance_squared(a: (i32, i32, i32), b: (i32, i32, i32)) -> (d: Option<i64>)
    ensures
        d.is_some() <==> squared(a, b) <= i64::MAX,
        d matches Some(v) ==> v == squared(a, b),
{
    let dx = a.0 as i128 - b.0 as i128;
    let dy = a.1 as i128 - b.1 as i128;
    let dz = a.2 as i128 - b.2 as i128;
    assert(0 <= dx * dx <= 0x1_0000_0000_0000_0000) by (nonlinear_arith)
        requires
            -0x1_0000_0000 <= dx <= 0x1_0000_0000,
    ;
    assert(0 <= dy * dy <= 0x1_0000_0000_0000_0000) by (nonlinear_arith)
        requires
            -0x1_0000_0000 <= dy <= 0x1_0000_0000,
    ;
    assert(0 <= dz * dz <= 0x1_0000_0000_0000_0000) by (nonlinear_arith)
        requires
            -0x1_0000_0000 <= dz <= 0x1_0000_0000,
    ;
    let total = dx * dx + dy * dy + dz * dz;
    if total <= 0x7fff_ffff_ffff_ffff {
        Some(total as i64)
    } else {
        None
    }
}

/// `a` comes before `b`, or is `b`: by distance first, then by the first
/// box, then by the second.
pub open spec fn pair_le(a: (i64, usize, usize), b: (i64, usize, usize)) -> bool {
    a.0 < b.0 || (a.0 == b.0 && (a.1 < b.1 || (a.1 == b.1 && a.2 <= b.2)))
}

/// The pairs are in order.
pub open spec fn in_pair_order(edges: Seq<(i64, usize, usize)>) -> bool {
    forall|a: int, b: int|
        0 <= a < b < edges.len() ==> pair_le(#[trigger] edges[a], #[trigger] edges[b])
}

/// Sorts the pairs with `sort` of the standard library, which compares
/// tuples entry by entry from the left: afterwards the pairs are in order,
/// and they are the same as before, each as often as before.
#[verifier::external_body]
fn sort_pairs(edges: &mut Vec<(i64, usize, usize)>)
    ensures
        in_pair_order(final(edges)@),
        final(edges)@.to_multiset() == old(edges)@.to_multiset(),
{
    edges.sort();
}

/// The list has an entry for the boxes `i` and `j`.
pub open spec fn names_pair(edges: Seq<(i64, usize, usize)>, i: int, j: int) -> bool {
    exists|k: int| 0 <= k < edges.len() && (#[trigger] edges[k]).1 == i && edges[k].2 == j
}

/// Every entry names two boxes, the first before the second, with the square
/// of their distance.
pub open spec fn pairs_measured(
    positions: Seq<(i32, i32, i32)>,
    edges: Seq<(i64, usize, usize)>,
) -> bool {
    forall|k: int|
        0 <= k < edges.len() ==> (#[trigger] edges[k]).1 < edges[k].2 < positions.len()
            && edges[k].0 == squared(positions[edges[k].1 as int], positions[edges[k].2 as int])
}

/// The list holds every pair of boxes once, with the square of its distance,
/// the closest pair first; pairs at the same distance come in the order of
/// their boxes.
pub open spec fn is_pair_list(
    positions: Seq<(i32, i32, i32)>,
    edges: Seq<(i64, usize, usize)>,
) -> bool {
    &&& pairs_measured(positions, edges)
    &&& forall|i: int, j: int| 0 <= i < j < positions.len() ==> #[trigger] names_pair(edges, i, j)
    &&& in_pair_order(edges)
    &&& edges.no_duplicates()
}

/// The square of the distance of some pair of boxes is more than an `i64`
/// holds.
pub open spec fn too_far(positions: Seq<(i32, i32, i32)>) -> bool {
    exists|i: int, j: int|
        0 <= i < j < positions.len() && squared(#[trigger] positions[i], #[trigger] positions[j])
            > i64::MAX
}

/// Every pair of boxes with the square of its distance, the closest pair
/// first; `None` when a distance is too big.
pub fn sorted_pairs(positions: &Vec<(i32, i32, i32)>) -> (r: Option<Vec<(i64, usize, usize)>>)
    ensures
        r.is_none() <==> too_far(positions@),
        r matches Some(edges) ==> is_pair_list(positions@, edges@),
{
    let n = positions.len();
    let mut edges: Vec<(i64, usize, usize)> = Vec::new();
    for i in 0..n
        invariant
            n == positions.len(),
            pairs_measured(positions@, edges@),
            forall|k: int| 0 <= k < edges.len() ==> (#[trigger] edges[k]).1 < i,
            forall|a: int, b: int|
                0 <= a < b < edges.len() ==> (#[trigger] edges[a]).1 < (#[trigger] edges[b]).1 || (
                edges[a].1 == edges[b].1 && edges[a].2 < edges[b].2),
            forall|a: int, b: int| 0 <= a < i && a < b < n ==> #[trigger] names_pair(edges@, a, b),
            forall|a: int, b: int|
                0 <= a < i && a < b < n ==> squared(#[trigger] positions[a], #[trigger] positions[b])
                    <= i64::MAX,
    {
        for j in (i + 1)..n
            invariant
                n == positions.len(),
                i < n,
                pairs_measured(positions@, edges@),
                forall|k: int|
                    0 <= k < edges.len() ==> (#[trigger] edges[k]).1 < i || (edges[k].1 == i
                        && edges[k].2 < j),
                forall|a: int, b: int|
                    0 <= a < b < edges.len() ==> (#[trigger] edges[a]).1 < (
                    #[trigger] edges[b]).1 || (edges[a].1 == edges[b].1 && edges[a].2
                        < edges[b].2),
                forall|a: int, b: int|
                    0 <= a < i && a < b < n ==> #[trigger] names_pair(edges@, a, b),
                forall|b: int| i < b < j ==> #[trigger] names_pair(edges@, i as int, b),
                forall|a: int, b: int|
                    0 <= a < i && a < b < n ==> squared(
                        #[trigger] positions[a],
                        #[trigger] positions[b],
                    ) <= i64::MAX,
                forall|b: int|
                    i < b < j ==> squared(positions[i as int], #[trigger] positions[b]) <= i64::MAX,
        {
            match distance_squared(positions[i], positions[j]) {
                Some(d) => {
                    let ghost before = edges@;
                    edges.push((d, i, j));
                    proof {
                        assert forall|a: int, b: int|
                            0 <= a < i && a < b < n implies #[trigger] names_pair(edges@, a, b) by {
                            assert(names_pair(before, a, b));
                            let k = choose|k: int|
                                0 <= k < before.len() && (#[trigger] before[k]).1 == a
                                    && before[k].2 == b;
                            assert(edges@[k].1 == a && edges@[k].2 == b);
                        }
                        assert forall|b: int| i < b < j + 1 implies #[trigger] names_pair(
                            edges@,
                            i as int,
                            b,
                        ) by {
                            if b < j {
                                assert(names_pair(before, i as int, b));
                                let k = choose|k: int|
                                    0 <= k < before.len() && (#[trigger] before[k]).1 == i
                                        && before[k].2 == b;
                                assert(edges@[k].1 == i && edges@[k].2 == b);
                            } else {
                                assert(edges@[before.len() as int].1 == i);
                            }
                        }
                    }
                },
                None => {
                    assert(squared(positions@[i as int], positions@[j as int]) > i64::MAX);
                    return None;
                },
            }
        }
    }
    let ghost before = edges@;
    sort_pairs(&mut edges);
    proof {
        before.to_multiset_ensures();
        edges@.to_multiset_ensures();
        assert(before.no_duplicates()) by {
            assert forall|a: int, b: int| 0 <= a < before.len() && 0 <= b < before.len() && a
                != b implies before[a] != before[b] by {
                if a < b {
                    assert(before[a].1 < before[b].1 || (before[a].1 == before[b].1 && before[a].2
                        < before[b].2));
                } else {
                    assert(before[b].1 < before[a].1 || (before[b].1 == before[a].1 && before[b].2
                        < before[a].2));
                }
            }
        }
        before.lemma_multiset_has_no_duplicates();
        edges@.lemma_multiset_has_no_duplicates_conv();
        assert forall|k: int| 0 <= k < edges.len() implies (#[trigger] edges@[k]).1 < edges@[k].2
            < n && edges@[k].0 == squared(
            positions@[edges@[k].1 as int],
            positions@[edges@[k].2 as int],
        ) by {
            assert(edges@.contains(edges@[k]));
            assert(before.to_multiset().count(edges@[k]) > 0);
            assert(before.contains(edges@[k]));
            let w = choose|w: int| 0 <= w < before.len() && before[w] == edges@[k];
            assert(before[w].1 < before[w].2);
        }
        assert forall|i: int, j: int| 0 <= i < j < n implies #[trigger] names_pair(edges@, i, j) by {
            assert(names_pair(before, i, j));
            let k = choose|k: int|
                0 <= k < before.len() && (#[trigger] before[k]).1 == i && before[k].2 == j;
            assert(before.contains(before[k]));
            assert(edges@.to_multiset().count(before[k]) > 0);
            assert(edges@.contains(before[k]));
            let w = choose|w: int| 0 <= w < edges.len() && edges@[w] == before[k];
            assert(edges@[w].1 == i);
        }
        assert(!too_far(positions@)) by {
            if too_far(positions@) {
                let (i, j) = choose|i: int, j: int|
                    0 <= i < j < positions.len() && squared(
                        #[trigger] positions@[i],
                        #[trigger] positions@[j],
                    ) > i64::MAX;
                assert(squared(positions@[i], positions@[j]) <= i64::MAX);
            }
        }
    }
    Some(edges)
}

// ---------------------------------------------------------------------------
// Circuits
// ---------------------------------------------------------------------------

/// The boxes `a` and `b` are in one circuit once the first `k` pairs are
/// joined.
pub open spec fn linked(edges: Seq<(i64, usize, usize)>, k: nat, a: int, b: int) -> bool
    decreases k,
{
    if k == 0 {
        a == b
    } else {
        let before = (k - 1) as nat;
        let i = edges[k - 1].1 as int;
        let j = edges[k - 1].2 as int;
        linked(edges, before, a, b) || (linked(edges, before, a, i) && linked(edges, before, b, j))
            || (linked(edges, before, a, j) && linked(edges, before, b, i))
    }
}

/// How many of the first `m` boxes are in the circuit of `a`.
pub open spec fn circuit_size(edges: Seq<(i64, usize, usize)>, k: nat, a: int, m: nat) -> nat
    decreases m,
{
    if m == 0 {
        0
    } else {
        circuit_size(edges, k, a, (m - 1) as nat) + if linked(edges, k, m - 1, a) {
            1nat
        } else {
            0nat
        }
    }
}

/// The product of the sizes of the circuits of the first `t` of the boxes
/// `reps`.
pub open spec fn sizes_product(
    edges: Seq<(i64, usize, usize)>,
    k: nat,
    n: nat,
    reps: Seq<int>,
    t: nat,
) -> int
    decreases t,
{
    if t == 0 {
        1
    } else {
        sizes_product(edges, k, n, reps, (t - 1) as nat) * circuit_size(edges, k, reps[t - 1], n)
    }
}

/// The box `a` is in the circuit of one of the boxes `reps`.
pub open spec fn among(edges: Seq<(i64, usize, usize)>, k: nat, reps: Seq<int>, a: int) -> bool {
    exists|t: int| 0 <= t < reps.len() && linked(edges, k, a, #[trigger] reps[t])
}

/// The boxes `reps` stand for the largest circuits: for three circuits of
/// which no other is larger, or for all circuits if there are fewer than
/// three.
pub open spec fn stand_for_largest(
    edges: Seq<(i64, usize, usize)>,
    k: nat,
    n: nat,
    reps: Seq<int>,
) -> bool {
    &&& reps.len() <= 3
    &&& forall|t: int| 0 <= t < reps.len() ==> 0 <= #[trigger] reps[t] < n
    &&& forall|t: int, u: int|
        0 <= t < u < reps.len() ==> !linked(edges, k, #[trigger] reps[t], #[trigger] reps[u])
    &&& forall|a: int|
        0 <= a < n ==> #[trigger] among(edges, k, reps, a) || (reps.len() == 3 && forall|t: int|
            0 <= t < reps.len() ==> circuit_size(edges, k, a, n) <= circuit_size(
                edges,
                k,
                #[trigger] reps[t],
                n,
            ))
}

/// `p` is the product of the sizes of the three largest circuits, or of all
/// circuits if there are fewer than three.
pub open spec fn is_largest_product(
    edges: Seq<(i64, usize, usize)>,
    k: nat,
    n: nat,
    p: int,
) -> bool {
    exists|reps: Seq<int>|
        #![trigger stand_for_largest(edges, k, n, reps)]
        stand_for_largest(edges, k, n, reps) && p == sizes_product(edges, k, n, reps, reps.len())
}

/// The places of the counts among the first `k` that are not zero.
pub open spec fn kept_places(counts: Seq<nat>, k: nat) -> Seq<int>
    decreases k,
{
    if k == 0 {
        Seq::<int>::empty()
    } else {
        let before = kept_places(counts, (k - 1) as nat);
        if counts[k - 1] > 0 {
            before.push(k - 1)
        } else {
            before
        }
    }
}

/// The counts that are kept are those at the kept places.
proof fn lemma_kept_places(counts: Seq<nat>, k: nat)
    requires
        k <= counts.len(),
        forall|r: int| 0 <= r < counts.len() ==> #[trigger] counts[r] <= usize::MAX,
    ensures
        positive(counts, k).len() == kept_places(counts, k).len(),
        forall|t: int|
            0 <= t < kept_places(counts, k).len() ==> 0 <= #[trigger] kept_places(counts, k)[t] < k
                && counts[kept_places(counts, k)[t]] > 0 && positive(counts, k)[t]
                == counts[kept_places(counts, k)[t]],
        forall|t: int, u: int|
            0 <= t < u < kept_places(counts, k).len() ==> #[trigger] kept_places(counts, k)[t]
                < #[trigger] kept_places(counts, k)[u],
        forall|r: int|
            0 <= r < k && #[trigger] counts[r] > 0 ==> kept_places(counts, k).contains(r),
    decreases k,
{
    if k > 0 {
        lemma_kept_places(counts, (k - 1) as nat);
        let before = kept_places(counts, (k - 1) as nat);
        let now = kept_places(counts, k);
        assert forall|r: int| 0 <= r < k && #[trigger] counts[r] > 0 implies now.contains(r) by {
            if r < k - 1 {
                assert(before.contains(r));
                let w = choose|w: int| 0 <= w < before.len() && before[w] == r;
                assert(now[w] == r);
            } else {
                assert(now[now.len() - 1] == r);
            }
        }
    }
}

/// A box has as many members under its head as its circuit has boxes.
proof fn lemma_members_are_circuit(
    heads: Seq<int>,
    edges: Seq<(i64, usize, usize)>,
    k: nat,
    a: int,
    m: nat,
)
    requires
        m <= heads.len(),
        0 <= a < heads.len(),
        forall|x: int, y: int|
            0 <= x < heads.len() && 0 <= y < heads.len() ==> (heads[x] == heads[y]) == #[trigger] linked(
                edges,
                k,
                x,
                y,
            ),
    ensures
        members(heads, heads[a], m) == circuit_size(edges, k, a, m),
    decreases m,
{
    if m > 0 {
        lemma_members_are_circuit(heads, edges, k, a, (m - 1) as nat);
        assert((heads[m - 1] == heads[a]) == linked(edges, k, m - 1, a));
    }
}

/// The product of the sizes at the first `t` of the places `picks`.
pub open spec fn picked_product(sizes: Seq<usize>, picks: Seq<int>, t: nat) -> int
    decreases t,
{
    if t == 0 {
        1
    } else {
        picked_product(sizes, picks, (t - 1) as nat) * sizes[picks[t - 1]]
    }
}

/// The places `picks` hold the three greatest sizes, or all sizes if there
/// are fewer than three.
pub open spec fn hold_greatest(sizes: Seq<usize>, picks: Seq<int>) -> bool {
    &&& picks.len() == if sizes.len() < 3 {
        sizes.len()
    } else {
        3
    }
    &&& forall|t: int| 0 <= t < picks.len() ==> 0 <= #[trigger] picks[t] < sizes.len()
    &&& forall|t: int, u: int| 0 <= t < u < picks.len() ==> #[trigger] picks[t] != #[trigger] picks[u]
    &&& forall|o: int, t: int|
        0 <= o < sizes.len() && 0 <= t < picks.len() && !picks.contains(o) ==> #[trigger] sizes[o]
            <= sizes[#[trigger] picks[t]]
}

/// The product of the three greatest sizes, or of all of them if there are
/// fewer, with the places of those sizes; `None` when the product is more
/// than a `usize` holds.
fn greatest_three(sizes: &Vec<usize>) -> (r: (Option<usize>, Ghost<Seq<int>>))
    requires
        forall|k: int| 0 <= k < sizes.len() ==> #[trigger] sizes[k] >= 1,
    ensures
        hold_greatest(sizes@, r.1@),
        match r.0 {
            Some(p) => p == picked_product(sizes@, r.1@, r.1@.len()),
            None => picked_product(sizes@, r.1@, r.1@.len()) > usize::MAX,
        },
{
    let mut first: usize = 0;
    let mut second: usize = 0;
    let mut third: usize = 0;
    let mut count: usize = 0;
    let ghost mut picks: Seq<int> = Seq::empty();
    for k in 0..sizes.len()
        invariant
            forall|q: int| 0 <= q < sizes.len() ==> #[trigger] sizes[q] >= 1,
            count == if k < 3 {
                k
            } else {
                3
            },
            picks.len() == count,
            forall|t: int| 0 <= t < picks.len() ==> 0 <= #[trigger] picks[t] < k,
            forall|t: int, u: int|
                0 <= t < u < picks.len() ==> #[trigger] picks[t] != #[trigger] picks[u],
            count >= 1 ==> first == sizes[picks[0]],
            count >= 2 ==> second == sizes[picks[1]] && first >= second,
            count >= 3 ==> third == sizes[picks[2]] && second >= third,
            count < 1 ==> first == 0,
            count < 2 ==> second == 0,
            count < 3 ==> third == 0,
            forall|o: int, t: int|
                0 <= o < k && 0 <= t < picks.len() && !picks.contains(o) ==> #[trigger] sizes[o]
                    <= sizes[#[trigger] picks[t]],
    {
        let size = sizes[k];
        let ghost before = picks;
        let ghost old_count = count;
        if count < 3 {
            count += 1;
        }
        if size > first {
            third = second;
            second = first;
            first = size;
            proof {
                picks = if old_count == 0 {
                    seq![k as int]
                } else if old_count == 1 {
                    seq![k as int, before[0]]
                } else {
                    seq![k as int, before[0], before[1]]
                };
            }
        } else if size > second {
            third = second;
            second = size;
            proof {
                picks = if old_count == 1 {
                    seq![before[0], k as int]
                } else {
                    seq![before[0], k as int, before[1]]
                };
            }
        } else if size > third {
            third = size;
            proof {
                picks = seq![before[0], before[1], k as int];
            }
        }
        proof {
            assert forall|o: int, t: int|
                0 <= o < k + 1 && 0 <= t < picks.len() && !picks.contains(o) implies #[trigger] sizes[o]
                <= sizes[#[trigger] picks[t]] by {
                if o < k {
                    if before.contains(o) {
                        let w = choose|w: int| 0 <= w < before.len() && before[w] == o;
                        // `o` was among the picks and is not any more: it was the least
                        if old_count == 3 {
                            if w == 0 {
                                assert(picks[1] == o || picks[0] == o);
                            } else if w == 1 {
                                assert(picks[2] == o || picks[1] == o);
                            }
                        } else if old_count == 2 {
                            if w == 0 {
                                assert(picks[1] == o || picks[0] == o);
                            } else {
                                assert(picks[2] == o || picks[1] == o);
                            }
                        } else if old_count == 1 {
                            assert(picks[1] == o || picks[0] == o);
                        }
                    } else {
                        if old_count == 3 {
                            assert(sizes[o] <= sizes[before[0]]);
                            assert(sizes[o] <= sizes[before[1]]);
                            assert(sizes[o] <= sizes[before[2]]);
                        } else if old_count == 2 {
                            assert(false);
                        }
                    }
                } else {
                    // the new size was not taken: three greater sizes are held
                }
            }
        }
    }
    let mut product: usize = 1;
    if count >= 1 {
        product = match product.checked_mul(first) {
            Some(p) => p,
            None => {
                return (None, Ghost(picks));
            },
        };
    }
    if count >= 2 {
        product = match product.checked_mul(second) {
            Some(p) => p,
            None => {
                proof {
                    if count == 3 {
                        assert(first * second * third >= first * second) by (nonlinear_arith)
                            requires
                                first >= 1,
                                second >= 1,
                                third >= 1,
                        ;
                    }
                    reveal_with_fuel(picked_product, 4);
                }
                return (None, Ghost(picks));
            },
        };
    }
    if count >= 3 {
        product = match product.checked_mul(third) {
            Some(p) => p,
            None => {
                proof {
                    reveal_with_fuel(picked_product, 4);
                }
                return (None, Ghost(picks));
            },
        };
    }
    proof {
        reveal_with_fuel(picked_product, 4);
    }
    (Some(product), Ghost(picks))
}

/// The positions that the lines spell.
pub open spec fn positions_of(all: Seq<Seq<u8>>) -> Seq<(i32, i32, i32)> {
    Seq::new(all.len(), |k: int| position_of(all[k]).unwrap())
}

/// Every line spells a position.
pub open spec fn positions_well_formed(all: Seq<Seq<u8>>) -> bool {
    forall|k: int| 0 <= k < all.len() ==> position_of(#[trigger] all[k]).is_some()
}

/// The lesser of the two numbers.
pub open spec fn at_most(a: nat, b: nat) -> nat {
    if a < b {
        a
    } else {
        b
    }
}

/// `r` is what joining the `connections` closest pairs of the boxes gives:
/// the product of the sizes of the three largest circuits, or of all of them
/// if there are fewer; nothing when a distance or the product is too big.
pub open spec fn is_circuit_product(
    positions: Seq<(i32, i32, i32)>,
    connections: nat,
    r: Option<usize>,
) -> bool {
    if too_far(positions) {
        r.is_none()
    } else {
        exists|edges: Seq<(i64, usize, usize)>|
            #![trigger is_pair_list(positions, edges)]
            is_pair_list(positions, edges) && match r {
                Some(p) => is_largest_product(
                    edges,
                    at_most(connections, edges.len()),
                    positions.len(),
                    p as int,
                ),
                None => exists|big: int|
                    #![trigger is_largest_product(edges, at_most(connections, edges.len()), positions.len(), big)]
                    big > usize::MAX && is_largest_product(
                        edges,
                        at_most(connections, edges.len()),
                        positions.len(),
                        big,
                    ),
            }
    }
}

/// Joins the `num_connections` closest pairs of the boxes and multiplies the
/// sizes of the three largest circuits.
pub fn largest_circuits(positions: &Vec<(i32, i32, i32)>, num_connections: usize) -> (r: Option<
    usize,
>)
    ensures
        is_circuit_product(positions@, num_connections as nat, r),
{
    let n = positions.len();
    let edges = match sorted_pairs(positions) {
        Some(edges) => edges,
        None => {
            return None;
        },
    };
    let mut sets = UnionFind::new(n);
    let limit = if num_connections < edges.len() {
        num_connections
    } else {
        edges.len()
    };
    for k in 0..limit
        invariant
            limit <= edges.len(),
            sets.wf(),
            sets.size() == n,
            pairs_measured(positions@, edges@),
            n == positions.len(),
            forall|a: int, b: int|
                0 <= a < n && 0 <= b < n ==> #[trigger] sets.same_set(a, b) == linked(
                    edges@,
                    k as nat,
                    a,
                    b,
                ),
    {
        let (_, i, j) = edges[k];
        let ghost before = sets;
        sets.union(i, j);
        proof {
            assert forall|a: int, b: int| 0 <= a < n && 0 <= b < n implies #[trigger] sets.same_set(
                a,
                b,
            ) == linked(edges@, (k + 1) as nat, a, b) by {
                assert(before.same_set(a, b) == linked(edges@, k as nat, a, b));
                assert(before.same_set(a, i as int) == linked(edges@, k as nat, a, i as int));
                assert(before.same_set(b, j as int) == linked(edges@, k as nat, b, j as int));
                assert(before.same_set(a, j as int) == linked(edges@, k as nat, a, j as int));
                assert(before.same_set(b, i as int) == linked(edges@, k as nat, b, i as int));
            }
        }
    }
    let ghost joined = sets;
    let ghost heads = sets.heads();
    proof {
        sets.lemma_heads();
    }
    let sizes = sets.component_sizes();
    let ghost counts = member_counts(heads);
    proof {
        assert forall|r: int| 0 <= r < counts.len() implies #[trigger] counts[r] <= usize::MAX by {
            lemma_members_bound(heads, r, heads.len());
        }
        lemma_kept_places(counts, counts.len());
        assert(sizes@ == positive(counts, counts.len()));
        assert forall|q: int| 0 <= q < sizes.len() implies #[trigger] sizes[q] >= 1 by {
            let place = kept_places(counts, counts.len())[q];
            assert(counts[place] > 0);
        }
    }
    let (product, Ghost(picks)) = greatest_three(&sizes);
    proof {
        let done = limit as nat;
        let places = kept_places(counts, counts.len());
        let reps = Seq::new(picks.len(), |t: int| places[picks[t]]);
        assert forall|x: int, y: int| 0 <= x < heads.len() && 0 <= y < heads.len() implies (heads[x]
            == heads[y]) == #[trigger] linked(edges@, done, x, y) by {
            assert(joined.same_set(x, y) == linked(edges@, done, x, y));
        }
        // a place that is kept is the head of its members
        assert forall|t: int| 0 <= t < places.len() implies heads[#[trigger] places[t]]
            == places[t] by {
            let r = places[t];
            lemma_head_has_members(heads, r, heads.len());
        }
        assert forall|t: int| 0 <= t < picks.len() implies circuit_size(
            edges@,
            done,
            #[trigger] reps[t],
            n as nat,
        ) == sizes[picks[t]] by {
            lemma_members_are_circuit(heads, edges@, done, reps[t], n as nat);
        }
        assert forall|t: nat| t <= picks.len() implies sizes_product(
            edges@,
            done,
            n as nat,
            reps,
            t,
        ) == picked_product(sizes@, picks, t) by {
            lemma_products_agree(edges@, done, n as nat, reps, sizes@, picks, t);
        }
        assert(stand_for_largest(edges@, done, n as nat, reps)) by {
            assert forall|t: int, u: int| 0 <= t < u < reps.len() implies !linked(
                edges@,
                done,
                #[trigger] reps[t],
                #[trigger] reps[u],
            ) by {
                assert(picks[t] != picks[u]);
                if picks[t] < picks[u] {
                    assert(places[picks[t]] < places[picks[u]]);
                } else {
                    assert(places[picks[u]] < places[picks[t]]);
                }
            }
            assert forall|a: int| 0 <= a < n implies #[trigger] among(edges@, done, reps, a) || (
            reps.len() == 3 && forall|t: int|
                0 <= t < reps.len() ==> circuit_size(edges@, done, a, n as nat) <= circuit_size(
                    edges@,
                    done,
                    #[trigger] reps[t],
                    n as nat,
                )) by {
                let h = heads[a];
                lemma_members_are_circuit(heads, edges@, done, a, n as nat);
                lemma_member_counts(heads, a, heads.len());
                assert(counts[h] > 0);
                assert(places.contains(h));
                let o = choose|o: int| 0 <= o < places.len() && places[o] == h;
                if picks.contains(o) {
                    let t = choose|t: int| 0 <= t < picks.len() && picks[t] == o;
                    assert(reps[t] == h);
                    assert(linked(edges@, done, a, reps[t]));
                } else {
                    if sizes.len() == 1 {
                        assert(picks[0] == o);
                    } else if sizes.len() == 2 {
                        assert(picks[0] != picks[1]);
                        assert(picks[0] == o || picks[1] == o);
                    }
                    assert(picks.len() == 3);
                    assert forall|t: int| 0 <= t < reps.len() implies circuit_size(
                        edges@,
                        done,
                        a,
                        n as nat,
                    ) <= circuit_size(edges@, done, #[trigger] reps[t], n as nat) by {
                        assert(sizes[o] <= sizes[picks[t]]);
                    }
                }
            }
        }
        assert(is_largest_product(
            edges@,
            done,
            n as nat,
            picked_product(sizes@, picks, picks.len()),
        ));
        assert(at_most(num_connections as nat, edges@.len()) == done);
        assert(is_pair_list(positions@, edges@));
        assert(!too_far(positions@));
    }
    product
}

/// A place with members is the head of its members, if heads are their own
/// heads.
proof fn lemma_head_has_members(heads: Seq<int>, r: int, m: nat)
    requires
        m <= heads.len(),
        members(heads, r, m) > 0,
        forall|x: int| 0 <= x < heads.len() ==> 0 <= #[trigger] heads[x] < heads.len() && heads[heads[x]] == heads[x],
    ensures
        0 <= r < heads.len(),
        heads[r] == r,
    decreases m,
{
    if m > 0 {
        if heads[m - 1] == r {
            assert(heads[heads[m - 1]] == heads[m - 1]);
        } else {
            lemma_head_has_members(heads, r, (m - 1) as nat);
        }
    }
}

/// The head of a box has at least the box as member.
proof fn lemma_member_counts(heads: Seq<int>, a: int, m: nat)
    requires
        0 <= a < m <= heads.len(),
    ensures
        members(heads, heads[a], m) > 0,
    decreases m,
{
    if a < m - 1 {
        lemma_member_counts(heads, a, (m - 1) as nat);
    }
}

/// The product over the boxes is the product over the places of their sizes.
proof fn lemma_products_agree(
    edges: Seq<(i64, usize, usize)>,
    k: nat,
    n: nat,
    reps: Seq<int>,
    sizes: Seq<usize>,
    picks: Seq<int>,
    t: nat,
)
    requires
        t <= picks.len(),
        reps.len() == picks.len(),
        forall|u: int|
            0 <= u < picks.len() ==> circuit_size(edges, k, #[trigger] reps[u], n) == sizes[picks[u]],
    ensures
        sizes_product(edges, k, n, reps, t) == picked_product(sizes, picks, t),
    decreases t,
{
    if t > 0 {
        lemma_products_agree(edges, k, n, reps, sizes, picks, (t - 1) as nat);
        assert(circuit_size(edges, k, reps[t - 1], n) == sizes[picks[t - 1]]);
    }
}

/// Joins the `num_connections` closest pairs of the boxes in `input`, blanks
/// around it left out, and multiplies the sizes of the three largest circuits;
/// `None` when the input is not a list of positions or a number on the way is
/// too big.
pub fn solve(input: &str, num_connections: usize) -> (r: Option<usize>)
    ensures
        if positions_well_formed(lines_of(trimmed(input.spec_bytes()))) {
            is_circuit_product(
                positions_of(lines_of(trimmed(input.spec_bytes()))),
                num_connections as nat,
                r,
            )
        } else {
            r.is_none()
        },
{
    let body = trim(input.as_bytes());
    let positions = match read_positions(body.as_slice()) {
        Some(list) => list,
        None => {
            return None;
        },
    };
    assert(positions@ =~= positions_of(lines_of(trimmed(input.spec_bytes()))));
    largest_circuits(&positions, num_connections)
}

/// As `solve`, for the thousand closest pairs.
pub fn part1(input: &str) -> (r: Option<usize>)
    ensures
        if positions_well_formed(lines_of(trimmed(input.spec_bytes()))) {
            is_circuit_product(positions_of(lines_of(trimmed(input.spec_bytes()))), 1000, r)
        } else {
            r.is_none()
        },
{
    solve(input, 1000)
}

/// All boxes are in one circuit once the first `k` pairs are joined.
pub open spec fn one_circuit(edges: Seq<(i64, usize, usize)>, k: nat, n: nat) -> bool {
    forall|a: int, b: int| 0 <= a < n && 0 <= b < n ==> #[trigger] linked(edges, k, a, b)
}

/// `r` is the product of the first coordinates of the two boxes whose
/// joining, with the pairs taken in their order, makes one circuit of all
/// boxes; for a single box, the square of its first coordinate. Nothing when
/// there is no box at all or a distance is too big.
pub open spec fn is_last_join(positions: Seq<(i32, i32, i32)>, r: Option<i64>) -> bool {
    if too_far(positions) || positions.len() == 0 {
        r.is_none()
    } else if positions.len() == 1 {
        r == Some((positions[0].0 * positions[0].0) as i64)
    } else {
        exists|edges: Seq<(i64, usize, usize)>, k: int|
            #![trigger is_pair_list(positions, edges), edges[k]]
            is_pair_list(positions, edges) && 0 <= k < edges.len() && one_circuit(
                edges,
                (k + 1) as nat,
                positions.len(),
            ) && !one_circuit(edges, k as nat, positions.len()) && r == Some(
                (positions[edges[k].1 as int].0 * positions[edges[k].2 as int].0) as i64,
            )
    }
}

/// Every box is in its own circuit.
proof fn lemma_linked_self(edges: Seq<(i64, usize, usize)>, k: nat, a: int)
    ensures
        linked(edges, k, a, a),
    decreases k,
{
    if k > 0 {
        lemma_linked_self(edges, (k - 1) as nat, a);
    }
}

/// Boxes that are in one circuit stay in one circuit as more pairs are
/// joined.
proof fn lemma_linked_stays(edges: Seq<(i64, usize, usize)>, i: nat, k: nat, a: int, b: int)
    requires
        i <= k,
        linked(edges, i, a, b),
    ensures
        linked(edges, k, a, b),
    decreases k,
{
    if i < k {
        lemma_linked_stays(edges, i, (k - 1) as nat, a, b);
    }
}

/// The product of the first coordinates of two boxes.
fn first_product(positions: &Vec<(i32, i32, i32)>, i: usize, j: usize) -> (p: i64)
    requires
        i < positions.len(),
        j < positions.len(),
    ensures
        p == positions[i as int].0 * positions[j as int].0,
{
    let a = positions[i].0 as i64;
    let b = positions[j].0 as i64;
    assert(-0x4000_0000_0000_0000 <= a * b <= 0x4000_0000_0000_0000) by (nonlinear_arith)
        requires
            -0x8000_0000 <= a <= 0x7fff_ffff,
            -0x8000_0000 <= b <= 0x7fff_ffff,
    ;
    a * b
}

/// Joins the pairs of the boxes, the closest first, until all boxes form one
/// circuit, and multiplies the first coordinates of the two boxes that were
/// joined last.
pub fn last_join(positions: &Vec<(i32, i32, i32)>) -> (r: Option<i64>)
    ensures
        is_last_join(positions@, r),
{
    let n = positions.len();
    let edges = match sorted_pairs(positions) {
        Some(edges) => edges,
        None => {
            return None;
        },
    };
    if n == 0 {
        return None;
    }
    if n == 1 {
        return Some(first_product(positions, 0, 0));
    }
    let mut sets = UnionFind::new(n);
    let mut circuits = n;
    for k in 0..edges.len()
        invariant
            n == positions.len(),
            n >= 2,
            sets.wf(),
            sets.size() == n,
            circuits == sets.sets_count(),
            circuits >= 2,
            is_pair_list(positions@, edges@),
            !too_far(positions@),
            forall|a: int, b: int|
                0 <= a < n && 0 <= b < n ==> #[trigger] sets.same_set(a, b) == linked(
                    edges@,
                    k as nat,
                    a,
                    b,
                ),
    {
        let (_, i, j) = edges[k];
        let ghost before = sets;
        let joined = sets.union(i, j);
        proof {
            assert forall|a: int, b: int| 0 <= a < n && 0 <= b < n implies #[trigger] sets.same_set(
                a,
                b,
            ) == linked(edges@, (k + 1) as nat, a, b) by {
                assert(before.same_set(a, b) == linked(edges@, k as nat, a, b));
                assert(before.same_set(a, i as int) == linked(edges@, k as nat, a, i as int));
                assert(before.same_set(b, j as int) == linked(edges@, k as nat, b, j as int));
                assert(before.same_set(a, j as int) == linked(edges@, k as nat, a, j as int));
                assert(before.same_set(b, i as int) == linked(edges@, k as nat, b, i as int));
            }
        }
        if joined {
            circuits -= 1;
            if circuits == 1 {
                proof {
                    sets.lemma_sets_count();
                    assert(one_circuit(edges@, (k + 1) as nat, n as nat)) by {
                        assert forall|a: int, b: int| 0 <= a < n && 0 <= b < n implies #[trigger] linked(
                            edges@,
                            (k + 1) as nat,
                            a,
                            b,
                        ) by {
                            assert(sets.same_set(a, b));
                        }
                    }
                    assert(!one_circuit(edges@, k as nat, n as nat)) by {
                        assert(before.same_set(i as int, j as int) == linked(
                            edges@,
                            k as nat,
                            i as int,
                            j as int,
                        ));
                    }
                }
                let product = first_product(positions, i, j);
                assert(is_pair_list(positions@, edges@) && edges@[k as int] == (
                    edges@[k as int].0,
                    i,
                    j,
                ));
                return Some(product);
            }
        }
    }
    proof {
        // every pair is joined, and yet two boxes are in different circuits
        sets.lemma_sets_count();
        let (a, b): (int, int) = choose|a: int, b: int|
            0 <= a < sets.size() && 0 <= b < sets.size() && !#[trigger] sets.same_set(a, b);
        let all = edges@.len();
        assert(sets.same_set(a, b) == linked(edges@, all, a, b));
        lemma_linked_self(edges@, all, a);
        let (low, high) = if a < b {
            (a, b)
        } else {
            (b, a)
        };
        assert(names_pair(edges@, low, high));
        let w = choose|w: int|
            0 <= w < edges@.len() && (#[trigger] edges@[w]).1 == low && edges@[w].2 == high;
        lemma_linked_self(edges@, w as nat, a);
        lemma_linked_self(edges@, w as nat, b);
        assert(linked(edges@, (w + 1) as nat, a, b));
        lemma_linked_stays(edges@, (w + 1) as nat, all, a, b);
    }
    None
}

/// As `last_join`, for the boxes in `input`, blanks around it left out;
/// `None` also when the input is not a list of positions.
pub fn part2(input: &str) -> (r: Option<i64>)
    ensures
        if positions_well_formed(lines_of(trimmed(input.spec_bytes()))) {
            is_last_join(positions_of(lines_of(trimmed(input.spec_bytes()))), r)
        } else {
            r.is_none()
        },
{
    let body = trim(input.as_bytes());
    let positions = match read_positions(body.as_slice()) {
        Some(list) => list,
        None => {
            return None;
        },
    };
    assert(positions@ =~= positions_of(lines_of(trimmed(input.spec_bytes()))));
    last_join(&positions)
}

} // verus!
