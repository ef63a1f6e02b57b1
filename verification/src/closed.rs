//! An ordered collection of disjoint closed integer intervals, used by
//! scanline-style area sweeps.
//!
//! Intervals here are inclusive pairs `(lo, hi)`. Two intervals are joined
//! only when they share an endpoint or overlap (`next.0 <= cur.1`); closed
//! intervals that merely sit next to each other, such as `(1, 2)` and
//! `(3, 4)`, stay separate. `apply` carves a span out of the one interval
//! that contains it, keeping both endpoints, or otherwise adds the span -
//! the parity trick a scanline sweep needs.

use vstd::prelude::*;

verus! {

/// An inclusive interval pair with ordered bounds.
pub open spec fn pair_wf(p: (isize, isize)) -> bool {
    p.0 <= p.1
}

/// Canonical form: every pair well-formed, each ending strictly before the
/// next begins.
pub open spec fn pairs_canonical(s: Seq<(isize, isize)>) -> bool {
    &&& forall|i: int| 0 <= i < s.len() ==> pair_wf(#[trigger] s[i])
    &&& forall|i: int| 0 <= i && i + 1 < s.len() ==> (#[trigger] s[i]).1 < s[i + 1].0
}

/// Total order on pairs: by lower bound, ties broken by upper bound.
pub open spec fn pair_leq(a: (isize, isize), b: (isize, isize)) -> bool {
    a.0 < b.0 || (a.0 == b.0 && a.1 <= b.1)
}

/// The ordering on pairs, packaged for vstd's sorting lemmas.
pub open spec fn pair_order() -> spec_fn((isize, isize), (isize, isize)) -> bool {
    |a: (isize, isize), b: (isize, isize)| pair_leq(a, b)
}

/// The pair that replaces two overlapping or touching pairs during a merge
/// pass.
pub open spec fn pair_join(a: (isize, isize), b: (isize, isize)) -> (isize, isize) {
    (a.0, if a.1 >= b.1 { a.1 } else { b.1 })
}

/// One left-to-right merge pass over inclusive pairs.
pub open spec fn pairs_merged(s: Seq<(isize, isize)>) -> Seq<(isize, isize)>
    decreases s.len(),
{
    if s.len() <= 1 {
        s
    } else if s[1].0 <= s[0].1 {
        pairs_merged(seq![pair_join(s[0], s[1])] + s.skip(2))
    } else {
        seq![s[0]] + pairs_merged(s.drop_first())
    }
}

/// Number of integers in an inclusive pair.
pub open spec fn pair_count(p: (isize, isize)) -> int {
    p.1 - p.0 + 1
}

/// Sum of the integer counts of the pairs of `s`.
pub open spec fn count_of(s: Seq<(isize, isize)>) -> int
    decreases s.len(),
{
    if s.len() == 0 {
        0
    } else {
        pair_count(s[0]) + count_of(s.drop_first())
    }
}

/// True when the span `[x1, x2]` sits inside the pair `p`.
pub open spec fn span_inside(p: (isize, isize), x1: int, x2: int) -> bool {
    x1 >= p.0 && x2 <= p.1
}

/// What remains of pair `p` after carving `[x1, x2]` out of it, keeping both
/// endpoints: the left stub ends at `x1`, the right stub starts at `x2`.
pub open spec fn carve(p: (isize, isize), x1: isize, x2: isize) -> Seq<(isize, isize)> {
    (if x1 > p.0 {
        seq![(p.0, x1)]
    } else {
        Seq::<(isize, isize)>::empty()
    }) + (if p.1 > x2 {
        seq![(x2, p.1)]
    } else {
        Seq::<(isize, isize)>::empty()
    })
}

/// Index of the first pair containing `[x1, x2]`, or `-1` when none does.
pub open spec fn first_containing(s: Seq<(isize, isize)>, x1: int, x2: int) -> int
    decreases s.len(),
{
    if s.len() == 0 {
        -1
    } else if span_inside(s[0], x1, x2) {
        0
    } else {
        let r = first_containing(s.drop_first(), x1, x2);
        if r == -1 {
            -1
        } else {
            r + 1
        }
    }
}

/// What `apply` produces: carve the span out of the first pair containing
/// it, or, when none does, add the span and re-normalise by sort and merge.
pub open spec fn applied(s: Seq<(isize, isize)>, x1: isize, x2: isize) -> Seq<(isize, isize)> {
    let k = first_containing(s, x1 as int, x2 as int);
    if k == -1 {
        pairs_merged(s.push((x1, x2)).sort_by(pair_order()))
    } else {
        s.take(k) + carve(s[k], x1, x2) + s.skip(k + 1)
    }
}

/// Executable form of `pair_leq`.
fn pair_le(a: &(isize, isize), b: &(isize, isize)) -> (r: bool)
    ensures
        r == pair_leq(*a, *b),
{
    a.0 < b.0 || (a.0 == b.0 && a.1 <= b.1)
}

/// `pair_leq` is a total order, as vstd's sorting lemmas require.
proof fn lemma_pair_order_total()
    ensures
        vstd::relations::total_ordering(pair_order()),
{
}

/// Two positions of a sequence sorted by `pair_leq` are ordered.
proof fn lemma_pair_sorted_pair(s: Seq<(isize, isize)>, i: int, j: int)
    requires
        vstd::relations::sorted_by(s, pair_order()),
        0 <= i < j < s.len(),
    ensures
        pair_leq(s[i], s[j]),
{
    assert(pair_order()(s[i], s[j]));
}

/// Inserts `p` into a sorted vector, keeping it sorted.
fn pair_insert_sorted(v: &mut Vec<(isize, isize)>, p: (isize, isize))
    requires
        vstd::relations::sorted_by(old(v)@, pair_order()),
    ensures
        vstd::relations::sorted_by(final(v)@, pair_order()),
        final(v)@.to_multiset() == old(v)@.to_multiset().insert(p),
        final(v)@.len() == old(v)@.len() + 1,
{
    let mut idx: usize = 0;
    while idx < v.len() && pair_le(&v[idx], &p)
        invariant
            0 <= idx <= v@.len(),
            forall|k: int| 0 <= k < idx ==> pair_leq(#[trigger] v@[k], p),
            vstd::relations::sorted_by(v@, pair_order()),
        decreases v@.len() - idx,
    {
        idx = idx + 1;
    }
    let ghost prev = v@;
    proof {
        if idx < prev.len() {
            assert(!pair_leq(prev[idx as int], p));
        }
    }
    v.insert(idx, p);
    proof {
        vstd::seq_lib::to_multiset_insert(prev, idx as int, p);
        prev.insert_ensures(idx as int, p);
        assert forall|i: int, j: int| 0 <= i < j < v@.len() implies pair_order()(
            #[trigger] v@[i],
            #[trigger] v@[j],
        ) by {
            if j < idx {
                lemma_pair_sorted_pair(prev, i, j);
            } else if i < idx && j == idx {
                assert(pair_leq(prev[i], p));
            } else if i == idx && j > idx {
                if idx < j - 1 {
                    lemma_pair_sorted_pair(prev, idx as int, j - 1);
                }
                assert(!pair_leq(prev[idx as int], p));
            } else if i < idx && j > idx {
                lemma_pair_sorted_pair(prev, i, j - 1);
            } else {
                lemma_pair_sorted_pair(prev, i - 1, j - 1);
            }
        }
    }
}

/// Sorts a vector of pairs by `pair_leq` with insertion sort.
fn sort_pairs(v: Vec<(isize, isize)>) -> (r: Vec<(isize, isize)>)
    ensures
        r@ == v@.sort_by(pair_order()),
        vstd::relations::sorted_by(r@, pair_order()),
{
    let mut out: Vec<(isize, isize)> = Vec::new();
    proof {
        assert(out@ =~= v@.take(0));
    }
    let mut i: usize = 0;
    while i < v.len()
        invariant
            0 <= i <= v@.len(),
            vstd::relations::sorted_by(out@, pair_order()),
            out@.to_multiset() == v@.take(i as int).to_multiset(),
        decreases v@.len() - i,
    {
        pair_insert_sorted(&mut out, v[i]);
        proof {
            assert(v@.take(i + 1) =~= v@.take(i as int).push(v@[i as int]));
            vstd::seq_lib::to_multiset_build(v@.take(i as int), v@[i as int]);
            assert(out@.to_multiset() =~= v@.take(i + 1).to_multiset());
        }
        i = i + 1;
    }
    proof {
        assert(v@.take(v@.len() as int) =~= v@);
        lemma_pair_order_total();
        v@.lemma_sort_by_ensures(pair_order());
        vstd::seq_lib::lemma_sorted_unique(out@, v@.sort_by(pair_order()), pair_order());
    }
    out
}

/// Joining the first two pairs of a sorted, well-formed sequence keeps the
/// remainder sorted and well-formed.
proof fn lemma_pair_join_step(s: Seq<(isize, isize)>)
    requires
        vstd::relations::sorted_by(s, pair_order()),
        forall|i: int| 0 <= i < s.len() ==> pair_wf(#[trigger] s[i]),
        s.len() >= 2,
        s[1].0 <= s[0].1,
    ensures
        vstd::relations::sorted_by(seq![pair_join(s[0], s[1])] + s.skip(2), pair_order()),
        forall|i: int|
            0 <= i < (seq![pair_join(s[0], s[1])] + s.skip(2)).len() ==> pair_wf(
                #[trigger] (seq![pair_join(s[0], s[1])] + s.skip(2))[i],
            ),
{
    let t = seq![pair_join(s[0], s[1])] + s.skip(2);
    assert forall|i: int, j: int| 0 <= i < j < t.len() implies pair_order()(
        #[trigger] t[i],
        #[trigger] t[j],
    ) by {
        if i == 0 {
            assert(t[0] == pair_join(s[0], s[1]));
            assert(t[j] == s[j + 1]);
            lemma_pair_sorted_pair(s, 0, 1);
            lemma_pair_sorted_pair(s, 0, j + 1);
            lemma_pair_sorted_pair(s, 1, j + 1);
        } else {
            assert(t[i] == s[i + 1]);
            assert(t[j] == s[j + 1]);
            lemma_pair_sorted_pair(s, i + 1, j + 1);
        }
    }
    assert forall|i: int| 0 <= i < t.len() implies pair_wf(#[trigger] t[i]) by {
        if i > 0 {
            assert(t[i] == s[i + 1]);
        }
    }
}

/// On a sorted, well-formed input, the merge pass yields a canonical
/// sequence that is empty only for empty input and keeps the first lower
/// bound.
proof fn lemma_pairs_merged_canonical(s: Seq<(isize, isize)>)
    requires
        vstd::relations::sorted_by(s, pair_order()),
        forall|i: int| 0 <= i < s.len() ==> pair_wf(#[trigger] s[i]),
    ensures
        pairs_canonical(pairs_merged(s)),
        pairs_merged(s).len() == 0 <==> s.len() == 0,
        s.len() > 0 ==> pairs_merged(s)[0].0 == s[0].0 && pairs_merged(s)[0].1 >= s[0].1,
    decreases s.len(),
{
    if s.len() <= 1 {
    } else if s[1].0 <= s[0].1 {
        lemma_pair_join_step(s);
        lemma_pairs_merged_canonical(seq![pair_join(s[0], s[1])] + s.skip(2));
    } else {
        let rest = s.drop_first();
        assert forall|i: int, j: int| 0 <= i < j < rest.len() implies pair_order()(
            #[trigger] rest[i],
            #[trigger] rest[j],
        ) by {
            lemma_pair_sorted_pair(s, i + 1, j + 1);
        }
        assert forall|i: int| 0 <= i < rest.len() implies pair_wf(#[trigger] rest[i]) by {
            assert(rest[i] == s[i + 1]);
        }
        lemma_pairs_merged_canonical(rest);
        let m = seq![s[0]] + pairs_merged(rest);
        assert(pairs_merged(s) == m);
        assert forall|i: int| 0 <= i && i + 1 < m.len() implies (#[trigger] m[i]).1 < m[i
            + 1].0 by {
            if i == 0 {
                assert(m[1] == pairs_merged(rest)[0]);
                assert(pairs_merged(rest)[0].0 == rest[0].0);
                assert(rest[0] == s[1]);
            }
        }
    }
}

/// The integer counts split over any cut of the sequence.
proof fn lemma_count_of_split(s: Seq<(isize, isize)>, i: int)
    requires
        0 <= i <= s.len(),
    ensures
        count_of(s) == count_of(s.take(i)) + count_of(s.skip(i)),
    decreases i,
{
    if i == 0 {
        assert(s.take(0) =~= Seq::<(isize, isize)>::empty());
        assert(s.skip(0) =~= s);
    } else {
        lemma_count_of_split(s.drop_first(), i - 1);
        assert(s.take(i).drop_first() =~= s.drop_first().take(i - 1));
        assert(s.skip(i) =~= s.drop_first().skip(i - 1));
        assert(count_of(s.take(i)) == pair_count(s.take(i)[0]) + count_of(s.take(i).drop_first()));
        assert(s.take(i)[0] == s[0]);
    }
}

/// Each pair of a well-formed sequence counts at least one integer.
proof fn lemma_count_of_nonneg(s: Seq<(isize, isize)>)
    requires
        forall|i: int| 0 <= i < s.len() ==> pair_wf(#[trigger] s[i]),
    ensures
        count_of(s) >= 0,
    decreases s.len(),
{
    if s.len() > 0 {
        assert forall|i: int| 0 <= i < s.drop_first().len() implies pair_wf(
            #[trigger] s.drop_first()[i],
        ) by {
            assert(s.drop_first()[i] == s[i + 1]);
        }
        lemma_count_of_nonneg(s.drop_first());
    }
}

/// A set of disjoint closed integer intervals for scanline sweeps, kept in
/// canonical form.
#[derive(Clone, Debug)]
pub struct ClosedRanges(pub Vec<(isize, isize)>);

impl View for ClosedRanges {
    type V = Seq<(isize, isize)>;

    closed spec fn view(&self) -> Seq<(isize, isize)> {
        self.0@
    }
}

impl ClosedRanges {
    /// The empty set.
    pub fn new() -> (r: ClosedRanges)
        ensures
            r@ =~= Seq::<(isize, isize)>::empty(),
            pairs_canonical(r@),
    {
        ClosedRanges(Vec::new())
    }

    /// Collapses overlapping or touching neighbours, one pass left to right.
    fn merge(&mut self)
        ensures
            final(self)@ == pairs_merged(old(self)@),
    {
        let ghost orig = self@;
        if self.0.len() == 0 {
            return ;
        }
        let mut out: Vec<(isize, isize)> = Vec::new();
        let mut cur: (isize, isize) = self.0[0];
        proof {
            assert(seq![cur] + orig.skip(1) =~= orig);
            assert(out@ + pairs_merged(orig) =~= pairs_merged(orig));
        }
        let mut i: usize = 1;
        while i < self.0.len()
            invariant
                1 <= i <= orig.len(),
                self@ == orig,
                pairs_merged(orig) == out@ + pairs_merged(seq![cur] + orig.skip(i as int)),
            decreases orig.len() - i,
        {
            let next = self.0[i];
            let ghost s = seq![cur] + orig.skip(i as int);
            proof {
                assert(s[0] == cur);
                assert(s[1] == orig[i as int]);
            }
            if next.0 <= cur.1 {
                let newhi = if cur.1 >= next.1 {
                    cur.1
                } else {
                    next.1
                };
                proof {
                    assert(pairs_merged(s) == pairs_merged(seq![pair_join(cur, next)] + s.skip(2)));
                    assert(seq![pair_join(cur, next)] + s.skip(2) =~= seq![(cur.0, newhi)]
                        + orig.skip(i + 1));
                }
                cur = (cur.0, newhi);
            } else {
                proof {
                    assert(pairs_merged(s) == seq![cur] + pairs_merged(s.drop_first()));
                    assert(s.drop_first() =~= seq![orig[i as int]] + orig.skip(i + 1));
                    assert(out@ + (seq![cur] + pairs_merged(seq![next] + orig.skip(i + 1)))
                        =~= out@.push(cur) + pairs_merged(seq![next] + orig.skip(i + 1)));
                }
                out.push(cur);
                cur = next;
            }
            i = i + 1;
        }
        proof {
            assert(seq![cur] + orig.skip(orig.len() as int) =~= seq![cur]);
            assert(pairs_merged(orig) =~= out@.push(cur));
        }
        out.push(cur);
        self.0 = out;
    }

    /// Returns the canonical set obtained by pooling the pairs of both sets
    /// and merging whatever overlaps or touches.
    pub fn union(&self, other: &ClosedRanges) -> (r: ClosedRanges)
        requires
            pairs_canonical(self@),
            pairs_canonical(other@),
        ensures
            r@ == pairs_merged((self@ + other@).sort_by(pair_order())),
            pairs_canonical(r@),
    {
        let mut all: Vec<(isize, isize)> = Vec::new();
        let mut i: usize = 0;
        while i < self.0.len()
            invariant
                0 <= i <= self@.len(),
                all@ =~= self@.take(i as int),
            decreases self@.len() - i,
        {
            all.push(self.0[i]);
            i = i + 1;
        }
        let mut j: usize = 0;
        while j < other.0.len()
            invariant
                0 <= j <= other@.len(),
                all@ =~= self@ + other@.take(j as int),
            decreases other@.len() - j,
        {
            all.push(other.0[j]);
            j = j + 1;
        }
        proof {
            assert(all@ =~= self@ + other@);
        }
        let sorted = sort_pairs(all);
        let mut new = ClosedRanges(sorted);
        new.merge();
        proof {
            lemma_pair_order_total();
            let cat = self@ + other@;
            cat.lemma_sort_by_ensures(pair_order());
            lemma_pair_wf_permutation(cat, cat.sort_by(pair_order()));
            lemma_pairs_merged_canonical(cat.sort_by(pair_order()));
        }
        new
    }

    /// Counts the integers covered: the sum of `hi - lo + 1` over the pairs.
    pub fn len(&self) -> (n: usize)
        requires
            pairs_canonical(self@),
            count_of(self@) <= usize::MAX,
        ensures
            n == count_of(self@),
    {
        let mut sum: usize = 0;
        proof {
            assert(self@.take(0) =~= Seq::<(isize, isize)>::empty());
        }
        let mut i: usize = 0;
        while i < self.0.len()
            invariant
                0 <= i <= self@.len(),
                pairs_canonical(self@),
                count_of(self@) <= usize::MAX,
                sum == count_of(self@.take(i as int)),
            decreases self@.len() - i,
        {
            let p = self.0[i];
            let d = (p.1 as i128) - (p.0 as i128) + 1;
            proof {
                lemma_count_of_split(self@, i + 1);
                assert(self@.take(i + 1).drop_last() =~= self@.take(i as int));
                lemma_count_of_last(self@.take(i + 1));
                assert(self@.take(i + 1)[i as int] == self@[i as int]);
                assert forall|k: int| 0 <= k < self@.skip(i + 1).len() implies pair_wf(
                    #[trigger] self@.skip(i + 1)[k],
                ) by {
                    assert(self@.skip(i + 1)[k] == self@[k + i + 1]);
                }
                lemma_count_of_nonneg(self@.skip(i + 1));
            }
            sum = sum + (d as usize);
            i = i + 1;
        }
        proof {
            assert(self@.take(self@.len() as int) =~= self@);
        }
        sum
    }

    /// Carves the span `[x1, x2]` out of the one pair that contains it,
    /// keeping both endpoints as stubs; when no pair contains it, adds the
    /// span and re-normalises.
    /// Rebuilds the set with the span `[x1, x2]` carved out of the pair at
    /// index `k`.
    fn carve_at(&mut self, k: usize, x1: isize, x2: isize)
        requires
            pairs_canonical(old(self)@),
            k < old(self)@.len(),
            x1 < x2,
            span_inside(old(self)@[k as int], x1 as int, x2 as int),
        ensures
            final(self)@ == old(self)@.take(k as int) + carve(old(self)@[k as int], x1, x2) + old(
                self,
            )@.skip(k as int + 1),
            pairs_canonical(final(self)@),
    {
        let ghost orig = self@;
        let n = self.0.len();
        let (r1, r2) = self.0[k];
        let mut out: Vec<(isize, isize)> = Vec::new();
        let mut i: usize = 0;
        while i < k
            invariant
                0 <= i <= k < orig.len(),
                self@ == orig,
                out@ =~= orig.take(i as int),
            decreases k - i,
        {
            out.push(self.0[i]);
            i = i + 1;
        }
        if x1 > r1 {
            out.push((r1, x1));
        }
        if r2 > x2 {
            out.push((x2, r2));
        }
        proof {
            assert(out@ =~= orig.take(k as int) + carve(orig[k as int], x1, x2));
        }
        let ghost mid = out@;
        assert(k < n);
        let mut j: usize = k + 1;
        while j < self.0.len()
            invariant
                k + 1 <= j <= orig.len(),
                self@ == orig,
                out@ =~= mid + orig.skip(k as int + 1).take(j - k - 1),
            decreases orig.len() - j,
        {
            out.push(self.0[j]);
            proof {
                assert(orig.skip(k as int + 1).take(j - k) =~= orig.skip(k as int + 1).take(
                    j - k - 1,
                ).push(orig[j as int]));
            }
            j = j + 1;
        }
        proof {
            assert(orig.skip(k as int + 1).take(orig.len() - k - 1) =~= orig.skip(k as int + 1));
            assert(out@ =~= orig.take(k as int) + carve(orig[k as int], x1, x2) + orig.skip(
                k as int + 1,
            ));
            lemma_carved_canonical(orig, x1, x2, k as int);
        }
        self.0 = out;
    }

    /// Adds the span `[x1, x2]` as a new pair and re-normalises by sorting
    /// and merging.
    fn add_span(&mut self, x1: isize, x2: isize)
        requires
            x1 <= x2,
            pairs_canonical(old(self)@),
        ensures
            final(self)@ == pairs_merged(old(self)@.push((x1, x2)).sort_by(pair_order())),
            pairs_canonical(final(self)@),
    {
        let ghost orig = self@;
        let mut all: Vec<(isize, isize)> = Vec::new();
        let mut i: usize = 0;
        while i < self.0.len()
            invariant
                0 <= i <= orig.len(),
                self@ == orig,
                all@ =~= orig.take(i as int),
            decreases orig.len() - i,
        {
            all.push(self.0[i]);
            i = i + 1;
        }
        all.push((x1, x2));
        proof {
            assert(orig.take(orig.len() as int) =~= orig);
            assert(all@ =~= orig.push((x1, x2)));
        }
        let sorted = sort_pairs(all);
        self.0 = sorted;
        self.merge();
        proof {
            lemma_pair_order_total();
            let cat = orig.push((x1, x2));
            cat.lemma_sort_by_ensures(pair_order());
            lemma_pair_wf_permutation(cat, cat.sort_by(pair_order()));
            lemma_pairs_merged_canonical(cat.sort_by(pair_order()));
        }
    }

    /// Carves the span `[x1, x2]` out of the one pair that contains it,
    /// keeping both endpoints as stubs; when no pair contains it, adds the
    /// span and re-normalises.
    pub fn apply(&mut self, x1: isize, x2: isize)
        requires
            x1 < x2,
            pairs_canonical(old(self)@),
        ensures
            final(self)@ == applied(old(self)@, x1, x2),
            pairs_canonical(final(self)@),
    {
        let ghost orig = self@;
        let mut k: usize = 0;
        while k < self.0.len()
            invariant
                0 <= k <= orig.len(),
                self@ == orig,
                orig == old(self)@,
                pairs_canonical(orig),
                x1 < x2,
                forall|i: int| 0 <= i < k ==> !span_inside(#[trigger] orig[i], x1 as int, x2 as int),
            decreases orig.len() - k,
        {
            let (r1, r2) = self.0[k];
            if x1 >= r1 && x2 <= r2 {
                proof {
                    lemma_first_containing_at(orig, x1 as int, x2 as int, k as int);
                }
                self.carve_at(k, x1, x2);
                return ;
            }
            k = k + 1;
        }
        proof {
            lemma_first_containing_none(orig, x1 as int, x2 as int);
        }
        self.add_span(x1, x2);
    }
}

/// The integer count of a non-empty sequence splits off its last pair.
proof fn lemma_count_of_last(s: Seq<(isize, isize)>)
    requires
        s.len() >= 1,
    ensures
        count_of(s) == count_of(s.drop_last()) + pair_count(s[s.len() - 1]),
    decreases s.len(),
{
    if s.len() == 1 {
        assert(s.drop_last() =~= Seq::<(isize, isize)>::empty());
        assert(s.drop_first() =~= Seq::<(isize, isize)>::empty());
        assert(count_of(Seq::<(isize, isize)>::empty()) == 0);
        assert(count_of(s) == pair_count(s[0]) + count_of(s.drop_first()));
    } else {
        lemma_count_of_last(s.drop_first());
        assert(s.drop_first().drop_last() =~= s.drop_last().drop_first());
        assert(s.drop_last().len() == s.len() - 1);
        assert(count_of(s.drop_last()) == pair_count(s.drop_last()[0]) + count_of(
            s.drop_last().drop_first(),
        ));
        assert(s.drop_last()[0] == s[0]);
        assert(s.drop_first()[s.len() - 2] == s[s.len() - 1]);
        assert(count_of(s) == pair_count(s[0]) + count_of(s.drop_first()));
        assert(count_of(s.drop_first()) == count_of(s.drop_first().drop_last()) + pair_count(
            s[s.len() - 1],
        ));
    }
}

/// Well-formedness of every pair carries over to any permutation.
proof fn lemma_pair_wf_permutation(a: Seq<(isize, isize)>, b: Seq<(isize, isize)>)
    requires
        a.to_multiset() == b.to_multiset(),
        forall|i: int| 0 <= i < a.len() ==> pair_wf(#[trigger] a[i]),
    ensures
        forall|i: int| 0 <= i < b.len() ==> pair_wf(#[trigger] b[i]),
{
    broadcast use vstd::seq_lib::group_to_multiset_ensures;

    assert forall|i: int| 0 <= i < b.len() implies pair_wf(#[trigger] b[i]) by {
        assert(b.contains(b[i]));
        assert(b.to_multiset().count(b[i]) > 0);
        assert(a.to_multiset().count(b[i]) > 0);
        assert(a.contains(b[i]));
        let j = choose|j: int| 0 <= j < a.len() && a[j] == b[i];
        assert(pair_wf(a[j]));
    }
}

/// `first_containing` returns the index whose predecessors all fail the
/// containment test.
proof fn lemma_first_containing_at(s: Seq<(isize, isize)>, x1: int, x2: int, k: int)
    requires
        0 <= k < s.len(),
        span_inside(s[k], x1, x2),
        forall|i: int| 0 <= i < k ==> !span_inside(#[trigger] s[i], x1, x2),
    ensures
        first_containing(s, x1, x2) == k,
    decreases k,
{
    if k > 0 {
        assert forall|i: int| 0 <= i < k - 1 implies !span_inside(
            #[trigger] s.drop_first()[i],
            x1,
            x2,
        ) by {
            assert(s.drop_first()[i] == s[i + 1]);
        }
        assert(s.drop_first()[k - 1] == s[k]);
        lemma_first_containing_at(s.drop_first(), x1, x2, k - 1);
    }
}

/// `first_containing` returns `-1` exactly when no pair contains the span.
proof fn lemma_first_containing_none(s: Seq<(isize, isize)>, x1: int, x2: int)
    requires
        forall|i: int| 0 <= i < s.len() ==> !span_inside(#[trigger] s[i], x1, x2),
    ensures
        first_containing(s, x1, x2) == -1,
    decreases s.len(),
{
    if s.len() > 0 {
        assert forall|i: int| 0 <= i < s.drop_first().len() implies !span_inside(
            #[trigger] s.drop_first()[i],
            x1,
            x2,
        ) by {
            assert(s.drop_first()[i] == s[i + 1]);
        }
        lemma_first_containing_none(s.drop_first(), x1, x2);
    }
}

/// Carving a span out of one pair of a canonical sequence leaves the
/// sequence canonical.
proof fn lemma_carved_canonical(s: Seq<(isize, isize)>, x1: isize, x2: isize, k: int)
    requires
        pairs_canonical(s),
        0 <= k < s.len(),
        x1 < x2,
        span_inside(s[k], x1 as int, x2 as int),
    ensures
        pairs_canonical(s.take(k) + carve(s[k], x1, x2) + s.skip(k + 1)),
{
    let c = carve(s[k], x1, x2);
    let t = s.take(k) + c + s.skip(k + 1);
    assert forall|i: int| 0 <= i < t.len() implies pair_wf(#[trigger] t[i]) by {
        if i < k {
            assert(t[i] == s[i]);
        } else if i < k + c.len() {
            assert(c.len() <= 2);
        } else {
            assert(t[i] == s[i - k - c.len() + k + 1]);
        }
    }
    assert forall|i: int| 0 <= i && i + 1 < t.len() implies (#[trigger] t[i]).1 < t[i + 1].0 by {
        if i + 1 < k {
            assert(t[i] == s[i]);
            assert(t[i + 1] == s[i + 1]);
        } else if i + 1 == k {
            assert(t[i] == s[i]);
            if c.len() > 0 {
                assert(t[k] == c[0]);
                assert(c[0].0 >= s[k].0);
            } else {
                assert(t[k] == s[k + 1]);
            }
        } else if i >= k + c.len() {
            assert(t[i] == s[i - k - c.len() + k + 1]);
            assert(t[i + 1] == s[i + 1 - k - c.len() + k + 1]);
        } else {
            if c.len() == 2 && i == k {
                assert(t[i] == c[0] && t[i + 1] == c[1]);
            } else {
                assert(t[i] == c[i - k]);
                assert(t[i + 1] == s[k + 1]);
                assert(c[i - k].1 <= s[k].1);
            }
        }
    }
}

} // verus!
