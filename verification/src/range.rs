//! An ordered collection of disjoint half-open integer intervals.
//!
//! A `Ranges` value holds intervals `[from, to)` in canonical form: sorted
//! ascending by `from`, with a strict gap between consecutive intervals
//! (`a.to < b.from`), so touching or overlapping intervals are always merged.
//! `union` and `intersect_one` return new canonical values, and `len` counts
//! the integers covered.
//!
//! Empty intervals (`from == to`) are legal values: they cover nothing,
//! contribute nothing to `len`, and never block a merge. Operations may keep
//! them in a result, so canonical form is a unique representation of the
//! covered set only for sets built from non-empty intervals
//! (`lemma_canonical_unique`).

use vstd::prelude::*;

verus! {

use vstd::multiset::Multiset;

/// A half-open integer interval `[from, to)`. Well-formed values have
/// `from <= to`; an empty interval (`from == to`) covers nothing.
#[derive(Clone, Copy, Debug, PartialEq, Eq, Hash, Structural)]
pub struct Range {
    pub from: isize,
    /// Non-inclusive upper bound.
    pub to: isize,
}

/// True when the interval's bounds are ordered.
pub open spec fn range_wf(r: Range) -> bool {
    r.from <= r.to
}

/// True when the integer `v` lies inside the half-open interval `r`.
pub open spec fn range_covers(r: Range, v: int) -> bool {
    r.from <= v < r.to
}

/// Number of integers covered by a well-formed interval.
pub open spec fn range_len(r: Range) -> int {
    r.to - r.from
}

/// Total order on intervals: by `from`, ties broken by `to`.
pub open spec fn range_leq(a: Range, b: Range) -> bool {
    a.from < b.from || (a.from == b.from && a.to <= b.to)
}

/// The ordering on intervals, packaged for vstd's sorting lemmas.
pub open spec fn range_order() -> spec_fn(Range, Range) -> bool {
    |a: Range, b: Range| range_leq(a, b)
}

/// Canonical form of an interval sequence: every interval well-formed and a
/// strict gap before each successor, which also forces strictly ascending
/// `from` values.
pub open spec fn canonical(s: Seq<Range>) -> bool {
    &&& forall|i: int| 0 <= i < s.len() ==> range_wf(#[trigger] s[i])
    &&& forall|i: int| 0 <= i && i + 1 < s.len() ==> (#[trigger] s[i]).to < s[i + 1].from
}

/// True when the integer `v` is covered by some interval of `s`.
pub open spec fn covers(s: Seq<Range>, v: int) -> bool {
    exists|i: int| 0 <= i < s.len() && range_covers(#[trigger] s[i], v)
}

/// Sum of the lengths of the intervals of `s`.
pub open spec fn len_of(s: Seq<Range>) -> int
    decreases s.len(),
{
    if s.len() == 0 {
        0
    } else {
        range_len(s[0]) + len_of(s.drop_first())
    }
}

/// The interval that replaces two overlapping or touching intervals during a
/// merge pass: it starts at the first one's `from` and ends at the larger `to`.
pub open spec fn join2(a: Range, b: Range) -> Range {
    Range { from: a.from, to: if a.to >= b.to { a.to } else { b.to } }
}

/// One left-to-right merge pass: while the next interval overlaps or touches
/// the current one, the two are joined; otherwise the current one is emitted.
/// On input sorted by `range_leq` this yields the canonical form.
pub open spec fn merged(s: Seq<Range>) -> Seq<Range>
    decreases s.len(),
{
    if s.len() <= 1 {
        s
    } else if s[1].from <= s[0].to {
        merged(seq![join2(s[0], s[1])] + s.skip(2))
    } else {
        seq![s[0]] + merged(s.drop_first())
    }
}

/// The canonical sequence covering everything `a` or `b` covers: sort the
/// concatenation, then merge.
pub open spec fn union_seq(a: Seq<Range>, b: Seq<Range>) -> Seq<Range> {
    merged((a + b).sort_by(range_order()))
}

/// True when intervals `r` and `q` share at least one integer (both taken as
/// half-open and well-formed).
pub open spec fn overlaps(r: Range, q: Range) -> bool {
    r.to > q.from && q.to > r.from
}

/// The common part of two overlapping intervals.
pub open spec fn clip(r: Range, q: Range) -> Range {
    Range {
        from: if r.from >= q.from { r.from } else { q.from },
        to: if r.to <= q.to { r.to } else { q.to },
    }
}

/// The intersection scan over a canonical sequence: clip every interval that
/// overlaps the query, stop at the first interval at or past the query's end.
pub open spec fn intersected(s: Seq<Range>, q: Range) -> Seq<Range>
    decreases s.len(),
{
    if s.len() == 0 {
        Seq::<Range>::empty()
    } else if s[0].from >= q.to {
        Seq::<Range>::empty()
    } else if overlaps(s[0], q) {
        seq![clip(s[0], q)] + intersected(s.drop_first(), q)
    } else {
        intersected(s.drop_first(), q)
    }
}

/// Executable form of `range_leq`.
fn range_le(a: &Range, b: &Range) -> (r: bool)
    ensures
        r == range_leq(*a, *b),
{
    a.from < b.from || (a.from == b.from && a.to <= b.to)
}

/// Inserts `r` into a sorted vector, keeping it sorted.
fn insert_sorted(v: &mut Vec<Range>, r: Range)
    requires
        vstd::relations::sorted_by(old(v)@, range_order()),
    ensures
        vstd::relations::sorted_by(final(v)@, range_order()),
        final(v)@.to_multiset() == old(v)@.to_multiset().insert(r),
        final(v)@.len() == old(v)@.len() + 1,
{
    let mut idx: usize = 0;
    while idx < v.len() && range_le(&v[idx], &r)
        invariant
            0 <= idx <= v@.len(),
            forall|k: int| 0 <= k < idx ==> range_leq(#[trigger] v@[k], r),
            vstd::relations::sorted_by(v@, range_order()),
        decreases v@.len() - idx,
    {
        idx = idx + 1;
    }
    let ghost prev = v@;
    proof {
        if idx < prev.len() {
            assert(!range_leq(prev[idx as int], r));
        }
    }
    v.insert(idx, r);
    proof {
        vstd::seq_lib::to_multiset_insert(prev, idx as int, r);
        prev.insert_ensures(idx as int, r);
        assert forall|i: int, j: int| 0 <= i < j < v@.len() implies range_order()(
            #[trigger] v@[i],
            #[trigger] v@[j],
        ) by {
            if j < idx {
                lemma_sorted_pair(prev, i, j);
            } else if i < idx && j == idx {
                assert(range_leq(prev[i], r));
            } else if i == idx && j > idx {
                if idx < j - 1 {
                    lemma_sorted_pair(prev, idx as int, j - 1);
                }
                assert(!range_leq(prev[idx as int], r));
            } else if i < idx && j > idx {
                lemma_sorted_pair(prev, i, j - 1);
            } else {
                lemma_sorted_pair(prev, i - 1, j - 1);
            }
        }
    }
}

/// Two positions of a sequence sorted by `range_leq` are ordered.
proof fn lemma_sorted_pair(s: Seq<Range>, i: int, j: int)
    requires
        vstd::relations::sorted_by(s, range_order()),
        0 <= i < j < s.len(),
    ensures
        range_leq(s[i], s[j]),
{
    assert(range_order()(s[i], s[j]));
}

/// Sorts a vector of intervals by `range_leq` with insertion sort.
fn sort_ranges(v: Vec<Range>) -> (r: Vec<Range>)
    ensures
        vstd::relations::sorted_by(r@, range_order()),
        r@.to_multiset() == v@.to_multiset(),
        r@ == v@.sort_by(range_order()),
{
    let mut out: Vec<Range> = Vec::new();
    proof {
        assert(out@ =~= v@.take(0));
    }
    let mut i: usize = 0;
    while i < v.len()
        invariant
            0 <= i <= v@.len(),
            vstd::relations::sorted_by(out@, range_order()),
            out@.to_multiset() == v@.take(i as int).to_multiset(),
        decreases v@.len() - i,
    {
        let ghost before = out@;
        insert_sorted(&mut out, v[i]);
        proof {
            assert(v@.take(i + 1) =~= v@.take(i as int).push(v@[i as int]));
            vstd::seq_lib::to_multiset_build(v@.take(i as int), v@[i as int]);
            assert(out@.to_multiset() =~= v@.take(i + 1).to_multiset());
        }
        i = i + 1;
    }
    proof {
        assert(v@.take(v@.len() as int) =~= v@);
        lemma_range_order_total();
        v@.lemma_sort_by_ensures(range_order());
        vstd::seq_lib::lemma_sorted_unique(out@, v@.sort_by(range_order()), range_order());
        assert(out@ == v@.sort_by(range_order()));
    }
    out
}

/// `range_leq` is a total order, as vstd's sorting lemmas require.
pub proof fn lemma_range_order_total()
    ensures
        vstd::relations::total_ordering(range_order()),
{
}

impl Range {
    /// Builds the interval `[from, to)`.
    pub fn new(from: isize, to: isize) -> (r: Range)
        requires
            from <= to,
        ensures
            r == (Range { from, to }),
    {
        Range { from, to }
    }
}

/// An interval set in canonical form. Operations require canonical inputs and
/// return canonical outputs.
#[derive(Clone, Debug)]
pub struct Ranges(pub(crate) Vec<Range>);

impl View for Ranges {
    type V = Seq<Range>;

    closed spec fn view(&self) -> Seq<Range> {
        self.0@
    }
}

impl Ranges {
    /// The canonical empty set.
    pub fn empty() -> (r: Ranges)
        ensures
            r@ =~= Seq::<Range>::empty(),
            canonical(r@),
    {
        Ranges(Vec::new())
    }

    /// The set holding the one interval `[from, to)`.
    pub fn new(from: isize, to: isize) -> (r: Ranges)
        requires
            from <= to,
        ensures
            r@ =~= seq![Range { from, to }],
            canonical(r@),
    {
        let mut v: Vec<Range> = Vec::new();
        v.push(Range { from, to });
        Ranges(v)
    }

    /// Builds a set from pairs that the caller has already put in canonical
    /// form: sorted ascending with a strict gap between consecutive intervals.
    pub fn from_slice(arr: &[(isize, isize)]) -> (r: Ranges)
        requires
            canonical(arr@.map_values(|p: (isize, isize)| Range { from: p.0, to: p.1 })),
        ensures
            r@ =~= arr@.map_values(|p: (isize, isize)| Range { from: p.0, to: p.1 }),
            canonical(r@),
    {
        let ghost target = arr@.map_values(|p: (isize, isize)| Range { from: p.0, to: p.1 });
        let mut v: Vec<Range> = Vec::new();
        let mut i: usize = 0;
        while i < arr.len()
            invariant
                0 <= i <= arr.len(),
                v@ =~= target.take(i as int),
                target == arr@.map_values(|p: (isize, isize)| Range { from: p.0, to: p.1 }),
            decreases arr.len() - i,
        {
            let (from, to) = arr[i];
            v.push(Range { from, to });
            proof {
                assert(v@ =~= target.take(i + 1 as int));
            }
            i = i + 1;
        }
        proof {
            assert(v@ =~= target);
        }
        Ranges(v)
    }

    /// An element-for-element copy of the set.
    pub fn duplicate(&self) -> (r: Ranges)
        ensures
            r@ == self@,
    {
        let mut out: Vec<Range> = Vec::new();
        let mut i: usize = 0;
        while i < self.0.len()
            invariant
                0 <= i <= self@.len(),
                out@ =~= self@.take(i as int),
            decreases self@.len() - i,
        {
            out.push(self.0[i]);
            i = i + 1;
        }
        proof {
            assert(out@ =~= self@);
        }
        Ranges(out)
    }

    /// Collapses overlapping or touching neighbours, one pass left to right.
    fn merge(&mut self)
        ensures
            final(self)@ == merged(old(self)@),
    {
        let ghost orig = self@;
        if self.0.len() == 0 {
            return ;
        }
        let mut out: Vec<Range> = Vec::new();
        let mut cur: Range = self.0[0];
        proof {
            assert(seq![cur] + orig.skip(1) =~= orig);
            assert(out@ + merged(orig) =~= merged(orig));
        }
        let mut i: usize = 1;
        while i < self.0.len()
            invariant
                1 <= i <= orig.len(),
                self@ == orig,
                merged(orig) == out@ + merged(seq![cur] + orig.skip(i as int)),
            decreases orig.len() - i,
        {
            let next = self.0[i];
            let ghost s = seq![cur] + orig.skip(i as int);
            proof {
                assert(s[0] == cur);
                assert(s[1] == orig[i as int]);
            }
            if next.from <= cur.to {
                let newto = if cur.to >= next.to {
                    cur.to
                } else {
                    next.to
                };
                proof {
                    assert(merged(s) == merged(seq![join2(cur, next)] + s.skip(2)));
                    assert(seq![join2(cur, next)] + s.skip(2) =~= seq![
                        Range { from: cur.from, to: newto },
                    ] + orig.skip(i + 1));
                }
                cur = Range { from: cur.from, to: newto };
            } else {
                proof {
                    assert(merged(s) == seq![cur] + merged(s.drop_first()));
                    assert(s.drop_first() =~= seq![orig[i as int]] + orig.skip(i + 1));
                    assert(out@ + (seq![cur] + merged(seq![next] + orig.skip(i + 1))) =~= out@.push(
                        cur,
                    ) + merged(seq![next] + orig.skip(i + 1)));
                }
                out.push(cur);
                cur = next;
            }
            i = i + 1;
        }
        proof {
            assert(seq![cur] + orig.skip(orig.len() as int) =~= seq![cur]);
            assert(merged(orig) =~= out@.push(cur));
        }
        out.push(cur);
        self.0 = out;
    }

    /// Returns the canonical set covering every integer that `self` or
    /// `other` covers.
    pub fn union(&self, other: &Ranges) -> (r: Ranges)
        requires
            canonical(self@),
            canonical(other@),
        ensures
            r@ == union_seq(self@, other@),
            canonical(r@),
            forall|v: int| covers(r@, v) <==> covers(self@, v) || covers(other@, v),
    {
        let mut all: Vec<Range> = Vec::new();
        let mut i: usize = 0;
        while i < self.0.len()
            invariant
                0 <= i <= self@.len(),
                all@ =~= self@.take(i as int),
            decreases self@.len() - i,
        {
            all.push(self.0[i]);
            i = i + 1;
        }
        let mut j: usize = 0;
        while j < other.0.len()
            invariant
                0 <= j <= other@.len(),
                all@ =~= self@ + other@.take(j as int),
            decreases other@.len() - j,
        {
            all.push(other.0[j]);
            j = j + 1;
        }
        proof {
            assert(all@ =~= self@ + other@);
        }
        let sorted = sort_ranges(all);
        let mut new = Ranges(sorted);
        new.merge();
        proof {
            lemma_union_seq_props(self@, other@);
        }
        new
    }

    /// Returns the canonical set of integers covered both by `self` and by
    /// the query interval. The scan stops at the first interval at or past
    /// the query's end.
    pub fn intersect_one(&self, one: &Range) -> (r: Ranges)
        requires
            canonical(self@),
            range_wf(*one),
        ensures
            r@ == intersected(self@, *one),
            canonical(r@),
            forall|v: int| covers(r@, v) <==> covers(self@, v) && range_covers(*one, v),
    {
        let mut out: Vec<Range> = Vec::new();
        proof {
            assert(self@.skip(0) =~= self@);
            assert(out@ + intersected(self@, *one) =~= intersected(self@, *one));
        }
        let mut i: usize = 0;
        while i < self.0.len()
            invariant_except_break
                0 <= i <= self@.len(),
                intersected(self@, *one) == out@ + intersected(self@.skip(i as int), *one),
            ensures
                intersected(self@, *one) == out@,
            decreases self@.len() - i,
        {
            let r = self.0[i];
            let ghost s = self@.skip(i as int);
            proof {
                assert(s[0] == self@[i as int]);
                assert(s.drop_first() =~= self@.skip(i + 1));
            }
            if r.from >= one.to {
                proof {
                    assert(intersected(s, *one) =~= Seq::<Range>::empty());
                    assert(out@ + Seq::<Range>::empty() =~= out@);
                }
                break ;
            }
            if r.to > one.from && one.to > r.from {
                let from = if r.from >= one.from {
                    r.from
                } else {
                    one.from
                };
                let to = if r.to <= one.to {
                    r.to
                } else {
                    one.to
                };
                proof {
                    assert(Range { from, to } == clip(r, *one));
                    assert(intersected(s, *one) == seq![clip(r, *one)] + intersected(
                        self@.skip(i + 1),
                        *one,
                    ));
                    assert(out@ + (seq![clip(r, *one)] + intersected(self@.skip(i + 1), *one))
                        =~= out@.push(clip(r, *one)) + intersected(self@.skip(i + 1), *one));
                }
                out.push(Range { from, to });
            } else {
                proof {
                    assert(intersected(s, *one) == intersected(self@.skip(i + 1), *one));
                }
            }
            i = i + 1;
            if i == self.0.len() {
                proof {
                    assert(self@.skip(i as int) =~= Seq::<Range>::empty());
                    assert(out@ + Seq::<Range>::empty() =~= out@);
                }
                break ;
            }
        }
        proof {
            lemma_intersected_props(self@, *one);
        }
        Ranges(out)
    }

    /// Counts the integers covered: the sum of `to - from` over the
    /// intervals. On a canonical set this always fits in `usize`.
    pub fn len(&self) -> (n: usize)
        requires
            canonical(self@),
        ensures
            n == len_of(self@),
    {
        let mut sum: usize = 0;
        proof {
            assert(self@.take(0) =~= Seq::<Range>::empty());
        }
        let mut i: usize = 0;
        while i < self.0.len()
            invariant
                0 <= i <= self@.len(),
                canonical(self@),
                sum == len_of(self@.take(i as int)),
            decreases self@.len() - i,
        {
            let r = self.0[i];
            let d = (r.to as i128) - (r.from as i128);
            proof {
                lemma_len_of_split(self@, i + 1);
                lemma_canonical_len_bound(self@);
                assert(self@.take(i + 1).drop_last() =~= self@.take(i as int));
                lemma_len_of_last(self@.take(i + 1));
                assert(self@.take(i + 1)[i as int] == self@[i as int]);
                assert forall|k: int| 0 <= k < self@.skip(i + 1).len() implies range_wf(
                    #[trigger] self@.skip(i + 1)[k],
                ) by {
                    assert(self@.skip(i + 1)[k] == self@[k + i + 1]);
                }
                lemma_len_of_nonneg(self@.skip(i + 1));
            }
            sum = sum + (d as usize);
            i = i + 1;
        }
        proof {
            assert(self@.take(self@.len() as int) =~= self@);
        }
        sum
    }
}

impl PartialEq for Ranges {
    /// Two sets are equal when they hold the same intervals in the same
    /// order; for canonical sets this is equality of the covered sets.
    fn eq(&self, other: &Ranges) -> (r: bool) {
        if self.0.len() != other.0.len() {
            return false;
        }
        let mut i: usize = 0;
        while i < self.0.len()
            invariant
                0 <= i <= self@.len(),
                self@.len() == other@.len(),
                forall|k: int| 0 <= k < i ==> self@[k] == other@[k],
            decreases self@.len() - i,
        {
            let a = self.0[i];
            let b = other.0[i];
            if !(a.from == b.from && a.to == b.to) {
                return false;
            }
            i = i + 1;
        }
        proof {
            assert(self@ =~= other@);
        }
        true
    }
}

impl vstd::std_specs::cmp::PartialEqSpecImpl for Ranges {
    open spec fn obeys_eq_spec() -> bool {
        true
    }

    open spec fn eq_spec(&self, other: &Ranges) -> bool {
        self@ == other@
    }
}

/// Law: union is commutative. Both orders sort the same multiset of
/// intervals, so the merge pass sees the same sequence.
pub proof fn lemma_union_commutative(a: Seq<Range>, b: Seq<Range>)
    requires
        canonical(a),
        canonical(b),
    ensures
        union_seq(a, b) == union_seq(b, a),
{
    lemma_range_order_total();
    (a + b).lemma_sort_by_ensures(range_order());
    (b + a).lemma_sort_by_ensures(range_order());
    vstd::seq_lib::lemma_multiset_commutative(a, b);
    vstd::seq_lib::lemma_multiset_commutative(b, a);
    assert((a + b).sort_by(range_order()).to_multiset() =~= (b + a).sort_by(
        range_order(),
    ).to_multiset());
    vstd::seq_lib::lemma_sorted_unique(
        (a + b).sort_by(range_order()),
        (b + a).sort_by(range_order()),
        range_order(),
    );
}

/// Each interval of `s`, twice in a row: what sorting `s + s` produces.
spec fn doubled(s: Seq<Range>) -> Seq<Range>
    decreases s.len(),
{
    if s.len() == 0 {
        Seq::<Range>::empty()
    } else {
        seq![s[0], s[0]] + doubled(s.drop_first())
    }
}

/// Index structure of `doubled`.
proof fn lemma_doubled_index(s: Seq<Range>)
    ensures
        doubled(s).len() == 2 * s.len(),
        forall|i: int| 0 <= i < 2 * s.len() ==> #[trigger] doubled(s)[i] == s[i / 2],
    decreases s.len(),
{
    if s.len() > 0 {
        lemma_doubled_index(s.drop_first());
        assert forall|i: int| 0 <= i < 2 * s.len() implies #[trigger] doubled(s)[i] == s[i / 2] by {
            if i >= 2 {
                assert(doubled(s)[i] == doubled(s.drop_first())[i - 2]);
                assert(doubled(s.drop_first())[i - 2] == s.drop_first()[(i - 2) / 2]);
                assert((i - 2) / 2 == i / 2 - 1);
            }
        }
    }
}

/// `doubled(s)` holds the same intervals, with the same multiplicities, as
/// `s + s`.
proof fn lemma_doubled_multiset(s: Seq<Range>)
    ensures
        doubled(s).to_multiset() == (s + s).to_multiset(),
    decreases s.len(),
{
    broadcast use vstd::seq_lib::group_to_multiset_ensures;

    vstd::seq_lib::lemma_multiset_commutative(s, s);
    if s.len() == 0 {
        assert(s + s =~= s);
        assert(doubled(s).to_multiset() =~= (s + s).to_multiset());
    } else {
        let rest = s.drop_first();
        lemma_doubled_multiset(rest);
        vstd::seq_lib::lemma_multiset_commutative(rest, rest);
        vstd::seq_lib::lemma_multiset_commutative(seq![s[0], s[0]], doubled(rest));
        assert(seq![s[0], s[0]] =~= Seq::<Range>::empty().push(s[0]).push(s[0]));
        assert(seq![s[0], s[0]].to_multiset() =~= Multiset::<Range>::empty().insert(s[0]).insert(
            s[0],
        ));
        assert(s.remove(0) =~= rest);
        assert(rest.to_multiset() =~= s.to_multiset().remove(s[0]));
        assert(s.contains(s[0]));
        assert(s.to_multiset().count(s[0]) > 0);
        assert(doubled(s).to_multiset() =~= (s + s).to_multiset());
    }
}

/// `doubled` of a canonical sequence is sorted.
proof fn lemma_doubled_sorted(s: Seq<Range>)
    requires
        canonical(s),
    ensures
        vstd::relations::sorted_by(doubled(s), range_order()),
        all_wf(doubled(s)),
    decreases s.len(),
{
    lemma_doubled_index(s);
    let d = doubled(s);
    assert forall|i: int, j: int| 0 <= i < j < d.len() implies range_order()(
        #[trigger] d[i],
        #[trigger] d[j],
    ) by {
        assert(d[i] == s[i / 2]);
        assert(d[j] == s[j / 2]);
        if i / 2 < j / 2 {
            lemma_canonical_gap(s, i / 2, j / 2);
        }
    }
    assert forall|i: int| 0 <= i < d.len() implies range_wf(#[trigger] d[i]) by {
        assert(d[i] == s[i / 2]);
    }
}

/// The merge pass collapses each doubled interval and returns the canonical
/// sequence itself.
proof fn lemma_merged_doubled(s: Seq<Range>)
    requires
        canonical(s),
    ensures
        merged(doubled(s)) == s,
    decreases s.len(),
{
    if s.len() == 0 {
        assert(merged(doubled(s)) =~= s);
    } else {
        let rest = s.drop_first();
        lemma_canonical_drop_first(s);
        lemma_merged_doubled(rest);
        let d = doubled(s);
        assert(d == seq![s[0], s[0]] + doubled(rest));
        assert(d[0] == s[0] && d[1] == s[0]);
        assert(d[1].from <= d[0].to);
        assert(join2(d[0], d[1]) == s[0]);
        let t = seq![s[0]] + doubled(rest);
        assert(seq![join2(d[0], d[1])] + d.skip(2) =~= t);
        assert(merged(d) == merged(t));
        if rest.len() == 0 {
            assert(t =~= seq![s[0]]);
            assert(merged(t) =~= s);
        } else {
            lemma_doubled_index(rest);
            assert(t[1] == doubled(rest)[0]);
            assert(doubled(rest)[0] == rest[0]);
            assert(rest[0] == s[1]);
            assert(t[1].from > t[0].to);
            assert(merged(t) == seq![s[0]] + merged(t.drop_first()));
            assert(t.drop_first() =~= doubled(rest));
            assert(seq![s[0]] + rest =~= s);
        }
    }
}

/// Law: union is idempotent. Sorting `a + a` yields each interval twice in a
/// row, and the merge pass collapses each pair.
pub proof fn lemma_union_idempotent(a: Seq<Range>)
    requires
        canonical(a),
    ensures
        union_seq(a, a) == a,
{
    lemma_range_order_total();
    (a + a).lemma_sort_by_ensures(range_order());
    lemma_doubled_sorted(a);
    lemma_doubled_multiset(a);
    vstd::seq_lib::lemma_sorted_unique((a + a).sort_by(range_order()), doubled(a), range_order());
    lemma_merged_doubled(a);
}

/// Law: intersecting with an interval that strictly brackets every interval
/// of a canonical set gives the set back unchanged.
pub proof fn lemma_intersect_superset_identity(a: Seq<Range>, q: Range)
    requires
        canonical(a),
        range_wf(q),
        forall|i: int|
            0 <= i < a.len() ==> q.from <= (#[trigger] a[i]).from && a[i].to <= q.to && q.from
                < a[i].to && a[i].from < q.to,
    ensures
        intersected(a, q) == a,
    decreases a.len(),
{
    if a.len() == 0 {
        assert(intersected(a, q) =~= a);
    } else {
        let rest = a.drop_first();
        lemma_canonical_drop_first(a);
        assert forall|i: int|
            0 <= i < rest.len() implies q.from <= (#[trigger] rest[i]).from && rest[i].to <= q.to
            && q.from < rest[i].to && rest[i].from < q.to by {
            assert(rest[i] == a[i + 1]);
        }
        lemma_intersect_superset_identity(rest, q);
        assert(overlaps(a[0], q));
        assert(clip(a[0], q) == a[0]);
        assert(intersected(a, q) =~= seq![a[0]] + rest);
        assert(seq![a[0]] + rest =~= a);
    }
}

/// Two intervals cover no integer in common.
pub open spec fn sets_disjoint(x: Range, y: Range) -> bool {
    forall|v: int| !(range_covers(x, v) && range_covers(y, v))
}

/// Any two intervals at different positions cover no integer in common.
pub open spec fn pairwise_disjoint(s: Seq<Range>) -> bool {
    forall|i: int, j: int|
        0 <= i < j < s.len() ==> sets_disjoint(#[trigger] s[i], #[trigger] s[j])
}

/// The covered length adds over concatenation.
proof fn lemma_len_of_concat(a: Seq<Range>, b: Seq<Range>)
    ensures
        len_of(a + b) == len_of(a) + len_of(b),
{
    lemma_len_of_split(a + b, a.len() as int);
    assert((a + b).take(a.len() as int) =~= a);
    assert((a + b).skip(a.len() as int) =~= b);
}

/// Removing one interval takes exactly its length out of the total.
proof fn lemma_len_of_remove(s: Seq<Range>, j: int)
    requires
        0 <= j < s.len(),
    ensures
        len_of(s) == len_of(s.remove(j)) + range_len(s[j]),
{
    lemma_len_of_split(s, j);
    assert(s.skip(j)[0] == s[j]);
    assert(s.skip(j).drop_first() =~= s.skip(j + 1));
    assert(len_of(s.skip(j)) == range_len(s[j]) + len_of(s.skip(j + 1)));
    lemma_len_of_concat(s.take(j), s.skip(j + 1));
    assert(s.remove(j) =~= s.take(j) + s.skip(j + 1));
}

/// The covered length only depends on which intervals occur, with their
/// multiplicities, not on their order.
proof fn lemma_len_of_permutation(a: Seq<Range>, b: Seq<Range>)
    requires
        a.to_multiset() == b.to_multiset(),
    ensures
        len_of(a) == len_of(b),
    decreases a.len(),
{
    broadcast use vstd::seq_lib::group_to_multiset_ensures;

    if a.len() == 0 {
        assert(b.to_multiset().len() == 0);
        assert(b.len() == 0);
    } else {
        let x = a[0];
        assert(a.contains(x));
        assert(a.to_multiset().count(x) > 0);
        assert(b.to_multiset().count(x) > 0);
        assert(b.contains(x));
        let j = choose|j: int| 0 <= j < b.len() && b[j] == x;
        lemma_len_of_remove(b, j);
        lemma_len_of_remove(a, 0);
        assert(a.remove(0) =~= a.drop_first());
        assert(a.drop_first().to_multiset() =~= a.to_multiset().remove(x));
        assert(b.remove(j).to_multiset() =~= b.to_multiset().remove(x));
        lemma_len_of_permutation(a.drop_first(), b.remove(j));
    }
}

/// A value sitting at two positions of a sequence has multiplicity at least
/// two.
proof fn lemma_two_positions_count(s: Seq<Range>, i: int, j: int)
    requires
        0 <= i < j < s.len(),
        s[i] == s[j],
    ensures
        s.to_multiset().count(s[i]) >= 2,
{
    broadcast use vstd::seq_lib::group_to_multiset_ensures;
    broadcast use vstd::multiset::group_multiset_axioms;

    let r = s.remove(i);
    s.remove_ensures(i);
    assert(r[j - 1] == s[j]);
    assert(r.contains(s[i]));
    assert(r.to_multiset().count(s[i]) > 0);
    assert(r.to_multiset() =~= s.to_multiset().remove(s[i]));
    assert(s.contains(s[i]));
    assert(s.to_multiset().count(s[i]) > 0);
}

/// A non-empty interval occurs at most once in a canonical sequence.
proof fn lemma_canonical_count(s: Seq<Range>, x: Range)
    requires
        canonical(s),
        x.from < x.to,
    ensures
        s.to_multiset().count(x) <= 1,
{
    broadcast use vstd::seq_lib::group_to_multiset_ensures;
    broadcast use vstd::multiset::group_multiset_axioms;

    if s.to_multiset().count(x) >= 2 {
        assert(s.contains(x));
        let i = choose|i: int| 0 <= i < s.len() && s[i] == x;
        let r = s.remove(i);
        s.remove_ensures(i);
        assert(r.to_multiset() =~= s.to_multiset().remove(x));
        assert(r.to_multiset().count(x) >= 1);
        assert(r.contains(x));
        let j = choose|j: int| 0 <= j < r.len() && r[j] == x;
        if j < i {
            lemma_canonical_gap(s, j, i);
        } else {
            lemma_canonical_gap(s, i, j + 1);
        }
        assert(false);
    }
}

/// Sorting the concatenation of two canonical sets with disjoint coverage
/// yields pairwise disjoint intervals.
proof fn lemma_pairwise_sorted(a: Seq<Range>, b: Seq<Range>)
    requires
        canonical(a),
        canonical(b),
        forall|v: int| !(covers(a, v) && covers(b, v)),
    ensures
        pairwise_disjoint((a + b).sort_by(range_order())),
{
    broadcast use vstd::seq_lib::group_to_multiset_ensures;
    broadcast use vstd::multiset::group_multiset_axioms;

    lemma_range_order_total();
    let t = (a + b).sort_by(range_order());
    (a + b).lemma_sort_by_ensures(range_order());
    vstd::seq_lib::lemma_multiset_commutative(a, b);
    assert forall|i: int, j: int| 0 <= i < j < t.len() implies sets_disjoint(
        #[trigger] t[i],
        #[trigger] t[j],
    ) by {
        let x = t[i];
        let y = t[j];
        assert forall|v: int| !(range_covers(x, v) && range_covers(y, v)) by {
            if range_covers(x, v) && range_covers(y, v) {
                if x == y {
                    lemma_two_positions_count(t, i, j);
                    assert((a + b).to_multiset().count(x) >= 2);
                    lemma_canonical_count(a, x);
                    lemma_canonical_count(b, x);
                    assert(a.to_multiset().count(x) == 1 && b.to_multiset().count(x) == 1);
                    assert(a.contains(x));
                    assert(b.contains(x));
                    let ia = choose|k: int| 0 <= k < a.len() && a[k] == x;
                    let ib = choose|k: int| 0 <= k < b.len() && b[k] == x;
                    assert(range_covers(a[ia], v) && range_covers(b[ib], v));
                    assert(covers(a, v) && covers(b, v));
                } else {
                    assert(t.contains(x));
                    assert((a + b).to_multiset().count(x) > 0);
                    assert((a + b).contains(x));
                    let kx = choose|k: int| 0 <= k < (a + b).len() && (a + b)[k] == x;
                    assert(t.contains(y));
                    assert((a + b).to_multiset().count(y) > 0);
                    assert((a + b).contains(y));
                    let ky = choose|k: int| 0 <= k < (a + b).len() && (a + b)[k] == y;
                    if kx < a.len() && ky < a.len() {
                        assert(a[kx] == x && a[ky] == y);
                        if kx < ky {
                            lemma_canonical_gap(a, kx, ky);
                        } else {
                            lemma_canonical_gap(a, ky, kx);
                        }
                    } else if kx >= a.len() && ky >= a.len() {
                        assert(b[kx - a.len()] == x && b[ky - a.len()] == y);
                        if kx < ky {
                            lemma_canonical_gap(b, kx - a.len(), ky - a.len());
                        } else {
                            lemma_canonical_gap(b, ky - a.len(), kx - a.len());
                        }
                    } else if kx < a.len() {
                        assert(a[kx] == x && b[ky - a.len()] == y);
                        assert(covers(a, v) && covers(b, v));
                    } else {
                        assert(b[kx - a.len()] == x && a[ky] == y);
                        assert(covers(a, v) && covers(b, v));
                    }
                }
            }
        }
    }
}

/// On sorted, well-formed, pairwise disjoint input the merge pass keeps the
/// total covered length: only touching intervals are joined.
proof fn lemma_merged_len(s: Seq<Range>)
    requires
        vstd::relations::sorted_by(s, range_order()),
        all_wf(s),
        pairwise_disjoint(s),
    ensures
        len_of(merged(s)) == len_of(s),
    decreases s.len(),
{
    if s.len() <= 1 {
    } else if s[1].from <= s[0].to {
        let j = join2(s[0], s[1]);
        let t = seq![j] + s.skip(2);
        lemma_join_step_sorted(s);
        lemma_sorted_pair(s, 0, 1);
        assert(sets_disjoint(s[0], s[1]));
        assert(range_len(j) == range_len(s[0]) + range_len(s[1])) by {
            if s[0].from < s[0].to && s[1].from < s[1].to {
                assert(!(range_covers(s[0], s[1].from as int) && range_covers(
                    s[1],
                    s[1].from as int,
                )));
                assert(s[1].from >= s[0].to);
            }
        }
        assert forall|v: int| range_covers(j, v) implies range_covers(s[0], v) || range_covers(
            s[1],
            v,
        ) by {
            if v >= s[0].to {
                assert(j.to == s[1].to);
            }
        }
        assert forall|p: int, q: int| 0 <= p < q < t.len() implies sets_disjoint(
            #[trigger] t[p],
            #[trigger] t[q],
        ) by {
            if p == 0 {
                assert(t[q] == s[q + 1]);
                assert(sets_disjoint(s[0], s[q + 1]));
                assert(sets_disjoint(s[1], s[q + 1]));
                assert forall|v: int| !(range_covers(j, v) && range_covers(t[q], v)) by {
                    if range_covers(j, v) && range_covers(t[q], v) {
                        assert(range_covers(s[0], v) || range_covers(s[1], v));
                    }
                }
            } else {
                assert(t[p] == s[p + 1]);
                assert(t[q] == s[q + 1]);
                assert(sets_disjoint(s[p + 1], s[q + 1]));
            }
        }
        lemma_merged_len(t);
        assert(t[0] == j);
        assert(t.drop_first() =~= s.skip(2));
        assert(len_of(t) == range_len(j) + len_of(s.skip(2)));
        assert(s.drop_first()[0] == s[1]);
        assert(s.drop_first().drop_first() =~= s.skip(2));
        assert(len_of(s) == range_len(s[0]) + len_of(s.drop_first()));
        assert(len_of(s.drop_first()) == range_len(s[1]) + len_of(s.skip(2)));
    } else {
        let rest = s.drop_first();
        lemma_drop_first_sorted(s);
        assert forall|p: int, q: int| 0 <= p < q < rest.len() implies sets_disjoint(
            #[trigger] rest[p],
            #[trigger] rest[q],
        ) by {
            assert(rest[p] == s[p + 1]);
            assert(rest[q] == s[q + 1]);
            assert(sets_disjoint(s[p + 1], s[q + 1]));
        }
        lemma_merged_len(rest);
        assert(merged(s) == seq![s[0]] + merged(rest));
        lemma_len_of_concat(seq![s[0]], merged(rest));
        assert(seq![s[0]].drop_first() =~= Seq::<Range>::empty());
        assert(len_of(seq![s[0]]) == range_len(s[0]) + len_of(Seq::<Range>::empty()));
        assert(len_of(Seq::<Range>::empty()) == 0);
        assert(len_of(s) == range_len(s[0]) + len_of(rest));
    }
}

/// Law: when two canonical sets cover disjoint integer sets, the union's
/// covered length is the sum of theirs.
pub proof fn lemma_union_len_additive(a: Seq<Range>, b: Seq<Range>)
    requires
        canonical(a),
        canonical(b),
        forall|v: int| !(covers(a, v) && covers(b, v)),
    ensures
        len_of(union_seq(a, b)) == len_of(a) + len_of(b),
{
    lemma_range_order_total();
    let t = (a + b).sort_by(range_order());
    (a + b).lemma_sort_by_ensures(range_order());
    lemma_wf_permutation(a + b, t);
    lemma_pairwise_sorted(a, b);
    lemma_merged_len(t);
    lemma_len_of_permutation(a + b, t);
    lemma_len_of_concat(a, b);
}

/// Every interval of the sequence is non-empty.
pub open spec fn all_nonempty(s: Seq<Range>) -> bool {
    forall|i: int| 0 <= i < s.len() ==> (#[trigger] s[i]).from < s[i].to
}

/// Non-emptiness of every element carries over to any permutation.
proof fn lemma_nonempty_permutation(a: Seq<Range>, b: Seq<Range>)
    requires
        a.to_multiset() == b.to_multiset(),
        all_nonempty(a),
    ensures
        all_nonempty(b),
{
    broadcast use vstd::seq_lib::group_to_multiset_ensures;

    assert forall|i: int| 0 <= i < b.len() implies (#[trigger] b[i]).from < b[i].to by {
        assert(b.contains(b[i]));
        assert(b.to_multiset().count(b[i]) > 0);
        assert(a.to_multiset().count(b[i]) > 0);
        assert(a.contains(b[i]));
        let j = choose|j: int| 0 <= j < a.len() && a[j] == b[i];
        assert(a[j].from < a[j].to);
    }
}

/// The merge pass keeps every interval non-empty.
proof fn lemma_merged_nonempty(s: Seq<Range>)
    requires
        all_nonempty(s),
    ensures
        all_nonempty(merged(s)),
    decreases s.len(),
{
    if s.len() <= 1 {
    } else if s[1].from <= s[0].to {
        let t = seq![join2(s[0], s[1])] + s.skip(2);
        assert forall|i: int| 0 <= i < t.len() implies (#[trigger] t[i]).from < t[i].to by {
            if i > 0 {
                assert(t[i] == s[i + 1]);
            }
        }
        lemma_merged_nonempty(t);
    } else {
        let rest = s.drop_first();
        assert forall|i: int| 0 <= i < rest.len() implies (#[trigger] rest[i]).from < rest[i].to by {
            assert(rest[i] == s[i + 1]);
        }
        lemma_merged_nonempty(rest);
        let m = seq![s[0]] + merged(rest);
        assert(merged(s) == m);
        assert forall|i: int| 0 <= i < m.len() implies (#[trigger] m[i]).from < m[i].to by {
            if i > 0 {
                assert(m[i] == merged(rest)[i - 1]);
            }
        }
    }
}

/// What `union_seq` guarantees of canonical inputs: a canonical result that
/// covers the union of the covered sets, with no empty interval invented.
pub proof fn lemma_union_seq_props(a: Seq<Range>, b: Seq<Range>)
    requires
        canonical(a),
        canonical(b),
    ensures
        canonical(union_seq(a, b)),
        forall|v: int| covers(union_seq(a, b), v) <==> covers(a, v) || covers(b, v),
        all_nonempty(a) && all_nonempty(b) ==> all_nonempty(union_seq(a, b)),
{
    lemma_range_order_total();
    let cat = a + b;
    cat.lemma_sort_by_ensures(range_order());
    lemma_wf_permutation(cat, cat.sort_by(range_order()));
    lemma_merged_canonical(cat.sort_by(range_order()));
    lemma_merged_covers(cat.sort_by(range_order()));
    lemma_covers_permutation(cat, cat.sort_by(range_order()));
    lemma_covers_concat(a, b);
    if all_nonempty(a) && all_nonempty(b) {
        assert(all_nonempty(cat)) by {
            assert forall|i: int| 0 <= i < cat.len() implies (#[trigger] cat[i]).from
                < cat[i].to by {
                if i < a.len() {
                    assert(cat[i] == a[i]);
                } else {
                    assert(cat[i] == b[i - a.len()]);
                }
            }
        }
        lemma_nonempty_permutation(cat, cat.sort_by(range_order()));
        lemma_merged_nonempty(cat.sort_by(range_order()));
    }
}

/// Law: union is associative on sets of non-empty intervals. Both orders of
/// combination are canonical and cover the same integers, so they are the
/// same value.
pub proof fn lemma_union_associative(a: Seq<Range>, b: Seq<Range>, c: Seq<Range>)
    requires
        canonical(a),
        canonical(b),
        canonical(c),
        all_nonempty(a),
        all_nonempty(b),
        all_nonempty(c),
    ensures
        union_seq(union_seq(a, b), c) == union_seq(a, union_seq(b, c)),
{
    lemma_union_seq_props(a, b);
    lemma_union_seq_props(b, c);
    lemma_union_seq_props(union_seq(a, b), c);
    lemma_union_seq_props(a, union_seq(b, c));
    assert forall|v: int|
        covers(union_seq(union_seq(a, b), c), v) <==> covers(union_seq(a, union_seq(b, c)), v) by {
        assert(covers(union_seq(union_seq(a, b), c), v) <==> covers(union_seq(a, b), v) || covers(
            c,
            v,
        ));
        assert(covers(union_seq(a, b), v) <==> covers(a, v) || covers(b, v));
        assert(covers(union_seq(a, union_seq(b, c)), v) <==> covers(a, v) || covers(
            union_seq(b, c),
            v,
        ));
        assert(covers(union_seq(b, c), v) <==> covers(b, v) || covers(c, v));
    }
    lemma_canonical_unique(union_seq(union_seq(a, b), c), union_seq(a, union_seq(b, c)));
}

/// Law: canonical form is a unique representation. Two canonical sequences
/// without empty intervals that cover the same integers are equal.
#[verifier::rlimit(50)]
pub proof fn lemma_canonical_unique(a: Seq<Range>, b: Seq<Range>)
    requires
        canonical(a),
        canonical(b),
        forall|i: int| 0 <= i < a.len() ==> (#[trigger] a[i]).from < a[i].to,
        forall|i: int| 0 <= i < b.len() ==> (#[trigger] b[i]).from < b[i].to,
        forall|v: int| covers(a, v) <==> covers(b, v),
    ensures
        a =~= b,
    decreases a.len() + b.len(),
{
    if a.len() == 0 && b.len() == 0 {
    } else if a.len() == 0 {
        assert(covers(b, b[0].from as int));
        assert(!covers(a, b[0].from as int));
    } else if b.len() == 0 {
        assert(covers(a, a[0].from as int));
        assert(!covers(b, a[0].from as int));
    } else {
        lemma_canonical_first(a, b);
        lemma_canonical_first(b, a);
        assert(a[0] == b[0]);
        let ra = a.drop_first();
        let rb = b.drop_first();
        lemma_canonical_drop_first(a);
        lemma_canonical_drop_first(b);
        assert forall|i: int| 0 <= i < ra.len() implies (#[trigger] ra[i]).from < ra[i].to by {
            assert(ra[i] == a[i + 1]);
        }
        assert forall|i: int| 0 <= i < rb.len() implies (#[trigger] rb[i]).from < rb[i].to by {
            assert(rb[i] == b[i + 1]);
        }
        lemma_rest_covers(a);
        lemma_rest_covers(b);
        assert forall|v: int| covers(ra, v) <==> covers(rb, v) by {
            assert(covers(ra, v) <==> covers(a, v) && v >= a[0].to);
            assert(covers(rb, v) <==> covers(b, v) && v >= b[0].to);
        }
        lemma_canonical_unique(ra, rb);
        assert(a =~= seq![a[0]] + ra);
        assert(b =~= seq![b[0]] + rb);
    }
}

/// In a canonical sequence of non-empty intervals, the first interval is
/// determined by the covered set: its `from` is covered while nothing before
/// it is, and its `to` is the first uncovered integer after that.
proof fn lemma_canonical_first(a: Seq<Range>, b: Seq<Range>)
    requires
        canonical(a),
        canonical(b),
        a.len() > 0,
        b.len() > 0,
        forall|i: int| 0 <= i < a.len() ==> (#[trigger] a[i]).from < a[i].to,
        forall|i: int| 0 <= i < b.len() ==> (#[trigger] b[i]).from < b[i].to,
        forall|v: int| covers(a, v) <==> covers(b, v),
    ensures
        b[0].from <= a[0].from,
        b[0].to >= a[0].to || b[0].to < a[0].from,
{
    assert(range_covers(a[0], a[0].from as int));
    assert(covers(a, a[0].from as int));
    let j = choose|j: int| 0 <= j < b.len() && range_covers(#[trigger] b[j], a[0].from as int);
    if j > 0 {
        lemma_canonical_gap(b, 0, j);
        assert(!covers(a, b[0].from as int)) by {
            if covers(a, b[0].from as int) {
                let i = choose|i: int|
                    0 <= i < a.len() && range_covers(#[trigger] a[i], b[0].from as int);
                if i > 0 {
                    lemma_canonical_gap(a, 0, i);
                }
            }
        }
        assert(covers(b, b[0].from as int));
        assert(false);
    }
    assert(b[0].from <= a[0].from);
    if b[0].to < a[0].to && b[0].to >= a[0].from {
        assert(range_covers(a[0], b[0].to as int));
        assert(covers(a, b[0].to as int));
        assert(!covers(b, b[0].to as int)) by {
            if covers(b, b[0].to as int) {
                let i = choose|i: int|
                    0 <= i < b.len() && range_covers(#[trigger] b[i], b[0].to as int);
                if i > 0 {
                    lemma_canonical_gap(b, 0, i);
                }
            }
        }
        assert(false);
    }
}

/// Dropping a canonical sequence's first interval keeps exactly the covered
/// integers at or past that interval's end.
proof fn lemma_rest_covers(a: Seq<Range>)
    requires
        canonical(a),
        a.len() > 0,
    ensures
        forall|v: int| covers(a.drop_first(), v) <==> covers(a, v) && v >= a[0].to,
{
    let rest = a.drop_first();
    assert forall|v: int| covers(rest, v) <==> covers(a, v) && v >= a[0].to by {
        if covers(rest, v) {
            let i = choose|i: int| 0 <= i < rest.len() && range_covers(#[trigger] rest[i], v);
            assert(rest[i] == a[i + 1]);
            assert(range_covers(a[i + 1], v));
            lemma_canonical_gap(a, 0, i + 1);
        }
        if covers(a, v) && v >= a[0].to {
            let i = choose|i: int| 0 <= i < a.len() && range_covers(#[trigger] a[i], v);
            assert(i > 0);
            assert(range_covers(rest[i - 1], v));
        }
    }
}

/// The covered length of a non-empty sequence splits off its last interval.
proof fn lemma_len_of_last(s: Seq<Range>)
    requires
        s.len() >= 1,
    ensures
        len_of(s) == len_of(s.drop_last()) + range_len(s[s.len() - 1]),
    decreases s.len(),
{
    if s.len() == 1 {
        assert(s.drop_last() =~= Seq::<Range>::empty());
        assert(s.drop_first() =~= Seq::<Range>::empty());
        assert(len_of(Seq::<Range>::empty()) == 0);
        assert(len_of(s) == range_len(s[0]) + len_of(s.drop_first()));
    } else {
        lemma_len_of_last(s.drop_first());
        assert(s.drop_first().drop_last() =~= s.drop_last().drop_first());
        assert(s.drop_last().len() == s.len() - 1);
        assert(len_of(s.drop_last()) == range_len(s.drop_last()[0]) + len_of(
            s.drop_last().drop_first(),
        ));
        assert(s.drop_last()[0] == s[0]);
        assert(s.drop_first()[s.len() - 2] == s[s.len() - 1]);
        assert(len_of(s) == range_len(s[0]) + len_of(s.drop_first()));
        assert(len_of(s.drop_first()) == len_of(s.drop_first().drop_last()) + range_len(
            s[s.len() - 1],
        ));
    }
}

/// In a canonical sequence every earlier interval ends strictly before a
/// later one begins.
proof fn lemma_canonical_gap(s: Seq<Range>, i: int, j: int)
    requires
        canonical(s),
        0 <= i < j < s.len(),
    ensures
        s[i].to < s[j].from,
    decreases j - i,
{
    if i + 1 < j {
        lemma_canonical_gap(s, i + 1, j);
    }
}

/// Dropping the first element of a canonical sequence keeps it canonical.
proof fn lemma_canonical_drop_first(s: Seq<Range>)
    requires
        canonical(s),
        s.len() >= 1,
    ensures
        canonical(s.drop_first()),
{
    let rest = s.drop_first();
    assert forall|i: int| 0 <= i < rest.len() implies range_wf(#[trigger] rest[i]) by {
        assert(rest[i] == s[i + 1]);
    }
    assert forall|i: int| 0 <= i && i + 1 < rest.len() implies (#[trigger] rest[i]).to < rest[i
        + 1].from by {
        assert(rest[i] == s[i + 1]);
        assert(rest[i + 1] == s[i + 2]);
    }
}

/// The intersection scan of a canonical sequence with a well-formed query is
/// canonical, covers exactly the common integers, and starts no earlier than
/// the input's first interval.
pub proof fn lemma_intersected_props(s: Seq<Range>, q: Range)
    requires
        canonical(s),
        range_wf(q),
    ensures
        canonical(intersected(s, q)),
        forall|v: int| covers(intersected(s, q), v) <==> covers(s, v) && range_covers(q, v),
        intersected(s, q).len() > 0 ==> s.len() > 0 && intersected(s, q)[0].from >= s[0].from,
    decreases s.len(),
{
    if s.len() == 0 {
    } else if s[0].from >= q.to {
        assert forall|v: int| covers(intersected(s, q), v) <==> covers(s, v) && range_covers(
            q,
            v,
        ) by {
            if covers(s, v) && range_covers(q, v) {
                let i = choose|i: int| 0 <= i < s.len() && range_covers(#[trigger] s[i], v);
                if i > 0 {
                    lemma_canonical_gap(s, 0, i);
                }
                assert(v >= s[i].from >= s[0].from >= q.to);
                assert(v < q.to);
            }
        }
    } else {
        let rest = s.drop_first();
        lemma_canonical_drop_first(s);
        lemma_intersected_props(rest, q);
        let out = intersected(s, q);
        if overlaps(s[0], q) {
            let c = clip(s[0], q);
            assert(out == seq![c] + intersected(rest, q));
            lemma_covers_concat(seq![c], intersected(rest, q));
            assert(range_wf(c));
            assert forall|i: int| 0 <= i && i + 1 < out.len() implies (#[trigger] out[i]).to < out[i
                + 1].from by {
                if i == 0 {
                    assert(out[1] == intersected(rest, q)[0]);
                    assert(intersected(rest, q)[0].from >= rest[0].from);
                    assert(rest[0] == s[1]);
                    assert(c.to <= s[0].to);
                } else {
                    assert(out[i] == intersected(rest, q)[i - 1]);
                    assert(out[i + 1] == intersected(rest, q)[i]);
                }
            }
            assert forall|i: int| 0 <= i < out.len() implies range_wf(#[trigger] out[i]) by {
                if i > 0 {
                    assert(out[i] == intersected(rest, q)[i - 1]);
                }
            }
            assert forall|v: int| covers(out, v) <==> covers(s, v) && range_covers(q, v) by {
                assert(s =~= seq![s[0]] + rest);
                lemma_covers_concat(seq![s[0]], rest);
                if range_covers(s[0], v) {
                    assert(range_covers(seq![s[0]][0], v));
                }
                if range_covers(c, v) {
                    assert(range_covers(seq![c][0], v));
                }
                assert(covers(seq![c], v) <==> range_covers(s[0], v) && range_covers(q, v));
                assert(covers(s, v) <==> covers(seq![s[0]], v) || covers(rest, v));
                assert(covers(out, v) <==> covers(seq![c], v) || covers(intersected(rest, q), v));
            }
        } else {
            assert(out == intersected(rest, q));
            assert forall|v: int| covers(out, v) <==> covers(s, v) && range_covers(q, v) by {
                assert(s =~= seq![s[0]] + rest);
                lemma_covers_concat(seq![s[0]], rest);
                if range_covers(s[0], v) {
                    assert(range_covers(seq![s[0]][0], v));
                }
                assert(!(range_covers(s[0], v) && range_covers(q, v)));
                assert(covers(s, v) <==> covers(seq![s[0]], v) || covers(rest, v));
            }
            if out.len() > 0 {
                assert(out[0].from >= rest[0].from);
                assert(rest[0] == s[1]);
            }
        }
    }
}

/// The covered length of every well-formed sequence is non-negative.
proof fn lemma_len_of_nonneg(s: Seq<Range>)
    requires
        all_wf(s),
    ensures
        len_of(s) >= 0,
    decreases s.len(),
{
    if s.len() > 0 {
        assert forall|i: int| 0 <= i < s.drop_first().len() implies range_wf(
            #[trigger] s.drop_first()[i],
        ) by {
            assert(s.drop_first()[i] == s[i + 1]);
        }
        lemma_len_of_nonneg(s.drop_first());
    }
}

/// The covered length splits over any cut of the sequence.
proof fn lemma_len_of_split(s: Seq<Range>, i: int)
    requires
        0 <= i <= s.len(),
    ensures
        len_of(s) == len_of(s.take(i)) + len_of(s.skip(i)),
    decreases i,
{
    if i == 0 {
        assert(s.take(0) =~= Seq::<Range>::empty());
        assert(s.skip(0) =~= s);
    } else {
        lemma_len_of_split(s.drop_first(), i - 1);
        assert(s.take(i).drop_first() =~= s.drop_first().take(i - 1));
        assert(s.skip(i) =~= s.drop_first().skip(i - 1));
        assert(len_of(s.take(i)) == range_len(s.take(i)[0]) + len_of(s.take(i).drop_first()));
        assert(s.take(i)[0] == s[0]);
    }
}

/// A canonical sequence never covers more than the span from its first
/// `from` to its last `to`; in particular the total fits in `usize`.
proof fn lemma_canonical_len_bound(s: Seq<Range>)
    requires
        canonical(s),
    ensures
        s.len() > 0 ==> len_of(s) <= s[s.len() - 1].to - s[0].from,
        len_of(s) >= 0,
        len_of(s) <= usize::MAX,
    decreases s.len(),
{
    if s.len() == 0 {
    } else if s.len() == 1 {
        assert(len_of(s) == range_len(s[0]) + len_of(s.drop_first()));
        assert(s.drop_first().len() == 0);
    } else {
        lemma_canonical_drop_first(s);
        lemma_canonical_len_bound(s.drop_first());
        assert(s.drop_first()[0] == s[1]);
        assert(s.drop_first()[s.len() - 2] == s[s.len() - 1]);
    }
}

/// Well-formedness of every element carries over to any permutation.
proof fn lemma_wf_permutation(a: Seq<Range>, b: Seq<Range>)
    requires
        a.to_multiset() == b.to_multiset(),
        forall|i: int| 0 <= i < a.len() ==> range_wf(#[trigger] a[i]),
    ensures
        forall|i: int| 0 <= i < b.len() ==> range_wf(#[trigger] b[i]),
{
    broadcast use vstd::seq_lib::group_to_multiset_ensures;

    assert forall|i: int| 0 <= i < b.len() implies range_wf(#[trigger] b[i]) by {
        assert(b.contains(b[i]));
        assert(b.to_multiset().count(b[i]) > 0);
        assert(a.to_multiset().count(b[i]) > 0);
        assert(a.contains(b[i]));
        let j = choose|j: int| 0 <= j < a.len() && a[j] == b[i];
        assert(range_wf(a[j]));
    }
}

/// Every element of a sequence is well-formed.
pub open spec fn all_wf(s: Seq<Range>) -> bool {
    forall|i: int| 0 <= i < s.len() ==> range_wf(#[trigger] s[i])
}

/// Joining the first two intervals of a sorted, well-formed sequence keeps
/// the remainder sorted and well-formed.
proof fn lemma_join_step_sorted(s: Seq<Range>)
    requires
        vstd::relations::sorted_by(s, range_order()),
        all_wf(s),
        s.len() >= 2,
        s[1].from <= s[0].to,
    ensures
        vstd::relations::sorted_by(seq![join2(s[0], s[1])] + s.skip(2), range_order()),
        all_wf(seq![join2(s[0], s[1])] + s.skip(2)),
{
    let t = seq![join2(s[0], s[1])] + s.skip(2);
    assert forall|i: int, j: int| 0 <= i < j < t.len() implies range_order()(
        #[trigger] t[i],
        #[trigger] t[j],
    ) by {
        if i == 0 {
            assert(t[0] == join2(s[0], s[1]));
            assert(t[j] == s[j + 1]);
            lemma_sorted_pair(s, 0, 1);
            lemma_sorted_pair(s, 0, j + 1);
            lemma_sorted_pair(s, 1, j + 1);
        } else {
            assert(t[i] == s[i + 1]);
            assert(t[j] == s[j + 1]);
            lemma_sorted_pair(s, i + 1, j + 1);
        }
    }
    assert forall|i: int| 0 <= i < t.len() implies range_wf(#[trigger] t[i]) by {
        if i > 0 {
            assert(t[i] == s[i + 1]);
        }
    }
}

/// Dropping the first element keeps a sequence sorted and well-formed.
proof fn lemma_drop_first_sorted(s: Seq<Range>)
    requires
        vstd::relations::sorted_by(s, range_order()),
        all_wf(s),
        s.len() >= 1,
    ensures
        vstd::relations::sorted_by(s.drop_first(), range_order()),
        all_wf(s.drop_first()),
{
    let rest = s.drop_first();
    assert forall|i: int, j: int| 0 <= i < j < rest.len() implies range_order()(
        #[trigger] rest[i],
        #[trigger] rest[j],
    ) by {
        lemma_sorted_pair(s, i + 1, j + 1);
    }
    assert forall|i: int| 0 <= i < rest.len() implies range_wf(#[trigger] rest[i]) by {
        assert(rest[i] == s[i + 1]);
    }
}

/// On a sorted, well-formed input, the merge pass yields a canonical
/// sequence that is empty only for empty input and keeps the first `from`.
proof fn lemma_merged_canonical(s: Seq<Range>)
    requires
        vstd::relations::sorted_by(s, range_order()),
        all_wf(s),
    ensures
        canonical(merged(s)),
        merged(s).len() == 0 <==> s.len() == 0,
        s.len() > 0 ==> merged(s)[0].from == s[0].from && merged(s)[0].to >= s[0].to,
    decreases s.len(),
{
    if s.len() <= 1 {
    } else if s[1].from <= s[0].to {
        let t = seq![join2(s[0], s[1])] + s.skip(2);
        lemma_join_step_sorted(s);
        lemma_merged_canonical(t);
    } else {
        let rest = s.drop_first();
        lemma_drop_first_sorted(s);
        lemma_merged_canonical(rest);
        let m = seq![s[0]] + merged(rest);
        assert(merged(s) == m);
        assert forall|i: int| 0 <= i && i + 1 < m.len() implies (#[trigger] m[i]).to < m[i
            + 1].from by {
            if i == 0 {
                assert(m[1] == merged(rest)[0]);
                assert(merged(rest)[0].from == rest[0].from);
                assert(rest[0] == s[1]);
            }
        }
    }
}

/// Concatenation covers an integer exactly when one of the parts does.
proof fn lemma_covers_concat(a: Seq<Range>, b: Seq<Range>)
    ensures
        forall|v: int| covers(a + b, v) <==> covers(a, v) || covers(b, v),
{
    assert forall|v: int| covers(a + b, v) <==> covers(a, v) || covers(b, v) by {
        if covers(a + b, v) {
            let i = choose|i: int| 0 <= i < (a + b).len() && range_covers(#[trigger] (a + b)[i], v);
            if i < a.len() {
                assert(range_covers(a[i], v));
            } else {
                assert(range_covers(b[i - a.len()], v));
            }
        }
        if covers(a, v) {
            let i = choose|i: int| 0 <= i < a.len() && range_covers(#[trigger] a[i], v);
            assert(range_covers((a + b)[i], v));
        }
        if covers(b, v) {
            let i = choose|i: int| 0 <= i < b.len() && range_covers(#[trigger] b[i], v);
            assert(range_covers((a + b)[a.len() + i], v));
        }
    }
}

/// Coverage only depends on which intervals occur, not on their order.
proof fn lemma_covers_permutation(a: Seq<Range>, b: Seq<Range>)
    requires
        a.to_multiset() == b.to_multiset(),
    ensures
        forall|v: int| covers(a, v) <==> covers(b, v),
{
    broadcast use vstd::seq_lib::group_to_multiset_ensures;

    assert forall|v: int| covers(a, v) <==> covers(b, v) by {
        if covers(a, v) {
            let i = choose|i: int| 0 <= i < a.len() && range_covers(#[trigger] a[i], v);
            assert(a.contains(a[i]));
            assert(a.to_multiset().count(a[i]) > 0);
            assert(b.to_multiset().count(a[i]) > 0);
            assert(b.contains(a[i]));
            let j = choose|j: int| 0 <= j < b.len() && b[j] == a[i];
            assert(range_covers(b[j], v));
        }
        if covers(b, v) {
            let i = choose|i: int| 0 <= i < b.len() && range_covers(#[trigger] b[i], v);
            assert(b.contains(b[i]));
            assert(b.to_multiset().count(b[i]) > 0);
            assert(a.to_multiset().count(b[i]) > 0);
            assert(a.contains(b[i]));
            let j = choose|j: int| 0 <= j < a.len() && a[j] == b[i];
            assert(range_covers(a[j], v));
        }
    }
}

/// The merge pass does not change which integers are covered.
proof fn lemma_merged_covers(s: Seq<Range>)
    requires
        vstd::relations::sorted_by(s, range_order()),
        all_wf(s),
    ensures
        forall|v: int| covers(merged(s), v) <==> covers(s, v),
    decreases s.len(),
{
    if s.len() <= 1 {
    } else if s[1].from <= s[0].to {
        let j = join2(s[0], s[1]);
        let t = seq![j] + s.skip(2);
        lemma_join_step_sorted(s);
        lemma_merged_covers(t);
        lemma_covers_concat(seq![j], s.skip(2));
        lemma_covers_concat(seq![s[0], s[1]], s.skip(2));
        lemma_sorted_pair(s, 0, 1);
        let pair = seq![s[0], s[1]];
        assert forall|v: int| covers(merged(s), v) <==> covers(s, v) by {
            assert(s =~= pair + s.skip(2));
            if covers(pair, v) {
                let i = choose|i: int| 0 <= i < pair.len() && range_covers(#[trigger] pair[i], v);
                assert(range_covers(j, v));
                assert(range_covers(seq![j][0], v));
            }
            if covers(seq![j], v) {
                let i = choose|i: int|
                    0 <= i < seq![j].len() && range_covers(#[trigger] seq![j][i], v);
                assert(range_covers(j, v));
                if v < s[0].to {
                    assert(range_covers(pair[0], v));
                } else {
                    assert(range_covers(pair[1], v));
                }
            }
            assert(covers(s, v) <==> covers(pair, v) || covers(s.skip(2), v));
            assert(covers(t, v) <==> covers(seq![j], v) || covers(s.skip(2), v));
            assert(covers(merged(s), v) <==> covers(t, v));
        }
    } else {
        let rest = s.drop_first();
        lemma_drop_first_sorted(s);
        lemma_merged_covers(rest);
        lemma_covers_concat(seq![s[0]], merged(rest));
        lemma_covers_concat(seq![s[0]], rest);
        assert(merged(s) == seq![s[0]] + merged(rest));
        assert forall|v: int| covers(merged(s), v) <==> covers(s, v) by {
            assert(s =~= seq![s[0]] + rest);
            if range_covers(s[0], v) {
                assert(range_covers(seq![s[0]][0], v));
            }
            assert(covers(s, v) <==> covers(seq![s[0]], v) || covers(rest, v));
            assert(covers(merged(s), v) <==> covers(seq![s[0]], v) || covers(merged(rest), v));
            assert(covers(merged(rest), v) <==> covers(rest, v));
        }
    }
}

} // verus!
