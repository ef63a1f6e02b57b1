//! Difference-table extrapolation: repeatedly take adjacent differences of a
//! reading until every difference is zero, then extend the original reading
//! one step past either end.

use vstd::prelude::*;

verus! {

/// A line of integer readings.
#[derive(Debug)]
pub struct Series(pub Vec<i64>);

impl View for Series {
    type V = Seq<int>;

    closed spec fn view(&self) -> Seq<int> {
        self.0@.map_values(|x: i64| x as int)
    }
}

/// All readings are zero.
pub open spec fn all_zero(s: Seq<int>) -> bool {
    forall|i: int| 0 <= i < s.len() ==> s[i] == 0
}

/// The adjacent differences, one shorter than the input.
pub open spec fn spec_deltas(s: Seq<int>) -> Seq<int> {
    Seq::new((s.len() - 1) as nat, |i: int| s[i + 1] - s[i])
}

/// Every value fits in a 64-bit signed integer.
pub open spec fn fits_i64(s: Seq<int>) -> bool {
    forall|i: int| 0 <= i < s.len() ==> i64::MIN <= #[trigger] s[i] <= i64::MAX
}

/// The difference table reaches an all-zero row while every row, this one
/// included, is non-empty and fits in 64 bits.
pub open spec fn tower_ok(s: Seq<int>) -> bool
    decreases s.len(),
{
    s.len() >= 1 && (all_zero(s) || (fits_i64(spec_deltas(s)) && tower_ok(spec_deltas(s))))
}

/// The value one step past the end of the reading: its last value plus the
/// extrapolation of its difference row; zero once every value is zero.
pub open spec fn extrap_last(s: Seq<int>) -> int
    decreases s.len(),
{
    if s.len() == 0 || all_zero(s) {
        0
    } else {
        s.last() + extrap_last(spec_deltas(s))
    }
}

/// The value one step before the start of the reading: its first value minus
/// the extrapolation of its difference row; zero once every value is zero.
pub open spec fn extrap_first(s: Seq<int>) -> int
    decreases s.len(),
{
    if s.len() == 0 || all_zero(s) {
        0
    } else {
        s.first() - extrap_first(spec_deltas(s))
    }
}

impl Series {
    /// True when every reading is zero.
    pub fn all_zeros(&self) -> (r: bool)
        ensures
            r == all_zero(self@),
    {
        let mut i: usize = 0;
        while i < self.0.len()
            invariant
                0 <= i <= self@.len(),
                forall|k: int| 0 <= k < i ==> self@[k] == 0,
            decreases self@.len() - i,
        {
            if self.0[i] != 0 {
                proof {
                    assert(self@[i as int] == self.0@[i as int] as int);
                }
                return false;
            }
            proof {
                assert(self@[i as int] == self.0@[i as int] as int);
            }
            i = i + 1;
        }
        true
    }

    /// An element-for-element copy of the readings.
    pub fn duplicate(&self) -> (r: Series)
        ensures
            r@ == self@,
    {
        let mut out: Vec<i64> = Vec::new();
        let mut i: usize = 0;
        while i < self.0.len()
            invariant
                0 <= i <= self.0@.len(),
                out@ =~= self.0@.take(i as int),
            decreases self.0@.len() - i,
        {
            out.push(self.0[i]);
            i = i + 1;
        }
        proof {
            assert(out@ =~= self.0@);
            assert(Series(out)@ =~= self@);
        }
        Series(out)
    }

    /// The adjacent differences of the readings.
    pub fn deltas(&self) -> (r: Series)
        requires
            self@.len() >= 1,
            fits_i64(spec_deltas(self@)),
        ensures
            r@ == spec_deltas(self@),
    {
        let mut out: Vec<i64> = Vec::new();
        let n = self.0.len();
        let mut i: usize = 0;
        while i < n - 1
            invariant
                0 <= i <= n - 1,
                1 <= n == self.0@.len(),
                fits_i64(spec_deltas(self@)),
                self@ == self.0@.map_values(|x: i64| x as int),
                out@.len() == i,
                forall|j: int| 0 <= j < i ==> #[trigger] out@[j] as int == spec_deltas(self@)[j],
            decreases n - i,
        {
            proof {
                assert(spec_deltas(self@)[i as int] == self@[i + 1] - self@[i as int]);
                assert(self@[i + 1] == self.0@[i + 1] as int);
                assert(self@[i as int] == self.0@[i as int] as int);
            }
            out.push(self.0[i + 1] - self.0[i]);
            i = i + 1;
        }
        proof {
            assert(Series(out)@ =~= spec_deltas(self@)) by {
                assert(forall|j: int|
                    0 <= j < out@.len() ==> #[trigger] Series(out)@[j] == out@[j] as int);
            }
        }
        Series(out)
    }

    /// The whole difference table: the reading itself, then each row of
    /// differences, down to the first all-zero row.
    pub fn deltas_until_zeros(&self) -> (r: Vec<Series>)
        requires
            tower_ok(self@),
        ensures
            r@.len() >= 1,
            r@[0]@ == self@,
            forall|k: int| 0 <= k < r@.len() ==> tower_ok(#[trigger] r@[k]@),
            forall|k: int| 0 <= k < r@.len() - 1 ==> (#[trigger] r@[k + 1]@) == spec_deltas(r@[k]@),
            forall|k: int| 0 <= k < r@.len() - 1 ==> !all_zero(#[trigger] r@[k]@),
            all_zero(r@[r@.len() - 1]@),
    {
        let mut v: Vec<Series> = Vec::new();
        v.push(self.duplicate());
        let mut done = v[0].all_zeros();
        while !done
            invariant
                v@.len() >= 1,
                v@[0]@ == self@,
                forall|k: int| 0 <= k < v@.len() ==> tower_ok(#[trigger] v@[k]@),
                forall|k: int| 0 <= k < v@.len() - 1 ==> (#[trigger] v@[k + 1]@) == spec_deltas(
                    v@[k]@,
                ),
                forall|k: int| 0 <= k < v@.len() - 1 ==> !all_zero(#[trigger] v@[k]@),
                done == all_zero(v@[v@.len() - 1]@),
            decreases v@[v@.len() - 1]@.len(),
        {
            let last = v.len() - 1;
            let d = v[last].deltas();
            proof {
                assert(tower_ok(v@[last as int]@));
                assert(d@ == spec_deltas(v@[last as int]@));
                assert(tower_ok(d@));
            }
            done = d.all_zeros();
            v.push(d);
        }
        v
    }

    /// The reading extended one step past its end.
    pub fn extrapolate_last(&self) -> (r: i64)
        requires
            tower_ok(self@),
            i64::MIN <= extrap_last(self@) <= i64::MAX,
        ensures
            r == extrap_last(self@),
    {
        let tower = self.deltas_until_zeros();
        let mut acc: i128 = 0;
        let mut k: usize = tower.len();
        while k > 0
            invariant
                0 <= k <= tower@.len(),
                tower@.len() >= 1,
                forall|j: int| 0 <= j < tower@.len() ==> tower@[j]@.len() >= 1,
                forall|j: int| 0 <= j < tower@.len() ==> fits_i64(#[trigger] tower@[j]@),
                forall|j: int| 0 <= j < tower@.len() - 1 ==> (#[trigger] tower@[j + 1]@)
                    == spec_deltas(tower@[j]@),
                forall|j: int| 0 <= j < tower@.len() - 1 ==> !all_zero(#[trigger] tower@[j]@),
                all_zero(tower@[tower@.len() - 1]@),
                k == tower@.len() ==> acc == 0,
                k < tower@.len() ==> acc == extrap_last(tower@[k as int]@),
                vstd::math::abs(acc as int) <= (tower@.len() - k) * 0x8000_0000_0000_0000,
                tower@.len() <= usize::MAX,
            decreases k,
        {
            k = k - 1;
            let row = &tower[k];
            let last = row.0[row.0.len() - 1];
            proof {
                let rv = tower@[k as int]@;
                assert(rv.len() == row.0@.len());
                assert(rv.last() == row.0@[row.0@.len() - 1] as int);
                if k + 1 == tower@.len() {
                    assert(rv.last() == 0);
                    assert(extrap_last(rv) == 0);
                } else {
                    assert(!all_zero(rv));
                    assert(extrap_last(rv) == rv.last() + extrap_last(spec_deltas(rv)));
                    assert(spec_deltas(rv) == tower@[k + 1]@);
                }
                lemma_abs_step(acc as int, last as int, tower@.len() - k - 1, tower@.len() as int);
            }
            acc = acc + (last as i128);
        }
        proof {
            assert(tower@[0]@ == self@);
        }
        acc as i64
    }

    /// The reading extended one step before its start.
    pub fn extrapolate_first(&self) -> (r: i64)
        requires
            tower_ok(self@),
            i64::MIN <= extrap_first(self@) <= i64::MAX,
        ensures
            r == extrap_first(self@),
    {
        let tower = self.deltas_until_zeros();
        let mut acc: i128 = 0;
        let mut k: usize = tower.len();
        while k > 0
            invariant
                0 <= k <= tower@.len(),
                tower@.len() >= 1,
                forall|j: int| 0 <= j < tower@.len() ==> tower@[j]@.len() >= 1,
                forall|j: int| 0 <= j < tower@.len() ==> fits_i64(#[trigger] tower@[j]@),
                forall|j: int| 0 <= j < tower@.len() - 1 ==> (#[trigger] tower@[j + 1]@)
                    == spec_deltas(tower@[j]@),
                forall|j: int| 0 <= j < tower@.len() - 1 ==> !all_zero(#[trigger] tower@[j]@),
                all_zero(tower@[tower@.len() - 1]@),
                k == tower@.len() ==> acc == 0,
                k < tower@.len() ==> acc == extrap_first(tower@[k as int]@),
                vstd::math::abs(acc as int) <= (tower@.len() - k) * 0x8000_0000_0000_0000,
                tower@.len() <= usize::MAX,
            decreases k,
        {
            k = k - 1;
            let row = &tower[k];
            let first = row.0[0];
            proof {
                let rv = tower@[k as int]@;
                assert(rv.len() == row.0@.len());
                assert(rv.first() == row.0@[0] as int);
                if k + 1 == tower@.len() {
                    assert(rv.first() == 0);
                    assert(extrap_first(rv) == 0);
                } else {
                    assert(!all_zero(rv));
                    assert(extrap_first(rv) == rv.first() - extrap_first(spec_deltas(rv)));
                    assert(spec_deltas(rv) == tower@[k + 1]@);
                }
                lemma_abs_step(acc as int, first as int, tower@.len() - k - 1, tower@.len() as int);
            }
            acc = (first as i128) - acc;
        }
        proof {
            assert(tower@[0]@ == self@);
        }
        acc as i64
    }
}

/// One extrapolation step keeps the accumulator well inside `i128`: the
/// running value never exceeds one 64-bit unit per processed row.
proof fn lemma_abs_step(acc: int, x: int, steps: int, total: int)
    requires
        vstd::math::abs(acc) <= steps * 0x8000_0000_0000_0000,
        i64::MIN <= x <= i64::MAX,
        0 <= steps < total,
        total <= usize::MAX,
    ensures
        vstd::math::abs(acc + x) <= (steps + 1) * 0x8000_0000_0000_0000,
        vstd::math::abs(x - acc) <= (steps + 1) * 0x8000_0000_0000_0000,
        (steps + 1) * 0x8000_0000_0000_0000 <= total * 0x8000_0000_0000_0000,
        total * 0x8000_0000_0000_0000 < i128::MAX,
{
    assert((steps + 1) * 0x8000_0000_0000_0000 == steps * 0x8000_0000_0000_0000
        + 0x8000_0000_0000_0000) by (nonlinear_arith);
    assert((steps + 1) * 0x8000_0000_0000_0000 <= total * 0x8000_0000_0000_0000
        && total * 0x8000_0000_0000_0000 < i128::MAX) by (nonlinear_arith)
        requires
            0 <= steps < total <= usize::MAX,
    ;
}

} // verus!
