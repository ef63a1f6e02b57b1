//! The toy-boat race: holding the button for `t` of `time` milliseconds
//! travels `t * (time - t)`; count the hold times that beat the record.

use vstd::prelude::*;

verus! {

/// Number of hold times `t` in `[0, upto)` with `t * (time - t) > distance`.
pub open spec fn wins_below(time: int, distance: int, upto: int) -> int
    decreases upto,
{
    if upto <= 0 {
        0
    } else {
        wins_below(time, distance, upto - 1) + if (upto - 1) * (time - (upto - 1)) > distance {
            1int
        } else {
            0int
        }
    }
}

/// One race: its duration and the record distance to beat.
#[derive(Debug, Clone, Copy, PartialEq, Eq, Structural)]
pub struct Race {
    pub time: u64,
    pub distance: u64,
}

/// Product of the win counts of a prefix of the races.
pub open spec fn wins_product(races: Seq<Race>) -> int
    decreases races.len(),
{
    if races.len() == 0 {
        1
    } else {
        wins_product(races.drop_last()) * wins_below(
            races.last().time as int,
            races.last().distance as int,
            races.last().time + 1,
        )
    }
}

impl Race {
    /// Builds a race record.
    pub fn new(time: u64, distance: u64) -> (r: Race)
        ensures
            r == (Race { time, distance }),
    {
        Race { time, distance }
    }

    /// Counts the hold times `t` in `[0, time]` whose distance
    /// `t * (time - t)` beats the record.
    pub fn count_ways_to_win(&self) -> (wins: u64)
        ensures
            wins == wins_below(self.time as int, self.distance as int, self.time + 1),
            wins <= self.time,
    {
        let mut wins: u64 = 0;
        let mut t: u64 = 0;
        while t < self.time
            invariant
                0 <= t <= self.time,
                wins == wins_below(self.time as int, self.distance as int, t as int),
                wins <= t,
            decreases self.time - t,
        {
            proof {
                let a = t as int;
                let b = self.time - t;
                assert(a * b <= u128::MAX) by (nonlinear_arith)
                    requires
                        0 <= a < 0x1_0000_0000_0000_0000,
                        0 <= b < 0x1_0000_0000_0000_0000,
                ;
            }
            let dist = (t as u128) * ((self.time - t) as u128);
            if dist > self.distance as u128 {
                wins = wins + 1;
            }
            proof {
                assert(wins_below(self.time as int, self.distance as int, t + 1) == wins_below(
                    self.time as int,
                    self.distance as int,
                    t as int,
                ) + if (t as int) * (self.time - t) > self.distance {
                    1int
                } else {
                    0int
                });
                assert(dist == (t as int) * (self.time - t));
            }
            t = t + 1;
        }
        proof {
            assert((self.time as int) * (self.time - self.time) == 0);
            assert(wins_below(self.time as int, self.distance as int, self.time + 1) == wins_below(
                self.time as int,
                self.distance as int,
                self.time as int,
            ));
        }
        wins
    }
}

/// Multiplies the win counts of all the races.
pub fn calculate_ways_to_win_product(races: &[Race]) -> (product: u64)
    requires
        forall|k: int| 0 <= k <= races@.len() ==> wins_product(#[trigger] races@.take(k)) <= u64::MAX,
    ensures
        product == wins_product(races@),
{
    let mut product: u64 = 1;
    proof {
        assert(races@.take(0) =~= Seq::<Race>::empty());
    }
    let mut i: usize = 0;
    while i < races.len()
        invariant
            0 <= i <= races@.len(),
            forall|k: int|
                0 <= k <= races@.len() ==> wins_product(#[trigger] races@.take(k)) <= u64::MAX,
            product == wins_product(races@.take(i as int)),
        decreases races@.len() - i,
    {
        let w = races[i].count_ways_to_win();
        proof {
            assert(races@.take(i + 1).drop_last() =~= races@.take(i as int));
            assert(races@.take(i + 1).last() == races@[i as int]);
            assert(wins_product(races@.take(i + 1)) == wins_product(races@.take(i as int)) * (
            wins_below(
                races@[i as int].time as int,
                races@[i as int].distance as int,
                races@[i as int].time + 1,
            )));
            assert(wins_product(races@.take(i + 1)) <= u64::MAX);
        }
        product = product * w;
        i = i + 1;
    }
    proof {
        assert(races@.take(races@.len() as int) =~= races@);
    }
    product
}

} // verus!
