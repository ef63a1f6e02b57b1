//! Scratchcards: each card lists winning numbers and numbers you have; a
//! card's match count scores `2^(matches - 1)` points.

use vstd::prelude::*;

verus! {

/// One scratchcard. `count` is the number of copies held, used by the
/// copy-propagation part of the puzzle.
#[derive(Debug, Clone)]
pub struct Card {
    pub winning: Vec<u32>,
    pub have: Vec<u32>,
    pub count: u32,
}

/// How many of the `have` numbers appear among the winning numbers,
/// multiplicities of `have` included.
pub open spec fn matches_count(winning: Seq<u32>, have: Seq<u32>) -> int
    decreases have.len(),
{
    if have.len() == 0 {
        0
    } else {
        (if winning.contains(have[0]) {
            1int
        } else {
            0int
        }) + matches_count(winning, have.drop_first())
    }
}

/// Two to the power `e`.
pub open spec fn pow2(e: int) -> int
    decreases e,
{
    if e <= 0 {
        1
    } else {
        2 * pow2(e - 1)
    }
}

/// A card's score: zero without matches, else two to the power of one less
/// than the match count.
pub open spec fn card_score(c: Card) -> int {
    if matches_count(c.winning@, c.have@) == 0 {
        0
    } else {
        pow2(matches_count(c.winning@, c.have@) - 1)
    }
}

/// Sum of the scores of the cards.
pub open spec fn scores_sum(cards: Seq<Card>) -> int
    decreases cards.len(),
{
    if cards.len() == 0 {
        0
    } else {
        card_score(cards[0]) + scores_sum(cards.drop_first())
    }
}

/// Linear scan for a value in a vector.
fn vec_contains(v: &Vec<u32>, x: u32) -> (r: bool)
    ensures
        r == v@.contains(x),
{
    let mut i: usize = 0;
    while i < v.len()
        invariant
            0 <= i <= v@.len(),
            forall|k: int| 0 <= k < i ==> v@[k] != x,
        decreases v@.len() - i,
    {
        if v[i] == x {
            return true;
        }
        i = i + 1;
    }
    proof {
        assert forall|k: int| 0 <= k < v@.len() implies v@[k] != x by {}
    }
    false
}

impl Card {
    /// Counts how many of the numbers on hand are winning numbers.
    pub fn count_matches(&self) -> (n: u32)
        requires
            self.have@.len() <= u32::MAX,
        ensures
            n == matches_count(self.winning@, self.have@),
            n <= self.have@.len(),
    {
        let mut n: u32 = 0;
        proof {
            assert(self.have@.skip(0) =~= self.have@);
            lemma_matches_nonneg(self.winning@, self.have@);
        }
        let mut i: usize = 0;
        while i < self.have.len()
            invariant
                0 <= i <= self.have@.len(),
                self.have@.len() <= u32::MAX,
                n <= i,
                matches_count(self.winning@, self.have@) == n + matches_count(
                    self.winning@,
                    self.have@.skip(i as int),
                ),
            decreases self.have@.len() - i,
        {
            let ghost u = self.have@.skip(i as int);
            proof {
                assert(u[0] == self.have@[i as int]);
                assert(u.drop_first() =~= self.have@.skip(i + 1));
            }
            if vec_contains(&self.winning, self.have[i]) {
                n = n + 1;
            }
            i = i + 1;
        }
        proof {
            assert(self.have@.skip(self.have@.len() as int) =~= Seq::<u32>::empty());
        }
        n
    }

    /// The card's score: zero without matches, else doubling from one point
    /// for each further match.
    pub fn score_part1(&self) -> (score: u32)
        requires
            self.have@.len() <= u32::MAX,
            matches_count(self.winning@, self.have@) <= 32,
        ensures
            score == card_score(*self),
    {
        let m = self.count_matches();
        if m == 0 {
            return 0;
        }
        let mut score: u32 = 1;
        let mut k: u32 = 0;
        while k < m - 1
            invariant
                0 <= k <= m - 1 <= 31,
                score == pow2(k as int),
            decreases m - k,
        {
            proof {
                lemma_pow2_bound();
                lemma_pow2_mono(k + 1, 31);
            }
            score = score * 2;
            k = k + 1;
        }
        score
    }
}

/// Sum of the scores of all the cards.
pub fn part1(cards: &[Card]) -> (total: u32)
    requires
        forall|i: int| 0 <= i < cards@.len() ==> (#[trigger] cards@[i]).have@.len() <= u32::MAX,
        forall|i: int|
            0 <= i < cards@.len() ==> matches_count(
                (#[trigger] cards@[i]).winning@,
                cards@[i].have@,
            ) <= 32,
        scores_sum(cards@) <= u32::MAX,
    ensures
        total == scores_sum(cards@),
{
    let mut total: u32 = 0;
    proof {
        assert(cards@.skip(0) =~= cards@);
        assert(Seq::<Card>::empty().len() == 0);
    }
    let mut i: usize = 0;
    while i < cards.len()
        invariant
            0 <= i <= cards@.len(),
            forall|k: int| 0 <= k < cards@.len() ==> (#[trigger] cards@[k]).have@.len() <= u32::MAX,
            forall|k: int|
                0 <= k < cards@.len() ==> matches_count(
                    (#[trigger] cards@[k]).winning@,
                    cards@[k].have@,
                ) <= 32,
            scores_sum(cards@) == total + scores_sum(cards@.skip(i as int)),
            scores_sum(cards@) <= u32::MAX,
        decreases cards@.len() - i,
    {
        let ghost u = cards@.skip(i as int);
        proof {
            assert(u[0] == cards@[i as int]);
            assert(u.drop_first() =~= cards@.skip(i + 1));
            lemma_scores_sum_nonneg(cards@.skip(i + 1));
            lemma_card_score_nonneg(cards@[i as int]);
        }
        let s = cards[i].score_part1();
        total = total + s;
        i = i + 1;
    }
    proof {
        assert(cards@.skip(cards@.len() as int) =~= Seq::<Card>::empty());
    }
    total
}

/// The match count is never negative.
proof fn lemma_matches_nonneg(winning: Seq<u32>, have: Seq<u32>)
    ensures
        matches_count(winning, have) >= 0,
    decreases have.len(),
{
    if have.len() > 0 {
        lemma_matches_nonneg(winning, have.drop_first());
    }
}

/// Powers of two grow with the exponent.
proof fn lemma_pow2_mono(a: int, b: int)
    requires
        a <= b,
    ensures
        pow2(a) <= pow2(b),
    decreases b,
{
    if a < b && b > 0 {
        lemma_pow2_mono(a, b - 1);
        lemma_pow2_nonneg(b - 1);
    }
}

/// Powers of two are positive.
proof fn lemma_pow2_nonneg(e: int)
    ensures
        pow2(e) >= 1,
    decreases e,
{
    if e > 0 {
        lemma_pow2_nonneg(e - 1);
    }
}

/// The largest exponent a score can reach still fits in `u32`.
proof fn lemma_pow2_bound()
    ensures
        pow2(31) == 0x8000_0000,
{
    reveal_with_fuel(pow2, 33);
}

/// A card's score is never negative.
proof fn lemma_card_score_nonneg(c: Card)
    ensures
        card_score(c) >= 0,
{
    lemma_matches_nonneg(c.winning@, c.have@);
    if matches_count(c.winning@, c.have@) > 0 {
        lemma_pow2_nonneg(matches_count(c.winning@, c.have@) - 1);
    }
}

/// A suffix sum of scores is never negative.
proof fn lemma_scores_sum_nonneg(cards: Seq<Card>)
    ensures
        scores_sum(cards) >= 0,
    decreases cards.len(),
{
    if cards.len() > 0 {
        lemma_card_score_nonneg(cards[0]);
        lemma_scores_sum_nonneg(cards.drop_first());
    }
}

} // verus!
