//! Camel-card hands: classify five cards by their label multiplicities,
//! optionally treating `J` as a joker that strengthens the hand type but
//! loses every tie-break.

use vstd::prelude::*;

verus! {

use core::cmp::Ordering;

/// Strength index of a card label without jokers: `A` is 0 (strongest),
/// `2` is 12 (weakest); 13 marks a non-card.
pub open spec fn base_rank(c: char) -> int {
    if c == 'A' {
        0
    } else if c == 'K' {
        1
    } else if c == 'Q' {
        2
    } else if c == 'J' {
        3
    } else if c == 'T' {
        4
    } else if c == '9' {
        5
    } else if c == '8' {
        6
    } else if c == '7' {
        7
    } else if c == '6' {
        8
    } else if c == '5' {
        9
    } else if c == '4' {
        10
    } else if c == '3' {
        11
    } else if c == '2' {
        12
    } else {
        13
    }
}

/// True for the thirteen card labels.
pub open spec fn is_card(c: char) -> bool {
    base_rank(c) <= 12
}

/// Strength index under the chosen rules: with jokers, `J` drops to the
/// bottom and every weaker label moves up one place.
pub open spec fn card_rank(c: char, use_joker: bool) -> int {
    if !use_joker {
        base_rank(c)
    } else if c == 'J' {
        12
    } else if base_rank(c) <= 2 {
        base_rank(c)
    } else {
        base_rank(c) - 1
    }
}

/// How often the label `c` occurs in the hand.
pub open spec fn cnt(s: Seq<char>, c: char) -> int
    decreases s.len(),
{
    if s.len() == 0 {
        0
    } else {
        (if s[0] == c {
            1int
        } else {
            0int
        }) + cnt(s.drop_first(), c)
    }
}

/// Some label occurs exactly `n` times.
pub open spec fn has_n(s: Seq<char>, n: int) -> bool {
    exists|i: int| 0 <= i < s.len() && cnt(s, #[trigger] s[i]) == n
}

/// Two different labels each occur at least twice.
pub open spec fn two_pairs(s: Seq<char>) -> bool {
    exists|i: int, j: int|
        0 <= i < s.len() && 0 <= j < s.len() && #[trigger] s[i] != #[trigger] s[j] && cnt(s, s[i])
            >= 2 && cnt(s, s[j]) >= 2
}

/// The hand classifications, weakest first.
#[derive(Debug, Clone, Copy, PartialEq, Eq, Structural)]
pub enum HandType {
    HighCard,
    OnePair,
    TwoPair,
    ThreeOfAKind,
    FullHouse,
    FourOfAKind,
    FiveOfAKind,
}

/// Strength index of a hand type, weakest 0.
pub open spec fn type_rank(t: HandType) -> int {
    match t {
        HandType::HighCard => 0,
        HandType::OnePair => 1,
        HandType::TwoPair => 2,
        HandType::ThreeOfAKind => 3,
        HandType::FullHouse => 4,
        HandType::FourOfAKind => 5,
        HandType::FiveOfAKind => 6,
    }
}

/// The classification of a hand by its label multiplicities.
pub open spec fn spec_hand_type(s: Seq<char>) -> HandType {
    if has_n(s, 5) {
        HandType::FiveOfAKind
    } else if has_n(s, 4) {
        HandType::FourOfAKind
    } else if has_n(s, 3) && has_n(s, 2) {
        HandType::FullHouse
    } else if has_n(s, 3) {
        HandType::ThreeOfAKind
    } else if two_pairs(s) {
        HandType::TwoPair
    } else if has_n(s, 2) {
        HandType::OnePair
    } else {
        HandType::HighCard
    }
}

/// How a joker strengthens a hand type, one joker at a time.
pub open spec fn spec_upgrade(t: HandType) -> HandType {
    match t {
        HandType::HighCard => HandType::OnePair,
        HandType::OnePair => HandType::ThreeOfAKind,
        HandType::TwoPair => HandType::FullHouse,
        HandType::ThreeOfAKind => HandType::FourOfAKind,
        HandType::FourOfAKind => HandType::FiveOfAKind,
        _ => t,
    }
}

/// `k` joker upgrades in a row.
pub open spec fn upgrade_n(t: HandType, k: int) -> HandType
    decreases k,
{
    if k <= 0 {
        t
    } else {
        upgrade_n(spec_upgrade(t), k - 1)
    }
}

/// The classification of a five-card hand under joker rules: the jokers
/// leave the hand, the rest is classified, and each joker upgrades once.
pub open spec fn spec_joker_type(s: Seq<char>) -> HandType {
    let rest = s.filter(|c: char| c != 'J');
    if rest.len() == 0 {
        HandType::FiveOfAKind
    } else {
        upgrade_n(spec_hand_type(rest), s.len() - rest.len())
    }
}

/// Executable strength index of a card label.
fn rank_of(c: char, use_joker: bool) -> (r: u8)
    requires
        is_card(c),
    ensures
        r == card_rank(c, use_joker),
{
    let base: u8 = if c == 'A' {
        0
    } else if c == 'K' {
        1
    } else if c == 'Q' {
        2
    } else if c == 'J' {
        3
    } else if c == 'T' {
        4
    } else if c == '9' {
        5
    } else if c == '8' {
        6
    } else if c == '7' {
        7
    } else if c == '6' {
        8
    } else if c == '5' {
        9
    } else if c == '4' {
        10
    } else if c == '3' {
        11
    } else {
        12
    };
    if !use_joker {
        base
    } else if c == 'J' {
        12
    } else if base <= 2 {
        base
    } else {
        base - 1
    }
}

/// Compares two card labels under the chosen rules: the stronger label (the
/// lower strength index) compares as greater.
pub fn cmp_cards(a: char, b: char, use_joker: bool) -> (r: Ordering)
    requires
        is_card(a),
        is_card(b),
    ensures
        r == Ordering::Less <==> card_rank(b, use_joker) < card_rank(a, use_joker),
        r == Ordering::Equal <==> card_rank(b, use_joker) == card_rank(a, use_joker),
        r == Ordering::Greater <==> card_rank(b, use_joker) > card_rank(a, use_joker),
{
    let ra = rank_of(a, use_joker);
    let rb = rank_of(b, use_joker);
    if rb < ra {
        Ordering::Less
    } else if rb == ra {
        Ordering::Equal
    } else {
        Ordering::Greater
    }
}

/// Counts one label in a hand.
fn count_char(s: &[char], c: char) -> (n: usize)
    ensures
        n == cnt(s@, c),
{
    let mut n: usize = 0;
    proof {
        assert(s@.skip(0) =~= s@);
        lemma_cnt_nonneg(s@, c);
    }
    let mut i: usize = 0;
    while i < s.len()
        invariant
            0 <= i <= s@.len(),
            n <= i,
            cnt(s@, c) == n + cnt(s@.skip(i as int), c),
        decreases s@.len() - i,
    {
        proof {
            assert(s@.skip(i as int)[0] == s@[i as int]);
            assert(s@.skip(i as int).drop_first() =~= s@.skip(i + 1));
        }
        if s[i] == c {
            n = n + 1;
        }
        i = i + 1;
    }
    proof {
        assert(s@.skip(s@.len() as int) =~= Seq::<char>::empty());
    }
    n
}

/// A label count is never negative.
proof fn lemma_cnt_nonneg(s: Seq<char>, c: char)
    ensures
        cnt(s, c) >= 0,
    decreases s.len(),
{
    if s.len() > 0 {
        lemma_cnt_nonneg(s.drop_first(), c);
    }
}

/// No label occurs more often than the hand is long.
proof fn lemma_cnt_le_len(s: Seq<char>, c: char)
    ensures
        cnt(s, c) <= s.len(),
    decreases s.len(),
{
    if s.len() > 0 {
        lemma_cnt_le_len(s.drop_first(), c);
    }
}

/// Two different labels' counts together never exceed the hand's length.
proof fn lemma_cnt_two(s: Seq<char>, c: char, d: char)
    requires
        c != d,
    ensures
        cnt(s, c) + cnt(s, d) <= s.len(),
    decreases s.len(),
{
    if s.len() > 0 {
        lemma_cnt_two(s.drop_first(), c, d);
    }
}

/// Classifies a hand by the multiplicities of its labels.
pub fn determine_type_by_counts(cards: &[char]) -> (t: HandType)
    requires
        1 <= cards@.len() <= 5,
    ensures
        t == spec_hand_type(cards@),
{
    // The largest multiplicity, with a witness index.
    let mut m = count_char(cards, cards[0]);
    let mut i: usize = 1;
    while i < cards.len()
        invariant
            1 <= i <= cards@.len(),
            exists|k: int| 0 <= k < i && cnt(cards@, #[trigger] cards@[k]) == m,
            forall|k: int| 0 <= k < i ==> cnt(cards@, #[trigger] cards@[k]) <= m,
        decreases cards@.len() - i,
    {
        let c = count_char(cards, cards[i]);
        if c > m {
            m = c;
        }
        i = i + 1;
    }
    proof {
        let k = choose|k: int| 0 <= k < cards@.len() && cnt(cards@, #[trigger] cards@[k]) == m;
        lemma_cnt_le_len(cards@, cards@[k]);
    }
    if m == 5 {
        return HandType::FiveOfAKind;
    }
    if m == 4 {
        return HandType::FourOfAKind;
    }
    if m == 3 {
        // A second group of exactly two makes a full house.
        let mut j: usize = 0;
        while j < cards.len()
            invariant
                0 <= j <= cards@.len(),
                exists|k: int| 0 <= k < cards@.len() && cnt(cards@, #[trigger] cards@[k]) == 3,
                forall|k: int| 0 <= k < cards@.len() ==> cnt(cards@, #[trigger] cards@[k]) <= 3,
                forall|k: int| 0 <= k < j ==> cnt(cards@, #[trigger] cards@[k]) != 2,
            decreases cards@.len() - j,
        {
            if count_char(cards, cards[j]) == 2 {
                return HandType::FullHouse;
            }
            j = j + 1;
        }
        return HandType::ThreeOfAKind;
    }
    if m == 2 {
        // A pair exists; find one and look for a different one.
        let mut p: usize = 0;
        let ghost w = choose|k: int|
            0 <= k < cards@.len() && cnt(cards@, #[trigger] cards@[k]) == 2;
        while p < cards.len()
            invariant
                0 <= p <= cards@.len(),
                exists|k: int| 0 <= k < cards@.len() && cnt(cards@, #[trigger] cards@[k]) == 2,
                forall|k: int| 0 <= k < cards@.len() ==> cnt(cards@, #[trigger] cards@[k]) <= 2,
                forall|k: int| 0 <= k < p ==> cnt(cards@, #[trigger] cards@[k]) != 2,
            decreases cards@.len() - p,
        {
            if count_char(cards, cards[p]) == 2 {
                // Any different label with a pair makes two pair.
                let mut q: usize = 0;
                while q < cards.len()
                    invariant
                        0 <= p < cards@.len(),
                        0 <= q <= cards@.len(),
                        cnt(cards@, cards@[p as int]) == 2,
                        forall|k: int|
                            0 <= k < q ==> cards@[k] == cards@[p as int] || cnt(
                                cards@,
                                #[trigger] cards@[k],
                            ) < 2,
                        forall|k: int| 0 <= k < cards@.len() ==> cnt(
                            cards@,
                            #[trigger] cards@[k],
                        ) <= 2,
                    decreases cards@.len() - q,
                {
                    if !(cards[q] == cards[p]) && count_char(cards, cards[q]) == 2 {
                        return HandType::TwoPair;
                    }
                    q = q + 1;
                }
                proof {
                    if two_pairs(cards@) {
                        let (ti, tj) = choose|ti: int, tj: int|
                            0 <= ti < cards@.len() && 0 <= tj < cards@.len() && #[trigger] cards@[ti]
                                != #[trigger] cards@[tj] && cnt(cards@, cards@[ti]) >= 2 && cnt(
                                cards@,
                                cards@[tj],
                            ) >= 2;
                        if cards@[ti] != cards@[p as int] {
                            assert(cnt(cards@, cards@[ti]) < 2);
                        } else {
                            assert(cnt(cards@, cards@[tj]) < 2);
                        }
                        assert(false);
                    }
                }
                return HandType::OnePair;
            }
            p = p + 1;
        }
        proof {
            let k = choose|k: int|
                0 <= k < cards@.len() && cnt(cards@, #[trigger] cards@[k]) == 2;
            assert(false);
        }
    }
    proof {
        if has_n(cards@, 5) || has_n(cards@, 4) || has_n(cards@, 3) || has_n(cards@, 2) {
            let k = choose|k: int|
                0 <= k < cards@.len() && (cnt(cards@, #[trigger] cards@[k]) == 5 || cnt(
                    cards@,
                    cards@[k],
                ) == 4 || cnt(cards@, cards@[k]) == 3 || cnt(cards@, cards@[k]) == 2);
        }
        if two_pairs(cards@) {
            let (ti, tj) = choose|ti: int, tj: int|
                0 <= ti < cards@.len() && 0 <= tj < cards@.len() && #[trigger] cards@[ti]
                    != #[trigger] cards@[tj] && cnt(cards@, cards@[ti]) >= 2 && cnt(
                    cards@,
                    cards@[tj],
                ) >= 2;
        }
    }
    HandType::HighCard
}

/// A five-card hand.
#[derive(Debug, Clone, Copy)]
pub struct Hand {
    pub cards: [char; 5],
}

/// Every card of the hand is a real label.
pub open spec fn hand_wf(h: Hand) -> bool {
    forall|i: int| 0 <= i < 5 ==> is_card(#[trigger] h.cards@[i])
}

/// One more upgrade step at the back of a run of upgrades.
proof fn lemma_upgrade_snoc(t: HandType, k: int)
    requires
        k >= 0,
    ensures
        upgrade_n(t, k + 1) == spec_upgrade(upgrade_n(t, k)),
    decreases k,
{
    if k == 0 {
        assert(upgrade_n(t, 1) == upgrade_n(spec_upgrade(t), 0));
        assert(upgrade_n(spec_upgrade(t), 0) == spec_upgrade(t));
        assert(upgrade_n(t, 0) == t);
    } else {
        lemma_upgrade_snoc(spec_upgrade(t), k - 1);
        assert(upgrade_n(t, k + 1) == upgrade_n(spec_upgrade(t), k));
        assert(upgrade_n(t, k) == upgrade_n(spec_upgrade(t), k - 1));
    }
}

impl Hand {
    /// Classifies the hand, under plain or joker rules. Under joker rules
    /// the jokers leave the hand and each one upgrades the remainder's type.
    pub fn hand_type(&self, use_joker: bool) -> (t: HandType)
        requires
            hand_wf(*self),
        ensures
            use_joker ==> t == spec_joker_type(self.cards@),
            !use_joker ==> t == spec_hand_type(self.cards@),
    {
        if !use_joker {
            let mut v: Vec<char> = Vec::new();
            let mut i: usize = 0;
            while i < 5
                invariant
                    0 <= i <= 5,
                    v@ =~= self.cards@.take(i as int),
                decreases 5 - i,
            {
                v.push(self.cards[i]);
                i = i + 1;
            }
            proof {
                assert(v@ =~= self.cards@);
            }
            return determine_type_by_counts(&v);
        }
        let mut rest: Vec<char> = Vec::new();
        proof {
            assert(self.cards@.take(0) =~= Seq::<char>::empty());
            assert(Seq::<char>::empty().filter(|c: char| c != 'J') =~= Seq::<char>::empty()) by {
                reveal(Seq::filter);
            }
            assert(rest@ =~= self.cards@.take(0).filter(|c: char| c != 'J'));
        }
        let mut i: usize = 0;
        while i < 5
            invariant
                0 <= i <= 5,
                rest@ == self.cards@.take(i as int).filter(|c: char| c != 'J'),
                forall|k: int| 0 <= k < rest@.len() ==> is_card(#[trigger] rest@[k]),
                hand_wf(*self),
            decreases 5 - i,
        {
            let c = self.cards[i];
            let ghost before = rest@;
            if !(c == 'J') {
                rest.push(c);
            }
            proof {
                self.cards@.take(i as int).lemma_filter_push(
                    self.cards@[i as int],
                    |c2: char| c2 != 'J',
                );
                assert(self.cards@.take(i + 1) =~= self.cards@.take(i as int).push(
                    self.cards@[i as int],
                ));
                assert(rest@ == self.cards@.take(i + 1).filter(|c2: char| c2 != 'J'));
                assert forall|k: int| 0 <= k < rest@.len() implies is_card(#[trigger] rest@[k]) by {
                    if k == before.len() && rest@.len() > before.len() {
                        assert(rest@[k] == self.cards@[i as int]);
                    }
                }
            }
            i = i + 1;
        }
        proof {
            assert(self.cards@.take(5) =~= self.cards@);
        }
        let ghost filtered = self.cards@.filter(|c: char| c != 'J');
        let n = rest.len();
        if n == 0 {
            return HandType::FiveOfAKind;
        }
        proof {
            assert(rest@.len() <= 5) by {
                self.cards@.lemma_filter_len(|c: char| c != 'J');
            }
        }
        let jc = 5 - n;
        let mut t = determine_type_by_counts(&rest);
        let ghost t0 = t;
        proof {
            lemma_type_headroom(rest@, t0, jc as int);
        }
        let mut k: usize = 0;
        while k < jc
            invariant
                0 <= k <= jc,
                t == upgrade_n(t0, k as int),
                t == HandType::FiveOfAKind ==> k == jc,
                t == HandType::FullHouse ==> k == jc,
                t == HandType::FourOfAKind ==> jc - k <= 1,
                t == HandType::TwoPair ==> jc - k <= 1,
                t == HandType::ThreeOfAKind ==> jc - k <= 2,
                t == HandType::OnePair ==> jc - k <= 3,
                t == HandType::HighCard ==> jc - k <= 4,
            decreases jc - k,
        {
            proof {
                lemma_upgrade_snoc(t0, k as int);
            }
            t = upgrade_with_joker(t);
            k = k + 1;
        }
        proof {
            assert(filtered == rest@);
            assert(spec_joker_type(self.cards@) == upgrade_n(t0, jc as int));
        }
        t
    }
}

/// How many jokers a classification can absorb: the remainder's length
/// bounds its multiplicities, which caps the type and so bounds the upgrade
/// chain away from the stuck cases.
proof fn lemma_type_headroom(rest: Seq<char>, t: HandType, jc: int)
    requires
        1 <= rest.len() <= 5,
        jc == 5 - rest.len(),
        t == spec_hand_type(rest),
    ensures
        t == HandType::FiveOfAKind ==> jc == 0,
        t == HandType::FullHouse ==> jc == 0,
        t == HandType::FourOfAKind ==> jc <= 1,
        t == HandType::TwoPair ==> jc <= 1,
        t == HandType::ThreeOfAKind ==> jc <= 2,
        t == HandType::OnePair ==> jc <= 3,
        t == HandType::HighCard ==> jc <= 4,
{
    if has_n(rest, 5) {
        let i = choose|i: int| 0 <= i < rest.len() && cnt(rest, #[trigger] rest[i]) == 5;
        lemma_cnt_le_len(rest, rest[i]);
    } else if has_n(rest, 4) {
        let i = choose|i: int| 0 <= i < rest.len() && cnt(rest, #[trigger] rest[i]) == 4;
        lemma_cnt_le_len(rest, rest[i]);
    } else if has_n(rest, 3) && has_n(rest, 2) {
        let i = choose|i: int| 0 <= i < rest.len() && cnt(rest, #[trigger] rest[i]) == 3;
        let j = choose|j: int| 0 <= j < rest.len() && cnt(rest, #[trigger] rest[j]) == 2;
        assert(rest[i] != rest[j]);
        lemma_cnt_two(rest, rest[i], rest[j]);
    } else if has_n(rest, 3) {
        let i = choose|i: int| 0 <= i < rest.len() && cnt(rest, #[trigger] rest[i]) == 3;
        lemma_cnt_le_len(rest, rest[i]);
    } else if two_pairs(rest) {
        let (i, j) = choose|i: int, j: int|
            0 <= i < rest.len() && 0 <= j < rest.len() && #[trigger] rest[i] != #[trigger] rest[j]
                && cnt(rest, rest[i]) >= 2 && cnt(rest, rest[j]) >= 2;
        lemma_cnt_two(rest, rest[i], rest[j]);
    } else if has_n(rest, 2) {
        let i = choose|i: int| 0 <= i < rest.len() && cnt(rest, #[trigger] rest[i]) == 2;
        lemma_cnt_le_len(rest, rest[i]);
    }
}

/// The tie-break comparison from card position `i` on: the first position
/// whose labels rank apart decides; equal-ranked hands compare equal.
pub open spec fn spec_cmp_from(a: Seq<char>, b: Seq<char>, use_joker: bool, i: int) -> Ordering
    decreases 5 - i,
{
    if i >= 5 {
        Ordering::Equal
    } else if card_rank(b[i], use_joker) < card_rank(a[i], use_joker) {
        Ordering::Less
    } else if card_rank(b[i], use_joker) > card_rank(a[i], use_joker) {
        Ordering::Greater
    } else {
        spec_cmp_from(a, b, use_joker, i + 1)
    }
}

/// The full hand comparison: by type first, then card by card.
pub open spec fn spec_cmp_hands(a: Seq<char>, b: Seq<char>, use_joker: bool) -> Ordering {
    let ta = if use_joker {
        spec_joker_type(a)
    } else {
        spec_hand_type(a)
    };
    let tb = if use_joker {
        spec_joker_type(b)
    } else {
        spec_hand_type(b)
    };
    if type_rank(ta) < type_rank(tb) {
        Ordering::Less
    } else if type_rank(ta) > type_rank(tb) {
        Ordering::Greater
    } else {
        spec_cmp_from(a, b, use_joker, 0)
    }
}

/// Executable strength index of a hand type.
fn type_value(t: HandType) -> (r: u8)
    ensures
        r == type_rank(t),
{
    match t {
        HandType::HighCard => 0,
        HandType::OnePair => 1,
        HandType::TwoPair => 2,
        HandType::ThreeOfAKind => 3,
        HandType::FullHouse => 4,
        HandType::FourOfAKind => 5,
        HandType::FiveOfAKind => 6,
    }
}

/// Compares two distinct hands: the stronger type wins, ties fall to the
/// first card whose labels rank apart.
pub fn cmp_hands(a: &Hand, b: &Hand, use_joker: bool) -> (r: Ordering)
    requires
        hand_wf(*a),
        hand_wf(*b),
        a.cards@ != b.cards@,
    ensures
        r == spec_cmp_hands(a.cards@, b.cards@, use_joker),
{
    let ta = a.hand_type(use_joker);
    let tb = b.hand_type(use_joker);
    let va = type_value(ta);
    let vb = type_value(tb);
    if va < vb {
        return Ordering::Less;
    }
    if va > vb {
        return Ordering::Greater;
    }
    let mut i: usize = 0;
    while i < 5
        invariant
            0 <= i <= 5,
            hand_wf(*a),
            hand_wf(*b),
            a.cards@ != b.cards@,
            spec_cmp_hands(a.cards@, b.cards@, use_joker) == spec_cmp_from(
                a.cards@,
                b.cards@,
                use_joker,
                i as int,
            ),
            forall|k: int| 0 <= k < i ==> a.cards@[k] == b.cards@[k],
        decreases 5 - i,
    {
        let ord = cmp_cards(a.cards[i], b.cards[i], use_joker);
        match ord {
            Ordering::Equal => {
                proof {
                    lemma_equal_rank_equal_card(
                        a.cards@[i as int],
                        b.cards@[i as int],
                        use_joker,
                    );
                }
                i = i + 1;
            },
            _ => {
                return ord;
            },
        }
    }
    proof {
        assert(a.cards@ =~= b.cards@);
        assert(false);
    }
    Ordering::Equal
}

/// Distinct card labels never share a strength index.
proof fn lemma_equal_rank_equal_card(a: char, b: char, use_joker: bool)
    requires
        is_card(a),
        is_card(b),
        card_rank(a, use_joker) == card_rank(b, use_joker),
    ensures
        a == b,
{
}

/// Strengthens a hand type by one joker. Full houses and five of a kind
/// never coexist with a spare joker.
pub fn upgrade_with_joker(t: HandType) -> (r: HandType)
    requires
        t != HandType::FullHouse,
        t != HandType::FiveOfAKind,
    ensures
        r == spec_upgrade(t),
{
    match t {
        HandType::HighCard => HandType::OnePair,
        HandType::OnePair => HandType::ThreeOfAKind,
        HandType::TwoPair => HandType::FullHouse,
        HandType::ThreeOfAKind => HandType::FourOfAKind,
        _ => HandType::FiveOfAKind,
    }
}

} // verus!
