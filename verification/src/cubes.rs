//! The cube-drawing game: each round shows some counts of coloured cubes;
//! a game fits a bag when no shown count exceeds the bag's limit for that
//! colour, and a game's own limits are the per-colour maxima over its rounds.

use vstd::prelude::*;

verus! {

/// One handful of cubes of one colour.
#[derive(Debug, Clone)]
pub struct Cubes {
    pub count: u32,
    pub color: String,
}

/// One round of showings.
#[derive(Debug, Clone)]
pub struct Round {
    pub cubes: Vec<Cubes>,
}

/// A whole game: its identifier and its rounds.
#[derive(Debug, Clone)]
pub struct Game {
    pub id: u32,
    pub rounds: Vec<Round>,
}

/// Per-colour counts, looked up by colour name. Keys are kept unique.
pub open spec fn limit_of(s: Seq<(String, u32)>, color: Seq<char>) -> Option<u32>
    decreases s.len(),
{
    if s.len() == 0 {
        None
    } else if s[0].0@ == color {
        Some(s[0].1)
    } else {
        limit_of(s.drop_first(), color)
    }
}

/// No colour name occurs twice.
pub open spec fn unique_keys(s: Seq<(String, u32)>) -> bool {
    forall|i: int, j: int| 0 <= i < j < s.len() ==> (#[trigger] s[i]).0@ != (#[trigger] s[j]).0@
}

/// Looks a colour up in a limits table.
pub fn lookup(limits: &Vec<(String, u32)>, color: &String) -> (r: Option<u32>)
    ensures
        r == limit_of(limits@, color@),
{
    proof {
        assert(limits@.skip(0) =~= limits@);
    }
    let mut i: usize = 0;
    while i < limits.len()
        invariant
            0 <= i <= limits@.len(),
            limit_of(limits@, color@) == limit_of(limits@.skip(i as int), color@),
        decreases limits@.len() - i,
    {
        proof {
            assert(limits@.skip(i as int)[0] == limits@[i as int]);
            assert(limits@.skip(i as int).drop_first() =~= limits@.skip(i + 1));
        }
        if limits[i].0 == *color {
            return Some(limits[i].1);
        }
        i = i + 1;
    }
    proof {
        assert(limits@.skip(limits@.len() as int) =~= Seq::<(String, u32)>::empty());
    }
    None
}

/// Records a colour's count, replacing any earlier count for it.
fn upsert(limits: &mut Vec<(String, u32)>, color: &String, count: u32)
    requires
        unique_keys(old(limits)@),
    ensures
        unique_keys(final(limits)@),
        forall|c: Seq<char>|
            #[trigger] limit_of(final(limits)@, c) == if c == color@ {
                Some(count)
            } else {
                limit_of(old(limits)@, c)
            },
{
    let ghost orig = limits@;
    let mut i: usize = 0;
    while i < limits.len()
        invariant
            0 <= i <= orig.len(),
            limits@ == orig,
            orig == old(limits)@,
            unique_keys(orig),
            forall|k: int| 0 <= k < i ==> (#[trigger] orig[k]).0@ != color@,
        decreases orig.len() - i,
    {
        if limits[i].0 == *color {
            let name = limits[i].0.clone();
            limits.set(i, (name, count));
            proof {
                lemma_limit_update(orig, i as int, limits@[i as int], color@, count);
                assert forall|i2: int, j2: int|
                    0 <= i2 < j2 < limits@.len() implies (#[trigger] limits@[i2]).0@ != (
                #[trigger] limits@[j2]).0@ by {
                    assert(limits@[i2].0@ == orig[i2].0@);
                    assert(limits@[j2].0@ == orig[j2].0@);
                }
            }
            return ;
        }
        i = i + 1;
    }
    let name = (*color).clone();
    proof {
        assert(name@ == color@);
    }
    limits.push((name, count));
    proof {
        lemma_limit_push(orig, color@, count);
        assert forall|i2: int, j2: int|
            0 <= i2 < j2 < limits@.len() implies (#[trigger] limits@[i2]).0@ != (
        #[trigger] limits@[j2]).0@ by {
            if j2 < orig.len() {
            } else {
                assert(limits@[j2].0@ == color@);
                assert(limits@[i2].0@ == orig[i2].0@);
            }
        }
    }
}

/// Replacing the count at the one position holding a colour changes only
/// that colour's lookup.
proof fn lemma_limit_update(s: Seq<(String, u32)>, k: int, entry: (String, u32), color: Seq<char>, count: u32)
    requires
        0 <= k < s.len(),
        s[k].0@ == color,
        entry.0@ == color,
        entry.1 == count,
        forall|i: int| 0 <= i < k ==> (#[trigger] s[i]).0@ != color,
        unique_keys(s),
    ensures
        forall|c: Seq<char>|
            #[trigger] limit_of(s.update(k, entry), c) == if c == color {
                Some(count)
            } else {
                limit_of(s, c)
            },
    decreases k,
{
    let t = s.update(k, entry);
    if k == 0 {
        assert forall|c: Seq<char>|
            #[trigger] limit_of(t, c) == if c == color {
                Some(count)
            } else {
                limit_of(s, c)
            } by {
            assert(t[0] == entry);
            if c != color {
                assert(t.drop_first() =~= s.drop_first());
            }
        }
    } else {
        assert forall|i: int| 0 <= i < k - 1 implies (#[trigger] s.drop_first()[i]).0@ != color by {
            assert(s.drop_first()[i] == s[i + 1]);
        }
        assert(s.drop_first()[k - 1] == s[k]);
        assert forall|i2: int, j2: int|
            0 <= i2 < j2 < s.drop_first().len() implies (#[trigger] s.drop_first()[i2]).0@ != (
        #[trigger] s.drop_first()[j2]).0@ by {
            assert(s.drop_first()[i2] == s[i2 + 1]);
            assert(s.drop_first()[j2] == s[j2 + 1]);
        }
        lemma_limit_update(s.drop_first(), k - 1, entry, color, count);
        assert forall|c: Seq<char>|
            #[trigger] limit_of(t, c) == if c == color {
                Some(count)
            } else {
                limit_of(s, c)
            } by {
            assert(t[0] == s[0]);
            assert(t.drop_first() =~= s.drop_first().update(k - 1, entry));
            assert(s[0].0@ != color);
            if t[0].0@ == c {
            } else {
                assert(limit_of(t, c) == limit_of(s.drop_first().update(k - 1, entry), c));
                assert(limit_of(s, c) == limit_of(s.drop_first(), c));
            }
        }
    }
}

/// Appending a colour that is absent adds exactly its lookup.
proof fn lemma_limit_push(s: Seq<(String, u32)>, color: Seq<char>, count: u32)
    requires
        forall|i: int| 0 <= i < s.len() ==> (#[trigger] s[i]).0@ != color,
    ensures
        forall|c: Seq<char>, entry: (String, u32)|
            entry.0@ == color && entry.1 == count ==> #[trigger] limit_of(s.push(entry), c) == (
            if c == color {
                Some(count)
            } else {
                limit_of(s, c)
            }),
    decreases s.len(),
{
    if s.len() == 0 {
        assert forall|c: Seq<char>, entry: (String, u32)|
            entry.0@ == color && entry.1 == count implies #[trigger] limit_of(s.push(entry), c)
            == (if c == color {
            Some(count)
        } else {
            limit_of(s, c)
        }) by {
            assert(s.push(entry)[0] == entry);
            if c != color {
                assert(s.push(entry).drop_first() =~= s);
            }
        }
    } else {
        assert forall|i: int| 0 <= i < s.drop_first().len() implies (
        #[trigger] s.drop_first()[i]).0@ != color by {
            assert(s.drop_first()[i] == s[i + 1]);
        }
        lemma_limit_push(s.drop_first(), color, count);
        assert forall|c: Seq<char>, entry: (String, u32)|
            entry.0@ == color && entry.1 == count implies #[trigger] limit_of(s.push(entry), c)
            == (if c == color {
            Some(count)
        } else {
            limit_of(s, c)
        }) by {
            assert(s.push(entry)[0] == s[0]);
            assert(s.push(entry).drop_first() =~= s.drop_first().push(entry));
            if s[0].0@ != c {
                assert(limit_of(s.push(entry), c) == limit_of(s.drop_first().push(entry), c));
            }
        }
    }
}

/// The count a round shows for a colour: the last showing wins, as a map
/// built from the round's list would record it.
pub open spec fn round_limit(cubes: Seq<Cubes>, color: Seq<char>) -> Option<u32>
    decreases cubes.len(),
{
    if cubes.len() == 0 {
        None
    } else if cubes.last().color@ == color {
        Some(cubes.last().count)
    } else {
        round_limit(cubes.drop_last(), color)
    }
}

/// The larger of a colour's two optional counts; a missing side loses.
pub open spec fn max_limit(a: Option<u32>, b: Option<u32>) -> Option<u32> {
    match (a, b) {
        (Some(x), Some(y)) => Some(if x >= y { x } else { y }),
        (Some(x), None) => Some(x),
        (None, Some(y)) => Some(y),
        (None, None) => None,
    }
}

/// The count a game needs of a colour: the maximum over its rounds.
pub open spec fn game_limit(rounds: Seq<Round>, color: Seq<char>) -> Option<u32>
    decreases rounds.len(),
{
    if rounds.len() == 0 {
        None
    } else {
        max_limit(game_limit(rounds.drop_last(), color), round_limit(rounds.last().cubes@, color))
    }
}

impl Round {
    /// True when every showing stays within the bag's limits. Every shown
    /// colour must have a limit.
    pub fn fits(&self, limits: &Vec<(String, u32)>) -> (r: bool)
        requires
            forall|i: int|
                0 <= i < self.cubes@.len() ==> limit_of(
                    limits@,
                    (#[trigger] self.cubes@[i]).color@,
                ) is Some,
        ensures
            r == forall|i: int|
                0 <= i < self.cubes@.len() ==> (#[trigger] self.cubes@[i]).count <= limit_of(
                    limits@,
                    self.cubes@[i].color@,
                ).unwrap(),
    {
        let mut i: usize = 0;
        while i < self.cubes.len()
            invariant
                0 <= i <= self.cubes@.len(),
                forall|k: int|
                    0 <= k < self.cubes@.len() ==> limit_of(
                        limits@,
                        (#[trigger] self.cubes@[k]).color@,
                    ) is Some,
                forall|k: int|
                    0 <= k < i ==> (#[trigger] self.cubes@[k]).count <= limit_of(
                        limits@,
                        self.cubes@[k].color@,
                    ).unwrap(),
            decreases self.cubes@.len() - i,
        {
            let limit = lookup(limits, &self.cubes[i].color);
            match limit {
                Some(l) => {
                    if self.cubes[i].count > l {
                        return false;
                    }
                },
                None => {
                    proof {
                        assert(limit_of(limits@, self.cubes@[i as int].color@) is Some);
                        assert(false);
                    }
                },
            }
            i = i + 1;
        }
        true
    }

    /// The per-colour counts this round shows, later showings replacing
    /// earlier ones.
    pub fn limits(&self) -> (r: Vec<(String, u32)>)
        ensures
            unique_keys(r@),
            forall|c: Seq<char>| #[trigger] limit_of(r@, c) == round_limit(self.cubes@, c),
    {
        let mut out: Vec<(String, u32)> = Vec::new();
        proof {
            assert(self.cubes@.take(0) =~= Seq::<Cubes>::empty());
        }
        let mut i: usize = 0;
        while i < self.cubes.len()
            invariant
                0 <= i <= self.cubes@.len(),
                unique_keys(out@),
                forall|c: Seq<char>| #[trigger] limit_of(out@, c) == round_limit(
                    self.cubes@.take(i as int),
                    c,
                ),
            decreases self.cubes@.len() - i,
        {
            upsert(&mut out, &self.cubes[i].color, self.cubes[i].count);
            proof {
                assert(self.cubes@.take(i + 1).drop_last() =~= self.cubes@.take(i as int));
                assert(self.cubes@.take(i + 1).last() == self.cubes@[i as int]);
            }
            i = i + 1;
        }
        proof {
            assert(self.cubes@.take(self.cubes@.len() as int) =~= self.cubes@);
        }
        out
    }
}

/// Combines two limit tables, keeping each colour's larger count.
pub fn merge_limits(limit1: Vec<(String, u32)>, limit2: Vec<(String, u32)>) -> (r: Vec<
    (String, u32),
>)
    requires
        unique_keys(limit1@),
        unique_keys(limit2@),
    ensures
        unique_keys(r@),
        forall|c: Seq<char>| #[trigger] limit_of(r@, c) == max_limit(
            limit_of(limit1@, c),
            limit_of(limit2@, c),
        ),
{
    let mut out = limit1;
    let ghost l1 = out@;
    proof {
        assert(limit2@.skip(0) =~= limit2@);
    }
    let mut i: usize = 0;
    while i < limit2.len()
        invariant
            0 <= i <= limit2@.len(),
            unique_keys(out@),
            forall|c: Seq<char>| #[trigger] limit_of(out@, c) == max_limit(
                limit_of(l1, c),
                rev_limit(limit2@, c, i as int),
            ),
        decreases limit2@.len() - i,
    {
        let (k, v) = (&limit2[i].0, limit2[i].1);
        let existing = lookup(&out, k);
        let ghost before = out@;
        match existing {
            Some(v1) => {
                if v > v1 {
                    upsert(&mut out, k, v);
                }
            },
            None => {
                upsert(&mut out, k, v);
            },
        }
        proof {
            assert(limit2@.take(i + 1).drop_last() =~= limit2@.take(i as int));
            assert(limit2@.take(i + 1).last() == limit2@[i as int]);
            assert forall|c: Seq<char>| #[trigger] limit_of(out@, c) == max_limit(
                limit_of(l1, c),
                rev_limit(limit2@, c, i + 1),
            ) by {
                assert(limit_of(before, c) == max_limit(limit_of(l1, c), rev_limit(limit2@, c, i as int)));
                if c == limit2@[i as int].0@ {
                } else {
                    assert(limit_of(out@, c) == limit_of(before, c));
                }
            }
        }
        i = i + 1;
    }
    proof {
        assert forall|c: Seq<char>| #[trigger] limit_of(out@, c) == max_limit(
            limit_of(limit1@, c),
            limit_of(limit2@, c),
        ) by {
            lemma_rev_limit_full(limit2@, c);
        }
    }
    out
}

/// The largest count for a colour among the first `k` entries of a table,
/// later entries beating earlier ones only by size.
pub open spec fn rev_limit(s: Seq<(String, u32)>, color: Seq<char>, k: int) -> Option<u32>
    decreases k,
{
    if k <= 0 {
        None
    } else {
        max_limit(
            rev_limit(s, color, k - 1),
            if s[k - 1].0@ == color {
                Some(s[k - 1].1)
            } else {
                None
            },
        )
    }
}

/// Over the whole table, the running maximum equals the per-colour maximum
/// of every occurrence; with unique keys it is the colour's single entry.
proof fn lemma_rev_limit_full(s: Seq<(String, u32)>, color: Seq<char>)
    ensures
        unique_keys(s) ==> rev_limit(s, color, s.len() as int) == limit_of(s, color),
    decreases s.len(),
{
    if s.len() > 0 && unique_keys(s) {
        let rest = s.drop_first();
        assert forall|i2: int, j2: int|
            0 <= i2 < j2 < rest.len() implies (#[trigger] rest[i2]).0@ != (
        #[trigger] rest[j2]).0@ by {
            assert(rest[i2] == s[i2 + 1]);
            assert(rest[j2] == s[j2 + 1]);
        }
        lemma_rev_limit_full(rest, color);
        lemma_rev_limit_shift(s, color, rest.len() as int);
        if s[0].0@ == color {
            lemma_rev_limit_absent(rest, color, rest.len() as int);
        }
    }
}

/// Dropping the first entry shifts the running maximum by one position.
proof fn lemma_rev_limit_shift(s: Seq<(String, u32)>, color: Seq<char>, k: int)
    requires
        0 <= k <= s.len() - 1,
    ensures
        rev_limit(s, color, k + 1) == max_limit(
            if s[0].0@ == color {
                Some(s[0].1)
            } else {
                None
            },
            rev_limit(s.drop_first(), color, k),
        ),
    decreases k,
{
    if k == 0 {
    } else {
        lemma_rev_limit_shift(s, color, k - 1);
        assert(s.drop_first()[k - 1] == s[k]);
        assert(max_limit(
            max_limit(
                if s[0].0@ == color {
                    Some(s[0].1)
                } else {
                    None
                },
                rev_limit(s.drop_first(), color, k - 1),
            ),
            if s[k].0@ == color {
                Some(s[k].1)
            } else {
                None
            },
        ) == max_limit(
            if s[0].0@ == color {
                Some(s[0].1)
            } else {
                None
            },
            max_limit(
                rev_limit(s.drop_first(), color, k - 1),
                if s[k].0@ == color {
                    Some(s[k].1)
                } else {
                    None
                },
            ),
        ));
    }
}

/// A colour absent from the first `k` entries has no running maximum there.
proof fn lemma_rev_limit_absent(s: Seq<(String, u32)>, color: Seq<char>, k: int)
    requires
        0 <= k <= s.len(),
        forall|i: int| 0 <= i < s.len() ==> (#[trigger] s[i]).0@ != color,
    ensures
        rev_limit(s, color, k) == None::<u32>,
    decreases k,
{
    if k > 0 {
        lemma_rev_limit_absent(s, color, k - 1);
    }
}

/// Product of the counts of a limits table, in table order.
pub open spec fn values_product(s: Seq<(String, u32)>) -> int
    decreases s.len(),
{
    if s.len() == 0 {
        1
    } else {
        values_product(s.drop_last()) * s.last().1
    }
}

/// Multiplies the counts of a limits table: a game's "power" is this product
/// of its minimal per-colour counts.
pub fn product_of(limits: &Vec<(String, u32)>) -> (r: u32)
    requires
        forall|k: int|
            0 <= k <= limits@.len() ==> values_product(#[trigger] limits@.take(k)) <= u32::MAX,
    ensures
        r == values_product(limits@),
{
    let mut r: u32 = 1;
    proof {
        assert(limits@.take(0) =~= Seq::<(String, u32)>::empty());
    }
    let mut i: usize = 0;
    while i < limits.len()
        invariant
            0 <= i <= limits@.len(),
            forall|k: int|
                0 <= k <= limits@.len() ==> values_product(#[trigger] limits@.take(k)) <= u32::MAX,
            r == values_product(limits@.take(i as int)),
        decreases limits@.len() - i,
    {
        proof {
            assert(limits@.take(i + 1).drop_last() =~= limits@.take(i as int));
            assert(limits@.take(i + 1).last() == limits@[i as int]);
            assert(values_product(limits@.take(i + 1)) == values_product(limits@.take(i as int))
                * limits@[i as int].1);
            assert(values_product(limits@.take(i + 1)) <= u32::MAX);
        }
        r = r * limits[i].1;
        i = i + 1;
    }
    proof {
        assert(limits@.take(limits@.len() as int) =~= limits@);
    }
    r
}

impl Game {
    /// True when every round of the game fits the bag's limits.
    pub fn fits(&self, limits: &Vec<(String, u32)>) -> (r: bool)
        requires
            forall|k: int, i: int|
                0 <= k < self.rounds@.len() && 0 <= i < self.rounds@[k].cubes@.len() ==> limit_of(
                    limits@,
                    (#[trigger] self.rounds@[k].cubes@[i]).color@,
                ) is Some,
        ensures
            r == forall|k: int, i: int|
                0 <= k < self.rounds@.len() && 0 <= i < self.rounds@[k].cubes@.len() ==> (
                #[trigger] self.rounds@[k].cubes@[i]).count <= limit_of(
                    limits@,
                    self.rounds@[k].cubes@[i].color@,
                ).unwrap(),
    {
        let mut k: usize = 0;
        while k < self.rounds.len()
            invariant
                0 <= k <= self.rounds@.len(),
                forall|k2: int, i: int|
                    0 <= k2 < self.rounds@.len() && 0 <= i < self.rounds@[k2].cubes@.len()
                        ==> limit_of(
                        limits@,
                        (#[trigger] self.rounds@[k2].cubes@[i]).color@,
                    ) is Some,
                forall|k2: int, i: int|
                    0 <= k2 < k && 0 <= i < self.rounds@[k2].cubes@.len() ==> (
                    #[trigger] self.rounds@[k2].cubes@[i]).count <= limit_of(
                        limits@,
                        self.rounds@[k2].cubes@[i].color@,
                    ).unwrap(),
            decreases self.rounds@.len() - k,
        {
            if !self.rounds[k].fits(limits) {
                return false;
            }
            k = k + 1;
        }
        true
    }

    /// The smallest bag this game fits in: each colour's maximum over the
    /// rounds.
    pub fn limits(&self) -> (r: Vec<(String, u32)>)
        ensures
            unique_keys(r@),
            forall|c: Seq<char>| #[trigger] limit_of(r@, c) == game_limit(self.rounds@, c),
    {
        let mut acc: Vec<(String, u32)> = Vec::new();
        proof {
            assert(self.rounds@.take(0) =~= Seq::<Round>::empty());
        }
        let mut k: usize = 0;
        while k < self.rounds.len()
            invariant
                0 <= k <= self.rounds@.len(),
                unique_keys(acc@),
                forall|c: Seq<char>| #[trigger] limit_of(acc@, c) == game_limit(
                    self.rounds@.take(k as int),
                    c,
                ),
            decreases self.rounds@.len() - k,
        {
            let rl = self.rounds[k].limits();
            acc = merge_limits(acc, rl);
            proof {
                assert(self.rounds@.take(k + 1).drop_last() =~= self.rounds@.take(k as int));
                assert(self.rounds@.take(k + 1).last() == self.rounds@[k as int]);
            }
            k = k + 1;
        }
        proof {
            assert(self.rounds@.take(self.rounds@.len() as int) =~= self.rounds@);
        }
        acc
    }
}

} // verus!
