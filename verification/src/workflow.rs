//! Part-sorting workflows: each rule compares one rating of a part against a
//! threshold and, on a match, fires an action. For the counting half of the
//! puzzle, a rule splits a box of acceptable rating ranges in two with
//! `Ranges::intersect_one`.

use vstd::prelude::*;

verus! {

use crate::range::Range;
use crate::range::Ranges;
use crate::range::canonical;
use crate::range::len_of;
use crate::range::covers;
use crate::range::range_covers;
use crate::range::intersected;

/// A part with its four ratings.
#[derive(Debug, Clone, Copy, PartialEq, Eq, Structural)]
pub struct Part {
    pub x: isize,
    pub m: isize,
    pub a: isize,
    pub s: isize,
}

/// The rating categories a rule can test.
pub open spec fn is_category(c: char) -> bool {
    c == 'x' || c == 'm' || c == 'a' || c == 's'
}

/// The rating of a part in one category.
pub open spec fn spec_rating(p: Part, c: char) -> int {
    if c == 'x' {
        p.x as int
    } else if c == 'm' {
        p.m as int
    } else if c == 'a' {
        p.a as int
    } else {
        p.s as int
    }
}

impl Part {
    /// The rating in the given category.
    pub fn rating(&self, which: char) -> (r: isize)
        requires
            is_category(which),
        ensures
            r == spec_rating(*self, which),
    {
        if which == 'x' {
            self.x
        } else if which == 'm' {
            self.m
        } else if which == 'a' {
            self.a
        } else {
            self.s
        }
    }

    /// The sum of the four ratings.
    pub fn sum(&self) -> (r: isize)
        requires
            isize::MIN <= self.x + self.m + self.a + self.s <= isize::MAX,
            isize::MIN <= self.x + self.m <= isize::MAX,
            isize::MIN <= self.x + self.m + self.a <= isize::MAX,
        ensures
            r == self.x + self.m + self.a + self.s,
    {
        self.x + self.m + self.a + self.s
    }
}

/// What a workflow does with a matched part: accept it, reject it, or send
/// it to the named workflow.
#[derive(Debug, Clone)]
pub enum Action {
    Accept,
    Reject,
    Send(String),
}

/// One rule: compare a rating against a threshold; on a match, fire the
/// action.
#[derive(Debug, Clone)]
pub struct Rule {
    pub xmas: char,
    pub comparison: char,
    pub against: isize,
    pub action: Action,
}

/// A well-formed rule tests a real category with `<` or `>`.
pub open spec fn rule_wf(r: Rule) -> bool {
    is_category(r.xmas) && (r.comparison == '<' || r.comparison == '>')
}

/// Whether the rule matches the part.
pub open spec fn rule_matches(r: Rule, p: Part) -> bool {
    if r.comparison == '<' {
        spec_rating(p, r.xmas) < r.against
    } else {
        spec_rating(p, r.xmas) > r.against
    }
}

impl Rule {
    /// True when the part's tested rating passes the comparison.
    pub fn matches(&self, part: &Part) -> (r: bool)
        requires
            rule_wf(*self),
        ensures
            r == rule_matches(*self, *part),
    {
        let value = part.rating(self.xmas);
        if self.comparison == '<' {
            value < self.against
        } else {
            value > self.against
        }
    }
}

/// One workflow: rules tried in order, with a fallback action.
#[derive(Debug, Clone)]
pub struct Workflow {
    pub rules: Vec<Rule>,
    pub default: Action,
}

/// Every rule of the workflow is well-formed.
pub open spec fn workflow_wf(w: Workflow) -> bool {
    forall|i: int| 0 <= i < w.rules@.len() ==> rule_wf(#[trigger] w.rules@[i])
}

/// The index of the first rule matching the part, or the rule count when
/// none does.
pub open spec fn first_match(rules: Seq<Rule>, p: Part) -> int
    decreases rules.len(),
{
    if rules.len() == 0 {
        0
    } else if rule_matches(rules[0], p) {
        0
    } else {
        1 + first_match(rules.drop_first(), p)
    }
}

impl Workflow {
    /// The action of the first matching rule, or the fallback.
    pub fn decide<'a>(&'a self, part: &Part) -> (r: &'a Action)
        requires
            workflow_wf(*self),
        ensures
            first_match(self.rules@, *part) < self.rules@.len() ==> r == &self.rules@[first_match(
                self.rules@,
                *part,
            )].action,
            first_match(self.rules@, *part) == self.rules@.len() ==> r == &self.default,
    {
        let mut i: usize = 0;
        while i < self.rules.len()
            invariant
                0 <= i <= self.rules@.len(),
                workflow_wf(*self),
                forall|k: int| 0 <= k < i ==> !rule_matches(#[trigger] self.rules@[k], *part),
            decreases self.rules@.len() - i,
        {
            if self.rules[i].matches(part) {
                proof {
                    lemma_first_match_at(self.rules@, *part, i as int);
                }
                return &self.rules[i].action;
            }
            i = i + 1;
        }
        proof {
            lemma_first_match_none(self.rules@, *part);
        }
        &self.default
    }
}

/// `first_match` finds the index whose predecessors all fail.
proof fn lemma_first_match_at(rules: Seq<Rule>, p: Part, k: int)
    requires
        0 <= k < rules.len(),
        rule_matches(rules[k], p),
        forall|i: int| 0 <= i < k ==> !rule_matches(#[trigger] rules[i], p),
    ensures
        first_match(rules, p) == k,
    decreases k,
{
    if k > 0 {
        assert forall|i: int| 0 <= i < k - 1 implies !rule_matches(
            #[trigger] rules.drop_first()[i],
            p,
        ) by {
            assert(rules.drop_first()[i] == rules[i + 1]);
        }
        assert(rules.drop_first()[k - 1] == rules[k]);
        lemma_first_match_at(rules.drop_first(), p, k - 1);
    }
}

/// When no rule matches, `first_match` runs past the end.
proof fn lemma_first_match_none(rules: Seq<Rule>, p: Part)
    requires
        forall|i: int| 0 <= i < rules.len() ==> !rule_matches(#[trigger] rules[i], p),
    ensures
        first_match(rules, p) == rules.len(),
    decreases rules.len(),
{
    if rules.len() > 0 {
        assert forall|i: int| 0 <= i < rules.drop_first().len() implies !rule_matches(
            #[trigger] rules.drop_first()[i],
            p,
        ) by {
            assert(rules.drop_first()[i] == rules[i + 1]);
        }
        lemma_first_match_none(rules.drop_first(), p);
    }
}

/// A box of still-acceptable ratings, one canonical interval set per
/// category.
#[derive(Debug)]
pub struct AcceptableRanges {
    pub x: Ranges,
    pub m: Ranges,
    pub a: Ranges,
    pub s: Ranges,
}

/// Every category's set is canonical.
pub open spec fn acceptable_wf(r: AcceptableRanges) -> bool {
    canonical(r.x@) && canonical(r.m@) && canonical(r.a@) && canonical(r.s@)
}

/// The set of ratings the box allows in one category.
pub open spec fn spec_field(r: AcceptableRanges, c: char) -> Seq<Range> {
    if c == 'x' {
        r.x@
    } else if c == 'm' {
        r.m@
    } else if c == 'a' {
        r.a@
    } else {
        r.s@
    }
}

/// The interval a `<` or `>` comparison accepts, clipped to the rating
/// bounds 1 through 4000.
pub open spec fn match_query(comparison: char, against: isize) -> Range {
    if comparison == '<' {
        Range { from: 1, to: against }
    } else {
        Range { from: (against + 1) as isize, to: 4001 }
    }
}

/// The interval the same comparison rejects.
pub open spec fn other_query(comparison: char, against: isize) -> Range {
    if comparison == '<' {
        Range { from: against, to: 4001 }
    } else {
        Range { from: 1, to: (against + 1) as isize }
    }
}

impl AcceptableRanges {
    /// The full box: every rating from 1 through 4000 in every category.
    pub fn all() -> (r: AcceptableRanges)
        ensures
            acceptable_wf(r),
            r.x@ =~= seq![Range { from: 1, to: 4001 }],
            r.m@ =~= seq![Range { from: 1, to: 4001 }],
            r.a@ =~= seq![Range { from: 1, to: 4001 }],
            r.s@ =~= seq![Range { from: 1, to: 4001 }],
    {
        AcceptableRanges {
            x: Ranges::new(1, 4001),
            m: Ranges::new(1, 4001),
            a: Ranges::new(1, 4001),
            s: Ranges::new(1, 4001),
        }
    }

    /// How many distinct parts the box holds: the product of the four
    /// coverage counts.
    pub fn combinations(&self) -> (n: usize)
        requires
            acceptable_wf(*self),
            len_of(self.x@) * len_of(self.m@) <= usize::MAX,
            len_of(self.x@) * len_of(self.m@) * len_of(self.a@) <= usize::MAX,
            len_of(self.x@) * len_of(self.m@) * len_of(self.a@) * len_of(self.s@) <= usize::MAX,
        ensures
            n == len_of(self.x@) * len_of(self.m@) * len_of(self.a@) * len_of(self.s@),
    {
        let nx = self.x.len();
        let nm = self.m.len();
        let na = self.a.len();
        let ns = self.s.len();
        proof {
            vstd::arithmetic::mul::lemma_mul_nonnegative(
                len_of(self.x@) * len_of(self.m@),
                len_of(self.a@),
            );
            vstd::arithmetic::mul::lemma_mul_nonnegative(len_of(self.x@), len_of(self.m@));
        }
        nx * nm * na * ns
    }

    /// Splits the box against one rule comparison: the part matching it and
    /// the part failing it, in that order. Both keep every other category
    /// unchanged.
    #[verifier::rlimit(50)]
    pub fn bisect(&self, xmas: char, comparison: char, against: isize) -> (r: (
        AcceptableRanges,
        AcceptableRanges,
    ))
        requires
            acceptable_wf(*self),
            is_category(xmas),
            comparison == '<' || comparison == '>',
            1 <= against <= 4000,
        ensures
            acceptable_wf(r.0),
            acceptable_wf(r.1),
            r.0.x@ == (if xmas == 'x' { intersected(self.x@, match_query(comparison, against)) } else { self.x@ }),
            r.0.m@ == (if xmas == 'm' { intersected(self.m@, match_query(comparison, against)) } else { self.m@ }),
            r.0.a@ == (if xmas == 'a' { intersected(self.a@, match_query(comparison, against)) } else { self.a@ }),
            r.0.s@ == (if xmas == 's' { intersected(self.s@, match_query(comparison, against)) } else { self.s@ }),
            r.1.x@ == (if xmas == 'x' { intersected(self.x@, other_query(comparison, against)) } else { self.x@ }),
            r.1.m@ == (if xmas == 'm' { intersected(self.m@, other_query(comparison, against)) } else { self.m@ }),
            r.1.a@ == (if xmas == 'a' { intersected(self.a@, other_query(comparison, against)) } else { self.a@ }),
            r.1.s@ == (if xmas == 's' { intersected(self.s@, other_query(comparison, against)) } else { self.s@ }),
            forall|v: int|
                covers(spec_field(r.0, xmas), v) <==> covers(spec_field(*self, xmas), v) && (
                if comparison == '<' {
                    v < against
                } else {
                    v > against
                }) && 1 <= v < 4001,
    {
        let (matching_range, other_range) = if comparison == '<' {
            (Range::new(1, against), Range::new(against, 4001))
        } else {
            (Range::new(against + 1, 4001), Range::new(1, against + 1))
        };
        let field = if xmas == 'x' {
            &self.x
        } else if xmas == 'm' {
            &self.m
        } else if xmas == 'a' {
            &self.a
        } else {
            &self.s
        };
        let matched = field.intersect_one(&matching_range);
        let failed = field.intersect_one(&other_range);
        proof {
            assert(matching_range == match_query(comparison, against));
            assert(other_range == other_query(comparison, against));
        }
        let m_box = self.with_field(xmas, matched);
        let f_box = self.with_field(xmas, failed);
        proof {
            assert(spec_field(*self, xmas) == field@);
            assert(spec_field(m_box, xmas) == matched@);
            crate::range::lemma_intersected_props(field@, matching_range);
            assert forall|v: int|
                covers(spec_field(m_box, xmas), v) <==> covers(spec_field(*self, xmas), v) && (
                if comparison == '<' {
                    v < against
                } else {
                    v > against
                }) && 1 <= v < 4001 by {
                assert(covers(spec_field(m_box, xmas), v) == covers(
                    intersected(field@, matching_range),
                    v,
                ));
                assert(covers(intersected(field@, matching_range), v) <==> covers(field@, v)
                    && range_covers(matching_range, v));
            }
        }
        (m_box, f_box)
    }

    /// The box with one category's set replaced.
    fn with_field(&self, which: char, v: Ranges) -> (r: AcceptableRanges)
        requires
            is_category(which),
        ensures
            r.x@ == (if which == 'x' { v@ } else { self.x@ }),
            r.m@ == (if which == 'm' { v@ } else { self.m@ }),
            r.a@ == (if which == 'a' { v@ } else { self.a@ }),
            r.s@ == (if which == 's' { v@ } else { self.s@ }),
    {
        if which == 'x' {
            AcceptableRanges {
                x: v,
                m: self.m.duplicate(),
                a: self.a.duplicate(),
                s: self.s.duplicate(),
            }
        } else if which == 'm' {
            AcceptableRanges {
                x: self.x.duplicate(),
                m: v,
                a: self.a.duplicate(),
                s: self.s.duplicate(),
            }
        } else if which == 'a' {
            AcceptableRanges {
                x: self.x.duplicate(),
                m: self.m.duplicate(),
                a: v,
                s: self.s.duplicate(),
            }
        } else {
            AcceptableRanges {
                x: self.x.duplicate(),
                m: self.m.duplicate(),
                a: self.a.duplicate(),
                s: v,
            }
        }
    }
}

} // verus!
