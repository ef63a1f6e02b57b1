//! Range-based mapping stages: each rule translates the part of a half-open
//! `u64` span that overlaps its source span, and passes the rest through.
//! A stage applies its rules in order to the still-unmatched remainder.

use vstd::prelude::*;

verus! {

/// A half-open span `[start, end)` of unsigned values.
#[derive(Debug, Clone, Copy, PartialEq, Eq, Structural)]
pub struct Span {
    pub start: u64,
    pub end: u64,
}

/// Ordered bounds.
pub open spec fn span_wf(s: Span) -> bool {
    s.start <= s.end
}

/// True when the value `v` lies inside the span.
pub open spec fn in_span(s: Span, v: int) -> bool {
    s.start <= v < s.end
}

/// True when some span of `s` holds the value `v`.
pub open spec fn spans_cover(s: Seq<Span>, v: int) -> bool {
    exists|i: int| 0 <= i < s.len() && in_span(#[trigger] s[i], v)
}

/// Every span of the sequence is well-formed.
pub open spec fn spans_wf(s: Seq<Span>) -> bool {
    forall|i: int| 0 <= i < s.len() ==> span_wf(#[trigger] s[i])
}

/// One rule: values in `src` are translated to the same offset in `dest`.
/// Both spans have the same width.
#[derive(Debug, Clone, Copy, PartialEq, Eq, Structural)]
pub struct OneMapping {
    pub dest: Span,
    pub src: Span,
}

/// A well-formed rule: ordered bounds and equal widths.
pub open spec fn mapping_wf(m: OneMapping) -> bool {
    &&& span_wf(m.src)
    &&& span_wf(m.dest)
    &&& m.dest.end - m.dest.start == m.src.end - m.src.start
}

/// Where the rule sends a source value.
pub open spec fn translate(m: OneMapping, v: int) -> int {
    v - m.src.start + m.dest.start
}

/// Where a destination value came from under the rule.
pub open spec fn untranslate(m: OneMapping, w: int) -> int {
    w - m.dest.start + m.src.start
}

/// The translated part of `r` under rule `m`: the overlap with `m.src`,
/// shifted into `m.dest`; empty when they do not overlap.
pub open spec fn one_map_trans(m: OneMapping, r: Span) -> Seq<Span> {
    if m.src.start < r.end && r.start < m.src.end {
        seq![
            Span {
                start: (translate(m, if m.src.start >= r.start { m.src.start as int } else { r.start as int })) as u64,
                end: (translate(m, if m.src.end <= r.end { m.src.end as int } else { r.end as int })) as u64,
            },
        ]
    } else {
        Seq::<Span>::empty()
    }
}

/// The untouched part of `r` under rule `m`: what lies before and after
/// `m.src`.
pub open spec fn one_map_rem(m: OneMapping, r: Span) -> Seq<Span> {
    (if r.start < m.src.start {
        seq![Span { start: r.start, end: if m.src.start <= r.end { m.src.start } else { r.end } }]
    } else {
        Seq::<Span>::empty()
    }) + (if r.end > m.src.end {
        seq![Span { start: if m.src.end >= r.start { m.src.end } else { r.start }, end: r.end }]
    } else {
        Seq::<Span>::empty()
    })
}

impl OneMapping {
    /// Splits `from` against this rule: the overlap with `src`, translated
    /// into `dest`, and the untouched remainder, in that order.
    pub fn map(&self, from: &Span) -> (r: (Vec<Span>, Vec<Span>))
        requires
            mapping_wf(*self),
            span_wf(*from),
        ensures
            r.0@ == one_map_trans(*self, *from),
            r.1@ == one_map_rem(*self, *from),
            spans_wf(r.0@),
            spans_wf(r.1@),
            forall|v: int|
                spans_cover(r.1@, v) <==> in_span(*from, v) && !in_span(self.src, v),
            forall|w: int|
                spans_cover(r.0@, w) <==> in_span(*from, untranslate(*self, w)) && in_span(
                    self.src,
                    untranslate(*self, w),
                ),
    {
        let mut trans: Vec<Span> = Vec::new();
        let mut rem: Vec<Span> = Vec::new();
        if from.start < self.src.start {
            let min_end = if self.src.start <= from.end {
                self.src.start
            } else {
                from.end
            };
            rem.push(Span { start: from.start, end: min_end });
        }
        if self.src.start < from.end && from.start < self.src.end {
            let max_start = if self.src.start >= from.start {
                self.src.start
            } else {
                from.start
            };
            let min_end = if self.src.end <= from.end {
                self.src.end
            } else {
                from.end
            };
            let trans_start = max_start - self.src.start + self.dest.start;
            let trans_end = min_end - self.src.start + self.dest.start;
            trans.push(Span { start: trans_start, end: trans_end });
        }
        if from.end > self.src.end {
            let max_start = if self.src.end >= from.start {
                self.src.end
            } else {
                from.start
            };
            rem.push(Span { start: max_start, end: from.end });
        }
        proof {
            assert(trans@ =~= one_map_trans(*self, *from));
            assert(rem@ =~= one_map_rem(*self, *from));
            assert forall|v: int| spans_cover(rem@, v) <==> in_span(*from, v) && !in_span(
                self.src,
                v,
            ) by {
                if spans_cover(rem@, v) {
                    let i = choose|i: int| 0 <= i < rem@.len() && in_span(#[trigger] rem@[i], v);
                }
                if in_span(*from, v) && !in_span(self.src, v) {
                    if v < self.src.start {
                        assert(in_span(rem@[0], v));
                    } else {
                        assert(in_span(rem@[rem@.len() - 1], v));
                    }
                }
            }
            assert forall|w: int| spans_cover(trans@, w) <==> in_span(
                *from,
                untranslate(*self, w),
            ) && in_span(self.src, untranslate(*self, w)) by {
                if spans_cover(trans@, w) {
                    let i = choose|i: int|
                        0 <= i < trans@.len() && in_span(#[trigger] trans@[i], w);
                }
                if in_span(*from, untranslate(*self, w)) && in_span(
                    self.src,
                    untranslate(*self, w),
                ) {
                    assert(in_span(trans@[0], w));
                }
            }
        }
        (trans, rem)
    }
}

/// The translated parts of every piece under one rule, concatenated.
pub open spec fn pieces_trans(m: OneMapping, pieces: Seq<Span>) -> Seq<Span>
    decreases pieces.len(),
{
    if pieces.len() == 0 {
        Seq::<Span>::empty()
    } else {
        one_map_trans(m, pieces[0]) + pieces_trans(m, pieces.drop_first())
    }
}

/// The untouched parts of every piece under one rule, concatenated.
pub open spec fn pieces_rem(m: OneMapping, pieces: Seq<Span>) -> Seq<Span>
    decreases pieces.len(),
{
    if pieces.len() == 0 {
        Seq::<Span>::empty()
    } else {
        one_map_rem(m, pieces[0]) + pieces_rem(m, pieces.drop_first())
    }
}

/// The still-unmatched pieces after the rules are applied in order.
pub open spec fn stage_rem(rules: Seq<OneMapping>, pieces: Seq<Span>) -> Seq<Span>
    decreases rules.len(),
{
    if rules.len() == 0 {
        pieces
    } else {
        stage_rem(rules.drop_first(), pieces_rem(rules[0], pieces))
    }
}

/// Everything the rules translate, applied in order to the shrinking
/// remainder.
pub open spec fn stage_trans(rules: Seq<OneMapping>, pieces: Seq<Span>) -> Seq<Span>
    decreases rules.len(),
{
    if rules.len() == 0 {
        Seq::<Span>::empty()
    } else {
        pieces_trans(rules[0], pieces) + stage_trans(rules.drop_first(), pieces_rem(rules[0], pieces))
    }
}

/// The output of one mapping stage on one input span: the translated pieces
/// followed by the untouched remainder.
pub open spec fn stage_map(rules: Seq<OneMapping>, from: Span) -> Seq<Span> {
    stage_trans(rules, seq![from]) + stage_rem(rules, seq![from])
}

/// One mapping stage: rules tried in order against the unmatched remainder.
#[derive(Debug, Clone)]
pub struct MappingSet {
    pub ranges: Vec<OneMapping>,
}

/// Every rule of the stage is well-formed.
pub open spec fn set_wf(s: MappingSet) -> bool {
    forall|i: int| 0 <= i < s.ranges@.len() ==> mapping_wf(#[trigger] s.ranges@[i])
}

impl MappingSet {
    /// Maps one span through the stage: each rule in order translates what
    /// overlaps its source out of the remainder; what no rule matched is
    /// passed through unchanged after the translated pieces.
    pub fn map(&self, from: &Span) -> (r: Vec<Span>)
        requires
            set_wf(*self),
            span_wf(*from),
        ensures
            r@ == stage_map(self.ranges@, *from),
    {
        let mut rem: Vec<Span> = Vec::new();
        rem.push(*from);
        let mut trans: Vec<Span> = Vec::new();
        proof {
            assert(rem@ =~= seq![*from]);
            assert(self.ranges@.skip(0) =~= self.ranges@);
            assert(trans@ + stage_trans(self.ranges@, rem@) =~= stage_trans(self.ranges@, rem@));
        }
        let mut k: usize = 0;
        while k < self.ranges.len()
            invariant
                0 <= k <= self.ranges@.len(),
                set_wf(*self),
                spans_wf(rem@),
                stage_trans(self.ranges@, seq![*from]) == trans@ + stage_trans(
                    self.ranges@.skip(k as int),
                    rem@,
                ),
                stage_rem(self.ranges@, seq![*from]) == stage_rem(
                    self.ranges@.skip(k as int),
                    rem@,
                ),
            decreases self.ranges@.len() - k,
        {
            let rule = self.ranges[k];
            let ghost rules_left = self.ranges@.skip(k as int);
            proof {
                assert(rules_left[0] == self.ranges@[k as int]);
                assert(rules_left.drop_first() =~= self.ranges@.skip(k + 1));
            }
            let mut next_rem: Vec<Span> = Vec::new();
            let ghost old_rem = rem@;
            let ghost old_trans = trans@;
            proof {
                assert(old_rem.take(0) =~= Seq::<Span>::empty());
                assert(next_rem@ =~= pieces_rem(rule, old_rem.take(0)));
                assert(trans@ =~= old_trans + pieces_trans(rule, old_rem.take(0)));
            }
            let mut j: usize = 0;
            while j < rem.len()
                invariant
                    0 <= j <= rem@.len(),
                    rem@ == old_rem,
                    mapping_wf(rule),
                    spans_wf(rem@),
                    spans_wf(next_rem@),
                    next_rem@ == pieces_rem(rule, old_rem.take(j as int)),
                    trans@ == old_trans + pieces_trans(rule, old_rem.take(j as int)),
                decreases rem@.len() - j,
            {
                let piece = rem[j];
                let (this_trans, this_rem) = rule.map(&piece);
                let mut t: usize = 0;
                let ghost nr_before = next_rem@;
                while t < this_rem.len()
                    invariant
                        0 <= t <= this_rem@.len(),
                        next_rem@ =~= nr_before + this_rem@.take(t as int),
                    decreases this_rem@.len() - t,
                {
                    next_rem.push(this_rem[t]);
                    proof {
                        assert(this_rem@.take(t + 1) =~= this_rem@.take(t as int).push(
                            this_rem@[t as int],
                        ));
                    }
                    t = t + 1;
                }
                let mut u: usize = 0;
                let ghost tr_before = trans@;
                while u < this_trans.len()
                    invariant
                        0 <= u <= this_trans@.len(),
                        trans@ =~= tr_before + this_trans@.take(u as int),
                    decreases this_trans@.len() - u,
                {
                    trans.push(this_trans[u]);
                    proof {
                        assert(this_trans@.take(u + 1) =~= this_trans@.take(u as int).push(
                            this_trans@[u as int],
                        ));
                    }
                    u = u + 1;
                }
                proof {
                    assert(this_rem@.take(this_rem@.len() as int) =~= this_rem@);
                    assert(this_trans@.take(this_trans@.len() as int) =~= this_trans@);
                    lemma_pieces_take_step(rule, old_rem, j as int);
                    assert(next_rem@ =~= pieces_rem(rule, old_rem.take(j + 1)));
                    assert(trans@ =~= old_trans + pieces_trans(rule, old_rem.take(j + 1)));
                    assert forall|i: int| 0 <= i < next_rem@.len() implies span_wf(
                        #[trigger] next_rem@[i],
                    ) by {
                        if i >= nr_before.len() {
                            assert(next_rem@[i] == this_rem@[i - nr_before.len()]);
                        }
                    }
                }
                j = j + 1;
            }
            proof {
                assert(old_rem.take(old_rem.len() as int) =~= old_rem);
                assert(stage_trans(rules_left, old_rem) == pieces_trans(rule, old_rem)
                    + stage_trans(self.ranges@.skip(k + 1), pieces_rem(rule, old_rem)));
                assert(stage_rem(rules_left, old_rem) == stage_rem(
                    self.ranges@.skip(k + 1),
                    pieces_rem(rule, old_rem),
                ));
                assert(old_trans + (pieces_trans(rule, old_rem) + stage_trans(
                    self.ranges@.skip(k + 1),
                    pieces_rem(rule, old_rem),
                )) =~= (old_trans + pieces_trans(rule, old_rem)) + stage_trans(
                    self.ranges@.skip(k + 1),
                    pieces_rem(rule, old_rem),
                ));
            }
            rem = next_rem;
            k = k + 1;
        }
        proof {
            assert(self.ranges@.skip(self.ranges@.len() as int) =~= Seq::<OneMapping>::empty());
            assert(stage_trans(Seq::<OneMapping>::empty(), rem@) =~= Seq::<Span>::empty());
            assert(trans@ + Seq::<Span>::empty() =~= trans@);
        }
        let mut out = trans;
        let ghost done_trans = out@;
        let mut w: usize = 0;
        while w < rem.len()
            invariant
                0 <= w <= rem@.len(),
                out@ =~= done_trans + rem@.take(w as int),
            decreases rem@.len() - w,
        {
            out.push(rem[w]);
            proof {
                assert(rem@.take(w + 1) =~= rem@.take(w as int).push(rem@[w as int]));
            }
            w = w + 1;
        }
        proof {
            assert(rem@.take(rem@.len() as int) =~= rem@);
        }
        out
    }

    /// Maps every span of a batch through the stage, concatenating the
    /// results in order.
    pub fn map_ranges(&self, from: &[Span]) -> (r: Vec<Span>)
        requires
            set_wf(*self),
            spans_wf(from@),
        ensures
            r@ == batch_map(self.ranges@, from@),
    {
        let mut out: Vec<Span> = Vec::new();
        proof {
            assert(out@ =~= batch_map(self.ranges@, from@.take(0)));
        }
        let mut i: usize = 0;
        while i < from.len()
            invariant
                0 <= i <= from@.len(),
                set_wf(*self),
                spans_wf(from@),
                out@ == batch_map(self.ranges@, from@.take(i as int)),
            decreases from@.len() - i,
        {
            let mapped = self.map(&from[i]);
            let mut t: usize = 0;
            let ghost before = out@;
            while t < mapped.len()
                invariant
                    0 <= t <= mapped@.len(),
                    out@ =~= before + mapped@.take(t as int),
                decreases mapped@.len() - t,
            {
                out.push(mapped[t]);
                proof {
                    assert(mapped@.take(t + 1) =~= mapped@.take(t as int).push(mapped@[t as int]));
                }
                t = t + 1;
            }
            proof {
                assert(mapped@.take(mapped@.len() as int) =~= mapped@);
                lemma_batch_take_step(self.ranges@, from@, i as int);
                assert(out@ =~= batch_map(self.ranges@, from@.take(i + 1)));
            }
            i = i + 1;
        }
        proof {
            assert(from@.take(from@.len() as int) =~= from@);
        }
        out
    }
}

/// One stage applied to every span of a batch, results concatenated.
pub open spec fn batch_map(rules: Seq<OneMapping>, from: Seq<Span>) -> Seq<Span>
    decreases from.len(),
{
    if from.len() == 0 {
        Seq::<Span>::empty()
    } else {
        stage_map(rules, from[0]) + batch_map(rules, from.drop_first())
    }
}

/// Index of the first rule whose source span holds `v`, or `-1` when none
/// does.
pub open spec fn first_rule(rules: Seq<OneMapping>, v: int) -> int
    decreases rules.len(),
{
    if rules.len() == 0 {
        -1
    } else if in_span(rules[0].src, v) {
        0
    } else {
        let r = first_rule(rules.drop_first(), v);
        if r == -1 {
            -1
        } else {
            r + 1
        }
    }
}

/// Where a stage sends a value: through its first matching rule, or
/// unchanged.
pub open spec fn stage_value(rules: Seq<OneMapping>, v: int) -> int {
    let k = first_rule(rules, v);
    if k == -1 {
        v
    } else {
        translate(rules[k], v)
    }
}

/// Every rule in the sequence is well-formed.
pub open spec fn rules_wf(rules: Seq<OneMapping>) -> bool {
    forall|i: int| 0 <= i < rules.len() ==> mapping_wf(#[trigger] rules[i])
}

/// `first_rule` returns `-1` or a valid index whose source holds the value.
proof fn lemma_first_rule_bound(rules: Seq<OneMapping>, v: int)
    ensures
        first_rule(rules, v) == -1 || (0 <= first_rule(rules, v) < rules.len() && in_span(
            rules[first_rule(rules, v)].src,
            v,
        )),
    decreases rules.len(),
{
    if rules.len() > 0 && !in_span(rules[0].src, v) {
        lemma_first_rule_bound(rules.drop_first(), v);
    }
}

/// Concatenation covers a value exactly when one of the parts does.
proof fn lemma_spans_cover_concat(a: Seq<Span>, b: Seq<Span>)
    ensures
        forall|v: int| spans_cover(a + b, v) <==> spans_cover(a, v) || spans_cover(b, v),
{
    assert forall|v: int| spans_cover(a + b, v) <==> spans_cover(a, v) || spans_cover(b, v) by {
        if spans_cover(a + b, v) {
            let i = choose|i: int| 0 <= i < (a + b).len() && in_span(#[trigger] (a + b)[i], v);
            if i < a.len() {
                assert(in_span(a[i], v));
            } else {
                assert(in_span(b[i - a.len()], v));
            }
        }
        if spans_cover(a, v) {
            let i = choose|i: int| 0 <= i < a.len() && in_span(#[trigger] a[i], v);
            assert(in_span((a + b)[i], v));
        }
        if spans_cover(b, v) {
            let i = choose|i: int| 0 <= i < b.len() && in_span(#[trigger] b[i], v);
            assert(in_span((a + b)[a.len() + i], v));
        }
    }
}

/// What one rule leaves of one span covers exactly the span's values outside
/// the rule's source.
proof fn lemma_one_rem_covers(m: OneMapping, r: Span)
    requires
        mapping_wf(m),
        span_wf(r),
    ensures
        forall|v: int| #![trigger spans_cover(one_map_rem(m, r), v)]
            spans_cover(one_map_rem(m, r), v) <==> in_span(r, v) && !in_span(m.src, v),
        spans_wf(one_map_rem(m, r)),
{
    let out = one_map_rem(m, r);
    assert forall|v: int| spans_cover(out, v) <==> in_span(r, v) && !in_span(m.src, v) by {
        if spans_cover(out, v) {
            let i = choose|i: int| 0 <= i < out.len() && in_span(#[trigger] out[i], v);
        }
        if in_span(r, v) && !in_span(m.src, v) {
            if v < m.src.start {
                assert(in_span(out[0], v));
            } else {
                assert(in_span(out[out.len() - 1], v));
            }
        }
    }
}

/// What one rule translates of one span covers exactly the translated
/// overlap.
proof fn lemma_one_trans_covers(m: OneMapping, r: Span)
    requires
        mapping_wf(m),
        span_wf(r),
    ensures
        forall|w: int| #![trigger spans_cover(one_map_trans(m, r), w)]
            spans_cover(one_map_trans(m, r), w) <==> in_span(r, untranslate(m, w)) && in_span(
                m.src,
                untranslate(m, w),
            ),
        spans_wf(one_map_trans(m, r)),
{
    let out = one_map_trans(m, r);
    assert forall|w: int|
        spans_cover(out, w) <==> in_span(r, untranslate(m, w)) && in_span(
            m.src,
            untranslate(m, w),
        ) by {
        if spans_cover(out, w) {
            let i = choose|i: int| 0 <= i < out.len() && in_span(#[trigger] out[i], w);
        }
        if in_span(r, untranslate(m, w)) && in_span(m.src, untranslate(m, w)) {
            assert(in_span(out[0], w));
        }
    }
}

/// What one rule leaves of many pieces covers exactly the pieces' values
/// outside the rule's source.
proof fn lemma_pieces_rem_covers(m: OneMapping, pieces: Seq<Span>)
    requires
        mapping_wf(m),
        spans_wf(pieces),
    ensures
        forall|v: int| #![trigger spans_cover(pieces_rem(m, pieces), v)]
            spans_cover(pieces_rem(m, pieces), v) <==> spans_cover(pieces, v) && !in_span(
                m.src,
                v,
            ),
        spans_wf(pieces_rem(m, pieces)),
    decreases pieces.len(),
{
    if pieces.len() == 0 {
    } else {
        let rest = pieces.drop_first();
        assert forall|i: int| 0 <= i < rest.len() implies span_wf(#[trigger] rest[i]) by {
            assert(rest[i] == pieces[i + 1]);
        }
        lemma_pieces_rem_covers(m, rest);
        lemma_one_rem_covers(m, pieces[0]);
        lemma_spans_cover_concat(one_map_rem(m, pieces[0]), pieces_rem(m, rest));
        assert forall|v: int|
            spans_cover(pieces_rem(m, pieces), v) <==> spans_cover(pieces, v) && !in_span(
                m.src,
                v,
            ) by {
            assert(pieces =~= seq![pieces[0]] + rest);
            lemma_spans_cover_concat(seq![pieces[0]], rest);
            if in_span(pieces[0], v) {
                assert(in_span(seq![pieces[0]][0], v));
            }
            if spans_cover(seq![pieces[0]], v) {
                let i = choose|i: int|
                    0 <= i < seq![pieces[0]].len() && in_span(#[trigger] seq![pieces[0]][i], v);
            }
            assert(pieces_rem(m, pieces) == one_map_rem(m, pieces[0]) + pieces_rem(m, rest));
            assert(spans_cover(one_map_rem(m, pieces[0]) + pieces_rem(m, rest), v) <==> spans_cover(
                one_map_rem(m, pieces[0]),
                v,
            ) || spans_cover(pieces_rem(m, rest), v));
            assert(spans_cover(seq![pieces[0]] + rest, v) <==> spans_cover(seq![pieces[0]], v)
                || spans_cover(rest, v));
            assert(spans_cover(one_map_rem(m, pieces[0]), v) <==> in_span(pieces[0], v)
                && !in_span(m.src, v));
            assert(spans_cover(pieces_rem(m, rest), v) <==> spans_cover(rest, v) && !in_span(
                m.src,
                v,
            ));
            assert(spans_cover(seq![pieces[0]], v) <==> in_span(pieces[0], v));
        }
        assert forall|i: int| 0 <= i < pieces_rem(m, pieces).len() implies span_wf(
            #[trigger] pieces_rem(m, pieces)[i],
        ) by {
            let head = one_map_rem(m, pieces[0]);
            if i < head.len() {
                assert(pieces_rem(m, pieces)[i] == head[i]);
            } else {
                assert(pieces_rem(m, pieces)[i] == pieces_rem(m, rest)[i - head.len()]);
            }
        }
    }
}

/// What one rule translates of many pieces covers exactly the translated
/// overlap of their union.
proof fn lemma_pieces_trans_covers(m: OneMapping, pieces: Seq<Span>)
    requires
        mapping_wf(m),
        spans_wf(pieces),
    ensures
        forall|w: int| #![trigger spans_cover(pieces_trans(m, pieces), w)]
            spans_cover(pieces_trans(m, pieces), w) <==> spans_cover(pieces, untranslate(m, w))
                && in_span(m.src, untranslate(m, w)),
    decreases pieces.len(),
{
    if pieces.len() == 0 {
    } else {
        let rest = pieces.drop_first();
        assert forall|i: int| 0 <= i < rest.len() implies span_wf(#[trigger] rest[i]) by {
            assert(rest[i] == pieces[i + 1]);
        }
        lemma_pieces_trans_covers(m, rest);
        lemma_one_trans_covers(m, pieces[0]);
        lemma_spans_cover_concat(one_map_trans(m, pieces[0]), pieces_trans(m, rest));
        assert forall|w: int|
            spans_cover(pieces_trans(m, pieces), w) <==> spans_cover(pieces, untranslate(m, w))
                && in_span(m.src, untranslate(m, w)) by {
            assert(pieces =~= seq![pieces[0]] + rest);
            lemma_spans_cover_concat(seq![pieces[0]], rest);
            let u = untranslate(m, w);
            if in_span(pieces[0], u) {
                assert(in_span(seq![pieces[0]][0], u));
            }
            if spans_cover(seq![pieces[0]], u) {
                let i = choose|i: int|
                    0 <= i < seq![pieces[0]].len() && in_span(#[trigger] seq![pieces[0]][i], u);
            }
            assert(pieces_trans(m, pieces) == one_map_trans(m, pieces[0]) + pieces_trans(m, rest));
            assert(spans_cover(one_map_trans(m, pieces[0]) + pieces_trans(m, rest), w)
                <==> spans_cover(one_map_trans(m, pieces[0]), w) || spans_cover(
                pieces_trans(m, rest),
                w,
            ));
            assert(spans_cover(seq![pieces[0]] + rest, u) <==> spans_cover(seq![pieces[0]], u)
                || spans_cover(rest, u));
            assert(spans_cover(one_map_trans(m, pieces[0]), w) <==> in_span(pieces[0], u)
                && in_span(m.src, u));
            assert(spans_cover(pieces_trans(m, rest), w) <==> spans_cover(rest, u) && in_span(
                m.src,
                u,
            ));
            assert(spans_cover(seq![pieces[0]], u) <==> in_span(pieces[0], u));
        }
    }
}

/// The remainder of a whole stage covers exactly the input values that no
/// rule matches.
proof fn lemma_stage_rem_covers(rules: Seq<OneMapping>, pieces: Seq<Span>)
    requires
        rules_wf(rules),
        spans_wf(pieces),
    ensures
        forall|v: int| #![trigger spans_cover(stage_rem(rules, pieces), v)]
            spans_cover(stage_rem(rules, pieces), v) <==> spans_cover(pieces, v) && first_rule(
                rules,
                v,
            ) == -1,
        spans_wf(stage_rem(rules, pieces)),
    decreases rules.len(),
{
    if rules.len() == 0 {
    } else {
        let rest = rules.drop_first();
        assert forall|i: int| 0 <= i < rest.len() implies mapping_wf(#[trigger] rest[i]) by {
            assert(rest[i] == rules[i + 1]);
        }
        lemma_pieces_rem_covers(rules[0], pieces);
        lemma_stage_rem_covers(rest, pieces_rem(rules[0], pieces));
        assert forall|v: int|
            spans_cover(stage_rem(rules, pieces), v) <==> spans_cover(pieces, v) && first_rule(
                rules,
                v,
            ) == -1 by {
            assert(stage_rem(rules, pieces) == stage_rem(rest, pieces_rem(rules[0], pieces)));
            assert(spans_cover(stage_rem(rest, pieces_rem(rules[0], pieces)), v) <==> spans_cover(
                pieces_rem(rules[0], pieces),
                v,
            ) && first_rule(rest, v) == -1);
            assert(spans_cover(pieces_rem(rules[0], pieces), v) <==> spans_cover(pieces, v)
                && !in_span(rules[0].src, v));
            lemma_first_rule_bound(rest, v);
            assert(first_rule(rules, v) == -1 <==> (!in_span(rules[0].src, v) && first_rule(
                rest,
                v,
            ) == -1));
        }
    }
}

/// Every input value that some rule matches reaches the translated output.
proof fn lemma_stage_trans_covers_value(rules: Seq<OneMapping>, pieces: Seq<Span>, v: int)
    requires
        rules_wf(rules),
        spans_wf(pieces),
        spans_cover(pieces, v),
        first_rule(rules, v) >= 0,
    ensures
        spans_cover(stage_trans(rules, pieces), translate(rules[first_rule(rules, v)], v)),
    decreases rules.len(),
{
    let k = first_rule(rules, v);
    lemma_first_rule_bound(rules, v);
    let rest = rules.drop_first();
    assert forall|i: int| 0 <= i < rest.len() implies mapping_wf(#[trigger] rest[i]) by {
        assert(rest[i] == rules[i + 1]);
    }
    lemma_pieces_trans_covers(rules[0], pieces);
    lemma_pieces_rem_covers(rules[0], pieces);
    lemma_spans_cover_concat(
        pieces_trans(rules[0], pieces),
        stage_trans(rest, pieces_rem(rules[0], pieces)),
    );
    assert(stage_trans(rules, pieces) == pieces_trans(rules[0], pieces) + stage_trans(
        rest,
        pieces_rem(rules[0], pieces),
    ));
    if k == 0 {
        let w = translate(rules[0], v);
        assert(untranslate(rules[0], w) == v);
        assert(spans_cover(pieces_trans(rules[0], pieces), w));
        assert(spans_cover(
            pieces_trans(rules[0], pieces) + stage_trans(rest, pieces_rem(rules[0], pieces)),
            w,
        ));
    } else {
        assert(!in_span(rules[0].src, v));
        assert(spans_cover(pieces_rem(rules[0], pieces), v));
        assert(first_rule(rest, v) == k - 1);
        lemma_stage_trans_covers_value(rest, pieces_rem(rules[0], pieces), v);
        assert(rest[k - 1] == rules[k]);
        assert(spans_cover(
            pieces_trans(rules[0], pieces) + stage_trans(rest, pieces_rem(rules[0], pieces)),
            translate(rules[k], v),
        ));
    }
}

/// Law: a mapping stage sends every input value to its mapped position - a
/// value matched by some rule appears translated by the first rule that
/// matches it, and an unmatched value passes through unchanged.
pub proof fn lemma_stage_map_value(rules: Seq<OneMapping>, from: Span, v: int)
    requires
        rules_wf(rules),
        span_wf(from),
        in_span(from, v),
    ensures
        spans_cover(stage_map(rules, from), stage_value(rules, v)),
{
    let pieces = seq![from];
    assert(spans_wf(pieces)) by {
        assert(pieces[0] == from);
    }
    assert(spans_cover(pieces, v)) by {
        assert(in_span(pieces[0], v));
    }
    lemma_spans_cover_concat(stage_trans(rules, pieces), stage_rem(rules, pieces));
    lemma_first_rule_bound(rules, v);
    assert(stage_map(rules, from) == stage_trans(rules, pieces) + stage_rem(rules, pieces));
    if first_rule(rules, v) == -1 {
        lemma_stage_rem_covers(rules, pieces);
        assert(spans_cover(stage_rem(rules, pieces), v));
        assert(spans_cover(stage_trans(rules, pieces) + stage_rem(rules, pieces), v));
    } else {
        lemma_stage_trans_covers_value(rules, pieces, v);
        assert(spans_cover(
            stage_trans(rules, pieces) + stage_rem(rules, pieces),
            translate(rules[first_rule(rules, v)], v),
        ));
    }
}

/// Law: a mapping stage invents no values - everything its output covers is
/// the image of some input value.
pub proof fn lemma_stage_map_onto(rules: Seq<OneMapping>, from: Span, w: int)
    requires
        rules_wf(rules),
        span_wf(from),
        spans_cover(stage_map(rules, from), w),
    ensures
        exists|v: int| in_span(from, v) && stage_value(rules, v) == w,
{
    let pieces = seq![from];
    assert(spans_wf(pieces)) by {
        assert(pieces[0] == from);
    }
    lemma_spans_cover_concat(stage_trans(rules, pieces), stage_rem(rules, pieces));
    assert(stage_map(rules, from) == stage_trans(rules, pieces) + stage_rem(rules, pieces));
    assert(spans_cover(stage_trans(rules, pieces) + stage_rem(rules, pieces), w));
    if spans_cover(stage_rem(rules, pieces), w) {
        lemma_stage_rem_covers(rules, pieces);
        assert(spans_cover(pieces, w) && first_rule(rules, w) == -1);
        let i = choose|i: int| 0 <= i < pieces.len() && in_span(#[trigger] pieces[i], w);
        assert(in_span(from, w) && stage_value(rules, w) == w);
    } else {
        lemma_stage_trans_onto(rules, pieces, w);
        let v = choose|v: int|
            spans_cover(pieces, v) && first_rule(rules, v) >= 0 && translate(
                rules[first_rule(rules, v)],
                v,
            ) == w;
        let i = choose|i: int| 0 <= i < pieces.len() && in_span(#[trigger] pieces[i], v);
        assert(in_span(from, v) && stage_value(rules, v) == w);
    }
}

/// Everything the translated side covers is the first-matching-rule image of
/// some still-unmatched input value.
proof fn lemma_stage_trans_onto(rules: Seq<OneMapping>, pieces: Seq<Span>, w: int)
    requires
        rules_wf(rules),
        spans_wf(pieces),
        spans_cover(stage_trans(rules, pieces), w),
    ensures
        exists|v: int|
            spans_cover(pieces, v) && first_rule(rules, v) >= 0 && translate(
                rules[first_rule(rules, v)],
                v,
            ) == w,
    decreases rules.len(),
{
    let rest = rules.drop_first();
    assert forall|i: int| 0 <= i < rest.len() implies mapping_wf(#[trigger] rest[i]) by {
        assert(rest[i] == rules[i + 1]);
    }
    lemma_pieces_trans_covers(rules[0], pieces);
    lemma_pieces_rem_covers(rules[0], pieces);
    lemma_spans_cover_concat(
        pieces_trans(rules[0], pieces),
        stage_trans(rest, pieces_rem(rules[0], pieces)),
    );
    assert(stage_trans(rules, pieces) == pieces_trans(rules[0], pieces) + stage_trans(
        rest,
        pieces_rem(rules[0], pieces),
    ));
    assert(spans_cover(
        pieces_trans(rules[0], pieces) + stage_trans(rest, pieces_rem(rules[0], pieces)),
        w,
    ));
    if spans_cover(pieces_trans(rules[0], pieces), w) {
        let v = untranslate(rules[0], w);
        assert(spans_cover(pieces, v) && in_span(rules[0].src, v));
        assert(first_rule(rules, v) == 0);
        assert(translate(rules[0], v) == w);
    } else {
        lemma_stage_trans_onto(rest, pieces_rem(rules[0], pieces), w);
        let v = choose|v: int|
            spans_cover(pieces_rem(rules[0], pieces), v) && first_rule(rest, v) >= 0 && translate(
                rest[first_rule(rest, v)],
                v,
            ) == w;
        lemma_first_rule_bound(rest, v);
        assert(spans_cover(pieces_rem(rules[0], pieces), v) <==> spans_cover(pieces, v)
            && !in_span(rules[0].src, v));
        assert(spans_cover(pieces, v) && !in_span(rules[0].src, v));
        assert(first_rule(rules, v) == first_rule(rest, v) + 1);
        assert(rest[first_rule(rest, v)] == rules[first_rule(rules, v)]);
    }
}

/// Extending the processed prefix by one piece extends both outputs by that
/// piece's split.
proof fn lemma_pieces_take_step(m: OneMapping, pieces: Seq<Span>, j: int)
    requires
        0 <= j < pieces.len(),
    ensures
        pieces_rem(m, pieces.take(j + 1)) == pieces_rem(m, pieces.take(j)) + one_map_rem(
            m,
            pieces[j],
        ),
        pieces_trans(m, pieces.take(j + 1)) == pieces_trans(m, pieces.take(j)) + one_map_trans(
            m,
            pieces[j],
        ),
    decreases j,
{
    if j == 0 {
        assert(pieces.take(1) =~= seq![pieces[0]]);
        assert(pieces.take(1).drop_first() =~= Seq::<Span>::empty());
        assert(pieces.take(0) =~= Seq::<Span>::empty());
        assert(pieces.take(1)[0] == pieces[0]);
        assert(pieces_rem(m, Seq::<Span>::empty()) =~= Seq::<Span>::empty());
        assert(pieces_trans(m, Seq::<Span>::empty()) =~= Seq::<Span>::empty());
        assert(one_map_rem(m, pieces[0]) + Seq::<Span>::empty() =~= one_map_rem(m, pieces[0]));
        assert(one_map_trans(m, pieces[0]) + Seq::<Span>::empty() =~= one_map_trans(m, pieces[0]));
        assert(pieces_rem(m, pieces.take(1)) =~= one_map_rem(m, pieces[0]));
        assert(pieces_rem(m, pieces.take(0)) + one_map_rem(m, pieces[0]) =~= one_map_rem(
            m,
            pieces[0],
        ));
        assert(pieces_trans(m, pieces.take(1)) =~= one_map_trans(m, pieces[0]));
        assert(pieces_trans(m, pieces.take(0)) + one_map_trans(m, pieces[0]) =~= one_map_trans(
            m,
            pieces[0],
        ));
    } else {
        lemma_pieces_take_step(m, pieces.drop_first(), j - 1);
        assert(pieces.take(j + 1).drop_first() =~= pieces.drop_first().take(j));
        assert(pieces.take(j).drop_first() =~= pieces.drop_first().take(j - 1));
        assert(pieces.drop_first()[j - 1] == pieces[j]);
        assert(pieces.take(j + 1)[0] == pieces[0]);
        assert(pieces.take(j)[0] == pieces[0]);
        assert(pieces_rem(m, pieces.take(j + 1)) == one_map_rem(m, pieces[0]) + pieces_rem(
            m,
            pieces.drop_first().take(j),
        ));
        assert(pieces_rem(m, pieces.take(j)) == one_map_rem(m, pieces[0]) + pieces_rem(
            m,
            pieces.drop_first().take(j - 1),
        ));
        assert((one_map_rem(m, pieces[0]) + pieces_rem(m, pieces.drop_first().take(j - 1)))
            + one_map_rem(m, pieces[j]) =~= one_map_rem(m, pieces[0]) + (pieces_rem(
            m,
            pieces.drop_first().take(j - 1),
        ) + one_map_rem(m, pieces[j])));
        assert(pieces_trans(m, pieces.take(j + 1)) == one_map_trans(m, pieces[0]) + pieces_trans(
            m,
            pieces.drop_first().take(j),
        ));
        assert(pieces_trans(m, pieces.take(j)) == one_map_trans(m, pieces[0]) + pieces_trans(
            m,
            pieces.drop_first().take(j - 1),
        ));
        assert((one_map_trans(m, pieces[0]) + pieces_trans(m, pieces.drop_first().take(j - 1)))
            + one_map_trans(m, pieces[j]) =~= one_map_trans(m, pieces[0]) + (pieces_trans(
            m,
            pieces.drop_first().take(j - 1),
        ) + one_map_trans(m, pieces[j])));
    }
}

/// Extending the processed prefix of a batch by one span appends that span's
/// stage output.
proof fn lemma_batch_take_step(rules: Seq<OneMapping>, from: Seq<Span>, i: int)
    requires
        0 <= i < from.len(),
    ensures
        batch_map(rules, from.take(i + 1)) == batch_map(rules, from.take(i)) + stage_map(
            rules,
            from[i],
        ),
    decreases i,
{
    if i == 0 {
        assert(from.take(1) =~= seq![from[0]]);
        assert(from.take(1).drop_first() =~= Seq::<Span>::empty());
        assert(from.take(0) =~= Seq::<Span>::empty());
        assert(from.take(1)[0] == from[0]);
        assert(batch_map(rules, Seq::<Span>::empty()) =~= Seq::<Span>::empty());
        assert(stage_map(rules, from[0]) + Seq::<Span>::empty() =~= stage_map(rules, from[0]));
        assert(batch_map(rules, from.take(1)) =~= stage_map(rules, from[0]));
        assert(batch_map(rules, from.take(0)) + stage_map(rules, from[0]) =~= stage_map(
            rules,
            from[0],
        ));
    } else {
        lemma_batch_take_step(rules, from.drop_first(), i - 1);
        assert(from.take(i + 1).drop_first() =~= from.drop_first().take(i));
        assert(from.take(i).drop_first() =~= from.drop_first().take(i - 1));
        assert(from.drop_first()[i - 1] == from[i]);
        assert(from.take(i + 1)[0] == from[0]);
        assert(from.take(i)[0] == from[0]);
        assert(batch_map(rules, from.take(i + 1)) == stage_map(rules, from[0]) + batch_map(
            rules,
            from.drop_first().take(i),
        ));
        assert(batch_map(rules, from.take(i)) == stage_map(rules, from[0]) + batch_map(
            rules,
            from.drop_first().take(i - 1),
        ));
        assert((stage_map(rules, from[0]) + batch_map(rules, from.drop_first().take(i - 1)))
            + stage_map(rules, from[i]) =~= stage_map(rules, from[0]) + (batch_map(
            rules,
            from.drop_first().take(i - 1),
        ) + stage_map(rules, from[i])));
    }
}

} // verus!
