use adv2023::Range;
use adv2023::Ranges;

#[test]
fn range_test_ranges() {
    assert_eq!(
        Ranges::new(1, 5).union(&Ranges::new(1, 5)),
        Ranges::new(1, 5)
    );
    assert_eq!(
        Ranges::new(1, 5).union(&Ranges::new(0, 5)),
        Ranges::new(0, 5)
    );
    assert_eq!(
        Ranges::new(1, 5).union(&Ranges::new(2, 5)),
        Ranges::new(1, 5)
    );
    assert_eq!(
        Ranges::new(1, 5).union(&Ranges::new(0, 1)),
        Ranges::new(0, 5)
    );
    assert_eq!(
        Ranges::new(1, 5).union(&Ranges::new(0, 2)),
        Ranges::new(0, 5)
    );
    assert_eq!(
        Ranges::new(1, 5).union(&Ranges::new(4, 8)),
        Ranges::new(1, 8)
    );
    assert_eq!(
        Ranges::new(1, 5).union(&Ranges::new(5, 8)),
        Ranges::new(1, 8)
    );
    assert_eq!(
        Ranges::new(1, 5).union(&Ranges::new(6, 8)),
        Ranges::from_slice(&[(1, 5), (6, 8)])
    );
    assert_eq!(
        Ranges::new(1, 5)
            .union(&Ranges::new(6, 8))
            .union(&Ranges::new(5, 6)),
        Ranges::new(1, 8)
    );
    assert_eq!(Ranges::new(1, 2).union(&Ranges::new(10, 15)).len(), 6);

    assert_eq!(
        Ranges::new(1, 10).intersect_one(&Range::new(1, 10)),
        Ranges::new(1, 10)
    );
    assert_eq!(
        Ranges::new(1, 10).intersect_one(&Range::new(0, 11)),
        Ranges::new(1, 10)
    );
    assert_eq!(
        Ranges::new(1, 10).intersect_one(&Range::new(1, 5)),
        Ranges::new(1, 5)
    );
    assert_eq!(
        Ranges::new(1, 10).intersect_one(&Range::new(5, 10)),
        Ranges::new(5, 10)
    );
    assert_eq!(
        Ranges::new(1, 10).intersect_one(&Range::new(3, 4)),
        Ranges::new(3, 4)
    );
    assert_eq!(
        Ranges::from_slice(&[(1, 2), (3, 4), (5, 6)]).intersect_one(&Range::new(2, 5)),
        Ranges::new(3, 4)
    );
}

#[test]
fn empty_set_behaves_like_nothing() {
    let e = Ranges::empty();
    assert_eq!(e.len(), 0);
    assert_eq!(e.union(&Ranges::new(1, 5)), Ranges::new(1, 5));
    assert_eq!(Ranges::new(1, 5).union(&e), Ranges::new(1, 5));
    assert_eq!(e.intersect_one(&Range::new(-100, 100)), Ranges::empty());
}

#[test]
fn degenerate_interval_has_no_length() {
    let d = Ranges::new(3, 3);
    assert_eq!(d.len(), 0);
    assert_eq!(d.union(&d), d);
    // A degenerate interval never blocks a merge.
    assert_eq!(
        Ranges::new(1, 3).union(&Ranges::new(3, 3)).union(&Ranges::new(3, 5)),
        Ranges::new(1, 5)
    );
}

#[test]
fn union_is_idempotent_and_commutative_on_values() {
    let a = Ranges::from_slice(&[(-5, -1), (0, 3), (7, 9)]);
    let b = Ranges::from_slice(&[(-2, 1), (4, 8)]);
    assert_eq!(a.union(&a), a);
    assert_eq!(a.union(&b), b.union(&a));
}

#[test]
fn union_is_associative_on_values() {
    let a = Ranges::from_slice(&[(0, 4), (9, 12)]);
    let b = Ranges::from_slice(&[(3, 6)]);
    let c = Ranges::from_slice(&[(6, 9), (20, 25)]);
    assert_eq!(a.union(&b).union(&c), a.union(&b.union(&c)));
    assert_eq!(a.union(&b).union(&c), Ranges::from_slice(&[(0, 12), (20, 25)]));
}

#[test]
fn union_length_adds_over_disjoint_sets() {
    let a = Ranges::from_slice(&[(0, 2), (10, 13)]);
    let b = Ranges::from_slice(&[(4, 6), (20, 21)]);
    assert_eq!(a.len(), 5);
    assert_eq!(b.len(), 3);
    assert_eq!(a.union(&b).len(), 8);
    // Touching but disjoint integer sets still add up.
    let c = Ranges::new(2, 4);
    assert_eq!(a.union(&c).len(), 5 + 2);
}

#[test]
fn intersection_with_wide_bounds_is_identity() {
    let a = Ranges::from_slice(&[(-50, -40), (0, 3), (9, 11)]);
    assert_eq!(a.intersect_one(&Range::new(isize::MIN, isize::MAX)), a);
}

#[test]
fn intersection_respects_gaps_and_negative_bounds() {
    let a = Ranges::from_slice(&[(-10, -5), (-2, 2), (5, 9)]);
    assert_eq!(
        a.intersect_one(&Range::new(-6, 6)),
        Ranges::from_slice(&[(-6, -5), (-2, 2), (5, 6)])
    );
    assert_eq!(a.intersect_one(&Range::new(2, 5)), Ranges::empty());
    assert_eq!(a.len(), 5 + 4 + 4);
}

#[test]
fn union_merges_many_overlaps_into_canonical_form() {
    let mut acc = Ranges::empty();
    acc = acc.union(&Ranges::new(8, 12));
    acc = acc.union(&Ranges::new(0, 3));
    acc = acc.union(&Ranges::new(2, 5));
    acc = acc.union(&Ranges::new(5, 8));
    assert_eq!(acc, Ranges::new(0, 12));
    assert_eq!(acc.len(), 12);
}
