use adv2023::closed::ClosedRanges;

#[test]
fn day18_test_ranges() {
    let mut r = ClosedRanges::new();
    r.apply(1, 5);
    assert_eq!(r.0, vec![(1, 5)]);
    r.apply(-3, 0);
    assert_eq!(r.0, vec![(-3, 0), (1, 5)]);
    r.apply(0, 1);
    assert_eq!(r.0, vec![(-3, 5)]);
    r.apply(5, 8);
    assert_eq!(r.0, vec![(-3, 8)]);
    r.apply(7, 8);
    assert_eq!(r.0, vec![(-3, 7)]);
    r.apply(1, 3);
    assert_eq!(r.0, vec![(-3, 1), (3, 7)]);
    assert_eq!(r.len(), 10);

    assert_eq!(
        ClosedRanges(vec![(0, 3)]).union(&ClosedRanges(vec![(1, 2)])).0,
        vec![(0, 3)]
    );
    assert_eq!(
        ClosedRanges(vec![(1, 2)]).union(&ClosedRanges(vec![(2, 3)])).0,
        vec![(1, 3)]
    );
    assert_eq!(
        ClosedRanges(vec![(1, 3)]).union(&ClosedRanges(vec![(2, 4)])).0,
        vec![(1, 4)]
    );
}

#[test]
fn closed_adjacent_pairs_stay_separate() {
    // Closed intervals that sit next to each other share no endpoint and are
    // not merged.
    let merged = ClosedRanges(vec![(1, 2)]).union(&ClosedRanges(vec![(3, 4)]));
    assert_eq!(merged.0, vec![(1, 2), (3, 4)]);
    assert_eq!(merged.len(), 4);
}

#[test]
fn closed_apply_outside_any_pair_adds_it_sorted() {
    let mut r = ClosedRanges(vec![(10, 20)]);
    r.apply(0, 5);
    assert_eq!(r.0, vec![(0, 5), (10, 20)]);
    r.apply(30, 40);
    assert_eq!(r.0, vec![(0, 5), (10, 20), (30, 40)]);
}

#[test]
fn closed_apply_keeps_both_endpoints() {
    let mut r = ClosedRanges(vec![(0, 10)]);
    r.apply(3, 7);
    assert_eq!(r.0, vec![(0, 3), (7, 10)]);
    // The whole pair: both stubs vanish.
    let mut w = ClosedRanges(vec![(0, 10)]);
    w.apply(0, 10);
    assert_eq!(w.0, vec![]);
}
