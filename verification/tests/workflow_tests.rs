use adv2023::range::Ranges;
use adv2023::workflow::AcceptableRanges;
use adv2023::workflow::Action;
use adv2023::workflow::Part;
use adv2023::workflow::Rule;
use adv2023::workflow::Workflow;

#[test]
fn rules_compare_one_rating() {
    let part = Part { x: 787, m: 2655, a: 1222, s: 2876 };
    assert_eq!(part.sum(), 7540);
    let lt = Rule { xmas: 'a', comparison: '<', against: 2006, action: Action::Reject };
    assert!(lt.matches(&part));
    let gt = Rule { xmas: 'm', comparison: '>', against: 2090, action: Action::Accept };
    assert!(gt.matches(&part));
    let miss = Rule { xmas: 's', comparison: '<', against: 1351, action: Action::Reject };
    assert!(!miss.matches(&part));
}

#[test]
fn workflows_fire_the_first_matching_rule() {
    // The "qqz" workflow of the sample: s>2770 -> qs, m<1801 -> hdj, else R.
    let wf = Workflow {
        rules: vec![
            Rule { xmas: 's', comparison: '>', against: 2770, action: Action::Send("qs".to_string()) },
            Rule { xmas: 'm', comparison: '<', against: 1801, action: Action::Send("hdj".to_string()) },
        ],
        default: Action::Reject,
    };
    let part = Part { x: 787, m: 2655, a: 1222, s: 2876 };
    assert!(matches!(wf.decide(&part), Action::Send(name) if name == "qs"));
    let part = Part { x: 0, m: 1800, a: 0, s: 0 };
    assert!(matches!(wf.decide(&part), Action::Send(name) if name == "hdj"));
    let part = Part { x: 0, m: 2000, a: 0, s: 0 };
    assert!(matches!(wf.decide(&part), Action::Reject));
}

#[test]
fn bisect_splits_the_acceptable_box() {
    let all = AcceptableRanges::all();
    assert_eq!(all.combinations(), 4000usize.pow(4));
    let (matching, other) = all.bisect('s', '<', 1351);
    assert_eq!(matching.s, Ranges::new(1, 1351));
    assert_eq!(other.s, Ranges::new(1351, 4001));
    assert_eq!(matching.x, Ranges::new(1, 4001));
    assert_eq!(other.x, Ranges::new(1, 4001));
    assert_eq!(matching.combinations(), 1350 * 4000usize.pow(3));
    assert_eq!(other.combinations(), 2650 * 4000usize.pow(3));
    // A second cut on another category leaves the first cut in place.
    let (inner, rest) = matching.bisect('a', '>', 1716);
    assert_eq!(inner.s, Ranges::new(1, 1351));
    assert_eq!(inner.a, Ranges::new(1717, 4001));
    assert_eq!(rest.a, Ranges::new(1, 1717));
    assert_eq!(
        inner.combinations() + rest.combinations(),
        matching.combinations()
    );
}
