use adv2023::cards::Card;
use adv2023::cards::part1;
use adv2023::digits::find_first_digit;
use adv2023::digits::find_last_digit;
use adv2023::digits::parse_line_part1;
use adv2023::digits::parse_line_part2;
use adv2023::digits::try_parse_digit;
use adv2023::lens::hash;
use adv2023::mapping::MappingSet;
use adv2023::mapping::OneMapping;
use adv2023::mapping::Span;
use adv2023::pos::Pos;
use adv2023::race::Race;
use adv2023::race::calculate_ways_to_win_product;
use adv2023::series::Series;

fn chars(s: &str) -> Vec<char> {
    s.chars().collect()
}

#[test]
fn digits_plain_lines() {
    assert_eq!(parse_line_part1(&chars("1abc2")), 12);
    assert_eq!(parse_line_part1(&chars("pqr3stu8vwx")), 38);
    assert_eq!(parse_line_part1(&chars("a1b2c3d4e5f")), 15);
    assert_eq!(parse_line_part1(&chars("treb7uchet")), 77);
}

#[test]
fn digits_with_words() {
    assert_eq!(parse_line_part2(&chars("two1nine")), 29);
    assert_eq!(parse_line_part2(&chars("eightwothree")), 83);
    assert_eq!(parse_line_part2(&chars("abcone2threexyz")), 13);
    assert_eq!(parse_line_part2(&chars("xtwone3four")), 24);
    assert_eq!(parse_line_part2(&chars("4nineeightseven2")), 42);
    assert_eq!(parse_line_part2(&chars("zoneight234")), 14);
    assert_eq!(parse_line_part2(&chars("7pqrstsixteen")), 76);
}

#[test]
fn digit_parsing_positions() {
    let line = chars("xtwone3four");
    assert_eq!(try_parse_digit(&line, 0), None);
    assert_eq!(try_parse_digit(&line, 1), Some(2));
    assert_eq!(try_parse_digit(&line, 3), Some(1));
    assert_eq!(try_parse_digit(&line, 6), Some(3));
    assert_eq!(try_parse_digit(&line, 7), Some(4));
    assert_eq!(find_first_digit(&line), 2);
    assert_eq!(find_last_digit(&line), 4);
}

#[test]
fn lens_hash_values() {
    assert_eq!(hash("HASH".as_bytes()), 52);
    assert_eq!(hash("rn=1".as_bytes()), 30);
    assert_eq!(hash("cm-".as_bytes()), 253);
    assert_eq!(hash("rn".as_bytes()), 0);
    assert_eq!(hash("".as_bytes()), 0);
}

#[test]
fn race_win_counts() {
    assert_eq!(Race::new(7, 9).count_ways_to_win(), 4);
    assert_eq!(Race::new(15, 40).count_ways_to_win(), 8);
    assert_eq!(Race::new(30, 200).count_ways_to_win(), 9);
    let sample = vec![Race::new(7, 9), Race::new(15, 40), Race::new(30, 200)];
    assert_eq!(calculate_ways_to_win_product(&sample), 288);
    assert_eq!(Race::new(71530, 940200).count_ways_to_win(), 71503);
}

#[test]
fn one_mapping_splits_every_overlap_shape() {
    // Rule: source [10, 20) maps to destination [110, 120).
    let m = OneMapping {
        dest: Span { start: 110, end: 120 },
        src: Span { start: 10, end: 20 },
    };
    // Entirely before the source.
    let (t, r) = m.map(&Span { start: 0, end: 5 });
    assert_eq!(t, vec![]);
    assert_eq!(r, vec![Span { start: 0, end: 5 }]);
    // Entirely after the source.
    let (t, r) = m.map(&Span { start: 25, end: 30 });
    assert_eq!(t, vec![]);
    assert_eq!(r, vec![Span { start: 25, end: 30 }]);
    // Overlapping the source's start.
    let (t, r) = m.map(&Span { start: 5, end: 15 });
    assert_eq!(t, vec![Span { start: 110, end: 115 }]);
    assert_eq!(r, vec![Span { start: 5, end: 10 }]);
    // Overlapping the source's end.
    let (t, r) = m.map(&Span { start: 15, end: 25 });
    assert_eq!(t, vec![Span { start: 115, end: 120 }]);
    assert_eq!(r, vec![Span { start: 20, end: 25 }]);
    // Straddling the whole source.
    let (t, r) = m.map(&Span { start: 5, end: 25 });
    assert_eq!(t, vec![Span { start: 110, end: 120 }]);
    assert_eq!(r, vec![Span { start: 5, end: 10 }, Span { start: 20, end: 25 }]);
    // Entirely inside the source.
    let (t, r) = m.map(&Span { start: 12, end: 18 });
    assert_eq!(t, vec![Span { start: 112, end: 118 }]);
    assert_eq!(r, vec![]);
}

#[test]
fn mapping_set_applies_rules_to_remainder() {
    // The seed-to-soil sample stage: 98..100 -> 50..52, 50..98 -> 52..100.
    let stage = MappingSet {
        ranges: vec![
            OneMapping {
                dest: Span { start: 50, end: 52 },
                src: Span { start: 98, end: 100 },
            },
            OneMapping {
                dest: Span { start: 52, end: 100 },
                src: Span { start: 50, end: 98 },
            },
        ],
    };
    let out = stage.map(&Span { start: 79, end: 80 });
    assert_eq!(out, vec![Span { start: 81, end: 82 }]);
    let out = stage.map(&Span { start: 98, end: 99 });
    assert_eq!(out, vec![Span { start: 50, end: 51 }]);
    let out = stage.map(&Span { start: 13, end: 14 });
    assert_eq!(out, vec![Span { start: 13, end: 14 }]);
    // A wide span splits across both rules and the passthrough.
    let out = stage.map(&Span { start: 40, end: 110 });
    assert_eq!(
        out,
        vec![
            Span { start: 50, end: 52 },
            Span { start: 52, end: 100 },
            Span { start: 40, end: 50 },
            Span { start: 100, end: 110 },
        ]
    );
    let outs = stage.map_ranges(&[
        Span { start: 79, end: 80 },
        Span { start: 13, end: 14 },
    ]);
    assert_eq!(
        outs,
        vec![Span { start: 81, end: 82 }, Span { start: 13, end: 14 }]
    );
}

#[test]
fn cards_scores() {
    // Card 1 of the sample: 4 matches, 8 points.
    let c1 = Card {
        winning: vec![41, 48, 83, 86, 17],
        have: vec![83, 86, 6, 31, 17, 9, 48, 53],
        count: 1,
    };
    assert_eq!(c1.count_matches(), 4);
    assert_eq!(c1.score_part1(), 8);
    // A card without matches scores nothing.
    let c5 = Card {
        winning: vec![87, 83, 26, 28, 32],
        have: vec![88, 30, 70, 12, 93, 22, 82, 36],
        count: 1,
    };
    assert_eq!(c5.count_matches(), 0);
    assert_eq!(c5.score_part1(), 0);
    // One match is worth one point.
    let c4 = Card {
        winning: vec![41, 92, 73, 84, 69],
        have: vec![59, 84, 76, 51, 58, 5, 54, 83],
        count: 1,
    };
    assert_eq!(c4.score_part1(), 1);
    assert_eq!(part1(&[c1, c4, c5]), 9);
}

#[test]
fn series_difference_tables() {
    let s = Series(vec![0, 3, 6, 9, 12, 15]);
    assert!(!s.all_zeros());
    assert_eq!(s.deltas().0, vec![3, 3, 3, 3, 3]);
    let tower = s.deltas_until_zeros();
    assert_eq!(tower.len(), 3);
    assert_eq!(tower[2].0, vec![0, 0, 0, 0]);
    assert!(tower[2].all_zeros());
    assert_eq!(s.extrapolate_last(), 18);
    assert_eq!(s.extrapolate_first(), -3);

    let s = Series(vec![1, 3, 6, 10, 15, 21]);
    assert_eq!(s.extrapolate_last(), 28);
    assert_eq!(s.extrapolate_first(), 0);

    let s = Series(vec![10, 13, 16, 21, 30, 45]);
    assert_eq!(s.extrapolate_last(), 68);
    assert_eq!(s.extrapolate_first(), 5);

    // A constant line is its own extension on both sides.
    let s = Series(vec![7, 7, 7]);
    assert_eq!(s.extrapolate_last(), 7);
    assert_eq!(s.extrapolate_first(), 7);
}

#[test]
fn pos_moves_and_rotations() {
    let p = Pos::new(3, 4);
    assert_eq!(p.plus(&Pos::up()), Pos::new(2, 4));
    assert_eq!(p.plus(&Pos::down()), Pos::new(4, 4));
    assert_eq!(p.plus(&Pos::left()), Pos::new(3, 3));
    assert_eq!(p.plus(&Pos::right()), Pos::new(3, 5));
    assert!(p.check_bounds(&Pos::new(10, 10)));
    assert!(!p.check_bounds(&Pos::new(3, 10)));
    assert!(!Pos::new(-1, 0).check_bounds(&Pos::new(10, 10)));
    let n = p.orthogonal_neighbors();
    assert_eq!(
        n,
        [Pos::new(3, 3), Pos::new(2, 4), Pos::new(3, 5), Pos::new(4, 4)]
    );
    // Quarter turns cycle through the four directions.
    assert_eq!(Pos::right().ccw(), Pos::up());
    assert_eq!(Pos::up().ccw(), Pos::left());
    assert_eq!(Pos::left().ccw(), Pos::down());
    assert_eq!(Pos::down().ccw(), Pos::right());
    assert_eq!(Pos::right().cw(), Pos::down());
    assert_eq!(Pos::down().cw(), Pos::left());
    assert_eq!(Pos::up().opposite(), Pos::down());
    // Rotations scale with the step length.
    assert_eq!(Pos::new(0, 3).ccw(), Pos::new(-3, 0));
    assert_eq!(Pos::new(5, 0).cw(), Pos::new(0, -5));
}
