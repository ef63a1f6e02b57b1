use adv2023::hands::cmp_cards;
use adv2023::hands::cmp_hands;
use adv2023::hands::determine_type_by_counts;
use adv2023::hands::upgrade_with_joker;
use adv2023::hands::Hand;
use adv2023::hands::HandType;
use std::cmp::Ordering;

fn hand(s: &str) -> Hand {
    let cs: Vec<char> = s.chars().collect();
    Hand { cards: [cs[0], cs[1], cs[2], cs[3], cs[4]] }
}

#[test]
fn card_comparisons() {
    assert_eq!(cmp_cards('A', 'K', false), Ordering::Greater);
    assert_eq!(cmp_cards('2', 'K', false), Ordering::Less);
    assert_eq!(cmp_cards('T', 'T', false), Ordering::Equal);
    // Without jokers J beats T; with jokers it loses to everything.
    assert_eq!(cmp_cards('J', 'T', false), Ordering::Greater);
    assert_eq!(cmp_cards('J', 'T', true), Ordering::Less);
    assert_eq!(cmp_cards('J', '2', true), Ordering::Less);
}

#[test]
fn hand_classification() {
    assert_eq!(determine_type_by_counts(&"AAAAA".chars().collect::<Vec<_>>()), HandType::FiveOfAKind);
    assert_eq!(determine_type_by_counts(&"AA8AA".chars().collect::<Vec<_>>()), HandType::FourOfAKind);
    assert_eq!(determine_type_by_counts(&"23332".chars().collect::<Vec<_>>()), HandType::FullHouse);
    assert_eq!(determine_type_by_counts(&"TTT98".chars().collect::<Vec<_>>()), HandType::ThreeOfAKind);
    assert_eq!(determine_type_by_counts(&"23432".chars().collect::<Vec<_>>()), HandType::TwoPair);
    assert_eq!(determine_type_by_counts(&"A23A4".chars().collect::<Vec<_>>()), HandType::OnePair);
    assert_eq!(determine_type_by_counts(&"23456".chars().collect::<Vec<_>>()), HandType::HighCard);
    // Short hands, as left after removing jokers.
    assert_eq!(determine_type_by_counts(&"55".chars().collect::<Vec<_>>()), HandType::OnePair);
    assert_eq!(determine_type_by_counts(&"7".chars().collect::<Vec<_>>()), HandType::HighCard);
}

#[test]
fn joker_upgrades() {
    assert_eq!(upgrade_with_joker(HandType::HighCard), HandType::OnePair);
    assert_eq!(upgrade_with_joker(HandType::OnePair), HandType::ThreeOfAKind);
    assert_eq!(upgrade_with_joker(HandType::TwoPair), HandType::FullHouse);
    assert_eq!(upgrade_with_joker(HandType::ThreeOfAKind), HandType::FourOfAKind);
    assert_eq!(upgrade_with_joker(HandType::FourOfAKind), HandType::FiveOfAKind);
}

#[test]
fn joker_hand_types() {
    assert_eq!(hand("32T3K").hand_type(false), HandType::OnePair);
    assert_eq!(hand("32T3K").hand_type(true), HandType::OnePair);
    assert_eq!(hand("T55J5").hand_type(false), HandType::ThreeOfAKind);
    assert_eq!(hand("T55J5").hand_type(true), HandType::FourOfAKind);
    assert_eq!(hand("KK677").hand_type(true), HandType::TwoPair);
    assert_eq!(hand("KTJJT").hand_type(false), HandType::TwoPair);
    assert_eq!(hand("KTJJT").hand_type(true), HandType::FourOfAKind);
    assert_eq!(hand("QQQJA").hand_type(true), HandType::FourOfAKind);
    assert_eq!(hand("JJJJJ").hand_type(true), HandType::FiveOfAKind);
    assert_eq!(hand("JJJJ2").hand_type(true), HandType::FiveOfAKind);
    assert_eq!(hand("2345J").hand_type(true), HandType::OnePair);
}

#[test]
fn hand_comparisons() {
    // Stronger type wins regardless of card strength.
    assert_eq!(cmp_hands(&hand("22233"), &hand("AAKKQ"), false), Ordering::Greater);
    // Same type: the first differing card decides.
    assert_eq!(cmp_hands(&hand("KK677"), &hand("KTJJT"), false), Ordering::Greater);
    assert_eq!(cmp_hands(&hand("T55J5"), &hand("QQQJA"), false), Ordering::Less);
    // Under joker rules KTJJT outranks QQQJA only by type, and J loses ties.
    assert_eq!(cmp_hands(&hand("QQQJA"), &hand("T55J5"), true), Ordering::Greater);
    assert_eq!(cmp_hands(&hand("JKKK2"), &hand("QQQQ2"), true), Ordering::Less);
}
