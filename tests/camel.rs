use commons::camel::{build_hand, compare_hands, get_hand_type, total_winnings, HandType};
use std::cmp::Ordering;

#[test]
fn hand_types_follow_repeats() {
    assert_eq!(get_hand_type("AAAAA"), HandType::FiveKind);
    assert_eq!(get_hand_type("AA8AA"), HandType::FourKind);
    assert_eq!(get_hand_type("23332"), HandType::FullHouse);
    assert_eq!(get_hand_type("TTT98"), HandType::ThreeKind);
    assert_eq!(get_hand_type("23432"), HandType::TwoPair);
    assert_eq!(get_hand_type("A23A4"), HandType::Pair);
    assert_eq!(get_hand_type("23456"), HandType::High);
}

#[test]
fn hands_read_cards_and_bid() {
    let h = build_hand("KTJJT 220").unwrap();
    assert_eq!(h.cards, vec![13, 10, 1, 1, 10]);
    assert_eq!(h.bid, 220);
    assert_eq!(h.hand_type, HandType::TwoPair);
    assert!(build_hand("KXJJT 220").is_none());
    assert!(build_hand("KTJJT bid").is_none());
    assert_eq!(build_hand("AAAAA -3").unwrap().bid, -3);
}

#[test]
fn hands_rank_by_type_then_cards() {
    let a = build_hand("KK677 28").unwrap();
    let b = build_hand("KTJJT 220").unwrap();
    let c = build_hand("32T3K 765").unwrap();
    assert_eq!(compare_hands(&b, &a), Ordering::Less);
    assert_eq!(compare_hands(&a, &c), Ordering::Greater);
    assert_eq!(compare_hands(&a, &a), Ordering::Equal);
}

#[test]
fn example_hands_win_6440() {
    let mut hands: Vec<_> = ["32T3K 765", "T55J5 684", "KK677 28", "KTJJT 220", "QQQJA 483"]
        .iter()
        .map(|s| build_hand(s).unwrap())
        .collect();
    hands.sort_by(compare_hands);
    assert_eq!(total_winnings(&hands), Some(6440));
}
