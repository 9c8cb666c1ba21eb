use commons::cards::{count_total_cards, eval_card, parse_cards, Card};

fn example_lines() -> Vec<String> {
    [
        "Card 1: 41 48 83 86 17 | 83 86  6 31 17  9 48 53",
        "Card 2: 13 32 20 16 61 | 61 30 68 82 17 32 24 19",
        "Card 3:  1 21 53 59 44 | 69 82 63 72 16 21 14  1",
        "Card 4: 41 92 73 84 69 | 59 84 76 51 58  5 54 83",
        "Card 5: 87 83 26 28 32 | 88 30 70 12 93 22 82 36",
        "Card 6: 31 18 13 56 72 | 74 77 10 23 35 67 36 11",
    ]
    .iter()
    .map(|s| s.to_string())
    .collect()
}

#[test]
fn cards_are_read_with_one_copy_each() {
    let (cards, ids) = parse_cards(&example_lines()).unwrap();
    assert_eq!(ids, vec![1, 2, 3, 4, 5, 6]);
    let matches: Vec<u32> = cards.iter().map(|c| c.1.num_matches).collect();
    assert_eq!(matches, vec![4, 2, 2, 1, 0, 0]);
    assert!(cards.iter().all(|c| c.1.num_copies == 1));
}

#[test]
fn example_ends_with_thirty_cards() {
    let dat = parse_cards(&example_lines()).unwrap();
    assert_eq!(count_total_cards(dat), Some(30));
}

#[test]
fn winning_a_missing_card_fails() {
    let mut cards = vec![(1, Card { card_str: "c".to_string(), num_matches: 1, num_copies: 1 })];
    assert!(!eval_card(1, &mut cards));
    let mut cards = vec![
        (1, Card { card_str: "a".to_string(), num_matches: 1, num_copies: 1 }),
        (2, Card { card_str: "b".to_string(), num_matches: 0, num_copies: 1 }),
    ];
    assert!(eval_card(1, &mut cards));
    assert_eq!(cards[1].1.num_copies, 2);
}
