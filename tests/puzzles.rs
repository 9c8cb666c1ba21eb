use commons::calibration::{get_digit_sum, is_digit, replace_written_numbers};
use commons::games::{
    card_id, matches_for_card, parse_game, points_for_card, points_for_matches, Draw, Game,
};
use commons::matching::{match_mul_operands, sum_of_products};
use commons::races::{beats_record, race_from_lines, wins_between_roots};
use commons::reports::{
    generate_dampened_reports, get_level_vec_from_report, is_report_safe,
    is_report_tolerably_safe, level_pair_is_safe,
};
use commons::seeds::{convert_seeds, overlap_and_exclusive};

#[test]
fn digits_are_recognised() {
    assert!(is_digit('0'));
    assert!(is_digit('9'));
    assert!(!is_digit('a'));
}

#[test]
fn digit_sum_takes_first_and_last() {
    assert_eq!(get_digit_sum(&"1abc2".to_string()), 12);
    assert_eq!(get_digit_sum(&"a1b2c3d4e5f".to_string()), 15);
    assert_eq!(get_digit_sum(&"treb7uchet".to_string()), 77);
    assert_eq!(get_digit_sum(&"none".to_string()), 0);
}

#[test]
fn game_is_valid_within_the_bag() {
    let ok = Game {
        id: 3,
        draws: vec![Draw { red: 12, green: 13, blue: 14 }, Draw { red: 0, green: 1, blue: 2 }],
    };
    assert_eq!(ok.return_id_if_valid(), 3);
    let too_many = Game { id: 4, draws: vec![Draw { red: 13, green: 0, blue: 0 }] };
    assert_eq!(too_many.return_id_if_valid(), 0);
}

#[test]
fn points_double_with_each_match() {
    assert_eq!(points_for_matches(0), 0);
    assert_eq!(points_for_matches(1), 1);
    assert_eq!(points_for_matches(4), 8);
    assert_eq!(points_for_matches(31), 1 << 30);
}

#[test]
fn multiplications_are_found_and_summed() {
    let ops = match_mul_operands(
        "xmul(2,4)%&mul[3,7]!@^do_not_mul(5,5)+mul(32,64]then(mul(11,8)mul(8,5))",
    )
    .unwrap();
    assert_eq!(ops, vec![(2, 4), (5, 5), (11, 8), (8, 5)]);
    assert_eq!(sum_of_products(&ops), Some(161));
    assert_eq!(sum_of_products(&vec![(65536, 65536)]), None);
}

#[test]
fn level_pairs_report_direction_and_size() {
    assert_eq!(level_pair_is_safe(1, 3), (1, true));
    assert_eq!(level_pair_is_safe(5, 5), (0, false));
    assert_eq!(level_pair_is_safe(9, 4), (-1, false));
}

#[test]
fn reports_are_safe_when_steady() {
    assert!(is_report_safe(&vec![7, 6, 4, 2, 1]));
    assert!(!is_report_safe(&vec![1, 2, 7, 8, 9]));
    assert!(!is_report_safe(&vec![1, 3, 2, 4, 5]));
    assert!(is_report_tolerably_safe(&vec![1, 3, 2, 4, 5]));
    assert!(!is_report_tolerably_safe(&vec![9, 7, 6, 2, 1]));
}

#[test]
fn report_levels_are_read_between_white_space() {
    assert_eq!(get_level_vec_from_report("  7 6\t4 2 1 "), Some(vec![7, 6, 4, 2, 1]));
    assert_eq!(get_level_vec_from_report("7 x"), None);
    assert_eq!(get_level_vec_from_report(""), Some(vec![]));
}

#[test]
fn dampened_reports_leave_out_each_level() {
    assert_eq!(
        generate_dampened_reports(&vec![1, 2, 3]),
        vec![vec![2, 3], vec![1, 3], vec![1, 2]]
    );
}

#[test]
fn ranges_split_where_they_stick_out() {
    assert_eq!(overlap_and_exclusive(&(5..=7), &(0..=10), 100), (Some(105..=107), None));
    assert_eq!(overlap_and_exclusive(&(5..=15), &(0..=10), 100), (Some(105..=110), Some(11..=15)));
    assert_eq!(overlap_and_exclusive(&(-5..=5), &(0..=10), 100), (Some(100..=105), Some(-5..=-1)));
    assert_eq!(overlap_and_exclusive(&(20..=30), &(0..=10), 100), (None, None));
}

#[test]
fn race_wins_lie_between_the_roots() {
    assert!(beats_record(7, 9, 2));
    assert!(!beats_record(7, 9, 1));
    assert_eq!(wins_between_roots(7, 9, 2, 5), 4);
    assert_eq!(wins_between_roots(30, 200, 10, 20), 9);
}

#[test]
fn game_lines_are_read_by_draw() {
    let g = parse_game("Game 1: 3 blue, 4 red; 1 red, 2 green, 6 blue; 2 green").unwrap();
    assert_eq!(g.id, 1);
    assert_eq!(
        g.draws,
        vec![
            Draw { red: 4, green: 0, blue: 3 },
            Draw { red: 1, green: 2, blue: 6 },
            Draw { red: 0, green: 2, blue: 0 },
        ]
    );
    assert_eq!(g.return_id_if_valid(), 1);
    let g = parse_game("Game 3: 8 green, 6 blue, 20 red; 5 blue, 4 red, 13 green").unwrap();
    assert_eq!(g.return_id_if_valid(), 0);
    assert!(parse_game("Game 4: 3 purple").is_none());
    assert!(parse_game("no id here").is_none());
}

#[test]
fn card_lines_count_winning_numbers() {
    let line = "Card 1: 41 48 83 86 17 | 83 86  6 31 17  9 48 53";
    assert_eq!(card_id(line), Some(1));
    assert_eq!(matches_for_card(line), Some(4));
    assert_eq!(points_for_card(line), Some(8));
    let none = "Card 5: 87 83 26 28 32 | 88 30 70 12 93 22 82 36";
    assert_eq!(points_for_card(none), Some(0));
    assert_eq!(matches_for_card("Card 6: 1 2 3"), None);
}

#[test]
fn written_numbers_become_digits() {
    assert_eq!(replace_written_numbers("two1nine".to_string()), "219");
    assert_eq!(replace_written_numbers("eightwothree".to_string()), "8wo3");
    assert_eq!(replace_written_numbers("abcone2threexyz".to_string()), "abc123xyz");
    assert_eq!(replace_written_numbers("1abc2".to_string()), "1abc2");
    assert_eq!(replace_written_numbers("six".to_string()), "6");
    assert_eq!(get_digit_sum(&replace_written_numbers("two1nine".to_string())), 29);
}

fn sections(v: &[&str]) -> Vec<String> {
    v.iter().map(|s| s.to_string()).collect()
}

#[test]
fn seeds_split_where_a_map_covers_part_of_a_range() {
    assert_eq!(convert_seeds(&sections(&["seeds", " 10 5\n\nx map", "\n100 8 4\n"])), Some(12));
    assert_eq!(convert_seeds(&sections(&["seeds", " 10 5\n\nx map", "\n200 0 100\n"])), Some(210));
    assert_eq!(convert_seeds(&sections(&["seeds", " 5 10\n\nx map", "\n100 10 10\n"])), Some(5));
    assert_eq!(convert_seeds(&sections(&["seeds", " 5 10"])), Some(5));
    assert_eq!(convert_seeds(&sections(&["seeds"])), None);
    assert_eq!(convert_seeds(&sections(&["seeds", " 5 x"])), None);
}

#[test]
fn race_lines_run_their_digits_together() {
    assert_eq!(
        race_from_lines("Time:      7  15   30", "Distance:  9  40  200"),
        Some((71530, 940200))
    );
    assert_eq!(race_from_lines("Time: 0 5", "Distance: 1 2"), Some((5, 12)));
    assert_eq!(race_from_lines("Time: 7 15", "Distance: 9"), None);
    assert_eq!(race_from_lines("Time: 99999999999 99999999999", "Distance: 1 1"), None);
}
