use commons::word_search::{
    add_new_part_one_sequence_if_untested, build_board_from_lines, evaluate_seq_for_match,
    evaluate_words, generate_part_one_sequence, generate_part_two_sequence,
    generate_potential_matches_part_one, InBounds, IndexSequencePartOne, IndexSequencePartTwo,
    WordSearchBoard, XmasSequencePair,
};
use std::collections::HashSet;

fn board_from_rows(rows: &[&str]) -> WordSearchBoard {
    let rows: Vec<String> = rows.iter().map(|r| r.to_string()).collect();
    build_board_from_lines(&rows)
}

/// The ten by ten example grid.
fn example_board() -> WordSearchBoard {
    board_from_rows(&[
        "MMMSXXMASM",
        "MSAMXMSMSA",
        "AMXSXMAAMM",
        "MSAMASMSMX",
        "XMASAMXAMM",
        "XXAMMXXAMA",
        "SMSMSASXSS",
        "SAXAMASAAA",
        "MAMMMXMMMM",
        "MXMXAXMASX",
    ])
}

/// A four by four grid with the word along the top row and up a diagonal.
fn mini_board() -> WordSearchBoard {
    board_from_rows(&["XMAS", "..A.", ".M..", "X..."])
}

fn as_set(v: Vec<IndexSequencePartOne>) -> HashSet<IndexSequencePartOne> {
    let n = v.len();
    let s: HashSet<IndexSequencePartOne> = v.into_iter().collect();
    assert_eq!(s.len(), n);
    s
}

#[test]
fn test_generate_sequence() {
    let base = 4;
    let test_positive_delta = 2;
    assert_eq!(
        generate_part_one_sequence(base, test_positive_delta),
        IndexSequencePartOne(4, 6, 8, 10)
    );
    let test_negative_delta = -3;
    assert_eq!(
        generate_part_one_sequence(base, test_negative_delta),
        IndexSequencePartOne(4, 1, -2, -5)
    );
}

#[test]
fn test_add_new_sequence_if_untested() {
    let mut board = example_board();
    let new_seq = IndexSequencePartOne(1, 2, 3, 4);
    let mut sequences_to_test: Vec<IndexSequencePartOne> = Vec::new();
    assert!(add_new_part_one_sequence_if_untested(
        new_seq,
        &board,
        &mut sequences_to_test
    ));
    assert!(sequences_to_test.contains(&new_seq));

    board.tested_sequences_part_one.push(new_seq);
    assert!(!add_new_part_one_sequence_if_untested(
        new_seq,
        &board,
        &mut sequences_to_test
    ));
}

#[test]
fn test_is_vertical_sequence_in_bound() {
    let board = example_board();
    assert!(!IndexSequencePartOne(-10, 0, 11, 21).is_vertical_in_bounds(&board));
    assert!(!generate_part_one_sequence(80, 10).is_vertical_in_bounds(&board));
    for start_index in 0..board.board_line_length {
        let seq = generate_part_one_sequence(start_index, board.board_line_length);
        assert!(seq.is_vertical_in_bounds(&board));
    }
}

#[test]
fn test_is_horizontal_sequence_in_bound() {
    let board = example_board();
    assert!(!generate_part_one_sequence(board.board_line_length + 1, -1)
        .is_horizontal_in_bounds(&board));
    assert!(generate_part_one_sequence(5, 1).is_horizontal_in_bounds(&board));
}

#[test]
fn test_is_diagonal_sequence_in_bound() {
    let board = example_board();
    assert!(generate_part_one_sequence(0, board.board_line_length + 1)
        .is_diagonal_in_bounds(&board));
    assert!(!generate_part_one_sequence(
        board.board_line_length - 3,
        board.board_line_length + 1
    )
    .is_diagonal_in_bounds(&board));
    let seq = generate_part_one_sequence(
        board.board.len() as i32 - board.board_line_length + 2,
        -board.board_line_length - 1,
    );
    assert!(!seq.is_diagonal_in_bounds(&board));
    let seq =
        generate_part_one_sequence(board.board.len() as i32 - 3, -board.board_line_length - 1);
    assert!(seq.is_diagonal_in_bounds(&board));
    assert!(!generate_part_one_sequence(
        board.board_line_length + 5,
        -board.board_line_length - 1
    )
    .is_diagonal_in_bounds(&board));
    assert!(!generate_part_one_sequence(
        board.board.len() as i32 - (board.board_line_length * 3) + 5,
        board.board_line_length + 1
    )
    .is_diagonal_in_bounds(&board));
}

#[test]
fn test_generate_potential_matches() {
    let board = mini_board();

    let potential_matches = generate_potential_matches_part_one(0, &board);
    assert_eq!(
        as_set(potential_matches),
        HashSet::from([
            IndexSequencePartOne(3, 2, 1, 0),
            IndexSequencePartOne(0, 1, 2, 3),
            IndexSequencePartOne(0, 4, 8, 12),
            IndexSequencePartOne(0, 5, 10, 15),
            IndexSequencePartOne(12, 8, 4, 0),
            IndexSequencePartOne(15, 10, 5, 0),
        ])
    );
    let potential_matches = generate_potential_matches_part_one(12, &board);
    assert_eq!(
        as_set(potential_matches),
        HashSet::from([
            IndexSequencePartOne(12, 8, 4, 0),
            IndexSequencePartOne(12, 13, 14, 15),
            IndexSequencePartOne(0, 4, 8, 12),
            IndexSequencePartOne(15, 14, 13, 12),
            IndexSequencePartOne(12, 9, 6, 3),
            IndexSequencePartOne(3, 6, 9, 12),
        ])
    );
}

#[test]
fn test_evaluate_seq_for_match() {
    let board = mini_board();
    assert!(evaluate_seq_for_match(
        &IndexSequencePartOne(0, 1, 2, 3),
        &board
    ));
    assert!(evaluate_seq_for_match(
        &IndexSequencePartOne(12, 9, 6, 3),
        &board
    ));
    assert!(!evaluate_seq_for_match(
        &IndexSequencePartOne(0, 4, 8, 12),
        &board
    ));
}

#[test]
fn test_evaluate_words() {
    let mut board = mini_board();
    let potential_matches = vec![
        IndexSequencePartOne(0, 1, 2, 3),
        IndexSequencePartOne(12, 9, 6, 3),
        IndexSequencePartOne(0, 4, 8, 12),
    ];
    evaluate_words(potential_matches, &mut board);
    assert_eq!(
        as_set(board.matched_sequences_part_one.clone()),
        HashSet::from([
            IndexSequencePartOne(0, 1, 2, 3),
            IndexSequencePartOne(12, 9, 6, 3),
        ]),
    );
    assert_eq!(
        as_set(board.tested_sequences_part_one.clone()),
        HashSet::from([
            IndexSequencePartOne(0, 1, 2, 3),
            IndexSequencePartOne(12, 9, 6, 3),
            IndexSequencePartOne(0, 4, 8, 12)
        ]),
    );
}

#[test]
fn test_is_vertical_sequence_in_bound_part_two() {
    let board = example_board();
    assert!(!XmasSequencePair(
        generate_part_two_sequence(80, 10),
        generate_part_two_sequence(-10, 5)
    )
    .is_vertical_in_bounds(&board));
    assert!(!XmasSequencePair(
        generate_part_two_sequence(8, -5),
        generate_part_two_sequence(10, board.board_line_length)
    )
    .is_vertical_in_bounds(&board));
    for start_index in 0..board.board_line_length {
        assert!(XmasSequencePair(
            generate_part_two_sequence(start_index, board.board_line_length),
            generate_part_two_sequence(start_index + 1, board.board_line_length)
        )
        .is_vertical_in_bounds(&board));
    }
}

#[test]
fn test_is_diagonal_sequence_in_bound_part_two() {
    let board = example_board();
    assert!(!XmasSequencePair(
        generate_part_two_sequence(5, -board.board_line_length - 1),
        generate_part_two_sequence(0, board.board_line_length + 1),
    )
    .is_diagonal_in_bounds(&board));
    assert!(!XmasSequencePair(
        generate_part_two_sequence(0, board.board_line_length + 1),
        generate_part_two_sequence(90, board.board_line_length + 1),
    )
    .is_diagonal_in_bounds(&board));
    assert!(!XmasSequencePair(
        generate_part_two_sequence(0, 1),
        generate_part_two_sequence(board.board_line_length - 1, 1),
    )
    .is_diagonal_in_bounds(&board));
    assert!(!XmasSequencePair(
        generate_part_two_sequence(board.board_line_length, -1),
        generate_part_two_sequence(board.board_line_length, 1),
    )
    .is_diagonal_in_bounds(&board));
    assert!(!XmasSequencePair(
        generate_part_two_sequence(board.board_line_length + 1, -1),
        generate_part_two_sequence(board.board_line_length, 1),
    )
    .is_diagonal_in_bounds(&board));
    assert!(!XmasSequencePair(
        generate_part_two_sequence(2 * board.board_line_length - 2, 1),
        generate_part_two_sequence(board.board_line_length, 1),
    )
    .is_diagonal_in_bounds(&board));
}

#[test]
fn board_is_built_row_after_row() {
    let board = board_from_rows(&["ab", "cd", "ef"]);
    assert_eq!(board.board, vec!['a', 'b', 'c', 'd', 'e', 'f']);
    assert_eq!(board.board_line_length, 2);
    assert!(board.matched_sequences_part_one.is_empty());
}

#[test]
fn part_two_sequence_steps_from_base() {
    assert_eq!(generate_part_two_sequence(7, -3), IndexSequencePartTwo(7, 4, 1));
    assert_eq!(IndexSequencePartTwo(7, 4, 1).as_array(), [7, 4, 1]);
    assert_eq!(IndexSequencePartOne(1, 2, 3, 4).as_array(), [1, 2, 3, 4]);
}

#[test]
fn tested_runs_are_not_proposed_again() {
    let mut board = mini_board();
    board.tested_sequences_part_one.push(IndexSequencePartOne(0, 1, 2, 3));
    let potential = as_set(generate_potential_matches_part_one(0, &board));
    assert_eq!(potential.len(), 5);
    assert!(!potential.contains(&IndexSequencePartOne(0, 1, 2, 3)));
}

#[test]
fn example_grid_holds_eighteen_words() {
    let mut board = example_board();
    for idx in 0..board.board.len() as i32 {
        let pot = generate_potential_matches_part_one(idx, &board);
        evaluate_words(pot, &mut board);
    }
    assert_eq!(board.matched_sequences_part_one.len(), 18);
}

#[test]
fn horizontal_pair_must_stay_in_rows() {
    let board = example_board();
    assert!(XmasSequencePair(
        generate_part_two_sequence(0, 1),
        generate_part_two_sequence(12, 1)
    )
    .is_horizontal_in_bounds(&board));
    assert!(!XmasSequencePair(
        generate_part_two_sequence(0, 1),
        generate_part_two_sequence(8, 1)
    )
    .is_horizontal_in_bounds(&board));
}
