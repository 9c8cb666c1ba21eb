use commons::lab::{
    advance_guard, build_lab_from_string, calculate_guard_path, count_all_possible_guard_loops,
    count_visited, map_and_line_length_from_raw_string,
    mark_position_visited, next_guard_action, next_step_exits_lab, next_step_is_blocked,
    rotate_guard, GuardCharAccessors, Lab, NextGuardAction,
};

/// The ten by ten example lab, guard facing up in the seventh row.
fn example_lab() -> Lab {
    let rows = [
        "....#.....",
        ".........#",
        "..........",
        "..#.......",
        ".......#..",
        "..........",
        ".#..^.....",
        "........#.",
        "#.........",
        "......#...",
    ];
    build_lab_from_string(&format!("{}\n", rows.join("\n")))
}

#[test]
fn test_next_step_is_blocked() {
    let lab = build_lab_from_string("...\n.>#\n...\n");
    assert!(next_step_is_blocked(&lab, 1));
    let lab = build_lab_from_string("...\n.>.\n...\n");
    assert!(!next_step_is_blocked(&lab, 1));
    let lab = build_lab_from_string("...\n.v.\n.#.\n");
    assert!(next_step_is_blocked(
        &lab,
        lab.line_length.try_into().unwrap()
    ));
    let lab = build_lab_from_string("...\n.v.\n...\n");
    assert!(!next_step_is_blocked(
        &lab,
        lab.line_length.try_into().unwrap()
    ));
    let lab = build_lab_from_string(".#.\n.^.\n...\n");
    assert!(next_step_is_blocked(&lab, -(lab.line_length as i64)));
    let lab = build_lab_from_string("...\n.^.\n...\n");
    assert!(!next_step_is_blocked(&lab, -(lab.line_length as i64)));
    let lab = build_lab_from_string("#<.\n...\n...\n");
    assert!(next_step_is_blocked(&lab, -1));
    let lab = build_lab_from_string(".<.\n...\n...\n");
    assert!(!next_step_is_blocked(&lab, -1));
}

#[test]
fn test_next_step_exits_lab() {
    let lab = build_lab_from_string(".^.\n.##\n...\n");
    assert!(next_step_exits_lab(&lab, -(lab.line_length as i64)));
    let lab = build_lab_from_string("...\n.^#\n...\n");
    assert!(!next_step_exits_lab(&lab, -(lab.line_length as i64)));
    let lab = build_lab_from_string("..>\n.##\n...\n");
    assert!(next_step_exits_lab(&lab, 1));
    let lab = build_lab_from_string("...\n.##\n..>\n");
    assert!(next_step_exits_lab(&lab, 1));
    let lab = build_lab_from_string("...\n.##\n.>.\n");
    assert!(!next_step_exits_lab(&lab, 1));
    let lab = build_lab_from_string("<..\n.##\n...\n");
    assert!(next_step_exits_lab(&lab, -1));
    let lab = build_lab_from_string(".<.\n.##\n...\n");
    assert!(!next_step_exits_lab(&lab, -1));
    let lab = build_lab_from_string("...\n.v#\n...\n");
    assert!(!next_step_exits_lab(&lab, lab.line_length as i64));
    let lab = build_lab_from_string("...\n..#\n.v.\n");
    assert!(next_step_exits_lab(&lab, lab.line_length as i64));
}

#[test]
fn test_rotate_guard() {
    let mut lab = example_lab();
    for c in ['^', '>', 'v', '<'].iter() {
        match c {
            '>' => {
                *lab.get_guard_char_reference() = *c;
                rotate_guard(&mut lab);
                assert_eq!(lab.get_guard_character(), 'v');
            }
            '<' => {
                *lab.get_guard_char_reference() = *c;
                rotate_guard(&mut lab);
                assert_eq!(lab.get_guard_character(), '^');
            }
            '^' => {
                *lab.get_guard_char_reference() = *c;
                rotate_guard(&mut lab);
                assert_eq!(lab.get_guard_character(), '>');
            }
            'v' => {
                *lab.get_guard_char_reference() = *c;
                rotate_guard(&mut lab);
                assert_eq!(lab.get_guard_character(), '<');
            }
            _ => unreachable!("Impossible guard character."),
        }
    }
}

#[test]
fn test_advance_guard() {
    for c in ['^', '>', 'v', '<'].iter() {
        let mut lab = example_lab();
        match c {
            '^' => {
                *lab.get_guard_char_reference() = *c;
                let expected_new_pos = lab.guard_position - lab.line_length;
                let old_pos = advance_guard(&mut lab);
                assert_eq!(lab.map[expected_new_pos], '^');
                assert_eq!(lab.map[old_pos], '^');
            }
            '>' => {
                *lab.get_guard_char_reference() = *c;
                let expected_new_pos = lab.guard_position + 1;
                let old_pos = advance_guard(&mut lab);
                assert_eq!(lab.map[expected_new_pos], '>');
                assert_eq!(lab.map[old_pos], '>');
            }
            '<' => {
                *lab.get_guard_char_reference() = *c;
                let expected_new_pos = lab.guard_position - 1;
                let old_pos = advance_guard(&mut lab);
                assert_eq!(lab.map[expected_new_pos], '<');
                assert_eq!(lab.map[old_pos], '<');
            }
            'v' => {
                *lab.get_guard_char_reference() = *c;
                let expected_new_pos = lab.guard_position + lab.line_length;
                let old_pos = advance_guard(&mut lab);
                assert_eq!(lab.map[expected_new_pos], 'v');
                assert_eq!(lab.map[old_pos], 'v');
            }
            _ => unreachable!("Impossible guard character."),
        }
    }
}

#[test]
fn test_mark_position_visited() {
    let mut lab = example_lab();
    mark_position_visited(&mut lab, 0);
    assert_eq!(*lab.map.first().unwrap(), 'X');
}

#[test]
fn raw_map_drops_line_breaks() {
    let (map, line_length) = map_and_line_length_from_raw_string("ab\r\ncd\n");
    assert_eq!(line_length, 2);
    assert_eq!(map, vec!['a', 'b', '\r', 'c', 'd']);
    let (map, line_length) = map_and_line_length_from_raw_string("abc");
    assert_eq!(line_length, 3);
    assert_eq!(map.len(), 3);
}

#[test]
fn example_lab_starts_guard_facing_up() {
    let lab = example_lab();
    assert_eq!(lab.guard_position, 64);
    assert_eq!(lab.starting_position, 64);
    assert_eq!(lab.starting_direction, '^');
    assert_eq!(lab.line_length, 10);
    assert_eq!(lab.get_next_index(-10), 54);
}

#[test]
fn next_action_follows_the_cell_ahead() {
    let lab = build_lab_from_string("...\n.>#\n...\n");
    assert_eq!(next_guard_action(&lab), NextGuardAction::Turn);
    let lab = build_lab_from_string("...\n.>.\n...\n");
    assert_eq!(next_guard_action(&lab), NextGuardAction::Advance);
    let lab = build_lab_from_string(".^.\n...\n...\n");
    assert_eq!(next_guard_action(&lab), NextGuardAction::ExitLab);
}

#[test]
fn reset_clears_marks_and_restores_guard() {
    let mut lab = build_lab_from_string("...\n.^.\n...\n");
    advance_guard(&mut lab);
    mark_position_visited(&mut lab, 4);
    lab.reset_to_starting_state();
    assert_eq!(lab.guard_position, 4);
    assert_eq!(lab.map[4], '^');
    assert_eq!(lab.map[1], '^');
    assert_eq!(lab.guard_path, vec![(4, '^')]);
    let mut lab = build_lab_from_string("X..\n.^.\n...\n");
    lab.reset_to_starting_state();
    assert_eq!(lab.map[0], '.');
}

#[test]
fn example_walk_visits_forty_one_cells() {
    let mut lab = example_lab();
    assert!(!calculate_guard_path(&mut lab));
    assert_eq!(count_visited(&lab), 41);
    assert_eq!(lab.map[lab.guard_position], 'X');
}

#[test]
fn example_has_six_loop_positions() {
    let mut lab = example_lab();
    calculate_guard_path(&mut lab);
    assert_eq!(count_all_possible_guard_loops(&lab), 6);
}

#[test]
fn boxed_in_guard_counts_as_a_loop() {
    let mut lab = build_lab_from_string(".#.\n#^#\n.#.\n");
    assert!(calculate_guard_path(&mut lab));
}

#[test]
fn duplicate_copies_every_field() {
    let lab = example_lab();
    let copy = lab.duplicate();
    assert_eq!(copy.map, lab.map);
    assert_eq!(copy.guard_position, lab.guard_position);
    assert_eq!(copy.guard_path, lab.guard_path);
}
