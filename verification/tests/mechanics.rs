use quoridor_policy::q_bit_repr::{WALL_HORIZONTAL, WALL_VERTICAL};
use quoridor_policy::q_game_mechanics::QGameMechanics;
use quoridor_policy::text::{parse_decimal, push_decimal, to_decimal};
use quoridor_policy::word_repr::WordRepr;

/// A state with the pawns where they are wanted and player 0 to act.
fn with_pawns(mechanics: &QGameMechanics, first: (usize, usize), second: (usize, usize)) -> u64 {
    let mut data = mechanics.create_initial_state();
    mechanics.repr().set_player_position(&mut data, 0, first.0, first.1);
    mechanics.repr().set_player_position(&mut data, 1, second.0, second.1);
    data
}

#[test]
fn initial_state() {
    let mechanics = QGameMechanics::new(3, 2, 10);
    let data = mechanics.create_initial_state();
    let repr = mechanics.repr();
    assert_eq!(repr.get_player_position(data, 0), (0, 1));
    assert_eq!(repr.get_player_position(data, 1), (2, 1));
    assert_eq!(repr.get_walls_remaining(data, 0), 2);
    assert_eq!(repr.get_walls_remaining(data, 1), 2);
    assert_eq!(repr.get_current_player(data), 0);
    assert_eq!(repr.get_completed_steps(data), 0);
    // Eight walls, then 4 + 4 bits of positions and 2 + 2 bits of walls.
    assert_eq!(data, 1 << 8 | 7 << 12 | 2 << 16 | 2 << 18);
}

#[test]
fn parameters_that_fit() {
    assert!(QGameMechanics::fits(3, 0, 10));
    assert!(QGameMechanics::fits(5, 2, 50));
    // The walls of a full-size board alone need more than one word.
    assert!(!QGameMechanics::fits(9, 10, 200));
    assert!(!QGameMechanics::fits(0, 0, 10));
}

#[test]
fn moves_in_the_open() {
    let mechanics = QGameMechanics::new(5, 0, 20);
    let data = with_pawns(&mechanics, (2, 2), (4, 4));
    assert_eq!(mechanics.get_valid_moves(data), vec![(1, 2), (3, 2), (2, 1), (2, 3)]);
    let data = with_pawns(&mechanics, (0, 0), (4, 4));
    assert_eq!(mechanics.get_valid_moves(data), vec![(1, 0), (0, 1)]);
}

#[test]
fn moves_over_the_opponent() {
    let mechanics = QGameMechanics::new(5, 2, 20);
    let mut data = with_pawns(&mechanics, (2, 2), (3, 2));
    assert_eq!(mechanics.get_valid_moves(data), vec![(1, 2), (4, 2), (2, 1), (2, 3)]);
    // With a wall behind the opponent, to their sides.
    mechanics.repr().set_wall(&mut data, 3, 2, WALL_HORIZONTAL, true);
    assert_eq!(mechanics.get_valid_moves(data), vec![(1, 2), (3, 1), (3, 3), (2, 1), (2, 3)]);
    // With a wall at one side too, to the other side only.
    mechanics.repr().set_wall(&mut data, 2, 2, WALL_VERTICAL, true);
    assert_eq!(mechanics.get_valid_moves(data), vec![(1, 2), (3, 1), (2, 1)]);
    // At the edge of the board, to their sides.
    let data = with_pawns(&mechanics, (2, 3), (2, 4));
    assert_eq!(mechanics.get_valid_moves(data), vec![(1, 3), (3, 3), (2, 2), (1, 4), (3, 4)]);
}

#[test]
fn moves_along_walls() {
    let mechanics = QGameMechanics::new(5, 2, 20);
    let mut data = with_pawns(&mechanics, (2, 2), (4, 4));
    mechanics.repr().set_wall(&mut data, 1, 1, WALL_HORIZONTAL, true);
    assert_eq!(mechanics.get_valid_moves(data), vec![(3, 2), (2, 1), (2, 3)]);
    mechanics.repr().set_wall(&mut data, 2, 1, WALL_VERTICAL, true);
    assert_eq!(mechanics.get_valid_moves(data), vec![(3, 2), (2, 3)]);
}

#[test]
fn wall_placements() {
    let mechanics = QGameMechanics::new(3, 1, 10);
    let mut data = mechanics.create_initial_state();
    let before = data;
    let walls = mechanics.get_valid_wall_placements(&mut data);
    assert_eq!(data, before);
    assert_eq!(walls.len(), 8);

    // A wall bars its own place, the crossing one and what overlaps it.
    mechanics.execute_wall_placement(&mut data, 0, 0, 0, WALL_HORIZONTAL);
    assert_eq!(mechanics.repr().get_walls_remaining(data, 0), 0);
    mechanics.switch_player(&mut data);
    let walls = mechanics.get_valid_wall_placements(&mut data);
    assert!(!walls.contains(&(0, 0, WALL_HORIZONTAL)));
    assert!(!walls.contains(&(0, 0, WALL_VERTICAL)));
    assert!(!walls.contains(&(0, 1, WALL_HORIZONTAL)));
    assert!(walls.contains(&(1, 0, WALL_HORIZONTAL)));
    // This one would cut player 0 off from the last column, where the only way
    // down is left.
    assert!(!walls.contains(&(0, 1, WALL_VERTICAL)));
}

#[test]
fn no_walls_left_no_placements() {
    let mechanics = QGameMechanics::new(3, 0, 10);
    let mut data = mechanics.create_initial_state();
    assert!(mechanics.get_valid_wall_placements(&mut data).is_empty());
}

#[test]
fn the_turn_passes_and_the_step_counts() {
    let mechanics = QGameMechanics::new(3, 0, 10);
    let mut data = mechanics.create_initial_state();
    mechanics.execute_move(&mut data, 0, 1, 1);
    assert_eq!(mechanics.repr().get_player_position(data, 0), (1, 1));
    assert_eq!(mechanics.repr().get_completed_steps(data), 0);
    mechanics.switch_player(&mut data);
    assert_eq!(mechanics.repr().get_current_player(data), 1);
    assert_eq!(mechanics.repr().get_completed_steps(data), 1);
    mechanics.switch_player(&mut data);
    assert_eq!(mechanics.repr().get_current_player(data), 0);
    assert_eq!(mechanics.repr().get_completed_steps(data), 2);
}

#[test]
fn wins_on_the_goal_rows() {
    let mechanics = QGameMechanics::new(3, 0, 10);
    let data = with_pawns(&mechanics, (2, 0), (1, 1));
    assert!(mechanics.check_win(data, 0));
    assert!(!mechanics.check_win(data, 1));
    let data = with_pawns(&mechanics, (1, 0), (0, 2));
    assert!(!mechanics.check_win(data, 0));
    assert!(mechanics.check_win(data, 1));
}

#[test]
fn players_on_three_rows_always_have_an_action() {
    let mechanics = QGameMechanics::new(3, 2, 10);
    let mut level = vec![mechanics.create_initial_state()];
    for _ in 0..3 {
        let mut next = Vec::new();
        for &state in &level {
            let mut copy = state;
            let moves = mechanics.get_valid_moves(state);
            let walls = mechanics.get_valid_wall_placements(&mut copy);
            assert!(!moves.is_empty());
            let player = mechanics.repr().get_current_player(state);
            for (row, col) in moves {
                let mut child = state;
                mechanics.execute_move(&mut child, player, row, col);
                mechanics.switch_player(&mut child);
                if !mechanics.check_win(child, player) {
                    next.push(child);
                }
            }
            for (row, col, orientation) in walls {
                let mut child = state;
                mechanics.execute_wall_placement(&mut child, player, row, col, orientation);
                mechanics.switch_player(&mut child);
                next.push(child);
            }
        }
        level = next;
    }
    assert!(!level.is_empty());
}

#[test]
fn word_fields_are_separate() {
    let repr = WordRepr::new(3, 2, 10);
    let mut data = 0u64;
    repr.set_wall(&mut data, 1, 1, WALL_HORIZONTAL, true);
    repr.set_player_position(&mut data, 0, 2, 2);
    repr.set_player_position(&mut data, 1, 1, 0);
    repr.set_walls_remaining(&mut data, 0, 2);
    repr.set_walls_remaining(&mut data, 1, 1);
    repr.set_current_player(&mut data, 1);
    repr.set_completed_steps(&mut data, 9);
    assert!(repr.get_wall(data, 1, 1, WALL_HORIZONTAL));
    assert!(!repr.get_wall(data, 1, 1, WALL_VERTICAL));
    assert_eq!(repr.get_player_position(data, 0), (2, 2));
    assert_eq!(repr.get_player_position(data, 1), (1, 0));
    assert_eq!(repr.get_walls_remaining(data, 0), 2);
    assert_eq!(repr.get_walls_remaining(data, 1), 1);
    assert_eq!(repr.get_current_player(data), 1);
    assert_eq!(repr.get_completed_steps(data), 9);
    assert_eq!(repr.num_wall_positions(), 8);
    assert_eq!(repr.num_player_positions(), 9);
    assert_eq!(repr.position_to_index(2, 1), 7);
    assert_eq!(repr.index_to_position(7), (2, 1));
    assert_eq!(repr.wall_index_to_position(7), (1, 1, WALL_HORIZONTAL));
    assert_eq!((repr.board_size(), repr.max_walls(), repr.max_steps()), (3, 2, 10));
    assert!(!WordRepr::fits(9, 10, 200));
    assert!(repr.is_valid(data));
    // Nine cells take four bits, which also hold numbers beyond the last cell.
    assert!(!repr.is_valid(u64::MAX));
}

#[test]
fn placing_and_removing_a_wall_changes_nothing() {
    let repr = WordRepr::new(3, 2, 10);
    for index in 0..repr.num_wall_positions() {
        let (row, col, orientation) = repr.wall_index_to_position(index);
        let mut data = 0x0fff_ffff_0000u64;
        let before = data;
        if repr.get_wall(data, row, col, orientation) {
            continue;
        }
        repr.set_wall(&mut data, row, col, orientation, true);
        assert_ne!(data, before);
        repr.set_wall(&mut data, row, col, orientation, false);
        assert_eq!(data, before);
    }
}

#[test]
fn decimal_numbers() {
    assert_eq!(to_decimal(0), "0");
    assert_eq!(to_decimal(1_000_203), "1000203");
    assert_eq!(to_decimal(usize::MAX), usize::MAX.to_string());
    let mut text = "n = ".to_string();
    push_decimal(&mut text, 65_536);
    assert_eq!(text, "n = 65536");
    for n in [0, 7, 10, 99, 100, 65_536, usize::MAX] {
        assert_eq!(parse_decimal(&to_decimal(n)), Some(n));
    }
}

#[test]
fn decimal_numbers_are_read_as_std_reads_them() {
    let texts = [
        "", "+", "-", "+5", "++5", "-5", "-0", "007", " 7", "7 ", "1_000", "0x10", "12a", "\u{663}",
        "18446744073709551615", "18446744073709551616", "99999999999999999999999999",
    ];
    for text in texts {
        assert_eq!(parse_decimal(text), text.parse::<usize>().ok(), "{}", text);
    }
}
