use quoridor_policy::q_bit_repr::{CompactState, QBitRepr, WALL_HORIZONTAL, WALL_VERTICAL};

#[test]
fn test_size_calculation() {
    let q = QBitRepr::new(5, 10, 100);
    // 32 wall bits, 2 * 5 position bits, 2 * 4 wall counts, 1 player, 7 steps
    assert_eq!(q.size_bits(), 58);
}

#[test]
fn test_size_calculation_9x9_10w() {
    let q = QBitRepr::new(9, 10, 200);
    // 128 wall bits, 2 * 7 position bits, 2 * 4 wall counts, 1 player, 8 steps
    assert_eq!(q.num_wall_positions(), 128);
    assert_eq!(q.size_bits(), 128 + 31);
}

#[test]
fn test_player_positions() {
    let q = QBitRepr::new(5, 10, 100);
    let mut data = q.create_data();

    q.set_player_position(&mut data, 0, 0, 2);
    q.set_player_position(&mut data, 1, 4, 2);

    assert_eq!(q.get_player_position(data, 0), (0, 2));
    assert_eq!(q.get_player_position(data, 1), (4, 2));
}

#[test]
fn test_walls() {
    let q = QBitRepr::new(5, 10, 100);
    let mut data = q.create_data();

    q.set_wall(&mut data, 0, 0, WALL_VERTICAL, true);
    q.set_wall(&mut data, 1, 1, WALL_VERTICAL, true);
    assert!(q.get_wall(data, 0, 0, WALL_VERTICAL));
    assert!(q.get_wall(data, 1, 1, WALL_VERTICAL));
    assert!(!q.get_wall(data, 0, 1, WALL_VERTICAL));
}

#[test]
fn test_walls_9x9() {
    let q = QBitRepr::new(9, 10, 200);
    let mut data = q.create_data();

    // Walls at all four corners of the wall grid, in both orientations.
    for &(r, c) in &[(0usize, 0usize), (0, 7), (7, 0), (7, 7)] {
        for &orient in &[WALL_VERTICAL, WALL_HORIZONTAL] {
            q.set_wall(&mut data, r, c, orient, true);
            assert!(q.get_wall(data, r, c, orient));
        }
    }
    // The wall bitmap should occupy the high bits too (bit 127 = last horizontal corner).
    assert_ne!(data.walls >> 64, 0);
}

#[test]
fn test_walls_remaining() {
    let q = QBitRepr::new(5, 10, 100);
    let mut data = q.create_data();

    q.set_walls_remaining(&mut data, 0, 10);
    assert_eq!(q.get_walls_remaining(data, 0), 10);
}

#[test]
fn test_walls_remaining_9x9() {
    let q = QBitRepr::new(9, 10, 200);
    let mut data = q.create_data();
    q.set_walls_remaining(&mut data, 0, 10);
    q.set_walls_remaining(&mut data, 1, 7);
    assert_eq!(q.get_walls_remaining(data, 0), 10);
    assert_eq!(q.get_walls_remaining(data, 1), 7);
}

#[test]
fn test_current_player() {
    let q = QBitRepr::new(5, 10, 100);
    let mut data = q.create_data();

    assert_eq!(q.get_current_player(data), 0);

    q.set_current_player(&mut data, 1);
    assert_eq!(q.get_current_player(data), 1);

    q.set_current_player(&mut data, 0);
    assert_eq!(q.get_current_player(data), 0);
}

#[test]
fn test_completed_steps() {
    let q = QBitRepr::new(5, 10, 100);
    let mut data = q.create_data();

    assert_eq!(q.get_completed_steps(data), 0);

    q.set_completed_steps(&mut data, 42);
    assert_eq!(q.get_completed_steps(data), 42);
}

#[test]
fn test_wall_position_conversion() {
    let q = QBitRepr::new(5, 10, 100);

    // Vertical wall at (1, 2)
    let idx = q.wall_position_to_index(1, 2, WALL_VERTICAL);
    let (row, col, orientation) = q.wall_index_to_position(idx);
    assert_eq!((row, col, orientation), (1, 2, WALL_VERTICAL));

    // Horizontal wall at (3, 1)
    let idx = q.wall_position_to_index(3, 1, WALL_HORIZONTAL);
    let (row, col, orientation) = q.wall_index_to_position(idx);
    assert_eq!((row, col, orientation), (3, 1, WALL_HORIZONTAL));
}

#[test]
fn test_compact_state_bytes_roundtrip() {
    let q = QBitRepr::new(9, 10, 200);
    let mut state = q.create_data();
    q.set_player_position(&mut state, 0, 0, 4);
    q.set_player_position(&mut state, 1, 8, 4);
    q.set_walls_remaining(&mut state, 0, 10);
    q.set_walls_remaining(&mut state, 1, 10);
    q.set_current_player(&mut state, 1);
    q.set_completed_steps(&mut state, 137);
    q.set_wall(&mut state, 7, 7, WALL_HORIZONTAL, true);

    let bytes = state.to_bytes();
    let restored = CompactState::from_bytes(bytes);
    assert_eq!(state, restored);
}

#[test]
fn bytes_are_little_endian() {
    let state = CompactState { walls: 0x0102, scalars: 0x0304_0000_0000_0005 };
    let bytes = state.to_bytes();
    assert_eq!(&bytes[..3], &[2, 1, 0]);
    assert_eq!(&bytes[16..], &[5, 0, 0, 0, 0, 0, 4, 3]);
    assert_eq!(bytes[..16], state.walls.to_le_bytes());
    assert_eq!(bytes[16..], state.scalars.to_le_bytes());

    let mut counting = [0u8; 24];
    for i in 0..24 {
        counting[i] = (200 + i) as u8;
    }
    assert_eq!(CompactState::from_bytes(counting).to_bytes(), counting);
}

#[test]
fn scalars_are_packed_from_the_low_end() {
    let q = QBitRepr::new(5, 10, 100);
    let mut data = q.create_data();
    q.set_player_position(&mut data, 0, 4, 4);
    assert_eq!(data.scalars, 24);
    q.set_player_position(&mut data, 1, 0, 1);
    assert_eq!(data.scalars, 24 | (1 << 5));
    q.set_walls_remaining(&mut data, 0, 10);
    q.set_walls_remaining(&mut data, 1, 3);
    q.set_current_player(&mut data, 1);
    q.set_completed_steps(&mut data, 100);
    assert_eq!(
        data.scalars,
        24 | (1 << 5) | (10 << 10) | (3 << 14) | (1 << 18) | (100 << 19)
    );
    assert_eq!(data.walls, 0);
}

#[test]
fn a_setter_leaves_every_other_field_alone() {
    let q = QBitRepr::new(9, 10, 200);
    let mut data = CompactState { walls: u128::MAX, scalars: u64::MAX };
    q.set_completed_steps(&mut data, 0);
    assert_eq!(q.get_completed_steps(data), 0);
    assert_eq!(q.get_current_player(data), 1);
    assert_eq!(q.get_walls_remaining(data, 0), 15);
    assert_eq!(q.get_walls_remaining(data, 1), 15);
    assert_eq!(data.walls, u128::MAX);
    // Bits past the last field stay too.
    assert_eq!(data.scalars >> 31, u64::MAX >> 31);

    q.set_wall(&mut data, 3, 5, WALL_VERTICAL, false);
    let index = q.wall_position_to_index(3, 5, WALL_VERTICAL);
    assert_eq!(data.walls, u128::MAX ^ (1u128 << index));
}

#[test]
fn indices_and_positions_convert_both_ways() {
    let q = QBitRepr::new(9, 10, 200);
    for index in 0..q.num_player_positions() {
        let (row, col) = q.index_to_position(index);
        assert_eq!((row, col), (index / 9, index % 9));
        assert_eq!(q.position_to_index(row, col), index);
    }
    for index in 0..q.num_wall_positions() {
        let (row, col, orientation) = q.wall_index_to_position(index);
        assert_eq!(q.wall_position_to_index(row, col, orientation), index);
    }
    assert_eq!(q.wall_index_to_position(64 + 8 * 2 + 3), (2, 3, WALL_HORIZONTAL));
}

#[test]
fn parameters_fit_or_do_not() {
    assert!(QBitRepr::fits(9, 10, 200));
    assert!(QBitRepr::fits(1, 0, 0));
    assert!(!QBitRepr::fits(0, 0, 0));
    assert!(!QBitRepr::fits(10, 0, 0));
    assert!(!QBitRepr::fits(9, 1 << 25, 1 << 25));
}

#[test]
fn the_smallest_board_has_one_cell_and_no_wall() {
    let q = QBitRepr::new(1, 0, 0);
    assert_eq!(q.num_wall_positions(), 0);
    assert_eq!(q.num_player_positions(), 1);
    assert_eq!(q.size_bits(), 6);
    assert_eq!((q.board_size(), q.max_walls(), q.max_steps()), (1, 0, 0));
    assert_eq!(q.get_player_position(q.create_data(), 1), (0, 0));
}

#[test]
fn a_clone_reads_the_same() {
    let q = QBitRepr::new(5, 10, 100);
    let copy = q.clone();
    let data = CompactState { walls: 77, scalars: 0x1f_35a1 };
    assert_eq!(copy.size_bits(), q.size_bits());
    assert_eq!(copy.get_completed_steps(data), q.get_completed_steps(data));
    assert_eq!(copy.get_walls_remaining(data, 1), q.get_walls_remaining(data, 1));
}

#[test]
fn display_shows_pawns_walls_and_remarks() {
    let q = QBitRepr::new(3, 2, 20);
    let mut data = q.create_data();
    q.set_player_position(&mut data, 0, 0, 1);
    q.set_player_position(&mut data, 1, 2, 1);
    q.set_walls_remaining(&mut data, 0, 2);
    q.set_walls_remaining(&mut data, 1, 1);
    q.set_current_player(&mut data, 1);
    q.set_completed_steps(&mut data, 13);
    q.set_wall(&mut data, 0, 0, WALL_VERTICAL, true);
    q.set_wall(&mut data, 1, 1, WALL_HORIZONTAL, true);
    let expected = ".|1 .  Steps: 13\n     \
                    \x20 Current: P2\n.|. .  P1 walls: 2\n  - -  P2 walls: 1\n. 2 .  Max steps: 20\n";
    assert_eq!(q.display(data), expected);
}

#[test]
fn display_without_room_for_every_remark() {
    let q = QBitRepr::new(2, 0, 7);
    let data = q.create_data();
    assert_eq!(q.display(data), "1 .  Steps: 0\n     Current: P1\n. .  P1 walls: 0\n");
}

#[test]
fn states_with_pawns_on_the_board() {
    let repr = QBitRepr::new(3, 1, 10);
    let mut state = repr.create_data();
    assert!(repr.is_valid(state));
    repr.set_player_position(&mut state, 1, 2, 2);
    assert!(repr.is_valid(state));
    // Nine cells take four bits, which also hold numbers beyond the last cell.
    state.scalars = 9;
    assert!(!repr.is_valid(state));
    state.scalars = 9 << 4;
    assert!(!repr.is_valid(state));
}
