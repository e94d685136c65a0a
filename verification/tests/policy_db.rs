use std::collections::HashMap;

use quoridor_policy::action_values::Coverage;
use quoridor_policy::minimax::minimax;
use quoridor_policy::policy_db::{
    KeyValue, OpenError, PolicyDb, RowGroupMeta, StateStatistics,
};
use quoridor_policy::policy_file::{PolicyFile, ROW_GROUP_SIZE, WRITE_CHUNK_SIZE};
use quoridor_policy::q_game_mechanics::QGameMechanics;
use quoridor_policy::rows::DecodedRowGroup;
use quoridor_policy::table::TranspositionTable;

/// Divides rows into groups of at most `size`, with the footer that goes with them.
fn divide(rows: &[(i64, i8)], size: usize) -> (Vec<DecodedRowGroup>, Vec<RowGroupMeta>) {
    let mut groups = Vec::new();
    let mut footer = Vec::new();
    for chunk in rows.chunks(size) {
        let mut group = DecodedRowGroup::new();
        let states: Vec<i64> = chunk.iter().map(|row| row.0).collect();
        let values: Vec<i8> = chunk.iter().map(|row| row.1).collect();
        group.append_batch(&states, &values);
        footer.push(RowGroupMeta {
            num_rows: chunk.len() as i64,
            statistics: StateStatistics::Int64 {
                min: Some(chunk[0].0),
                max: Some(chunk[chunk.len() - 1].0),
            },
        });
        groups.push(group);
    }
    (groups, footer)
}

fn kv(key: &str, value: &str) -> KeyValue {
    KeyValue { key: key.to_string(), value: Some(value.to_string()) }
}

fn small_metadata() -> Vec<KeyValue> {
    vec![kv("board_size", "3"), kv("max_walls", "0"), kv("max_steps", "8")]
}

/// A database of two groups of three rows each.
fn small_db() -> (PolicyDb, Vec<DecodedRowGroup>) {
    let rows = vec![(-5, 1), (0, -1), (7, 0), (10, 1), (20, -1), (30, 0)];
    let (groups, footer) = divide(&rows, 3);
    let db = PolicyDb::open(Some(&small_metadata()), &footer).ok().unwrap();
    (db, groups)
}

fn open_error(kv: Option<&Vec<KeyValue>>, groups: &Vec<RowGroupMeta>) -> OpenError {
    match PolicyDb::open(kv, groups) {
        Ok(_) => panic!("opened"),
        Err(error) => error,
    }
}

#[test]
fn test_write_then_read_roundtrip() {
    let mechanics = QGameMechanics::new(3, 0, 8);
    let mut root = mechanics.create_initial_state();
    let mut table = TranspositionTable::new();
    minimax(&mechanics, &mut root, &mut table);
    assert!(!table.is_empty());

    let expected: Vec<(u64, i8)> = table.iter().map(|kv| (*kv.key(), *kv.value())).collect();

    let file = PolicyDb::write(&mechanics, table, 3, 8, 0, 1);
    assert_eq!(file.num_rows(), expected.len());

    for size in [1, 7, 100, ROW_GROUP_SIZE] {
        let (groups, footer) = divide(&file.rows, size);
        let db = PolicyDb::open(Some(&file.metadata), &footer).ok().unwrap();
        assert_eq!(db.read_metadata().unwrap(), (3, 0, 8, Some(expected.len())));
        assert_eq!(db.count_states().unwrap(), expected.len());

        // Round-trip every entry by state lookup.
        let states: Vec<u64> = expected.iter().map(|(s, _)| *s).collect();
        let pairs = db.lookup_values_in(&groups, &states);
        assert_eq!(pairs.len(), expected.len());
        let got_map: HashMap<u64, i32> = pairs.into_iter().collect();
        for (s, v) in &expected {
            assert_eq!(got_map.get(s), Some(&(*v as i32)));
        }

        // Round-trip every entry by sequential rowid scan.
        let all_ids: Vec<i64> = (1..=expected.len() as i64).collect();
        let by_id = db.fetch_rows_in(&groups, &all_ids);
        assert_eq!(by_id.len(), expected.len());
        let by_id_map: HashMap<u64, i32> = by_id.into_iter().collect();
        for (s, v) in &expected {
            assert_eq!(by_id_map.get(s), Some(&(*v as i32)));
        }
    }
}

#[test]
fn test_lookup_action_values_terminal() {
    let mechanics = QGameMechanics::new(3, 0, 8);
    let mut root = mechanics.create_initial_state();
    let mut table = TranspositionTable::new();
    minimax(&mechanics, &mut root, &mut table);

    let file = PolicyDb::write(&mechanics, table, 3, 8, 0, 1);
    let (groups, footer) = divide(&file.rows, 50);
    let db = PolicyDb::open(Some(&file.metadata), &footer).ok().unwrap();

    let mut state = mechanics.create_initial_state();
    mechanics.repr().set_player_position(&mut state, 0, 1, 1);
    mechanics.repr().set_player_position(&mut state, 1, 2, 0);
    mechanics.repr().set_current_player(&mut state, 0);
    mechanics.repr().set_completed_steps(&mut state, 2);

    let plan = db.lookup_action_values(state).expect("should have valid actions");
    let pairs = db.lookup_values_in(&groups, &plan.states_to_look_up());
    assert!(plan.coverage(&pairs) == Coverage::All);
    let (actions, values) = plan.values(&pairs).expect("should have valid actions");
    assert_eq!(actions.len(), values.len());
    assert!(!actions.is_empty());
    assert!(
        values.iter().any(|&v| v == 1),
        "expected at least one winning action value, got {values:?}"
    );
}

#[test]
fn action_values_are_those_of_the_acting_player() {
    let mechanics = QGameMechanics::new(3, 0, 8);
    let mut root = mechanics.create_initial_state();
    let mut table = TranspositionTable::new();
    let root_value = minimax(&mechanics, &mut root, &mut table);
    assert_eq!(root_value, -1);
    let file = PolicyDb::write(&mechanics, table, 3, 8, 0, 1);
    let (groups, footer) = divide(&file.rows, 50);
    let db = PolicyDb::open(Some(&file.metadata), &footer).ok().unwrap();

    // Player 0 acts: the best of their values is that of the state.
    let plan = db.lookup_action_values(root).unwrap();
    let pairs = db.lookup_values_in(&groups, &plan.states_to_look_up());
    let (actions, values) = plan.values(&pairs).unwrap();
    assert_eq!(actions, vec![(1, 1, 2), (0, 0, 2), (0, 2, 2)]);
    assert_eq!(values.iter().max(), Some(&-1));

    // Player 1 acts next: what is lost for player 0 is won for them.
    let mut next = root;
    mechanics.execute_move(&mut next, 0, 0, 0);
    mechanics.switch_player(&mut next);
    let plan = db.lookup_action_values(next).unwrap();
    let pairs = db.lookup_values_in(&groups, &plan.states_to_look_up());
    let (_, values) = plan.values(&pairs).unwrap();
    assert_eq!(values.iter().max(), Some(&1));
}

#[test]
fn action_values_without_entries() {
    let (db, groups) = small_db();
    let state = db.mechanics().create_initial_state();
    let plan = db.lookup_action_values(state).unwrap();
    let wanted = plan.states_to_look_up();
    assert_eq!(wanted.len(), 3);
    let pairs = db.lookup_values_in(&groups, &wanted);
    assert!(pairs.is_empty());
    assert!(plan.coverage(&pairs) == Coverage::Nothing);
    assert!(plan.coverage(&vec![(wanted[0], 1)]) == Coverage::Partial);
    assert!(plan.values(&pairs).is_none());
}

#[test]
fn action_values_of_given_pairs() {
    let (db, _) = small_db();
    let state = db.mechanics().create_initial_state();
    let plan = db.lookup_action_values(state).unwrap();
    let wanted = plan.states_to_look_up();
    // Of two pairs with one state the last counts.
    let pairs = vec![(wanted[0], 1), (wanted[1], 0), (wanted[2], -1), (wanted[0], -1)];
    assert!(plan.coverage(&pairs) == Coverage::All);
    let (_, values) = plan.values(&pairs).unwrap();
    assert_eq!(values, vec![-1, 0, -1]);

    let mut state = state;
    db.mechanics().switch_player(&mut state);
    let plan = db.lookup_action_values(state).unwrap();
    let wanted = plan.states_to_look_up();
    let pairs = vec![(wanted[0], 1), (wanted[1], 0), (wanted[2], -1)];
    let (_, values) = plan.values(&pairs).unwrap();
    assert_eq!(values, vec![-1, 0, 1]);
}

#[test]
fn no_action_no_action_values() {
    // On two rows a wall between the columns can leave a pawn without a move.
    let metadata = vec![kv("board_size", "2"), kv("max_walls", "1"), kv("max_steps", "8")];
    let db = PolicyDb::open(Some(&metadata), &Vec::new()).ok().unwrap();
    let mechanics = db.mechanics();
    let mut state = mechanics.create_initial_state();
    mechanics.execute_wall_placement(&mut state, 0, 0, 0, 0);
    mechanics.switch_player(&mut state);
    assert!(db.lookup_action_values(state).is_none());
}

#[test]
fn open_without_metadata() {
    let error = open_error(None, &Vec::new());
    assert!(matches!(error, OpenError::MissingBoardSize));
    assert_eq!(error.message(), "missing board_size in parquet metadata");
}

#[test]
fn open_with_incomplete_metadata() {
    let mut list = vec![kv("board_size", "3")];
    let error = open_error(Some(&list), &Vec::new());
    assert!(matches!(error, OpenError::MissingMaxWalls));
    assert_eq!(error.message(), "missing max_walls in parquet metadata");

    list.push(kv("max_walls", "0"));
    let error = open_error(Some(&list), &Vec::new());
    assert!(matches!(error, OpenError::MissingMaxSteps));
    assert_eq!(error.message(), "missing max_steps in parquet metadata");

    list.push(kv("max_steps", "8"));
    assert!(PolicyDb::open(Some(&list), &Vec::new()).is_ok());
}

#[test]
fn open_with_metadata_that_are_no_numbers() {
    for text in ["", "three", "-3", "3 ", "3.0", "99999999999999999999999"] {
        let list = vec![kv("board_size", text), kv("max_walls", "0"), kv("max_steps", "8")];
        assert!(matches!(open_error(Some(&list), &Vec::new()), OpenError::MissingBoardSize));
    }
    // The first pair with a key counts, also where it holds nothing.
    let list = vec![
        KeyValue { key: "board_size".to_string(), value: None },
        kv("board_size", "3"),
        kv("max_walls", "0"),
        kv("max_steps", "8"),
    ];
    assert!(matches!(open_error(Some(&list), &Vec::new()), OpenError::MissingBoardSize));
}

#[test]
fn open_with_missing_statistics() {
    let groups = vec![
        RowGroupMeta {
            num_rows: 1,
            statistics: StateStatistics::Int64 { min: Some(0), max: Some(0) },
        },
        RowGroupMeta { num_rows: 1, statistics: StateStatistics::Missing },
    ];
    let error = open_error(Some(&small_metadata()), &groups);
    assert!(matches!(error, OpenError::MissingStatistics(1)));
    assert_eq!(error.message(), "row group 1 missing statistics on state column");
}

#[test]
fn open_with_unusable_statistics() {
    let groups = vec![RowGroupMeta {
        num_rows: 1,
        statistics: StateStatistics::Int64 { min: None, max: None },
    }];
    let error = open_error(Some(&small_metadata()), &groups);
    assert!(matches!(error, OpenError::MissingMin));
    assert_eq!(error.message(), "missing min stat on state");

    let groups = vec![RowGroupMeta {
        num_rows: 1,
        statistics: StateStatistics::Int64 { min: Some(4), max: None },
    }];
    let error = open_error(Some(&small_metadata()), &groups);
    assert!(matches!(error, OpenError::MissingMax));
    assert_eq!(error.message(), "missing max stat on state");

    let groups = vec![RowGroupMeta {
        num_rows: 1,
        statistics: StateStatistics::Other("Boolean".to_string()),
    }];
    let error = open_error(Some(&small_metadata()), &groups);
    assert!(matches!(error, OpenError::UnexpectedStatistics(_)));
    assert_eq!(error.message(), "unexpected stats variant for state column: Boolean");
}

#[test]
fn number_of_states_from_metadata_or_rows() {
    let (db, _) = small_db();
    assert_eq!(db.count_states().unwrap(), 6);
    assert_eq!(db.read_metadata().unwrap(), (3, 0, 8, Some(6)));
    assert_eq!(db.num_row_groups(), 2);
    assert_eq!(db.rows_before(0), 0);
    assert_eq!(db.rows_before(1), 3);
    assert_eq!(db.rows_before(2), 6);
    assert_eq!(db.row_group(1).min, 10);
    assert_eq!(db.row_group(1).max, 30);
    assert_eq!(db.group_of_row(2), 0);
    assert_eq!(db.group_of_row(3), 1);

    let mut list = small_metadata();
    list.push(kv("num_states", "42"));
    let db = PolicyDb::open(Some(&list), &Vec::new()).ok().unwrap();
    assert_eq!(db.count_states().unwrap(), 42);
}

#[test]
fn lookup_in_order_each_once() {
    let (db, groups) = small_db();
    let minus_five = -5i64 as u64;
    let found = db.lookup_values_in(&groups, &[30, 7, 8, minus_five, 7, 0, 100, 15]);
    assert_eq!(found, vec![(minus_five, 1), (0, -1), (7, 0), (30, 0)]);
    assert_eq!(db.lookup_values_in(&groups, &[]), vec![]);
    assert_eq!(db.lookup_values_in(&groups, &[1, 2, 3]), vec![]);
}

#[test]
fn lookup_reads_only_the_groups_it_needs() {
    let (db, groups) = small_db();
    let mut lookup = db.lookup_values_by_state(&[20, 8, 25, 40]);
    assert_eq!(lookup.next_group(), Some(1));
    lookup.read_group(&groups[1]);
    assert_eq!(lookup.next_group(), None);
    assert_eq!(lookup.into_pairs(), vec![(20, -1)]);

    let mut lookup = db.lookup_values_by_state(&[1000]);
    assert_eq!(lookup.next_group(), None);
    assert_eq!(lookup.into_pairs(), vec![]);
}

#[test]
fn fetch_by_row_number() {
    let (db, groups) = small_db();
    let minus_five = -5i64 as u64;
    // Numbers count from 1; those out of range are dropped; repeats stay.
    let found = db.fetch_rows_in(&groups, &[6, 0, 1, 4, -1, 7, 1, i64::MAX]);
    assert_eq!(found, vec![(minus_five, 1), (minus_five, 1), (10, 1), (30, 0)]);
    assert_eq!(db.fetch_rows_in(&groups, &[]), vec![]);
    for i in 1..=6i64 {
        let found = db.fetch_rows_in(&groups, &[i]);
        let row = (i as usize - 1) % 3;
        let group = &groups[(i as usize - 1) / 3];
        assert_eq!(found, vec![(group.states[row] as u64, group.values[row] as i32)]);
    }
}

#[test]
fn fetch_reads_each_group_once() {
    let (db, groups) = small_db();
    let mut fetch = db.fetch_states_by_rowid(&[2, 5, 1, 6]);
    assert_eq!(fetch.next_group(), Some(0));
    fetch.read_group(0, &groups[0]);
    assert_eq!(fetch.next_group(), Some(1));
    fetch.read_group(1, &groups[1]);
    assert_eq!(fetch.next_group(), None);
    assert_eq!(fetch.into_pairs().len(), 4);
}

#[test]
fn write_keeps_steps_of_the_interval() {
    let mechanics = QGameMechanics::new(3, 0, 8);
    let mut root = mechanics.create_initial_state();
    let mut table = TranspositionTable::new();
    minimax(&mechanics, &mut root, &mut table);
    let even = table
        .iter()
        .filter(|kv| mechanics.repr().get_completed_steps(*kv.key()) % 2 == 0)
        .count();
    let all = table.len();
    assert!(0 < even && even < all);
    let file = PolicyDb::write(&mechanics, table, 3, 8, 0, 2);
    assert_eq!(file.num_rows(), even);
    for row in &file.rows {
        assert_eq!(mechanics.repr().get_completed_steps(row.0 as u64) % 2, 0);
    }
}

#[test]
fn write_sorts_by_signed_key() {
    let mechanics = QGameMechanics::new(3, 0, 8);
    let table = TranspositionTable::new();
    for (state, value) in [(u64::MAX, 1), (5, -1), (1 << 63, 0), (0, 1)] {
        table.insert(state, value);
    }
    for state in 6..40 {
        table.insert(state, 0);
    }
    let file = PolicyDb::write(&mechanics, table, 3, 8, 0, 1);
    let mut expected = vec![(i64::MIN, 0), (-1, 1), (0, 1), (5, -1)];
    expected.extend((6..40).map(|key| (key, 0)));
    assert_eq!(file.rows, expected);
    let pairs: Vec<(&str, Option<&str>)> = file
        .metadata
        .iter()
        .map(|pair| (pair.key.as_str(), pair.value.as_deref()))
        .collect();
    assert_eq!(
        pairs,
        vec![
            ("board_size", Some("3")),
            ("max_walls", Some("0")),
            ("max_steps", Some("8")),
            ("num_states", Some("38")),
        ]
    );
}

#[test]
fn write_of_an_empty_table() {
    let mechanics = QGameMechanics::new(3, 0, 8);
    let file = PolicyDb::write(&mechanics, TranspositionTable::new(), 3, 8, 0, 0);
    assert_eq!(file.num_rows(), 0);
    assert_eq!(file.num_batches(), 0);
    let db = PolicyDb::open(Some(&file.metadata), &Vec::new()).ok().unwrap();
    assert_eq!(db.count_states().unwrap(), 0);
    assert_eq!(db.lookup_values_in(&Vec::new(), &[1, 2]), vec![]);
}

#[test]
fn batches_make_up_the_rows() {
    let rows: Vec<(i64, i8)> = (0..WRITE_CHUNK_SIZE as i64 * 2 + 5).map(|i| (i, (i % 3) as i8 - 1)).collect();
    for count in [1, WRITE_CHUNK_SIZE - 1, WRITE_CHUNK_SIZE, WRITE_CHUNK_SIZE + 1, rows.len()] {
        let file = PolicyFile { metadata: Vec::new(), rows: rows[..count].to_vec() };
        let mut again = Vec::new();
        for i in 0..file.num_batches() {
            let (states, values) = file.batch(i);
            assert!(!states.is_empty() && states.len() <= WRITE_CHUNK_SIZE);
            again.extend(states.into_iter().zip(values));
        }
        assert_eq!(again, file.rows);
    }
    let file = PolicyFile { metadata: Vec::new(), rows };
    assert_eq!(file.num_batches(), 3);
    assert_eq!(file.batch(2).0.len(), 5);
}

#[test]
fn rows_of_a_group() {
    let mut group = DecodedRowGroup::new();
    group.append_batch(&[1, 3], &[1, -1]);
    group.append_batch(&[8], &[0]);
    assert_eq!(group.states, vec![1, 3, 8]);
    assert_eq!(group.values, vec![1, -1, 0]);
    assert_eq!(group.find(3), Some(1));
    assert_eq!(group.find(8), Some(2));
    assert_eq!(group.find(2), None);
    assert_eq!(DecodedRowGroup::new().find(0), None);
}
