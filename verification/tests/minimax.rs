use quoridor_policy::minimax::{apply_action, get_all_actions, minimax, minimax_inner, outcome};
use quoridor_policy::q_game_mechanics::QGameMechanics;
use quoridor_policy::shared_search::{
    minimax_lazy_smp_finish, minimax_lazy_smp_worker, minimax_shared, SharedTable,
};
use quoridor_policy::table::TranspositionTable;
use rand::rngs::StdRng;
use rand::SeedableRng;

#[test]
fn test_minimax_initial_state_3x3() {
    let mechanics = QGameMechanics::new(3, 0, 10);
    let mut data = mechanics.create_initial_state();
    let mut table = TranspositionTable::new();

    let value = minimax(&mechanics, &mut data, &mut table);

    assert!(value == -1, "P1 should always lose 3x3 with no walls");
}

#[test]
fn test_minimax_win_in_one() {
    let mechanics = QGameMechanics::new(3, 0, 10);
    let mut data = mechanics.create_initial_state();

    mechanics.repr().set_player_position(&mut data, 0, 1, 1);
    mechanics.repr().set_player_position(&mut data, 1, 2, 0);
    mechanics.repr().set_current_player(&mut data, 0);
    mechanics.repr().set_completed_steps(&mut data, 2);

    let mut table = TranspositionTable::new();
    let value = minimax(&mechanics, &mut data, &mut table);

    assert_eq!(value, 1, "Player 0 should be able to win in one move");
}

#[test]
fn test_minimax_tie_at_max_steps() {
    let mechanics = QGameMechanics::new(3, 0, 2);
    let mut data = mechanics.create_initial_state();
    mechanics.repr().set_completed_steps(&mut data, 2);

    let mut table = TranspositionTable::new();
    let value = minimax(&mechanics, &mut data, &mut table);

    assert_eq!(value, 0, "Max steps reached should be a tie");
}

#[test]
fn test_transposition_table_populated() {
    let mechanics = QGameMechanics::new(3, 0, 4);
    let mut data = mechanics.create_initial_state();
    let mut table = TranspositionTable::new();

    minimax(&mechanics, &mut data, &mut table);

    assert!(!table.is_empty(), "Transposition table should have entries");
}

fn sorted_entries(table: &TranspositionTable) -> Vec<(u64, i8)> {
    let mut list: Vec<(u64, i8)> = table.iter().map(|kv| (*kv.key(), *kv.value())).collect();
    list.sort();
    list
}

#[test]
fn terminal_states_are_not_stored() {
    let mechanics = QGameMechanics::new(3, 0, 6);
    let mut data = mechanics.create_initial_state();
    let mut table = TranspositionTable::new();
    minimax(&mechanics, &mut data, &mut table);
    assert!(table.contains_key(&data));
    for (state, value) in sorted_entries(&table) {
        assert_eq!(outcome(&mechanics, state), None);
        assert!(-1 <= value && value <= 1);
    }
}

#[test]
fn every_value_is_the_best_of_the_next() {
    let mechanics = QGameMechanics::new(3, 1, 5);
    let mut data = mechanics.create_initial_state();
    let mut table = TranspositionTable::new();
    minimax(&mechanics, &mut data, &mut table);
    for (state, value) in sorted_entries(&table) {
        let mut copy = state;
        let actions = get_all_actions(&mechanics, &mut copy);
        assert_eq!(copy, state);
        assert!(!actions.is_empty());
        let next: Vec<i8> = actions
            .iter()
            .map(|&action| {
                let child = apply_action(&mechanics, state, action);
                outcome(&mechanics, child).unwrap_or_else(|| *table.get(&child).unwrap())
            })
            .collect();
        let best = if mechanics.repr().get_current_player(state) == 0 {
            next.iter().max()
        } else {
            next.iter().min()
        };
        assert_eq!(best, Some(&value));
    }
}

#[test]
fn known_values_are_taken() {
    let mechanics = QGameMechanics::new(3, 0, 6);
    let mut data = mechanics.create_initial_state();
    let mut table = TranspositionTable::new();
    table.insert(data, 1);
    assert_eq!(minimax(&mechanics, &mut data, &mut table), 1);
    assert_eq!(table.len(), 1);
}

#[test]
fn searching_again_adds_nothing() {
    let mechanics = QGameMechanics::new(3, 0, 6);
    let mut data = mechanics.create_initial_state();
    let mut table = TranspositionTable::new();
    let value = minimax(&mechanics, &mut data, &mut table);
    let before = sorted_entries(&table);
    assert_eq!(minimax(&mechanics, &mut data, &mut table), value);
    assert_eq!(sorted_entries(&table), before);
}

#[test]
fn the_order_of_actions_changes_nothing() {
    let mechanics = QGameMechanics::new(3, 1, 5);
    let mut data = mechanics.create_initial_state();
    let mut table = TranspositionTable::new();
    let value = minimax(&mechanics, &mut data, &mut table);
    for seed in 0..3 {
        let mut shuffled = TranspositionTable::new();
        let mut rng = Some(StdRng::seed_from_u64(seed));
        assert_eq!(minimax_inner(&mechanics, &mut data, &mut shuffled, &mut rng), Some(value));
        assert_eq!(sorted_entries(&shuffled), sorted_entries(&table));
    }
}

#[test]
fn a_stuck_player_stops_the_search() {
    // On two rows, a wall between the columns leaves player 1 without a move:
    // their way up and every jump are barred.
    let mechanics = QGameMechanics::new(2, 1, 8);
    let mut data = mechanics.create_initial_state();
    mechanics.execute_wall_placement(&mut data, 0, 0, 0, 0);
    mechanics.switch_player(&mut data);
    assert!(get_all_actions(&mechanics, &mut data).is_empty());
    let mut table = TranspositionTable::new();
    assert_eq!(minimax_inner(&mechanics, &mut data, &mut table, &mut None), None);
    assert!(table.is_empty());
    let shared = SharedTable::new(&mechanics, TranspositionTable::new(), data);
    assert_eq!(minimax_lazy_smp_worker(&mechanics, data, &shared, 0), None);
    let (found, left) = minimax_lazy_smp_finish(&mechanics, data, shared);
    assert_eq!(found, None);
    assert!(left.is_empty());
}

#[test]
fn searches_on_a_shared_table() {
    let mechanics = QGameMechanics::new(3, 1, 5);
    let mut data = mechanics.create_initial_state();
    let mut table = TranspositionTable::new();
    let value = minimax(&mechanics, &mut data, &mut table);

    let shared = SharedTable::new(&mechanics, TranspositionTable::new(), data);
    assert_eq!(shared.get(data), None);
    for seed in 0..4 {
        assert_eq!(minimax_lazy_smp_worker(&mechanics, data, &shared, seed), Some(value));
    }
    assert_eq!(shared.get(data), Some(value));
    assert_eq!(sorted_entries(&shared.into_table()), sorted_entries(&table));
}

#[test]
fn the_searches_end_with_the_whole_table() {
    let mechanics = QGameMechanics::new(3, 1, 5);
    let mut data = mechanics.create_initial_state();
    let mut table = TranspositionTable::new();
    let value = minimax(&mechanics, &mut data, &mut table);

    // After some searches, and after none.
    for count in [0, 1, 3] {
        let shared = SharedTable::new(&mechanics, TranspositionTable::new(), data);
        for seed in 0..count {
            minimax_lazy_smp_worker(&mechanics, data, &shared, seed);
        }
        let (found, left) = minimax_lazy_smp_finish(&mechanics, data, shared);
        assert_eq!(found, Some(value));
        assert_eq!(sorted_entries(&left), sorted_entries(&table));
    }
}

#[test]
fn a_shared_table_takes_a_state_after_what_is_behind_it() {
    let mechanics = QGameMechanics::new(3, 0, 2);
    let mut data = mechanics.create_initial_state();
    let mut table = TranspositionTable::new();
    let value = minimax(&mechanics, &mut data, &mut table);
    let behind: Vec<u64> = get_all_actions(&mechanics, &mut data)
        .into_iter()
        .map(|action| apply_action(&mechanics, data, action))
        .filter(|&child| outcome(&mechanics, child).is_none())
        .collect();
    assert_eq!(behind.len(), 3);
    let shared = SharedTable::new(&mechanics, TranspositionTable::new(), data);
    assert!(!shared.insert(data, value, &behind));
    assert_eq!(shared.get(data), None);
    for &child in &behind {
        let mut copy = child;
        let expected = Some(*table.get(&child).unwrap());
        assert_eq!(minimax_shared(&mechanics, &mut copy, &shared, &mut None), expected);
        assert_eq!(shared.get(child), expected);
    }
    assert!(shared.insert(data, value, &behind));
    assert_eq!(shared.get(data), Some(value));
}

#[test]
fn a_shared_search_in_order() {
    let mechanics = QGameMechanics::new(3, 0, 6);
    let mut data = mechanics.create_initial_state();
    let shared = SharedTable::new(&mechanics, TranspositionTable::new(), data);
    assert_eq!(minimax_shared(&mechanics, &mut data, &shared, &mut None), Some(-1));

    let mut table = TranspositionTable::new();
    minimax(&mechanics, &mut data, &mut table);
    assert_eq!(sorted_entries(&shared.into_table()), sorted_entries(&table));
}

#[test]
fn a_search_that_ends_at_once_leaves_the_generator() {
    let mechanics = QGameMechanics::new(3, 0, 4);
    let mut data = mechanics.create_initial_state();
    let fresh = Some(StdRng::seed_from_u64(7));

    // With a known value, even that of a state with its pawns off the board.
    for mut state in [data, u64::MAX] {
        let mut table = TranspositionTable::new();
        table.insert(state, 1);
        let mut rng = fresh.clone();
        assert_eq!(minimax_inner(&mechanics, &mut state, &mut table, &mut rng), Some(1));
        assert!(rng == fresh);
        assert_eq!(table.len(), 1);
        let shared = SharedTable::new(&mechanics, table, state);
        assert_eq!(minimax_shared(&mechanics, &mut state, &shared, &mut rng), Some(1));
        assert!(rng == fresh);
    }

    // With a finished game.
    let mut finished = data;
    mechanics.repr().set_completed_steps(&mut finished, 4);
    let mut rng = fresh.clone();
    let mut table = TranspositionTable::new();
    assert_eq!(minimax_inner(&mechanics, &mut finished, &mut table, &mut rng), Some(0));
    assert!(rng == fresh);
    assert!(table.is_empty());

    // A search that puts actions in order draws from it.
    minimax_inner(&mechanics, &mut data, &mut table, &mut rng);
    assert!(rng != fresh);
}

#[test]
fn a_shared_table_holds_no_finished_game() {
    let mechanics = QGameMechanics::new(3, 1, 5);
    let data = mechanics.create_initial_state();
    let shared = SharedTable::new(&mechanics, TranspositionTable::new(), data);
    minimax_lazy_smp_worker(&mechanics, data, &shared, 1);
    let table = shared.into_table();
    assert!(table.contains_key(&data));
    for (state, _) in sorted_entries(&table) {
        assert_eq!(outcome(&mechanics, state), None);
    }
}

#[test]
fn outcomes() {
    let mechanics = QGameMechanics::new(3, 0, 4);
    let mut data = mechanics.create_initial_state();
    assert_eq!(outcome(&mechanics, data), None);
    mechanics.repr().set_completed_steps(&mut data, 4);
    assert_eq!(outcome(&mechanics, data), Some(0));
    // A win counts also with the last step.
    mechanics.repr().set_player_position(&mut data, 0, 2, 0);
    mechanics.repr().set_current_player(&mut data, 1);
    assert_eq!(outcome(&mechanics, data), Some(1));
    let mut data = mechanics.create_initial_state();
    mechanics.repr().set_player_position(&mut data, 1, 0, 0);
    assert_eq!(outcome(&mechanics, data), Some(-1));
}
