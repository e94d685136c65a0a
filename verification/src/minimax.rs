//! Minimax for building a policy database.

use vstd::prelude::*;
use vstd::seq_lib::*;
use rand::rngs::StdRng;
use crate::layout::Layout;
use crate::q_game_mechanics;
use crate::q_game_mechanics::QGameMechanics;
use crate::table;
use crate::table::TranspositionTable;

verus! {

impl Layout {
    /// Whether a table is what searches from the states behind the first
    /// `count` actions leave of what was known.
    spec fn partly(
        self,
        known: Map<u64, i8>,
        data: u64,
        actions: Seq<(u8, u8, u8)>,
        count: int,
        after: Map<u64, i8>,
    ) -> bool {
        &&& self.extends(known, after)
        &&& forall|k: u64| #[trigger]
            after.contains_key(k) <==> known.contains_key(k) || exists|j: int|
                0 <= j < count && self.passes(known, self.child(data, #[trigger] actions[j]), k)
    }

    /// What a search behind an action adds is right with respect to what was
    /// known before the first action.
    proof fn lemma_partly_grows(
        self,
        known: Map<u64, i8>,
        data: u64,
        actions: Seq<(u8, u8, u8)>,
        count: int,
        before: Map<u64, i8>,
        after: Map<u64, i8>,
    )
        requires
            self.fits_word(),
            self.valid(data),
            self.is_open(known, data),
            0 <= count < actions.len(),
            self.actions_of(data).contains(actions[count]),
            self.partly(known, data, actions, count, before),
            self.extends(before, after),
            forall|k: u64| #[trigger]
                after.contains_key(k) ==> before.contains_key(k) || self.passes(
                    before,
                    self.child(data, actions[count]),
                    k,
                ),
        ensures
            self.extends(known, after),
            self.value(before, self.child(data, actions[count])) == self.value(
                known,
                self.child(data, actions[count]),
            ),
            forall|k: u64| #[trigger]
                after.contains_key(k) ==> before.contains_key(k) || self.passes(
                    known,
                    self.child(data, actions[count]),
                    k,
                ),
    {
        let next = self.child(data, actions[count]);
        self.lemma_action_child(data, actions[count]);
        self.lemma_value_extends(known, before, next);
        assert forall|k: u64| #[trigger] after.contains_key(k) implies after[k] == self.value(
            known,
            k,
        ) && (before.contains_key(k) || self.passes(known, next, k)) by {
            if before.contains_key(k) {
                assert(after[k] == before[k]);
            } else {
                self.lemma_passes_open(before, next, k);
                self.lemma_value_extends(known, before, k);
                self.lemma_passes_less(known, before, next, k);
            }
        }
    }

    /// What a search that gets stuck behind an action adds is on the way from
    /// the state itself.
    proof fn lemma_stuck_adds(
        self,
        known: Map<u64, i8>,
        data: u64,
        actions: Seq<(u8, u8, u8)>,
        count: int,
        before: Map<u64, i8>,
        after: Map<u64, i8>,
    )
        requires
            self.fits_word(),
            self.valid(data),
            self.is_open(known, data),
            0 <= count < actions.len(),
            forall|j: int| 0 <= j < actions.len() ==> self.actions_of(data).contains(
                #[trigger] actions[j],
            ),
            self.partly(known, data, actions, count, before),
            forall|k: u64| #[trigger]
                after.contains_key(k) ==> before.contains_key(k) || self.passes(
                    known,
                    self.child(data, actions[count]),
                    k,
                ),
        ensures
            forall|k: u64| #[trigger]
                after.contains_key(k) ==> known.contains_key(k) || self.passes(known, data, k),
    {
        assert forall|k: u64| #[trigger] after.contains_key(k) implies known.contains_key(k)
            || self.passes(known, data, k) by {
            self.lemma_passes(known, data, k);
            if !known.contains_key(k) {
                if before.contains_key(k) {
                    let j = choose|j: int|
                        0 <= j < count && self.passes(
                            known,
                            self.child(data, #[trigger] actions[j]),
                            k,
                        );
                    assert(self.actions_of(data).contains(actions[j]));
                } else {
                    assert(self.actions_of(data).contains(actions[count]));
                }
            }
        }
    }

    /// After the search behind one more action.
    proof fn lemma_partly_step(
        self,
        known: Map<u64, i8>,
        data: u64,
        actions: Seq<(u8, u8, u8)>,
        count: int,
        before: Map<u64, i8>,
        after: Map<u64, i8>,
    )
        requires
            self.fits_word(),
            self.valid(data),
            self.is_open(known, data),
            0 <= count < actions.len(),
            forall|j: int| 0 <= j < actions.len() ==> self.actions_of(data).contains(
                #[trigger] actions[j],
            ),
            self.partly(known, data, actions, count, before),
            self.searched(before, self.child(data, actions[count]), after),
        ensures
            self.partly(known, data, actions, count + 1, after),
    {
        let next = self.child(data, actions[count]);
        self.lemma_action_child(data, actions[count]);
        self.lemma_partly_grows(known, data, actions, count, before, after);
        assert forall|x: u64, y: u64|
            before.contains_key(x) && !known.contains_key(x) && #[trigger] self.passes(
                known,
                x,
                y,
            ) implies before.contains_key(y) by {
            let j = choose|j: int|
                0 <= j < count && self.passes(known, self.child(data, #[trigger] actions[j]), x);
            self.lemma_action_child(data, actions[j]);
            self.lemma_passes_transitive(known, self.child(data, actions[j]), x, y);
        }
        assert forall|k: u64| #[trigger] after.contains_key(k) <==> known.contains_key(k)
            || exists|j: int|
            0 <= j < count + 1 && self.passes(known, self.child(data, #[trigger] actions[j]), k) by {
            if after.contains_key(k) {
                if before.contains_key(k) {
                    if !known.contains_key(k) {
                        let j = choose|j: int|
                            0 <= j < count && self.passes(
                                known,
                                self.child(data, #[trigger] actions[j]),
                                k,
                            );
                        assert(0 <= j < count + 1 && self.passes(
                            known,
                            self.child(data, actions[j]),
                            k,
                        ));
                    }
                } else {
                    assert(self.passes(known, self.child(data, actions[count]), k));
                }
            }
            if known.contains_key(k) {
                assert(before.contains_key(k));
                assert(after.contains_key(k));
            } else if exists|j: int|
                0 <= j < count + 1 && self.passes(known, self.child(data, #[trigger] actions[j]), k) {
                let j = choose|j: int|
                    0 <= j < count + 1 && self.passes(
                        known,
                        self.child(data, #[trigger] actions[j]),
                        k,
                    );
                if j < count {
                    assert(before.contains_key(k));
                } else {
                    self.lemma_passes_rest(known, before, next, k);
                }
                assert(after.contains_key(k));
            }
        }
    }

    /// After the searches behind all actions, and with the state's own value stored.
    proof fn lemma_partly_done(
        self,
        known: Map<u64, i8>,
        data: u64,
        actions: Seq<(u8, u8, u8)>,
        after: Map<u64, i8>,
        best: i8,
    )
        requires
            self.fits_word(),
            self.valid(data),
            self.is_open(known, data),
            actions.to_multiset() == self.actions_of(data).to_multiset(),
            self.partly(known, data, actions, actions.len() as int, after),
            best == self.value(known, data),
        ensures
            self.searched(known, data, after.insert(data, best)),
    {
        broadcast use group_to_multiset_ensures;

        let full = after.insert(data, best);
        assert forall|k: u64| #[trigger] full.contains_key(k) <==> known.contains_key(k)
            || self.passes(known, data, k) by {
            self.lemma_passes(known, data, k);
            if k != data {
                if exists|j: int|
                    0 <= j < actions.len() && self.passes(
                        known,
                        self.child(data, #[trigger] actions[j]),
                        k,
                    ) {
                    let j = choose|j: int|
                        0 <= j < actions.len() && self.passes(
                            known,
                            self.child(data, #[trigger] actions[j]),
                            k,
                        );
                    assert(actions.contains(actions[j]));
                    assert(actions.to_multiset().count(actions[j]) > 0);
                    assert(self.actions_of(data).contains(actions[j]));
                }
                if exists|action: (u8, u8, u8)|
                    #[trigger] self.actions_of(data).contains(action) && self.passes(
                        known,
                        self.child(data, action),
                        k,
                    ) {
                    let action = choose|action: (u8, u8, u8)|
                        #[trigger] self.actions_of(data).contains(action) && self.passes(
                            known,
                            self.child(data, action),
                            k,
                        );
                    assert(self.actions_of(data).to_multiset().count(action) > 0);
                    assert(actions.contains(action));
                    let j = choose|j: int| 0 <= j < actions.len() && actions[j] == action;
                    assert(self.passes(known, self.child(data, actions[j]), k));
                }
                assert(full.contains_key(k) == after.contains_key(k));
            }
        }
        assert(self.extends(known, full));
    }

    /// Where no search behind an action gets stuck, neither does the search
    /// from the state itself.
    proof fn lemma_never_stuck(
        self,
        known: Map<u64, i8>,
        data: u64,
        actions: Seq<(u8, u8, u8)>,
    )
        requires
            self.fits_word(),
            self.valid(data),
            self.actions_of(data).len() > 0,
            actions.to_multiset() == self.actions_of(data).to_multiset(),
            forall|j: int| 0 <= j < actions.len() ==> self.never_stuck(
                known,
                self.child(data, #[trigger] actions[j]),
            ),
        ensures
            self.never_stuck(known, data),
    {
        broadcast use group_to_multiset_ensures;

        assert forall|k: u64| #[trigger] self.passes(known, data, k) implies self.actions_of(
            k,
        ).len() > 0 by {
            self.lemma_passes(known, data, k);
            if k != data {
                let action = choose|action: (u8, u8, u8)|
                    #[trigger] self.actions_of(data).contains(action) && self.passes(
                        known,
                        self.child(data, action),
                        k,
                    );
                assert(self.actions_of(data).to_multiset().count(action) > 0);
                assert(actions.contains(action));
                let j = choose|j: int| 0 <= j < actions.len() && actions[j] == action;
                assert(self.never_stuck(known, self.child(data, actions[j])));
            }
        }
    }

    /// A search that knows more gets stuck only where one that knows less does,
    /// and, where everything behind what it knows is known, everywhere there.
    proof fn lemma_stuck_behind(
        self,
        known: Map<u64, i8>,
        data: u64,
        actions: Seq<(u8, u8, u8)>,
        count: int,
        before: Map<u64, i8>,
    )
        requires
            self.fits_word(),
            self.valid(data),
            self.is_open(known, data),
            0 <= count < actions.len(),
            forall|j: int| 0 <= j < actions.len() ==> self.actions_of(data).contains(
                #[trigger] actions[j],
            ),
            self.partly(known, data, actions, count, before),
            forall|j: int| 0 <= j < count ==> self.never_stuck(
                known,
                self.child(data, #[trigger] actions[j]),
            ),
        ensures
            self.never_stuck(before, self.child(data, actions[count])) <==> self.never_stuck(
                known,
                self.child(data, actions[count]),
            ),
            self.never_stuck(known, data) ==> self.never_stuck(
                known,
                self.child(data, actions[count]),
            ),
    {
        let next = self.child(data, actions[count]);
        self.lemma_action_child(data, actions[count]);
        if self.never_stuck(known, next) {
            assert forall|k: u64| #[trigger] self.passes(before, next, k) implies self.actions_of(
                k,
            ).len() > 0 by {
                self.lemma_passes_less(known, before, next, k);
            }
        }
        if self.never_stuck(before, next) {
            assert forall|x: u64, y: u64|
                before.contains_key(x) && !known.contains_key(x) && #[trigger] self.passes(
                    known,
                    x,
                    y,
                ) implies before.contains_key(y) by {
                let j = choose|j: int|
                    0 <= j < count && self.passes(known, self.child(data, #[trigger] actions[j]), x);
                self.lemma_action_child(data, actions[j]);
                self.lemma_passes_transitive(known, self.child(data, actions[j]), x, y);
            }
            assert forall|k: u64| #[trigger] self.passes(known, next, k) implies self.actions_of(
                k,
            ).len() > 0 by {
                self.lemma_passes_rest(known, before, next, k);
                if before.contains_key(k) {
                    self.lemma_passes_open(known, next, k);
                    let j = choose|j: int|
                        0 <= j < count && self.passes(
                            known,
                            self.child(data, #[trigger] actions[j]),
                            k,
                        );
                    assert(self.never_stuck(known, self.child(data, actions[j])));
                } else {
                    assert(self.passes(before, next, k));
                }
            }
        }
        if self.never_stuck(known, data) {
            self.lemma_never_stuck_behind(known, data, actions[count]);
        }
    }
}

/// Sequences with the same elements hold the same actions.
pub(crate) proof fn lemma_same_actions(actions: Seq<(u8, u8, u8)>, other: Seq<(u8, u8, u8)>)
    requires
        actions.to_multiset() == other.to_multiset(),
    ensures
        forall|j: int| 0 <= j < actions.len() ==> other.contains(#[trigger] actions[j]),
{
    broadcast use group_to_multiset_ensures;

    assert forall|j: int| 0 <= j < actions.len() implies other.contains(#[trigger] actions[j]) by {
        assert(actions.contains(actions[j]));
        assert(actions.to_multiset().count(actions[j]) > 0);
    }
}

/// All valid actions (moves, then wall placements) of the current player, as
/// row, column and type. The type is 2 for a move and the orientation for a wall.
pub fn get_all_actions(mechanics: &QGameMechanics, data: &mut u64) -> (actions: Vec<(u8, u8, u8)>)
    requires
        mechanics@.valid(*old(data)),
    ensures
        *final(data) == *old(data),
        actions@ == mechanics@.actions_of(*old(data)),
{
    let ghost board = mechanics@.word_board(*data);
    let moves = mechanics.get_valid_moves(*data);
    let walls = mechanics.get_valid_wall_placements(data);
    let mut actions: Vec<(u8, u8, u8)> = Vec::new();
    let ghost as_move = |m: (int, int)| (m.0 as u8, m.1 as u8, 2u8);
    let ghost as_wall = |w: (int, int, int)| (w.0 as u8, w.1 as u8, w.2 as u8);
    let mut i: usize = 0;
    while i < moves.len()
        invariant
            i <= moves@.len(),
            q_game_mechanics::cells(moves@) == board.moves(),
            as_move == (|m: (int, int)| (m.0 as u8, m.1 as u8, 2u8)),
            actions@ == board.moves().map_values(as_move).take(i as int),
        decreases moves@.len() - i,
    {
        let (row, col) = moves[i];
        assert(board.moves()[i as int] == (row as int, col as int));
        actions.push((row as u8, col as u8, 2u8));
        assert(actions@ =~= board.moves().map_values(as_move).take(i + 1));
        i = i + 1;
    }
    let ghost first = actions@;
    assert(first =~= board.moves().map_values(as_move));
    let mut k: usize = 0;
    assert(actions@ =~= first + board.placements().map_values(as_wall).take(0));
    while k < walls.len()
        invariant
            k <= walls@.len(),
            q_game_mechanics::wall_positions(walls@) == board.placements(),
            as_wall == (|w: (int, int, int)| (w.0 as u8, w.1 as u8, w.2 as u8)),
            actions@ == first + board.placements().map_values(as_wall).take(k as int),
        decreases walls@.len() - k,
    {
        let (row, col, orientation) = walls[k];
        assert(board.placements()[k as int] == (row as int, col as int, orientation as int));
        actions.push((row as u8, col as u8, orientation as u8));
        assert(actions@ =~= first + board.placements().map_values(as_wall).take(k + 1));
        k = k + 1;
    }
    assert(actions@ =~= board.actions());
    actions
}

/// The value of a finished game, and nothing where the game goes on.
pub fn outcome(mechanics: &QGameMechanics, data: u64) -> (value: Option<i8>)
    requires
        mechanics@.valid(data),
    ensures
        value == mechanics@.outcome(data),
{
    let player: usize = mechanics.repr().get_current_player(data);
    let opponent: usize = 1 - player;
    if mechanics.check_win(data, opponent) {
        if opponent == 0 {
            Some(1)
        } else {
            Some(-1)
        }
    } else if mechanics.repr().get_completed_steps(data) >= mechanics.repr().max_steps() {
        Some(0)
    } else {
        None
    }
}

/// The state after an action of the current player.
pub fn apply_action(mechanics: &QGameMechanics, data: u64, action: (u8, u8, u8)) -> (next: u64)
    requires
        mechanics@.valid(data),
        mechanics@.word_board(data).steps < mechanics@.max_steps,
        mechanics@.word_board(data).well_formed_action(action),
    ensures
        next == mechanics@.child(data, action),
        mechanics@.valid(next),
        mechanics@.word_board(next) == mechanics@.word_board(data).after(action),
{
    proof {
        use_type_invariant(mechanics);
        mechanics.lemma_inv();
        mechanics@.lemma_child(data, action);
    }
    let player: usize = mechanics.repr().get_current_player(data);
    let mut next: u64 = data;
    let row: usize = action.0 as usize;
    let col: usize = action.1 as usize;
    proof {
        mechanics@.lemma_acted_steps(data, action);
    }
    if action.2 == 2 {
        mechanics.execute_move(&mut next, player, row, col);
    } else {
        mechanics.execute_wall_placement(&mut next, player, row, col, action.2 as usize);
    }
    mechanics.switch_player(&mut next);
    next
}

/// The value of a state for player 0 under best play, by a search that knows
/// what the table holds. Where a generator is given, the actions of each state
/// are tried in an order that it picks.
///
/// All open states on the way and their values are added to the table. Ends
/// of games are not.
///
/// The generator is drawn from only where actions are put in order: a search
/// that ends at once, with a known value or a finished game, leaves it as it was.
///
/// Returns `None` where the search meets an open state without any action.
pub fn minimax_inner(
    mechanics: &QGameMechanics,
    data: &mut u64,
    transposition_table: &mut TranspositionTable,
    rng: &mut Option<StdRng>,
) -> (value: Option<i8>)
    requires
        mechanics@.can_search(table::entries(*old(transposition_table)), *old(data)),
    ensures
        *final(data) == *old(data),
        value is Some <==> mechanics@.never_stuck(
            table::entries(*old(transposition_table)),
            *old(data),
        ),
        value matches Some(v) ==> {
            &&& v == mechanics@.value(table::entries(*old(transposition_table)), *old(data))
            &&& mechanics@.searched(
                table::entries(*old(transposition_table)),
                *old(data),
                table::entries(*final(transposition_table)),
            )
        },
        mechanics@.within_search(
            table::entries(*old(transposition_table)),
            *old(data),
            table::entries(*final(transposition_table)),
        ),
        !mechanics@.is_open(table::entries(*old(transposition_table)), *old(data))
            ==> *final(rng) == *old(rng),
        *final(rng) is None <==> *old(rng) is None,
    decreases mechanics@.steps_left(*old(data)),
{
    let ghost layout = mechanics@;
    let ghost known = table::entries(*transposition_table);
    let ghost state = *data;
    proof {
        use_type_invariant(mechanics);
        mechanics.lemma_inv();
        if layout.valid(state) {
            layout.lemma_value(known, state);
        }
        assert forall|k: u64| #[trigger] known.contains_key(k) implies known[k] == layout.value(
            known,
            k,
        ) by {}
    }
    if let Some(entry) = table::table_get(transposition_table, *data) {
        return Some(entry);
    }
    if let Some(value) = outcome(mechanics, *data) {
        return Some(value);
    }
    let mut actions = get_all_actions(mechanics, data);
    if actions.len() == 0 {
        proof {
            layout.lemma_passes(known, state, state);
            assert(layout.passes(known, state, state));
        }
        return None;
    }
    if let Some(generator) = rng {
        table::shuffle_actions(&mut actions, generator);
    }
    let ghost acts = actions@;
    let player: usize = mechanics.repr().get_current_player(*data);
    let mut best_value: i8 = if player == 0 { -1 } else { 1 };
    proof {
        layout.lemma_order(known, state, acts, layout.actions_of(state));
        lemma_same_actions(acts, layout.actions_of(state));
        assert(acts.take(0) =~= Seq::<(u8, u8, u8)>::empty());
    }
    let mut i: usize = 0;
    while i < actions.len()
        invariant
            i <= acts.len(),
            actions@ == acts,
            layout == mechanics@,
            layout.fits_word(),
            *data == state,
            layout.valid(state),
            layout.is_open(known, state),
            player == layout.word_board(state).player,
            layout.actions_of(state).len() > 0,
            acts.to_multiset() == layout.actions_of(state).to_multiset(),
            forall|j: int| 0 <= j < acts.len() ==> layout.actions_of(state).contains(
                #[trigger] acts[j],
            ),
            layout.partly(known, state, acts, i as int, table::entries(*transposition_table)),
            forall|j: int| 0 <= j < i ==> layout.never_stuck(
                known,
                layout.child(state, #[trigger] acts[j]),
            ),
            best_value == layout.best_of(known, state, acts.take(i as int)),
            layout.steps_left(state) == layout.steps_left(*old(data)),
            known == table::entries(*old(transposition_table)),
            state == *old(data),
            *rng is None <==> *old(rng) is None,
        decreases acts.len() - i,
    {
        let ghost before = table::entries(*transposition_table);
        proof {
            layout.lemma_action_child(state, acts[i as int]);
            layout.lemma_stuck_behind(known, state, acts, i as int, before);
        }
        let mut new_data: u64 = apply_action(mechanics, *data, actions[i]);
        let child = minimax_inner(mechanics, &mut new_data, transposition_table, rng);
        proof {
            layout.lemma_partly_grows(
                known,
                state,
                acts,
                i as int,
                before,
                table::entries(*transposition_table),
            );
        }
        match child {
            None => {
                proof {
                    layout.lemma_stuck_adds(
                        known,
                        state,
                        acts,
                        i as int,
                        before,
                        table::entries(*transposition_table),
                    );
                }
                return None;
            },
            Some(child_value) => {
                proof {
                    layout.lemma_partly_step(
                        known,
                        state,
                        acts,
                        i as int,
                        before,
                        table::entries(*transposition_table),
                    );
                    layout.lemma_best_of_next(known, state, acts, i as int);
                }
                if player == 0 {
                    if child_value > best_value {
                        best_value = child_value;
                    }
                } else {
                    if child_value < best_value {
                        best_value = child_value;
                    }
                }
            },
        }
        i = i + 1;
    }
    proof {
        assert(acts.take(acts.len() as int) =~= acts);
        layout.lemma_partly_done(
            known,
            state,
            acts,
            table::entries(*transposition_table),
            best_value,
        );
        layout.lemma_never_stuck(known, state, acts);
    }
    table::table_insert(transposition_table, *data, best_value);
    Some(best_value)
}

/// The value of a state for player 0 under best play:
/// - `1` = player 0 wins with best play
/// - `0` = the game is a tie with best play
/// - `-1` = player 1 wins with best play
///
/// All open states on the way and their values are stored in the table, for
/// later export to a policy database.
pub fn minimax(
    mechanics: &QGameMechanics,
    data: &mut u64,
    transposition_table: &mut TranspositionTable,
) -> (value: i8)
    requires
        mechanics@.can_search(table::entries(*old(transposition_table)), *old(data)),
        mechanics@.never_stuck(table::entries(*old(transposition_table)), *old(data)),
    ensures
        *final(data) == *old(data),
        value == mechanics@.value(table::entries(*old(transposition_table)), *old(data)),
        mechanics@.searched(
            table::entries(*old(transposition_table)),
            *old(data),
            table::entries(*final(transposition_table)),
        ),
{
    let mut in_order: Option<StdRng> = None;
    minimax_inner(mechanics, data, transposition_table, &mut in_order).unwrap()
}

} // verus!
