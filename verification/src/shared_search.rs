//! A transposition table that several searches share, and the search on it.
//!
//! Searches that run at the same time find in the table what the others have
//! stored. What any of them finds there is right, whoever stored it when, and
//! lies on the way of a search from the state in which all of them start. A state
//! is stored only when everything open behind it is, so that with the first state
//! the table holds the whole search.

use vstd::prelude::*;
use vstd::rwlock::{RwLock, RwLockPredicate};
use rand::rngs::StdRng;
use crate::layout::Layout;
use crate::minimax;
use crate::q_game_mechanics::QGameMechanics;
use crate::table;
use crate::table::TranspositionTable;

verus! {

/// Where the searches on a shared table start: from what is known, in a state.
pub struct Origin {
    pub layout: Layout,
    pub known: Map<u64, i8>,
    pub root: u64,
}

impl Origin {
    /// Whether a state is one that the searches may come to: where they start,
    /// one that they pass through, or one behind which they do not look.
    pub open spec fn reaches(self, data: u64) -> bool {
        ||| data == self.root
        ||| !self.layout.is_open(self.known, data)
        ||| self.layout.passes(self.known, self.root, data)
    }
}

impl RwLockPredicate<TranspositionTable> for Origin {
    open spec fn inv(self, table: TranspositionTable) -> bool {
        &&& self.layout.within_search(self.known, self.root, table::entries(table))
        &&& self.layout.settled(self.known, table::entries(table))
    }
}

/// A transposition table that several searches share.
pub struct SharedTable {
    lock: RwLock<TranspositionTable, Origin>,
}

impl View for SharedTable {
    type V = Origin;

    closed spec fn view(&self) -> Origin {
        self.lock.pred()
    }
}

impl SharedTable {
    /// Shares a table among searches of one game that start in one state.
    pub fn new(mechanics: &QGameMechanics, table: TranspositionTable, root: u64) -> (shared: Self)
        ensures
            shared@ == (Origin { layout: mechanics@, known: table::entries(table), root }),
    {
        let ghost origin = Origin { layout: mechanics@, known: table::entries(table), root };
        SharedTable { lock: RwLock::new(table, Ghost(origin)) }
    }

    /// The value of a state, if some search has stored it or it was known from
    /// the start.
    pub fn get(&self, key: u64) -> (value: Option<i8>)
        ensures
            value matches Some(v) ==> v == self@.layout.value(self@.known, key),
            value is Some ==> self@.known.contains_key(key) || self@.layout.passes(
                self@.known,
                self@.root,
                key,
            ),
            self@.known.contains_key(key) ==> value is Some,
    {
        let handle = self.lock.acquire_read();
        let value = table::table_get(handle.borrow(), key);
        handle.release_read();
        value
    }

    /// Stores the value of a state on the way, where the unfinished states behind
    /// it are all stored or known. `behind` lists them. Returns whether they are.
    ///
    /// What the table holds from then on is known only to lie within the search,
    /// since other searches write to it too.
    pub fn insert(&self, key: u64, value: i8, behind: &Vec<u64>) -> (stored: bool)
        requires
            value == self@.layout.value(self@.known, key),
            self@.layout.passes(self@.known, self@.root, key),
            self@.layout.actions_of(key).len() > 0,
            lists_unfinished(self@.layout, key, self@.layout.actions_of(key), behind@),
        ensures
            (forall|j: int|
                0 <= j < behind@.len() ==> self@.known.contains_key(#[trigger] behind@[j]))
                ==> stored,
            stored ==> forall|j: int|
                0 <= j < behind@.len() ==> self@.known.contains_key(#[trigger] behind@[j])
                    || self@.layout.passes(self@.known, self@.root, behind@[j]),
    {
        let (mut table, handle) = self.lock.acquire_write();
        let ghost before = table::entries(table);
        let mut stored: bool = true;
        let mut i: usize = 0;
        while i < behind.len()
            invariant
                i <= behind@.len(),
                before == table::entries(table),
                stored <==> forall|j: int| 0 <= j < i ==> before.contains_key(
                    #[trigger] behind@[j],
                ),
            decreases behind@.len() - i,
        {
            if table::table_get(&table, behind[i]).is_none() {
                stored = false;
            }
            i = i + 1;
        }
        if stored {
            table::table_insert(&mut table, key, value);
            proof {
                lemma_insert(self@, before, key, value, behind@);
            }
        }
        handle.release_write(table);
        stored
    }

    /// The table, once no search uses it any more. Where it holds the state in
    /// which the searches started, it is the table of the whole search.
    pub fn into_table(self) -> (table: TranspositionTable)
        ensures
            self@.layout.within_search(self@.known, self@.root, table::entries(table)),
            self@.layout.settled(self@.known, table::entries(table)),
            self@.layout.fits_word() && self@.layout.can_search(self@.known, self@.root) && (
            table::entries(table).contains_key(self@.root) || !self@.layout.is_open(
                self@.known,
                self@.root,
            )) ==> self@.layout.searched(self@.known, self@.root, table::entries(table)),
    {
        let ghost origin = self@;
        let table = self.lock.into_inner();
        proof {
            let layout = origin.layout;
            let left = table::entries(table);
            if layout.fits_word() && layout.can_search(origin.known, origin.root) && (
            left.contains_key(origin.root) || !layout.is_open(origin.known, origin.root)) {
                layout.lemma_settled_is_searched(origin.known, origin.root, left);
            }
        }
        table
    }
}

/// Whether a list holds every state that some actions lead to and that is not
/// the end of a game.
#[verifier::opaque]
pub open spec fn lists_unfinished(
    layout: Layout,
    data: u64,
    actions: Seq<(u8, u8, u8)>,
    list: Seq<u64>,
) -> bool {
    forall|action: (u8, u8, u8)| #[trigger]
        actions.contains(action) && layout.outcome(layout.child(data, action)) is None
            ==> list.contains(layout.child(data, action))
}

/// Storing a state behind which everything is stored keeps a table in order.
proof fn lemma_insert(
    origin: Origin,
    before: Map<u64, i8>,
    key: u64,
    value: i8,
    behind: Seq<u64>,
)
    requires
        origin.layout.within_search(origin.known, origin.root, before),
        origin.layout.settled(origin.known, before),
        value == origin.layout.value(origin.known, key),
        origin.layout.passes(origin.known, origin.root, key),
        origin.layout.actions_of(key).len() > 0,
        lists_unfinished(origin.layout, key, origin.layout.actions_of(key), behind),
        forall|j: int| 0 <= j < behind.len() ==> before.contains_key(#[trigger] behind[j]),
    ensures
        origin.layout.within_search(origin.known, origin.root, before.insert(key, value)),
        origin.layout.settled(origin.known, before.insert(key, value)),
{
    reveal(lists_unfinished);
    let layout = origin.layout;
    let known = origin.known;
    let after = before.insert(key, value);
    assert forall|x: u64| #[trigger]
        after.contains_key(x) && !known.contains_key(x) implies layout.settled_at(
        known,
        after,
        x,
    ) by {
        if x != key {
            assert(before.contains_key(x));
            assert(layout.settled_at(known, before, x));
        } else {
            assert forall|action: (u8, u8, u8)| #[trigger]
                layout.actions_of(x).contains(action) && layout.is_open(
                    known,
                    layout.child(x, action),
                ) implies after.contains_key(layout.child(x, action)) by {
                let next = layout.child(x, action);
                assert(behind.contains(next));
                let j = choose|j: int| 0 <= j < behind.len() && behind[j] == next;
                assert(before.contains_key(behind[j]));
            }
        }
    }
}

/// The value of a state for player 0 under best play, by a search on a shared
/// table. Where a generator is given, the actions of each state are tried in an
/// order that it picks.
///
/// Returns `None` where the search meets an open state without any action.
#[verifier::spinoff_prover]
#[verifier::rlimit(50)]
pub fn minimax_shared(
    mechanics: &QGameMechanics,
    data: &mut u64,
    shared: &SharedTable,
    rng: &mut Option<StdRng>,
) -> (value: Option<i8>)
    requires
        mechanics@.can_search(shared@.known, *old(data)),
        shared@.layout == mechanics@,
        mechanics@.can_search(shared@.known, shared@.root),
        shared@.reaches(*old(data)),
    ensures
        *final(data) == *old(data),
        value matches Some(v) ==> v == mechanics@.value(shared@.known, *old(data)),
        mechanics@.never_stuck(shared@.known, *old(data)) ==> value is Some,
        !mechanics@.is_open(shared@.known, *old(data)) ==> *final(rng) == *old(rng),
        *final(rng) is None <==> *old(rng) is None,
    decreases mechanics@.steps_left(*old(data)),
{
    let ghost layout = mechanics@;
    let ghost known = shared@.known;
    let ghost state = *data;
    proof {
        use_type_invariant(mechanics);
        mechanics.lemma_inv();
        if layout.valid(state) {
            layout.lemma_value(known, state);
        }
        assert(layout.is_open(known, state) ==> layout.passes(known, shared@.root, state)) by {
            if layout.is_open(known, state) {
                layout.lemma_passes(known, state, state);
            }
        }
    }
    if let Some(entry) = shared.get(*data) {
        return Some(entry);
    }
    if let Some(value) = minimax::outcome(mechanics, *data) {
        return Some(value);
    }
    let mut actions = minimax::get_all_actions(mechanics, data);
    if actions.len() == 0 {
        assert(!layout.never_stuck(known, state)) by {
            layout.lemma_passes(known, state, state);
            assert(layout.passes(known, state, state));
        }
        return None;
    }
    if let Some(generator) = rng {
        table::shuffle_actions(&mut actions, generator);
    }
    let ghost acts = actions@;
    let player: usize = mechanics.repr().get_current_player(*data);
    let mut best_value: i8 = if player == 0 { -1 } else { 1 };
    proof {
        layout.lemma_order(known, state, acts, layout.actions_of(state));
        minimax::lemma_same_actions(acts, layout.actions_of(state));
        assert(acts.take(0) =~= Seq::<(u8, u8, u8)>::empty());
        assert(lists_unfinished(layout, state, acts.take(0), Seq::<u64>::empty())) by {
            reveal(lists_unfinished);
        }
    }
    let mut behind: Vec<u64> = Vec::new();
    let mut i: usize = 0;
    while i < actions.len()
        invariant
            i <= acts.len(),
            lists_unfinished(layout, state, acts.take(i as int), behind@),
            actions@ == acts,
            layout == mechanics@,
            layout.fits_word(),
            *data == state,
            state == *old(data),
            layout.valid(state),
            layout.is_open(known, state),
            shared@.known == known,
            shared@.layout == layout,
            layout.valid(shared@.root),
            layout.passes(known, shared@.root, state),
            *rng is None <==> *old(rng) is None,
            player == layout.word_board(state).player,
            forall|j: int| 0 <= j < acts.len() ==> layout.actions_of(state).contains(
                #[trigger] acts[j],
            ),
            best_value == layout.best_of(known, state, acts.take(i as int)),
            acts.to_multiset() == layout.actions_of(state).to_multiset(),
            layout.actions_of(state).len() > 0,
        decreases acts.len() - i,
    {
        proof {
            let next = layout.child(state, acts[i as int]);
            layout.lemma_action_child(state, acts[i as int]);
            if layout.is_open(known, next) {
                layout.lemma_passes(known, next, next);
                layout.lemma_passes(known, state, next);
                layout.lemma_passes_transitive(known, shared@.root, state, next);
            }
            if layout.never_stuck(known, state) {
                layout.lemma_never_stuck_behind(known, state, acts[i as int]);
            }
        }
        let mut new_data: u64 = minimax::apply_action(mechanics, *data, actions[i]);
        let ghost listed = behind@;
        if minimax::outcome(mechanics, new_data).is_none() {
            behind.push(new_data);
        }
        proof {
            lemma_lists_next(layout, state, acts, i as int, listed, behind@);
        }
        match minimax_shared(mechanics, &mut new_data, shared, rng) {
            None => {
                return None;
            },
            Some(child_value) => {
                proof {
                    layout.lemma_best_of_next(known, state, acts, i as int);
                }
                if player == 0 {
                    if child_value > best_value {
                        best_value = child_value;
                    }
                } else {
                    if child_value < best_value {
                        best_value = child_value;
                    }
                }
            },
        }
        i = i + 1;
    }
    proof {
        assert(acts.take(acts.len() as int) =~= acts);
        lemma_lists_all(layout, state, acts, layout.actions_of(state), behind@);
    }
    shared.insert(*data, best_value, &behind);
    Some(best_value)
}

/// One more action, and its state in the list where it is not the end of a game.
proof fn lemma_lists_next(
    layout: Layout,
    data: u64,
    actions: Seq<(u8, u8, u8)>,
    count: int,
    before: Seq<u64>,
    after: Seq<u64>,
)
    requires
        0 <= count < actions.len(),
        lists_unfinished(layout, data, actions.take(count), before),
        after == if layout.outcome(layout.child(data, actions[count])) is None {
            before.push(layout.child(data, actions[count]))
        } else {
            before
        },
    ensures
        lists_unfinished(layout, data, actions.take(count + 1), after),
{
    reveal(lists_unfinished);
    let part = actions.take(count);
    let longer = actions.take(count + 1);
    assert forall|action: (u8, u8, u8)| #[trigger]
        longer.contains(action) && layout.outcome(
            layout.child(data, action),
        ) is None implies after.contains(layout.child(data, action)) by {
        let next = layout.child(data, action);
        let j = choose|j: int| 0 <= j < longer.len() && longer[j] == action;
        if j < count {
            assert(part[j] == action);
            assert(part.contains(action));
            let k = choose|k: int| 0 <= k < before.len() && before[k] == next;
            assert(after[k] == next);
        } else {
            assert(after[after.len() - 1] == next);
        }
    }
}

/// Whatever the order of the actions, the list is of the same states.
proof fn lemma_lists_all(
    layout: Layout,
    data: u64,
    actions: Seq<(u8, u8, u8)>,
    other: Seq<(u8, u8, u8)>,
    list: Seq<u64>,
)
    requires
        actions.to_multiset() == other.to_multiset(),
        lists_unfinished(layout, data, actions, list),
    ensures
        lists_unfinished(layout, data, other, list),
{
    reveal(lists_unfinished);
    minimax::lemma_same_actions(other, actions);
    assert forall|action: (u8, u8, u8)| #[trigger]
        other.contains(action) && layout.outcome(
            layout.child(data, action),
        ) is None implies list.contains(layout.child(data, action)) by {
        let j = choose|j: int| 0 <= j < other.len() && other[j] == action;
        assert(actions.contains(other[j]));
    }
}

/// One of several searches for the value of a state that run at the same time:
/// it tries the actions in an order of its own, which the seed determines.
pub fn minimax_lazy_smp_worker(
    mechanics: &QGameMechanics,
    data: u64,
    shared: &SharedTable,
    seed: u64,
) -> (value: Option<i8>)
    requires
        mechanics@.can_search(shared@.known, data),
        shared@.layout == mechanics@,
        data == shared@.root,
    ensures
        value matches Some(v) ==> v == mechanics@.value(shared@.known, data),
        mechanics@.never_stuck(shared@.known, data) ==> value is Some,
{
    let mut rng: Option<StdRng> = Some(table::seeded_rng(seed));
    let mut root: u64 = data;
    minimax_shared(mechanics, &mut root, shared, &mut rng)
}

/// Ends the searches on a shared table: the value of the state in which they
/// started, and the table that is left, which is that of the whole search.
///
/// The value is looked up where a search has stored it. Where none has, what is
/// missing is searched here.
///
/// Gives no value where the search meets an open state without any action.
pub fn minimax_lazy_smp_finish(
    mechanics: &QGameMechanics,
    data: u64,
    shared: SharedTable,
) -> (result: (Option<i8>, TranspositionTable))
    requires
        mechanics@.can_search(shared@.known, data),
        shared@.layout == mechanics@,
        data == shared@.root,
    ensures
        result.0 is Some <==> mechanics@.never_stuck(shared@.known, data),
        result.0 matches Some(v) ==> {
            &&& v == mechanics@.value(shared@.known, data)
            &&& mechanics@.searched(shared@.known, data, table::entries(result.1))
        },
        mechanics@.within_search(shared@.known, data, table::entries(result.1)),
{
    let ghost known = shared@.known;
    let mut table = shared.into_table();
    proof {
        use_type_invariant(mechanics);
        mechanics.lemma_inv();
        mechanics@.lemma_search_goes_on(known, data, table::entries(table));
    }
    let mut root: u64 = data;
    let mut in_order: Option<StdRng> = None;
    let value: Option<i8> = minimax::minimax_inner(mechanics, &mut root, &mut table, &mut in_order);
    (value, table)
}

} // verus!
