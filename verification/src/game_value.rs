//! The value of a game under best play, and the states that a search for it
//! passes through.
//!
//! Values are seen from player 0: 1 is a win, 0 a tie, -1 a loss. Everything is
//! stated relative to values that are already known: a search does not look
//! behind a known state. With nothing known, this is the value of the game itself.

use vstd::prelude::*;
use crate::layout::Layout;

verus! {

/// A seq folded by two functions that agree on its elements.
proof fn lemma_fold_agree<A, B>(
    s: Seq<A>,
    start: B,
    f: spec_fn(B, A) -> B,
    g: spec_fn(B, A) -> B,
)
    requires
        forall|i: int, b: B| #![trigger f(b, s[i])] 0 <= i < s.len() ==> f(b, s[i]) == g(b, s[i]),
    ensures
        s.fold_left(start, f) == s.fold_left(start, g),
    decreases s.len(),
{
    if s.len() > 0 {
        let t = s.drop_last();
        assert forall|i: int, b: B| #![trigger f(b, t[i])] 0 <= i < t.len() implies f(b, t[i])
            == g(b, t[i]) by {
            assert(t[i] == s[i]);
            assert(f(b, s[i]) == g(b, s[i]));
        }
        lemma_fold_agree(t, start, f, g);
        let b = t.fold_left(start, f);
        assert(f(b, s[s.len() - 1]) == g(b, s[s.len() - 1]));
    }
}

/// The worst value for a player, from which a comparison starts.
pub open spec fn worst(player: nat) -> i8 {
    if player == 0 {
        -1i8
    } else {
        1
    }
}

/// The value that a player prefers: player 0 the greater, player 1 the lesser.
pub open spec fn preferred(player: nat, a: i8, b: i8) -> i8 {
    if player == 0 {
        if b > a {
            b
        } else {
            a
        }
    } else {
        if b < a {
            b
        } else {
            a
        }
    }
}

impl Layout {
    /// The actions of the current player in a state.
    pub open spec fn actions_of(self, data: u64) -> Seq<(u8, u8, u8)> {
        self.word_board(data).actions()
    }

    /// The value of a finished game: the opponent of the player to act stands
    /// on their goal row, or the steps are used up.
    pub open spec fn outcome(self, data: u64) -> Option<i8> {
        let board = self.word_board(data);
        if board.won(1 - board.player) {
            Some(
                if board.player == 1 {
                    1
                } else {
                    -1i8
                },
            )
        } else if board.steps >= self.max_steps {
            Some(0)
        } else {
            None
        }
    }

    /// The steps that are left.
    pub open spec fn steps_left(self, data: u64) -> nat {
        let steps = self.word_board(data).steps;
        if steps >= self.max_steps {
            0
        } else {
            (self.max_steps - steps) as nat
        }
    }

    /// The value of a state where at most `depth` further steps are made.
    pub open spec fn value_within(self, known: Map<u64, i8>, data: u64, depth: nat) -> i8
        decreases depth, 0nat,
    {
        if known.contains_key(data) {
            known[data]
        } else {
            match self.outcome(data) {
                Some(value) => value,
                None => if depth == 0 {
                    0
                } else {
                    self.best_within(known, data, self.actions_of(data), (depth - 1) as nat)
                },
            }
        }
    }

    /// What the current player prefers among the values that some actions lead
    /// to, where at most `depth` steps follow.
    pub open spec fn best_within(
        self,
        known: Map<u64, i8>,
        data: u64,
        actions: Seq<(u8, u8, u8)>,
        depth: nat,
    ) -> i8
        decreases depth, actions.len() + 1,
    {
        let player = self.word_board(data).player;
        if actions.len() == 0 {
            worst(player)
        } else {
            preferred(
                player,
                self.best_within(known, data, actions.drop_last(), depth),
                self.value_within(known, self.child(data, actions.last()), depth),
            )
        }
    }

    /// The value of a state under best play of both players.
    pub open spec fn value(self, known: Map<u64, i8>, data: u64) -> i8 {
        self.value_within(known, data, self.steps_left(data))
    }

    /// What the current player prefers among the values that some actions lead to.
    pub open spec fn best_of(
        self,
        known: Map<u64, i8>,
        data: u64,
        actions: Seq<(u8, u8, u8)>,
    ) -> i8 {
        let player = self.word_board(data).player;
        actions.fold_left(
            worst(player),
            |best: i8, action: (u8, u8, u8)|
                preferred(player, best, self.value(known, self.child(data, action))),
        )
    }

    /// Whether a search has to look behind a state: its value is not known and
    /// the game goes on.
    pub open spec fn is_open(self, known: Map<u64, i8>, data: u64) -> bool {
        !known.contains_key(data) && self.outcome(data) is None
    }

    /// Whether a search from a state passes through another within `depth` steps.
    pub open spec fn passes_within(
        self,
        known: Map<u64, i8>,
        data: u64,
        other: u64,
        depth: nat,
    ) -> bool
        decreases depth,
    {
        &&& self.is_open(known, data)
        &&& other == data || (depth > 0 && exists|action: (u8, u8, u8)|
            #[trigger] self.actions_of(data).contains(action) && self.passes_within(
                known,
                self.child(data, action),
                other,
                (depth - 1) as nat,
            ))
    }

    /// Whether a search from a state passes through another open state.
    pub open spec fn passes(self, known: Map<u64, i8>, data: u64, other: u64) -> bool {
        self.passes_within(known, data, other, self.steps_left(data))
    }

    /// Whether every open state that a search passes through offers an action.
    pub open spec fn never_stuck(self, known: Map<u64, i8>, data: u64) -> bool {
        forall|other: u64| #[trigger]
            self.passes(known, data, other) ==> self.actions_of(other).len() > 0
    }

    /// Whether a table of values extends another by right values.
    pub open spec fn extends(self, known: Map<u64, i8>, more: Map<u64, i8>) -> bool {
        &&& forall|k: u64| #[trigger]
            known.contains_key(k) ==> more.contains_key(k) && more[k] == known[k]
        &&& forall|k: u64| #[trigger]
            more.contains_key(k) ==> more[k] == self.value(known, k)
    }

    /// Whether a table is what a search from a state leaves of what was known:
    /// exactly the open states on the way have been added, with their values.
    pub open spec fn searched(
        self,
        known: Map<u64, i8>,
        data: u64,
        after: Map<u64, i8>,
    ) -> bool {
        &&& self.extends(known, after)
        &&& forall|k: u64| #[trigger]
            after.contains_key(k) <==> known.contains_key(k) || self.passes(known, data, k)
    }

    /// Whether a table holds, beyond what was known, only open states that a
    /// search from a state passes through, with their values.
    pub open spec fn within_search(
        self,
        known: Map<u64, i8>,
        data: u64,
        table: Map<u64, i8>,
    ) -> bool {
        &&& self.extends(known, table)
        &&& forall|k: u64| #[trigger]
            table.contains_key(k) ==> known.contains_key(k) || self.passes(known, data, k)
    }

    /// Whether a table holds, beyond what was known, only states whose actions
    /// have been searched: there are some, and what they lead to is stored too
    /// wherever it is open.
    pub open spec fn settled(self, known: Map<u64, i8>, table: Map<u64, i8>) -> bool {
        forall|x: u64| #[trigger]
            table.contains_key(x) && !known.contains_key(x) ==> self.settled_at(known, table, x)
    }

    /// Whether the actions of a state have been searched.
    pub open spec fn settled_at(self, known: Map<u64, i8>, table: Map<u64, i8>, x: u64) -> bool {
        &&& self.actions_of(x).len() > 0
        &&& forall|action: (u8, u8, u8)| #[trigger]
            self.actions_of(x).contains(action) && self.is_open(known, self.child(x, action))
                ==> table.contains_key(self.child(x, action))
    }

    /// Whether a search may be asked for the value of a state: the state is
    /// known, or it describes a board.
    pub open spec fn can_search(self, known: Map<u64, i8>, data: u64) -> bool {
        known.contains_key(data) || self.valid(data)
    }

    /// An action of an open state leads to a valid state with one step less left.
    pub proof fn lemma_action_child(self, data: u64, action: (u8, u8, u8))
        requires
            self.fits_word(),
            self.valid(data),
            self.outcome(data) is None,
            self.actions_of(data).contains(action),
        ensures
            self.word_board(data).well_formed_action(action),
            self.valid(self.child(data, action)),
            self.steps_left(self.child(data, action)) + 1 == self.steps_left(data),
    {
        self.lemma_widths();
        self.lemma_word_shape(data);
        let board = self.word_board(data);
        board.lemma_actions_well_formed();
        let i = choose|i: int| 0 <= i < board.actions().len() && board.actions()[i] == action;
        assert(board.well_formed_action(board.actions()[i]));
        self.lemma_child(data, action);
        board.lemma_after_ok(action);
    }

    /// The value of an open state is what the player to act prefers among the
    /// values of the states that their actions lead to; that of a finished
    /// game is its outcome; that of a known state is known.
    pub proof fn lemma_value(self, known: Map<u64, i8>, data: u64)
        requires
            self.fits_word(),
            self.valid(data),
        ensures
            self.value(known, data) == if known.contains_key(data) {
                known[data]
            } else {
                match self.outcome(data) {
                    Some(value) => value,
                    None => self.best_of(known, data, self.actions_of(data)),
                }
            },
    {
        if self.is_open(known, data) {
            let acts = self.actions_of(data);
            assert(acts.take(acts.len() as int) =~= acts);
            self.lemma_best_within(known, data, acts.len());
        }
    }

    proof fn lemma_best_within(self, known: Map<u64, i8>, data: u64, count: nat)
        requires
            self.fits_word(),
            self.valid(data),
            self.outcome(data) is None,
            count <= self.actions_of(data).len(),
        ensures
            self.best_within(
                known,
                data,
                self.actions_of(data).take(count as int),
                (self.steps_left(data) - 1) as nat,
            ) == self.best_of(known, data, self.actions_of(data).take(count as int)),
        decreases count,
    {
        if count > 0 {
            let acts = self.actions_of(data);
            let part = acts.take(count as int);
            assert(part.drop_last() =~= acts.take(count - 1));
            self.lemma_best_within(known, data, (count - 1) as nat);
            assert(part.last() == acts[count - 1]);
            assert(acts.contains(acts[count - 1]));
            self.lemma_action_child(data, acts[count - 1]);
        }
    }

    /// What a search passes through: the state itself, if it is open, and what
    /// searches from the states behind it pass through.
    pub proof fn lemma_passes(self, known: Map<u64, i8>, data: u64, other: u64)
        requires
            self.fits_word(),
            self.valid(data),
        ensures
            self.passes(known, data, other) <==> self.is_open(known, data) && (other == data
                || exists|action: (u8, u8, u8)|
                #[trigger] self.actions_of(data).contains(action) && self.passes(
                    known,
                    self.child(data, action),
                    other,
                )),
    {
        if self.is_open(known, data) {
            let acts = self.actions_of(data);
            assert forall|action: (u8, u8, u8)| #[trigger] acts.contains(action) implies self.passes(
                known,
                self.child(data, action),
                other,
            ) == self.passes_within(
                known,
                self.child(data, action),
                other,
                (self.steps_left(data) - 1) as nat,
            ) by {
                self.lemma_action_child(data, action);
            }
        }
    }

    /// Every state that a search passes through is valid, not yet known and not
    /// the end of a game.
    pub proof fn lemma_passes_open(self, known: Map<u64, i8>, data: u64, other: u64)
        requires
            self.fits_word(),
            self.valid(data),
            self.passes(known, data, other),
        ensures
            self.is_open(known, other),
            self.valid(other),
        decreases self.steps_left(data),
    {
        self.lemma_passes(known, data, other);
        if other != data {
            let action = choose|action: (u8, u8, u8)|
                #[trigger] self.actions_of(data).contains(action) && self.passes(
                    known,
                    self.child(data, action),
                    other,
                );
            self.lemma_action_child(data, action);
            self.lemma_passes_open(known, self.child(data, action), other);
        }
    }

    /// What is passed through from a state that is passed through is passed
    /// through too.
    pub proof fn lemma_passes_transitive(
        self,
        known: Map<u64, i8>,
        data: u64,
        middle: u64,
        other: u64,
    )
        requires
            self.fits_word(),
            self.valid(data),
            self.passes(known, data, middle),
            self.passes(known, middle, other),
        ensures
            self.passes(known, data, other),
        decreases self.steps_left(data),
    {
        self.lemma_passes(known, data, middle);
        self.lemma_passes(known, data, other);
        if middle != data {
            let action = choose|action: (u8, u8, u8)|
                #[trigger] self.actions_of(data).contains(action) && self.passes(
                    known,
                    self.child(data, action),
                    middle,
                );
            self.lemma_action_child(data, action);
            self.lemma_passes_transitive(known, self.child(data, action), middle, other);
        }
    }

    /// Knowing more right values changes no value.
    pub proof fn lemma_value_extends(self, known: Map<u64, i8>, more: Map<u64, i8>, data: u64)
        requires
            self.fits_word(),
            self.valid(data),
            self.extends(known, more),
        ensures
            self.value(more, data) == self.value(known, data),
        decreases self.steps_left(data),
    {
        self.lemma_value(known, data);
        self.lemma_value(more, data);
        if self.is_open(more, data) {
            let player = self.word_board(data).player;
            let acts = self.actions_of(data);
            let f = |best: i8, action: (u8, u8, u8)|
                preferred(player, best, self.value(more, self.child(data, action)));
            let g = |best: i8, action: (u8, u8, u8)|
                preferred(player, best, self.value(known, self.child(data, action)));
            assert forall|i: int, b: i8| #![trigger f(b, acts[i])] 0 <= i < acts.len() implies f(
                b,
                acts[i],
            ) == g(b, acts[i]) by {
                assert(acts.contains(acts[i]));
                self.lemma_action_child(data, acts[i]);
                self.lemma_value_extends(known, more, self.child(data, acts[i]));
            }
            lemma_fold_agree(acts, worst(player), f, g);
            assert(!known.contains_key(data));
        }
    }

    /// Knowing more, a search passes through no other states than before.
    pub proof fn lemma_passes_less(
        self,
        known: Map<u64, i8>,
        more: Map<u64, i8>,
        data: u64,
        other: u64,
    )
        requires
            self.fits_word(),
            self.valid(data),
            self.extends(known, more),
            self.passes(more, data, other),
        ensures
            self.passes(known, data, other),
        decreases self.steps_left(data),
    {
        self.lemma_passes(known, data, other);
        self.lemma_passes(more, data, other);
        assert(!known.contains_key(data));
        if other != data {
            let action = choose|action: (u8, u8, u8)|
                #[trigger] self.actions_of(data).contains(action) && self.passes(
                    more,
                    self.child(data, action),
                    other,
                );
            self.lemma_action_child(data, action);
            self.lemma_passes_less(known, more, self.child(data, action), other);
        }
    }

    /// Where everything behind a state that has become known has become known
    /// too, a search that knows more leaves out only what it knows.
    pub proof fn lemma_passes_rest(
        self,
        known: Map<u64, i8>,
        more: Map<u64, i8>,
        data: u64,
        other: u64,
    )
        requires
            self.fits_word(),
            self.valid(data),
            self.extends(known, more),
            self.passes(known, data, other),
            forall|x: u64, y: u64|
                more.contains_key(x) && !known.contains_key(x) && #[trigger] self.passes(
                    known,
                    x,
                    y,
                ) ==> more.contains_key(y),
        ensures
            more.contains_key(other) || self.passes(more, data, other),
        decreases self.steps_left(data),
    {
        self.lemma_passes(known, data, other);
        self.lemma_passes(more, data, other);
        if !more.contains_key(data) && other != data {
            let action = choose|action: (u8, u8, u8)|
                #[trigger] self.actions_of(data).contains(action) && self.passes(
                    known,
                    self.child(data, action),
                    other,
                );
            self.lemma_action_child(data, action);
            self.lemma_passes_rest(known, more, self.child(data, action), other);
        }
    }

    /// Where a search never gets stuck, neither do those behind its actions.
    pub proof fn lemma_never_stuck_behind(
        self,
        known: Map<u64, i8>,
        data: u64,
        action: (u8, u8, u8),
    )
        requires
            self.fits_word(),
            self.valid(data),
            self.is_open(known, data),
            self.actions_of(data).contains(action),
            self.never_stuck(known, data),
        ensures
            self.never_stuck(known, self.child(data, action)),
    {
        let next = self.child(data, action);
        assert forall|k: u64| #[trigger] self.passes(known, next, k) implies self.actions_of(
            k,
        ).len() > 0 by {
            self.lemma_passes(known, data, k);
            assert(self.passes(known, data, k));
        }
    }

    /// One more action: what the player prefers between the value that it leads
    /// to and the best before.
    pub proof fn lemma_best_of_next(
        self,
        known: Map<u64, i8>,
        data: u64,
        actions: Seq<(u8, u8, u8)>,
        count: int,
    )
        requires
            0 <= count < actions.len(),
        ensures
            self.best_of(known, data, actions.take(count + 1)) == preferred(
                self.word_board(data).player,
                self.best_of(known, data, actions.take(count)),
                self.value(known, self.child(data, actions[count])),
            ),
    {
        let part = actions.take(count + 1);
        assert(part.drop_last() =~= actions.take(count));
        assert(part.last() == actions[count]);
    }

    /// Whatever the order of the actions, the preferred value is the same.
    pub proof fn lemma_order(
        self,
        known: Map<u64, i8>,
        data: u64,
        actions: Seq<(u8, u8, u8)>,
        other: Seq<(u8, u8, u8)>,
    )
        requires
            actions.to_multiset() == other.to_multiset(),
        ensures
            self.best_of(known, data, actions) == self.best_of(known, data, other),
    {
        let player = self.word_board(data).player;
        let f = |best: i8, action: (u8, u8, u8)|
            preferred(player, best, self.value(known, self.child(data, action)));
        assert(vstd::seq_lib::commutative_foldl(f));
        vstd::seq_lib::lemma_fold_left_permutation(actions, other, f, worst(player));
    }

    /// Every value is a win, a tie or a loss, where every known value is.
    pub proof fn lemma_value_range(self, known: Map<u64, i8>, data: u64)
        requires
            forall|k: u64| #[trigger] known.contains_key(k) ==> -1 <= known[k] <= 1,
        ensures
            -1 <= self.value(known, data) <= 1,
    {
        self.lemma_value_within_range(known, data, self.steps_left(data));
    }

    proof fn lemma_value_within_range(self, known: Map<u64, i8>, data: u64, depth: nat)
        requires
            forall|k: u64| #[trigger] known.contains_key(k) ==> -1 <= known[k] <= 1,
        ensures
            -1 <= self.value_within(known, data, depth) <= 1,
        decreases depth, 0nat,
    {
        if self.is_open(known, data) && depth > 0 {
            self.lemma_best_within_range(known, data, self.actions_of(data), (depth - 1) as nat);
        }
    }

    proof fn lemma_best_within_range(
        self,
        known: Map<u64, i8>,
        data: u64,
        actions: Seq<(u8, u8, u8)>,
        depth: nat,
    )
        requires
            forall|k: u64| #[trigger] known.contains_key(k) ==> -1 <= known[k] <= 1,
        ensures
            -1 <= self.best_within(known, data, actions, depth) <= 1,
        decreases depth, actions.len() + 1,
    {
        if actions.len() > 0 {
            self.lemma_best_within_range(known, data, actions.drop_last(), depth);
            self.lemma_value_within_range(known, self.child(data, actions.last()), depth);
        }
    }

    /// In an open state with an action, no action leads to a value that the
    /// player to act prefers to that of the state, and some action leads to
    /// just that value.
    pub proof fn lemma_best_action(self, known: Map<u64, i8>, data: u64)
        requires
            self.fits_word(),
            self.valid(data),
            self.is_open(known, data),
            self.actions_of(data).len() > 0,
            forall|k: u64| #[trigger] known.contains_key(k) ==> -1 <= known[k] <= 1,
        ensures
            ({
                let player = self.word_board(data).player;
                let value = self.value(known, data);
                let acts = self.actions_of(data);
                &&& forall|i: int| 0 <= i < acts.len() ==> preferred(
                    player,
                    value,
                    self.value(known, self.child(data, #[trigger] acts[i])),
                ) == value
                &&& exists|i: int|
                    0 <= i < acts.len() && self.value(known, self.child(data, #[trigger] acts[i]))
                        == value
            }),
    {
        self.lemma_value(known, data);
        self.lemma_best_of(known, data, self.actions_of(data));
    }

    proof fn lemma_best_of(self, known: Map<u64, i8>, data: u64, actions: Seq<(u8, u8, u8)>)
        requires
            forall|k: u64| #[trigger] known.contains_key(k) ==> -1 <= known[k] <= 1,
        ensures
            ({
                let player = self.word_board(data).player;
                let best = self.best_of(known, data, actions);
                &&& -1 <= best <= 1
                &&& forall|i: int| 0 <= i < actions.len() ==> preferred(
                    player,
                    best,
                    self.value(known, self.child(data, #[trigger] actions[i])),
                ) == best
                &&& actions.len() > 0 ==> exists|i: int|
                    0 <= i < actions.len() && self.value(
                        known,
                        self.child(data, #[trigger] actions[i]),
                    ) == best
            }),
        decreases actions.len(),
    {
        if actions.len() > 0 {
            let rest = actions.drop_last();
            self.lemma_best_of(known, data, rest);
            let player = self.word_board(data).player;
            let before = self.best_of(known, data, rest);
            let best = self.best_of(known, data, actions);
            let last = actions.len() - 1;
            self.lemma_value_range(known, self.child(data, actions[last]));
            assert(best == preferred(
                player,
                before,
                self.value(known, self.child(data, actions[last])),
            ));
            assert forall|i: int| 0 <= i < actions.len() implies preferred(
                player,
                best,
                self.value(known, self.child(data, #[trigger] actions[i])),
            ) == best by {
                if i < last {
                    assert(rest[i] == actions[i]);
                }
            }
            if best == self.value(known, self.child(data, actions[last])) {
                assert(actions[last] == actions.last());
            } else {
                assert(rest.len() > 0);
                let i = choose|i: int|
                    0 <= i < rest.len() && self.value(known, self.child(data, #[trigger] rest[i]))
                        == before;
                assert(actions[i] == rest[i]);
            }
        }
    }

    /// A search from a state that has been searched finds the same value and
    /// adds nothing.
    pub proof fn lemma_search_again(
        self,
        known: Map<u64, i8>,
        data: u64,
        after: Map<u64, i8>,
        again: Map<u64, i8>,
    )
        requires
            self.fits_word(),
            self.valid(data),
            self.searched(known, data, after),
            self.searched(after, data, again),
        ensures
            again == after,
            self.value(after, data) == self.value(known, data),
    {
        self.lemma_value_extends(known, after, data);
        assert forall|k: u64| #[trigger] again.contains_key(k) <==> after.contains_key(k) by {
            self.lemma_passes(after, data, k);
            self.lemma_passes(known, data, data);
        }
        assert(again =~= after);
    }

    /// A table that holds only what a search passes through holds nothing that
    /// the table of a whole search does not hold, and with the same values. Where
    /// it holds everything that the search passes through, the two are equal.
    pub proof fn lemma_within_search(
        self,
        known: Map<u64, i8>,
        data: u64,
        table: Map<u64, i8>,
        after: Map<u64, i8>,
    )
        requires
            self.within_search(known, data, table),
            self.searched(known, data, after),
        ensures
            table.submap_of(after),
            (forall|k: u64| #[trigger] self.passes(known, data, k) ==> table.contains_key(k))
                ==> table == after,
    {
        assert forall|k: u64| #[trigger] table.dom().contains(k) implies after.dom().contains(k)
            && table[k] == after[k] by {
            assert(table.contains_key(k));
            assert(after.contains_key(k));
        }
        if forall|k: u64| #[trigger] self.passes(known, data, k) ==> table.contains_key(k) {
            assert forall|k: u64| #[trigger] after.contains_key(k) implies table.contains_key(
                k,
            ) by {}
            assert(table =~= after);
        }
    }

    /// Everything behind a state of a settled table is stored, and offers an action.
    proof fn lemma_settled_behind(self, known: Map<u64, i8>, table: Map<u64, i8>, x: u64, y: u64)
        requires
            self.fits_word(),
            self.valid(x),
            self.settled(known, table),
            table.contains_key(x),
            !known.contains_key(x),
            self.passes(known, x, y),
        ensures
            table.contains_key(y),
            self.actions_of(y).len() > 0,
        decreases self.steps_left(x),
    {
        self.lemma_passes(known, x, y);
        assert(self.settled_at(known, table, x));
        if y != x {
            let action = choose|action: (u8, u8, u8)|
                #[trigger] self.actions_of(x).contains(action) && self.passes(
                    known,
                    self.child(x, action),
                    y,
                );
            let next = self.child(x, action);
            self.lemma_action_child(x, action);
            self.lemma_passes(known, next, y);
            assert(table.contains_key(next));
            self.lemma_settled_behind(known, table, next, y);
        }
    }

    /// A search that goes on from a settled table of the same search ends as the
    /// whole search does: it gets stuck on the same condition, finds the same
    /// value, and leaves the table of the whole search.
    pub proof fn lemma_search_goes_on(self, known: Map<u64, i8>, data: u64, table: Map<u64, i8>)
        requires
            self.fits_word(),
            self.can_search(known, data),
            self.within_search(known, data, table),
            self.settled(known, table),
        ensures
            self.can_search(table, data),
            self.never_stuck(table, data) <==> self.never_stuck(known, data),
            self.value(table, data) == self.value(known, data),
            forall|after: Map<u64, i8>| #[trigger]
                self.within_search(table, data, after) ==> self.within_search(known, data, after),
            forall|after: Map<u64, i8>| #[trigger]
                self.searched(table, data, after) ==> self.searched(known, data, after),
    {
        if !self.valid(data) {
            assert(table =~= known);
        } else {
            assert forall|x: u64, y: u64|
                table.contains_key(x) && !known.contains_key(x) && #[trigger] self.passes(
                    known,
                    x,
                    y,
                ) implies table.contains_key(y) && self.actions_of(y).len() > 0 by {
                self.lemma_passes_open(known, data, x);
                self.lemma_settled_behind(known, table, x, y);
            }
            assert forall|k: u64| #[trigger]
                self.passes(known, data, k) <==> (table.contains_key(k) && !known.contains_key(k))
                    || self.passes(table, data, k) by {
                if self.passes(known, data, k) {
                    self.lemma_passes_open(known, data, k);
                    self.lemma_passes_rest(known, table, data, k);
                }
                if self.passes(table, data, k) {
                    self.lemma_passes_less(known, table, data, k);
                }
            }
            self.lemma_value_extends(known, table, data);
            assert forall|k: u64|
                table.contains_key(k) && !known.contains_key(k) implies #[trigger] self.actions_of(
                k,
            ).len() > 0 by {
                assert(self.settled_at(known, table, k));
            }
            assert(self.never_stuck(table, data) <==> self.never_stuck(known, data)) by {
                if self.never_stuck(known, data) {
                    assert forall|k: u64| #[trigger]
                        self.passes(table, data, k) implies self.actions_of(k).len() > 0 by {
                        assert(self.passes(known, data, k));
                    }
                }
                if self.never_stuck(table, data) {
                    assert forall|k: u64| #[trigger]
                        self.passes(known, data, k) implies self.actions_of(k).len() > 0 by {
                        if !(table.contains_key(k) && !known.contains_key(k)) {
                            assert(self.passes(table, data, k));
                        }
                    }
                }
            }
            assert forall|after: Map<u64, i8>| #[trigger]
                self.within_search(table, data, after) implies self.within_search(
                known,
                data,
                after,
            ) by {
                self.lemma_goes_on_within(known, data, table, after);
            }
            assert forall|after: Map<u64, i8>| #[trigger]
                self.searched(table, data, after) implies self.searched(known, data, after) by {
                assert(self.within_search(table, data, after)) by {
                    assert forall|k: u64| #[trigger] after.contains_key(k) implies table.contains_key(
                        k,
                    ) || self.passes(table, data, k) by {}
                }
                assert(self.within_search(known, data, after));
                assert forall|k: u64| #[trigger] after.contains_key(k) <==> known.contains_key(k)
                    || self.passes(known, data, k) by {
                    if known.contains_key(k) {
                        assert(table.contains_key(k));
                    }
                }
            }
        }
    }

    proof fn lemma_goes_on_within(
        self,
        known: Map<u64, i8>,
        data: u64,
        table: Map<u64, i8>,
        after: Map<u64, i8>,
    )
        requires
            self.fits_word(),
            self.valid(data),
            self.within_search(known, data, table),
            self.within_search(table, data, after),
        ensures
            self.within_search(known, data, after),
    {
        assert forall|k: u64| #[trigger] known.contains_key(k) implies after.contains_key(k)
            && after[k] == known[k] by {
            assert(table.contains_key(k));
        }
        assert forall|k: u64| #[trigger] after.contains_key(k) implies after[k] == self.value(
            known,
            k,
        ) && (known.contains_key(k) || self.passes(known, data, k)) by {
            if table.contains_key(k) {
                assert(after[k] == table[k]);
            } else {
                self.lemma_passes_open(table, data, k);
                self.lemma_value_extends(known, table, k);
                self.lemma_passes_less(known, table, data, k);
            }
        }
    }

    /// A settled table that holds the state in which its searches start is the
    /// table of the whole search. So it is where that state is not open.
    pub proof fn lemma_settled_is_searched(
        self,
        known: Map<u64, i8>,
        data: u64,
        table: Map<u64, i8>,
    )
        requires
            self.fits_word(),
            self.can_search(known, data),
            self.within_search(known, data, table),
            self.settled(known, table),
            table.contains_key(data) || !self.is_open(known, data),
        ensures
            self.searched(known, data, table),
            self.never_stuck(known, data),
    {
        self.lemma_search_goes_on(known, data, table);
        assert(self.searched(table, data, table));
    }

    /// What a search leaves is one table only: searches from one state on what was
    /// known leave the same states with the same values, in whatever order they
    /// try actions, and whether there is one of them or several on a shared table.
    pub proof fn lemma_searched_once(
        self,
        known: Map<u64, i8>,
        data: u64,
        one: Map<u64, i8>,
        other: Map<u64, i8>,
    )
        requires
            self.searched(known, data, one),
            self.searched(known, data, other),
        ensures
            one == other,
    {
        assert forall|k: u64| #[trigger] one.contains_key(k) <==> other.contains_key(k) by {}
        assert(one =~= other);
    }
}

} // verus!
