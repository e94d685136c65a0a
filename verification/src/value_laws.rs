//! What the value of a game says of its play.

use vstd::prelude::*;
use crate::action_values;
use crate::game_laws;
use crate::layout::Layout;

verus! {

/// Whether a player's pawn stands on the row that they want to reach: the last
/// for player 0, the first for player 1.
pub open spec fn at_goal(layout: Layout, data: u64, player: int) -> bool {
    let board = layout.word_board(data);
    board.pawns[player] as int / (board.size as int) == if player == 0 {
        board.size - 1
    } else {
        0
    }
}

/// Whether the game goes on: the player who has just acted is not at their goal,
/// and steps are left.
pub open spec fn goes_on(layout: Layout, data: u64) -> bool {
    let board = layout.word_board(data);
    !at_goal(layout, data, 1 - board.player) && board.steps < layout.max_steps
}

/// Whether a player can bring about their win within some steps, whatever the
/// other player does.
pub open spec fn forces(layout: Layout, player: int, data: u64, depth: nat) -> bool
    decreases depth,
{
    let board = layout.word_board(data);
    if !goes_on(layout, data) {
        board.player != player && at_goal(layout, data, player)
    } else if depth == 0 {
        false
    } else if board.player == player {
        exists|action: (u8, u8, u8)| #[trigger]
            layout.actions_of(data).contains(action) && forces(
                layout,
                player,
                layout.child(data, action),
                (depth - 1) as nat,
            )
    } else {
        forall|action: (u8, u8, u8)| #[trigger]
            layout.actions_of(data).contains(action) ==> forces(
                layout,
                player,
                layout.child(data, action),
                (depth - 1) as nat,
            )
    }
}

/// Whether each state of a line of play comes from the one before by an action.
pub open spec fn is_play(layout: Layout, line: Seq<u64>) -> bool {
    &&& line.len() > 0
    &&& forall|i: int| #![trigger line[i]]
        0 < i < line.len() ==> leads_to(layout, line[i - 1], line[i])
}

/// Whether an action leads from a state to another.
pub open spec fn leads_to(layout: Layout, from: u64, to: u64) -> bool {
    exists|action: (u8, u8, u8)| #[trigger]
        layout.actions_of(from).contains(action) && to == layout.child(from, action)
}

/// Whether a search from one state comes to another with its eyes open: by a line
/// of play on which no state is known and the game goes on in each.
pub open spec fn comes_to(layout: Layout, known: Map<u64, i8>, data: u64, other: u64) -> bool {
    exists|line: Seq<u64>| #[trigger]
        is_play(layout, line) && line[0] == data && line.last() == other && forall|i: int|
            0 <= i < line.len() ==> !known.contains_key(#[trigger] line[i]) && goes_on(
                layout,
                line[i],
            )
}

/// A game that has used up its steps with nobody at their goal is a tie; one in
/// which the player who has just acted is at their goal is won by them, also
/// with the last step; no other game is over.
pub proof fn lemma_ends(layout: Layout, known: Map<u64, i8>, data: u64)
    requires
        layout.fits_word(),
        layout.valid(data),
        !known.contains_key(data),
    ensures
        ({
            let board = layout.word_board(data);
            let ended = layout.outcome(data);
            let value = layout.value(known, data);
            &&& board.player == 1 && at_goal(layout, data, 0) ==> ended == Some(1i8) && value == 1
            &&& board.player == 0 && at_goal(layout, data, 1) ==> ended == Some(-1i8) && value
                == -1
            &&& !at_goal(layout, data, 1 - board.player) && board.steps >= layout.max_steps
                ==> ended == Some(0i8) && value == 0
            &&& !at_goal(layout, data, 1 - board.player) && board.steps < layout.max_steps
                ==> ended is None
        }),
{
    layout.lemma_word_shape(data);
    layout.lemma_value(known, data);
}

/// A state is open just where it is not known and the game goes on.
pub proof fn lemma_open(layout: Layout, known: Map<u64, i8>, data: u64)
    requires
        layout.fits_word(),
        layout.valid(data),
    ensures
        layout.is_open(known, data) <==> !known.contains_key(data) && goes_on(layout, data),
{
    layout.lemma_word_shape(data);
}

/// Player 0 takes the greatest of the values that their actions lead to, player
/// 1 the least: no action leads to a better one, and some action leads to it.
pub proof fn lemma_best(layout: Layout, known: Map<u64, i8>, data: u64)
    requires
        layout.fits_word(),
        layout.valid(data),
        !known.contains_key(data),
        goes_on(layout, data),
        layout.actions_of(data).len() > 0,
        forall|k: u64| #[trigger] known.contains_key(k) ==> -1 <= known[k] <= 1,
    ensures
        ({
            let value = layout.value(known, data);
            &&& forall|action: (u8, u8, u8)| #[trigger]
                layout.actions_of(data).contains(action) ==> if layout.word_board(data).player
                    == 0 {
                    layout.value(known, layout.child(data, action)) <= value
                } else {
                    layout.value(known, layout.child(data, action)) >= value
                }
            &&& exists|action: (u8, u8, u8)| #[trigger]
                layout.actions_of(data).contains(action) && layout.value(
                    known,
                    layout.child(data, action),
                ) == value
        }),
{
    lemma_open(layout, known, data);
    layout.lemma_best_action(known, data);
    let acts = layout.actions_of(data);
    let value = layout.value(known, data);
    assert forall|action: (u8, u8, u8)| #[trigger] acts.contains(action) implies if layout.word_board(
        data,
    ).player == 0 {
        layout.value(known, layout.child(data, action)) <= value
    } else {
        layout.value(known, layout.child(data, action)) >= value
    } by {
        let i = choose|i: int| 0 <= i < acts.len() && acts[i] == action;
        let next = layout.value(known, layout.child(data, acts[i]));
    }
    let i = choose|i: int|
        0 <= i < acts.len() && layout.value(known, layout.child(data, #[trigger] acts[i])) == value;
    assert(acts.contains(acts[i]));
}

/// Whatever values are known, player 0 never settles for less than -1 and player
/// 1 never for more than 1: the value is that bound, or the value behind some
/// action, and no action leads to a better one.
pub proof fn lemma_best_of_any(layout: Layout, known: Map<u64, i8>, data: u64)
    requires
        layout.fits_word(),
        layout.valid(data),
        !known.contains_key(data),
        goes_on(layout, data),
    ensures
        ({
            let value = layout.value(known, data);
            let first = layout.word_board(data).player == 0;
            let bound = if first {
                -1int
            } else {
                1
            };
            &&& first ==> value >= -1
            &&& !first ==> value <= 1
            &&& forall|action: (u8, u8, u8)| #[trigger]
                layout.actions_of(data).contains(action) ==> if first {
                    layout.value(known, layout.child(data, action)) <= value
                } else {
                    layout.value(known, layout.child(data, action)) >= value
                }
            &&& value == bound || exists|action: (u8, u8, u8)| #[trigger]
                layout.actions_of(data).contains(action) && layout.value(
                    known,
                    layout.child(data, action),
                ) == value
        }),
{
    let acts = layout.actions_of(data);
    lemma_open(layout, known, data);
    layout.lemma_word_shape(data);
    layout.lemma_value(known, data);
    lemma_best_among(layout, known, data, acts, acts.len() as int);
    assert(acts.take(acts.len() as int) =~= acts);
    let value = layout.value(known, data);
    let first = layout.word_board(data).player == 0;
    let values = values_behind(layout, known, data, acts);
    assert forall|action: (u8, u8, u8)| #[trigger] acts.contains(action) implies if first {
        layout.value(known, layout.child(data, action)) <= value
    } else {
        layout.value(known, layout.child(data, action)) >= value
    } by {
        let i = choose|i: int| 0 <= i < acts.len() && acts[i] == action;
        assert(values[i] == layout.value(known, layout.child(data, action)));
    }
    if exists|i: int| 0 <= i < acts.len() && #[trigger] values[i] == value {
        let i = choose|i: int| 0 <= i < acts.len() && #[trigger] values[i] == value;
        assert(acts.contains(acts[i]));
    }
}

/// The values behind some actions.
spec fn values_behind(
    layout: Layout,
    known: Map<u64, i8>,
    data: u64,
    acts: Seq<(u8, u8, u8)>,
) -> Seq<i8> {
    Seq::new(acts.len(), |i: int| layout.value(known, layout.child(data, acts[i])))
}

/// Whether a value is the best of the first of some values, or the bound that a
/// player never falls short of.
spec fn is_best(first: bool, values: Seq<i8>, count: int, best: i8) -> bool {
    &&& if first {
        best >= -1
    } else {
        best <= 1
    }
    &&& forall|i: int| 0 <= i < count ==> if first {
        #[trigger] values[i] <= best
    } else {
        values[i] >= best
    }
    &&& (if first {
        best == -1
    } else {
        best == 1
    }) || exists|i: int| 0 <= i < count && #[trigger] values[i] == best
}

proof fn lemma_is_best_next(first: bool, values: Seq<i8>, count: int, before: i8, best: i8)
    requires
        0 <= count < values.len(),
        is_best(first, values, count, before),
        best == if first {
            if values[count] > before {
                values[count]
            } else {
                before
            }
        } else {
            if values[count] < before {
                values[count]
            } else {
                before
            }
        },
    ensures
        is_best(first, values, count + 1, best),
{
    assert(best == before || best == values[count]);
}

proof fn lemma_best_among(
    layout: Layout,
    known: Map<u64, i8>,
    data: u64,
    acts: Seq<(u8, u8, u8)>,
    count: int,
)
    requires
        layout.word_board(data).player < 2,
        0 <= count <= acts.len(),
    ensures
        is_best(
            layout.word_board(data).player == 0,
            values_behind(layout, known, data, acts),
            count,
            layout.best_of(known, data, acts.take(count)),
        ),
    decreases count,
{
    if count == 0 {
        assert(acts.take(0) =~= Seq::<(u8, u8, u8)>::empty());
    } else {
        lemma_best_among(layout, known, data, acts, count - 1);
        layout.lemma_best_of_next(known, data, acts, count - 1);
        lemma_is_best_next(
            layout.word_board(data).player == 0,
            values_behind(layout, known, data, acts),
            count - 1,
            layout.best_of(known, data, acts.take(count - 1)),
            layout.best_of(known, data, acts.take(count)),
        );
    }
}

/// A known value is taken as it is, and a search may be asked for it whatever
/// the state; else it may be asked where both pawns stand on the board.
pub proof fn lemma_known(layout: Layout, known: Map<u64, i8>, data: u64)
    requires
        layout.fits_word(),
    ensures
        known.contains_key(data) ==> layout.value(known, data) == known[data],
        layout.can_search(known, data) <==> known.contains_key(data) || (game_laws::is_cell(
            layout.board_size,
            game_laws::stands_on(layout.word_board(data), 0),
        ) && game_laws::is_cell(
            layout.board_size,
            game_laws::stands_on(layout.word_board(data), 1),
        )),
{
    game_laws::lemma_valid(layout, data);
}

/// With nothing known, the value is 1 just where player 0 can force their win
/// within the steps that are left, -1 just where player 1 can, and 0 otherwise.
pub proof fn lemma_value_is_force(layout: Layout, data: u64)
    requires
        layout.fits_word(),
        layout.valid(data),
        layout.never_stuck(Map::empty(), data),
    ensures
        ({
            let value = layout.value(Map::empty(), data);
            let steps = layout.word_board(data).steps;
            let left = if steps < layout.max_steps {
                (layout.max_steps - steps) as nat
            } else {
                0
            };
            &&& value == 1 <==> forces(layout, 0, data, left)
            &&& value == -1 <==> forces(layout, 1, data, left)
            &&& value == 0 || value == 1 || value == -1
        }),
    decreases layout.steps_left(data),
{
    let none = Map::<u64, i8>::empty();
    let value = layout.value(none, data);
    layout.lemma_word_shape(data);
    layout.lemma_value_range(none, data);
    lemma_ends(layout, none, data);
    lemma_open(layout, none, data);
    if goes_on(layout, data) {
        let left = layout.steps_left(data);
        layout.lemma_passes(none, data, data);
        assert(layout.passes(none, data, data));
        lemma_best(layout, none, data);
        assert forall|action: (u8, u8, u8)| #[trigger]
            layout.actions_of(data).contains(action) implies ({
            let next = layout.child(data, action);
            &&& layout.value(none, next) == 1 <==> forces(layout, 0, next, (left - 1) as nat)
            &&& layout.value(none, next) == -1 <==> forces(layout, 1, next, (left - 1) as nat)
            &&& -1 <= layout.value(none, next) <= 1
        }) by {
            layout.lemma_action_child(data, action);
            layout.lemma_never_stuck_behind(none, data, action);
            lemma_value_is_force(layout, layout.child(data, action));
        }
    }
}

/// Where the value is 1 (or -1) with nothing known, some line of play ends with
/// player 0 (or player 1) at their goal.
pub proof fn lemma_win_has_line(layout: Layout, data: u64, player: int)
    requires
        layout.fits_word(),
        layout.valid(data),
        layout.never_stuck(Map::empty(), data),
        player == 0 || player == 1,
        layout.value(Map::empty(), data) == if player == 0 {
            1
        } else {
            -1int
        },
    ensures
        exists|line: Seq<u64>| #[trigger]
            is_play(layout, line) && line[0] == data && at_goal(layout, line.last(), player),
    decreases layout.steps_left(data),
{
    let none = Map::<u64, i8>::empty();
    layout.lemma_word_shape(data);
    lemma_ends(layout, none, data);
    lemma_open(layout, none, data);
    if goes_on(layout, data) {
        layout.lemma_passes(none, data, data);
        assert(layout.passes(none, data, data));
        lemma_best(layout, none, data);
        let action = choose|action: (u8, u8, u8)| #[trigger]
            layout.actions_of(data).contains(action) && layout.value(
                none,
                layout.child(data, action),
            ) == layout.value(none, data);
        let next = layout.child(data, action);
        layout.lemma_action_child(data, action);
        layout.lemma_never_stuck_behind(none, data, action);
        lemma_win_has_line(layout, next, player);
        let rest = choose|line: Seq<u64>| #[trigger]
            is_play(layout, line) && line[0] == next && at_goal(layout, line.last(), player);
        lemma_play_before(layout, data, action, rest);
        let line = seq![data] + rest;
        assert(line[0] == data && line.last() == rest.last());
    } else {
        let line = seq![data];
        assert(is_play(layout, line));
        assert(line[0] == data && line.last() == data);
    }
}

proof fn lemma_play_before(layout: Layout, data: u64, action: (u8, u8, u8), rest: Seq<u64>)
    requires
        layout.actions_of(data).contains(action),
        is_play(layout, rest),
        rest[0] == layout.child(data, action),
    ensures
        is_play(layout, seq![data] + rest),
{
    let line = seq![data] + rest;
    assert forall|i: int| #![trigger line[i]] 0 < i < line.len() implies leads_to(
        layout,
        line[i - 1],
        line[i],
    ) by {
        if i > 1 {
            assert(rest[i - 1] == line[i]);
            assert(rest[i - 2] == line[i - 1]);
        }
    }
}

/// A search passes through exactly the states that lines of play come to, on
/// which nothing is known and the game goes on.
pub proof fn lemma_passes_by_play(layout: Layout, known: Map<u64, i8>, data: u64, other: u64)
    requires
        layout.fits_word(),
        layout.valid(data),
    ensures
        layout.passes(known, data, other) <==> comes_to(layout, known, data, other),
{
    if layout.passes(known, data, other) {
        lemma_passes_has_play(layout, known, data, other);
    }
    if comes_to(layout, known, data, other) {
        let line = choose|line: Seq<u64>| #[trigger]
            is_play(layout, line) && line[0] == data && line.last() == other && forall|i: int|
                0 <= i < line.len() ==> !known.contains_key(#[trigger] line[i]) && goes_on(
                    layout,
                    line[i],
                );
        lemma_play_passes(layout, known, line);
    }
}

proof fn lemma_passes_has_play(layout: Layout, known: Map<u64, i8>, data: u64, other: u64)
    requires
        layout.fits_word(),
        layout.valid(data),
        layout.passes(known, data, other),
    ensures
        comes_to(layout, known, data, other),
    decreases layout.steps_left(data),
{
    layout.lemma_passes(known, data, other);
    lemma_open(layout, known, data);
    if other == data {
        let line = seq![data];
        assert(is_play(layout, line));
        assert(line[0] == data && line.last() == other);
    } else {
        let action = choose|action: (u8, u8, u8)|
            #[trigger] layout.actions_of(data).contains(action) && layout.passes(
                known,
                layout.child(data, action),
                other,
            );
        let next = layout.child(data, action);
        layout.lemma_action_child(data, action);
        lemma_passes_has_play(layout, known, next, other);
        let rest = choose|line: Seq<u64>| #[trigger]
            is_play(layout, line) && line[0] == next && line.last() == other && forall|i: int|
                0 <= i < line.len() ==> !known.contains_key(#[trigger] line[i]) && goes_on(
                    layout,
                    line[i],
                );
        lemma_play_before(layout, data, action, rest);
        let line = seq![data] + rest;
        assert forall|i: int| 0 <= i < line.len() implies !known.contains_key(#[trigger] line[i])
            && goes_on(layout, line[i]) by {
            if i > 0 {
                assert(rest[i - 1] == line[i]);
            }
        }
        assert(line[0] == data && line.last() == other);
    }
}

proof fn lemma_play_passes(layout: Layout, known: Map<u64, i8>, line: Seq<u64>)
    requires
        layout.fits_word(),
        is_play(layout, line),
        layout.valid(line[0]),
        forall|i: int|
            0 <= i < line.len() ==> !known.contains_key(#[trigger] line[i]) && goes_on(
                layout,
                line[i],
            ),
    ensures
        layout.passes(known, line[0], line.last()),
    decreases line.len(),
{
    let data = line[0];
    let other = line.last();
    lemma_open(layout, known, data);
    layout.lemma_passes(known, data, other);
    if line.len() > 1 {
        assert(leads_to(layout, line[1 - 1], line[1]));
        let action = choose|action: (u8, u8, u8)| #[trigger]
            layout.actions_of(data).contains(action) && line[1] == layout.child(data, action);
        layout.lemma_action_child(data, action);
        let rest = line.drop_first();
        assert forall|i: int| #![trigger rest[i]] 0 < i < rest.len() implies leads_to(
            layout,
            rest[i - 1],
            rest[i],
        ) by {
            assert(line[i + 1] == rest[i]);
        }
        assert forall|i: int| 0 <= i < rest.len() implies !known.contains_key(#[trigger] rest[i])
            && goes_on(layout, rest[i]) by {
            assert(line[i + 1] == rest[i]);
        }
        lemma_play_passes(layout, known, rest);
        assert(rest.last() == other);
    }
}

/// A search never gets stuck just where every state that it comes to offers an
/// action.
pub proof fn lemma_stuck(layout: Layout, known: Map<u64, i8>, data: u64)
    requires
        layout.fits_word(),
        layout.valid(data),
    ensures
        layout.never_stuck(known, data) <==> forall|other: u64| #[trigger]
            comes_to(layout, known, data, other) ==> layout.actions_of(other).len() > 0,
{
    if layout.never_stuck(known, data) {
        assert forall|other: u64| #[trigger]
            comes_to(layout, known, data, other) implies layout.actions_of(other).len() > 0 by {
            lemma_passes_by_play(layout, known, data, other);
            assert(layout.passes(known, data, other));
        }
    }
    if forall|other: u64| #[trigger]
        comes_to(layout, known, data, other) ==> layout.actions_of(other).len() > 0 {
        assert forall|other: u64| #[trigger]
            layout.passes(known, data, other) implies layout.actions_of(other).len() > 0 by {
            lemma_passes_by_play(layout, known, data, other);
            assert(comes_to(layout, known, data, other));
        }
    }
}

/// What a search leaves: every known entry as it was, every state that it comes
/// to with its value, and nothing else. No state in which the game is over is
/// added.
pub proof fn lemma_left_by_search(
    layout: Layout,
    known: Map<u64, i8>,
    data: u64,
    after: Map<u64, i8>,
    k: u64,
)
    requires
        layout.fits_word(),
        layout.valid(data),
        layout.searched(known, data, after),
    ensures
        after.contains_key(k) <==> known.contains_key(k) || comes_to(layout, known, data, k),
        known.contains_key(k) ==> after[k] == known[k],
        comes_to(layout, known, data, k) ==> after[k] == layout.value(known, k) && goes_on(
            layout,
            k,
        ),
{
    lemma_passes_by_play(layout, known, data, k);
    assert(after.contains_key(k) <==> known.contains_key(k) || layout.passes(known, data, k));
    if layout.passes(known, data, k) {
        layout.lemma_passes_open(known, data, k);
        lemma_open(layout, known, k);
    }
}

/// A search from the start of play with nothing known stores, for each state that
/// it comes to, who can force a win there.
pub proof fn lemma_stored_is_force(layout: Layout, data: u64, after: Map<u64, i8>, k: u64)
    requires
        layout.fits_word(),
        layout.valid(data),
        layout.never_stuck(Map::empty(), data),
        layout.searched(Map::empty(), data, after),
        comes_to(layout, Map::empty(), data, k),
    ensures
        ({
            let left = (layout.max_steps - layout.word_board(k).steps) as nat;
            &&& after.contains_key(k)
            &&& after[k] == 1 <==> forces(layout, 0, k, left)
            &&& after[k] == -1 <==> forces(layout, 1, k, left)
        }),
{
    let none = Map::<u64, i8>::empty();
    lemma_left_by_search(layout, none, data, after, k);
    lemma_passes_by_play(layout, none, data, k);
    layout.lemma_passes_open(none, data, k);
    assert forall|other: u64| #[trigger] layout.passes(none, k, other) implies layout.actions_of(
        other,
    ).len() > 0 by {
        layout.lemma_passes_transitive(none, data, k, other);
        assert(layout.passes(none, data, other));
    }
    lemma_value_is_force(layout, k);
}

/// The actions of a state, in their order, with the states that they lead to.
pub proof fn lemma_plan(layout: Layout, data: u64, i: int)
    requires
        0 <= i < layout.actions_of(data).len(),
    ensures
        layout.plan(data).player == layout.word_board(data).player,
        layout.plan(data).actions == layout.actions_of(data),
        layout.plan(data).children.len() == layout.actions_of(data).len(),
        layout.plan(data).outcomes.len() == layout.actions_of(data).len(),
        layout.plan(data).children[i] == layout.child(data, layout.actions_of(data)[i]),
{
}

/// The value of an action for the player who acts, whichever player that is: 1
/// where they are at their goal after it; else 0 where it was the last step;
/// else, for player 0, the value that the last pair with its state gives, and
/// for player 1 that value negated; and none where there is no such pair.
pub proof fn lemma_action_value(
    layout: Layout,
    data: u64,
    pairs: Seq<(u64, i32)>,
    i: int,
    j: int,
)
    requires
        layout.fits_word(),
        layout.valid(data),
        layout.word_board(data).steps < layout.max_steps,
        0 <= i < layout.actions_of(data).len(),
    ensures
        ({
            let plan = layout.plan(data);
            let me = layout.word_board(data).player as int;
            let next = layout.child(data, layout.actions_of(data)[i]);
            let last_step = layout.word_board(data).steps + 1 >= layout.max_steps;
            let found = plan.value_for_first(pairs, i) is Some;
            &&& at_goal(layout, next, me) ==> found && plan.value_for_actor(pairs, i) == 1
            &&& !at_goal(layout, next, me) && last_step ==> found && plan.value_for_actor(pairs, i)
                == 0
            &&& !at_goal(layout, next, me) && !last_step && 0 <= j < pairs.len() && pairs[j].0
                == next && (forall|k: int| j < k < pairs.len() ==> (#[trigger] pairs[k]).0 != next)
                ==> found && plan.value_for_actor(pairs, i) == if me == 0 {
                pairs[j].1 as int
            } else {
                -pairs[j].1
            }
            &&& !at_goal(layout, next, me) && !last_step && (forall|k: int|
                0 <= k < pairs.len() ==> (#[trigger] pairs[k]).0 != next) ==> !found
        }),
{
    let action = layout.actions_of(data)[i];
    let next = layout.child(data, action);
    assert(layout.actions_of(data).contains(action));
    layout.lemma_widths();
    layout.lemma_word_shape(data);
    let board = layout.word_board(data);
    board.lemma_actions_well_formed();
    assert(board.well_formed_action(board.actions()[i]));
    layout.lemma_child(data, action);
    board.lemma_after_ok(action);
    lemma_ends(layout, Map::empty(), next);
    lemma_plan(layout, data, i);
    lemma_last_pair(pairs, next, j);
    lemma_no_pair(pairs, next);
}

proof fn lemma_last_pair(pairs: Seq<(u64, i32)>, state: u64, j: int)
    ensures
        0 <= j < pairs.len() && pairs[j].0 == state && (forall|k: int|
            j < k < pairs.len() ==> (#[trigger] pairs[k]).0 != state) ==> action_values::pair_value(
            pairs,
            state,
        ) == Some(pairs[j].1),
    decreases pairs.len(),
{
    if 0 <= j < pairs.len() && pairs[j].0 == state && (forall|k: int|
        j < k < pairs.len() ==> (#[trigger] pairs[k]).0 != state) {
        if j < pairs.len() - 1 {
            let rest = pairs.drop_last();
            assert(pairs[pairs.len() - 1].0 != state);
            assert forall|k: int| j < k < rest.len() implies (#[trigger] rest[k]).0 != state by {
                assert(pairs[k] == rest[k]);
            }
            lemma_last_pair(rest, state, j);
        }
    }
}

proof fn lemma_no_pair(pairs: Seq<(u64, i32)>, state: u64)
    ensures
        (forall|k: int| 0 <= k < pairs.len() ==> (#[trigger] pairs[k]).0 != state)
            ==> action_values::pair_value(pairs, state) is None,
    decreases pairs.len(),
{
    if pairs.len() > 0 && (forall|k: int| 0 <= k < pairs.len() ==> (#[trigger] pairs[k]).0
        != state) {
        let rest = pairs.drop_last();
        assert forall|k: int| 0 <= k < rest.len() implies (#[trigger] rest[k]).0 != state by {
            assert(pairs[k] == rest[k]);
        }
        assert(pairs[pairs.len() - 1].0 != state);
        lemma_no_pair(rest, state);
    }
}

/// Whether some pair is of a state.
pub open spec fn is_paired(pairs: Seq<(u64, i32)>, state: u64) -> bool {
    exists|k: int| 0 <= k < pairs.len() && (#[trigger] pairs[k]).0 == state
}

/// Whether an action has a value: it ends the game, or some pair is of the state
/// that it leads to.
pub open spec fn is_valued(plan: action_values::Plan, pairs: Seq<(u64, i32)>, i: int) -> bool {
    plan.outcomes[i] is Some || is_paired(pairs, plan.children[i])
}

/// All actions are valued where each has a value, and none where no one has.
pub proof fn lemma_valued(plan: action_values::Plan, pairs: Seq<(u64, i32)>)
    ensures
        plan.all_valued(pairs) <==> forall|i: int|
            0 <= i < plan.actions.len() ==> #[trigger] is_valued(plan, pairs, i),
        plan.none_valued(pairs) <==> forall|i: int|
            0 <= i < plan.actions.len() ==> !(#[trigger] is_valued(plan, pairs, i)),
{
    assert forall|i: int| #![trigger plan.value_for_first(pairs, i)]
        #![trigger is_valued(plan, pairs, i)]
        plan.value_for_first(pairs, i) is Some <==> is_valued(plan, pairs, i) by {
        lemma_has_pair(pairs, plan.children[i]);
    }
}

proof fn lemma_has_pair(pairs: Seq<(u64, i32)>, state: u64)
    ensures
        action_values::pair_value(pairs, state) is Some <==> is_paired(pairs, state),
    decreases pairs.len(),
{
    lemma_no_pair(pairs, state);
    if pairs.len() > 0 && action_values::pair_value(pairs, state) is Some {
        if pairs.last().0 == state {
            assert(pairs[pairs.len() - 1].0 == state);
        } else {
            lemma_has_pair(pairs.drop_last(), state);
            let rest = pairs.drop_last();
            let k = choose|k: int| 0 <= k < rest.len() && (#[trigger] rest[k]).0 == state;
            assert(pairs[k].0 == state);
        }
    }
    if action_values::pair_value(pairs, state) is None {
        if exists|k: int| 0 <= k < pairs.len() && (#[trigger] pairs[k]).0 == state {
            let k = choose|k: int| 0 <= k < pairs.len() && (#[trigger] pairs[k]).0 == state;
            if k < pairs.len() - 1 {
                let rest = pairs.drop_last();
                assert(rest[k].0 == state);
                lemma_has_pair(rest, state);
            }
        }
    }
}

/// The states to look up are those of the unfinished actions: `places` lists
/// where these stand among the actions, in order and without a gap.
pub proof fn lemma_to_look_up(
    states: Seq<u64>,
    outcomes: Seq<Option<i8>>,
    count: int,
) -> (places: Seq<int>)
    requires
        0 <= count <= states.len(),
        outcomes.len() == states.len(),
    ensures
        action_values::without_outcome(states, outcomes, count) == places.map_values(
            |i: int| states[i],
        ),
        forall|a: int, b: int| 0 <= a < b < places.len() ==> #[trigger] places[a]
            < #[trigger] places[b],
        forall|i: int| #[trigger] places.contains(i) <==> 0 <= i < count && outcomes[i] is None,
    decreases count,
{
    if count == 0 {
        let places = Seq::<int>::empty();
        assert(places.map_values(|i: int| states[i]) =~= Seq::<u64>::empty());
        places
    } else {
        let before = lemma_to_look_up(states, outcomes, count - 1);
        if outcomes[count - 1] is None {
            let places = before.push(count - 1);
            assert(places.map_values(|i: int| states[i]) =~= before.map_values(
                |i: int| states[i],
            ).push(states[count - 1]));
            assert forall|a: int, b: int| 0 <= a < b < places.len() implies #[trigger] places[a]
                < #[trigger] places[b] by {
                assert(before.contains(before[a]));
            }
            assert forall|i: int| #[trigger] places.contains(i) <==> 0 <= i < count
                && outcomes[i] is None by {
                if before.contains(i) {
                    let a = choose|a: int| 0 <= a < before.len() && before[a] == i;
                    assert(places[a] == i);
                }
                if i == count - 1 {
                    assert(places[places.len() - 1] == i);
                }
                if places.contains(i) {
                    let a = choose|a: int| 0 <= a < places.len() && places[a] == i;
                    if a < before.len() {
                        assert(before[a] == i);
                        assert(before.contains(i));
                    }
                }
            }
            places
        } else {
            assert forall|i: int| #[trigger] before.contains(i) <==> 0 <= i < count
                && outcomes[i] is None by {}
            before
        }
    }
}

} // verus!
