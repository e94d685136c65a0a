//! Why a player always has an action.
//!
//! On a board of at least three rows, a game in which both players can still
//! reach their goal rows goes on in such positions only, and in each of them the
//! player to act has a move.

use vstd::prelude::*;
use crate::layout;
use crate::layout::{Board, Layout};
use crate::rules;

verus! {

/// The direction back.
pub open spec fn opposite(direction: int) -> int {
    if direction == 0 {
        1
    } else if direction == 1 {
        0
    } else if direction == 2 {
        3
    } else {
        2
    }
}

impl Board {
    /// Whether a game can go on from here: the pawns stand on different cells,
    /// both can reach their goal rows, and the player to act does not stand on
    /// theirs.
    pub open spec fn fair(self) -> bool {
        &&& self.pawn(0) != self.pawn(1)
        &&& self.can_finish(0)
        &&& self.can_finish(1)
        &&& !self.won(self.player as int)
    }

    /// A step can be taken back.
    pub proof fn lemma_step_back(self, cell: (int, int), direction: int)
        requires
            self.on_board(cell),
            0 <= direction < 4,
            self.passable(cell, direction),
        ensures
            self.passable(rules::toward(cell, direction), opposite(direction)),
            rules::toward(rules::toward(cell, direction), opposite(direction)) == cell,
    {
    }

    /// A path can start one step earlier.
    proof fn lemma_linked_before(self, cell: (int, int), direction: int, goal: (int, int))
        requires
            0 <= direction < 4,
            self.passable(cell, direction),
            self.linked(rules::toward(cell, direction), goal),
        ensures
            self.linked(cell, goal),
    {
        let next = rules::toward(cell, direction);
        let path = choose|path: Seq<(int, int)>| #[trigger]
            self.is_path(path) && path[0] == next && path.last() == goal;
        let longer = seq![cell] + path;
        assert(self.neighbours(cell, next));
        assert forall|i: int| #![trigger longer[i]] 0 < i < longer.len() implies self.neighbours(
            longer[i - 1],
            longer[i],
        ) by {
            if i > 1 {
                assert(longer[i] == path[i - 1]);
                assert(longer[i - 1] == path[i - 2]);
            }
        }
        assert(self.is_path(longer));
        assert(longer[0] == cell && longer.last() == goal);
    }

    /// Where each of two cells leads at most to the other, a path from one of
    /// them stays on them.
    proof fn lemma_path_on_two(self, a: (int, int), b: (int, int), path: Seq<(int, int)>)
        requires
            forall|d: int|
                0 <= d < 4 && #[trigger] self.passable(a, d) ==> rules::toward(a, d) == b,
            forall|d: int|
                0 <= d < 4 && #[trigger] self.passable(b, d) ==> rules::toward(b, d) == a,
            self.is_path(path),
            path[0] == a || path[0] == b,
        ensures
            path.last() == a || path.last() == b,
        decreases path.len(),
    {
        if path.len() > 1 {
            let shorter = path.drop_last();
            assert forall|i: int| #![trigger shorter[i]]
                0 < i < shorter.len() implies self.neighbours(shorter[i - 1], shorter[i]) by {
                assert(path[i] == shorter[i]);
            }
            self.lemma_path_on_two(a, b, shorter);
            assert(path[path.len() - 1] == path.last());
            assert(self.neighbours(shorter.last(), path.last()));
        }
    }

    /// Boards with the same walls have the same paths.
    proof fn lemma_same_paths(self, other: Board, a: (int, int), b: (int, int))
        requires
            self.size == other.size,
            self.walls == other.walls,
            self.linked(a, b),
        ensures
            other.linked(a, b),
    {
        let path = choose|path: Seq<(int, int)>| #[trigger]
            self.is_path(path) && path[0] == a && path.last() == b;
        assert forall|i: int| #![trigger path[i]] 0 < i < path.len() implies other.neighbours(
            path[i - 1],
            path[i],
        ) by {
            assert(self.neighbours(path[i - 1], path[i]));
            let d = choose|d: int|
                0 <= d < 4 && #[trigger] self.passable(path[i - 1], d) && path[i] == rules::toward(
                    path[i - 1],
                    d,
                );
            assert(other.passable(path[i - 1], d));
        }
        assert(other.is_path(path));
    }

    /// Whether a player can finish depends on the walls and on their pawn.
    proof fn lemma_same_can_finish(self, other: Board, player: int)
        requires
            self.size == other.size,
            self.walls == other.walls,
            self.pawn(player) == other.pawn(player),
            self.can_finish(player),
        ensures
            other.can_finish(player),
    {
        let goal = choose|goal: (int, int)| #[trigger]
            self.linked(self.pawn(player), goal) && goal.0 == self.goal_row(player);
        self.lemma_same_paths(other, self.pawn(player), goal);
        assert(other.linked(other.pawn(player), goal));
    }

    /// The player to act has a move wherever the game can go on: on a board of
    /// at least three rows, from a fair position that the opponent has not won.
    pub proof fn lemma_can_move(self)
        requires
            self.ok(),
            self.size >= 3,
            self.fair(),
            !self.won(1 - self.player),
        ensures
            self.moves().len() > 0,
            self.actions().len() > 0,
    {
        let me = self.player as int;
        let a = self.pawn(me);
        let b = self.pawn(1 - me);
        layout::lemma_index_round_trip(self.size, self.pawns[0] as int);
        layout::lemma_index_round_trip(self.size, self.pawns[1] as int);
        reveal_with_fuel(Board::moves_among, 5);
        if self.moves().len() == 0 {
            assert(self.moves_toward(0).len() == 0);
            assert(self.moves_toward(1).len() == 0);
            assert(self.moves_toward(2).len() == 0);
            assert(self.moves_toward(3).len() == 0);
            assert forall|d: int| 0 <= d < 4 && #[trigger] self.passable(a, d) implies rules::toward(
                a,
                d,
            ) == b by {
                assert(self.moves_toward(d).len() == 0);
            }
            assert(self.can_finish(me));
            let goal = choose|goal: (int, int)| #[trigger]
                self.linked(a, goal) && goal.0 == self.goal_row(me);
            let path = choose|path: Seq<(int, int)>| #[trigger]
                self.is_path(path) && path[0] == a && path.last() == goal;
            assert(path.len() > 1);
            assert(self.neighbours(path[1 - 1], path[1]));
            let d = choose|d: int| 0 <= d < 4 && #[trigger] self.passable(a, d) && path[1]
                == rules::toward(a, d);
            assert(self.moves_toward(d).len() == 0);
            assert(!self.passable(b, d));
            assert forall|e: int| 0 <= e < 4 && #[trigger] self.passable(b, e) implies rules::toward(
                b,
                e,
            ) == a by {
                if e != opposite(d) {
                    let first = if d < 2 { 2int } else { 0int };
                    assert(e == first || e == first + 1);
                    let sides = self.step(b, first) + self.step(b, first + 1);
                    assert(self.moves_toward(d) == sides);
                    assert(self.step(b, e).len() == 1);
                    assert(false);
                }
            }
            self.lemma_path_on_two(a, b, path);
            assert(goal == b);
            assert(self.can_finish(1 - me));
            let theirs = choose|goal: (int, int)| #[trigger]
                self.linked(b, goal) && goal.0 == self.goal_row(1 - me);
            let back = choose|path: Seq<(int, int)>| #[trigger]
                self.is_path(path) && path[0] == b && path.last() == theirs;
            self.lemma_path_on_two(a, b, back);
            assert(theirs == a);
            assert(false);
        }
        assert(self.actions().len() >= self.moves().len());
    }

    /// Whether a cell is a proper target of a move: on the board, not the
    /// opponent's, and with a way back.
    spec fn proper_target(self, cell: (int, int)) -> bool {
        &&& self.on_board(cell)
        &&& cell != self.pawn(1 - self.player)
        &&& forall|goal: (int, int)| #[trigger]
            self.linked(self.pawn(self.player as int), goal) ==> self.linked(cell, goal)
    }

    proof fn lemma_step_proper(self, from: (int, int), direction: int)
        requires
            self.on_board(from),
            0 <= direction < 4,
            self.passable(from, direction),
            forall|goal: (int, int)| #[trigger]
                self.linked(self.pawn(self.player as int), goal) ==> self.linked(from, goal),
        ensures
            self.on_board(rules::toward(from, direction)),
            forall|goal: (int, int)| #[trigger]
                self.linked(self.pawn(self.player as int), goal) ==> self.linked(
                    rules::toward(from, direction),
                    goal,
                ),
    {
        self.lemma_step_back(from, direction);
        assert forall|goal: (int, int)| #[trigger]
            self.linked(self.pawn(self.player as int), goal) implies self.linked(
            rules::toward(from, direction),
            goal,
        ) by {
            self.lemma_linked_before(rules::toward(from, direction), opposite(direction), goal);
        }
    }

    proof fn lemma_moves_toward_proper(self, direction: int)
        requires
            self.ok(),
            self.pawn(0) != self.pawn(1),
            0 <= direction < 4,
        ensures
            forall|i: int| 0 <= i < self.moves_toward(direction).len() ==> self.proper_target(
                #[trigger] self.moves_toward(direction)[i],
            ),
    {
        let from = self.pawn(self.player as int);
        let other = self.pawn(1 - self.player);
        layout::lemma_index_round_trip(self.size, self.pawns[0] as int);
        layout::lemma_index_round_trip(self.size, self.pawns[1] as int);
        if self.passable(from, direction) {
            self.lemma_step_proper(from, direction);
            if rules::toward(from, direction) == other {
                assert forall|d: int| 0 <= d < 4 && #[trigger] self.passable(
                    other,
                    d,
                ) implies self.proper_target(rules::toward(other, d)) by {
                    self.lemma_step_proper(other, d);
                }
                let first = if direction < 2 { 2int } else { 0int };
                let one = self.step(other, first);
                let two = self.step(other, first + 1);
                assert forall|i: int| 0 <= i < (one + two).len() implies self.proper_target(
                    #[trigger] (one + two)[i],
                ) by {
                    if i < one.len() {
                        assert((one + two)[i] == one[i]);
                    } else {
                        assert((one + two)[i] == two[i - one.len()]);
                    }
                }
            }
        }
    }

    proof fn lemma_moves_proper(self, count: nat)
        requires
            self.ok(),
            self.pawn(0) != self.pawn(1),
            count <= 4,
        ensures
            forall|i: int| 0 <= i < self.moves_among(count).len() ==> self.proper_target(
                #[trigger] self.moves_among(count)[i],
            ),
        decreases count,
    {
        if count > 0 {
            self.lemma_moves_proper((count - 1) as nat);
            self.lemma_moves_toward_proper(count - 1);
            let before = self.moves_among((count - 1) as nat);
            let here = self.moves_toward(count - 1);
            assert forall|i: int| 0 <= i < self.moves_among(count).len() implies self.proper_target(
                #[trigger] self.moves_among(count)[i],
            ) by {
                if i < before.len() {
                    assert(self.proper_target(before[i]));
                } else {
                    assert(self.proper_target(here[i - before.len()]));
                }
            }
        }
    }

    proof fn lemma_placements_allowed(self, count: nat)
        requires
            self.ok(),
            count <= self.walls.len(),
        ensures
            forall|i: int| 0 <= i < self.placements_among(count).len() ==> {
                let w = #[trigger] self.placements_among(count)[i];
                let index = layout::wall_index(self.size, w.0, w.1, w.2);
                &&& 0 <= w.0 < self.size - 1
                &&& 0 <= w.1 < self.size - 1
                &&& 0 <= w.2 < 2
                &&& self.may_place(index)
            },
        decreases count,
    {
        if count > 0 {
            self.lemma_placements_allowed((count - 1) as nat);
            layout::lemma_wall_index_round_trip(self.size, count - 1);
            let before = self.placements_among((count - 1) as nat);
            assert forall|i: int| 0 <= i < self.placements_among(count).len() implies {
                let w = #[trigger] self.placements_among(count)[i];
                let index = layout::wall_index(self.size, w.0, w.1, w.2);
                &&& 0 <= w.0 < self.size - 1
                &&& 0 <= w.1 < self.size - 1
                &&& 0 <= w.2 < 2
                &&& self.may_place(index)
            } by {
                if i < before.len() {
                    let w = before[i];
                    assert(self.placements_among(count)[i] == w);
                }
            }
        }
    }

    /// From a fair position that the opponent has not won, every action leads to
    /// a fair position.
    pub proof fn lemma_stays_fair(self, action: (u8, u8, u8))
        requires
            self.ok(),
            self.size <= 9,
            self.fair(),
            !self.won(1 - self.player),
            self.actions().contains(action),
        ensures
            self.after(action).fair(),
    {
        let me = self.player as int;
        let next = self.after(action);
        let moves = self.moves();
        let i = choose|i: int| 0 <= i < self.actions().len() && self.actions()[i] == action;
        self.lemma_moves_proper(4);
        self.lemma_placements_allowed(self.walls.len());
        if i < moves.len() {
            let target = self.moves_among(4)[i];
            assert(self.proper_target(target));
            layout::lemma_cell_round_trip(self.size, target.0, target.1);
            assert(action == (target.0 as u8, target.1 as u8, 2u8));
            assert(next.pawn(me) == target);
            assert(next.pawn(1 - me) == self.pawn(1 - me));
            self.lemma_same_can_finish(next, 1 - me);
            let goal = choose|goal: (int, int)| #[trigger]
                self.linked(self.pawn(me), goal) && goal.0 == self.goal_row(me);
            assert(self.linked(target, goal));
            self.lemma_same_paths(next, target, goal);
            assert(next.linked(next.pawn(me), goal));
        } else {
            let w = self.placements_among(self.walls.len())[i - moves.len()];
            assert(action == (w.0 as u8, w.1 as u8, w.2 as u8));
            let index = layout::wall_index(self.size, w.0, w.1, w.2);
            let walled = self.with_wall(index);
            assert(self.may_place(index));
            walled.lemma_same_can_finish(next, 0);
            walled.lemma_same_can_finish(next, 1);
        }
    }
}

impl Layout {
    /// A game starts in a fair position, on a board of at least two rows.
    pub proof fn lemma_start_fair(self)
        requires
            self.board_size >= 2,
        ensures
            self.start_board().fair(),
    {
        let board = self.start_board();
        let size = self.board_size;
        let col = size as int / 2;
        layout::lemma_cell_round_trip(size, 0, col);
        layout::lemma_cell_round_trip(size, size - 1, col);
        assert forall|row: int, c: int| !(#[trigger] board.wall_below(row, c)) by {
            if 0 <= row < size - 1 && 0 <= c < size - 1 {
                layout::lemma_wall_round_trip(size, row, c, 1);
            }
            if 0 <= row < size - 1 && 0 <= c - 1 < size - 1 {
                layout::lemma_wall_round_trip(size, row, c - 1, 1);
            }
        }
        let down = Seq::new(size, |i: int| (i, col));
        assert forall|i: int| #![trigger down[i]] 0 < i < down.len() implies board.neighbours(
            down[i - 1],
            down[i],
        ) by {
            assert(board.passable(down[i - 1], 1));
        }
        assert(board.is_path(down));
        assert(board.linked(board.pawn(0), (size - 1, col)));
        let up = Seq::new(size, |i: int| (size - 1 - i, col));
        assert forall|i: int| #![trigger up[i]] 0 < i < up.len() implies board.neighbours(
            up[i - 1],
            up[i],
        ) by {
            assert(board.passable(up[i - 1], 0));
        }
        assert(board.is_path(up));
        assert(board.linked(board.pawn(1), (0int, col)));
    }

    /// On a board of at least three rows, a search from the start of a game never
    /// gets stuck, whatever is known.
    pub proof fn lemma_start_never_stuck(self, known: Map<u64, i8>, data: u64)
        requires
            self.fits_word(),
            self.board_size >= 3,
            self.word_board(data) == self.start_board(),
        ensures
            self.valid(data),
            self.never_stuck(known, data),
    {
        let size = self.board_size;
        layout::lemma_cell_round_trip(size, 0, size as int / 2);
        layout::lemma_cell_round_trip(size, size - 1, size as int / 2);
        self.lemma_word_shape(data);
        self.lemma_start_fair();
        self.lemma_fair_never_stuck(known, data);
    }

    /// From a fair position a search passes through fair positions only.
    pub proof fn lemma_passes_fair(self, known: Map<u64, i8>, data: u64, other: u64)
        requires
            self.fits_word(),
            self.valid(data),
            self.word_board(data).fair(),
            self.passes(known, data, other),
        ensures
            self.word_board(other).fair(),
        decreases self.steps_left(data),
    {
        self.lemma_passes(known, data, other);
        if other != data {
            let action = choose|action: (u8, u8, u8)|
                #[trigger] self.actions_of(data).contains(action) && self.passes(
                    known,
                    self.child(data, action),
                    other,
                );
            self.lemma_action_child(data, action);
            self.lemma_widths();
            self.lemma_word_shape(data);
            self.lemma_child(data, action);
            self.word_board(data).lemma_stays_fair(action);
            self.lemma_passes_fair(known, self.child(data, action), other);
        }
    }

    /// On a board of at least three rows, a search from a fair position never
    /// gets stuck: every open state that it passes through offers an action.
    pub proof fn lemma_fair_never_stuck(self, known: Map<u64, i8>, data: u64)
        requires
            self.fits_word(),
            self.board_size >= 3,
            self.valid(data),
            self.word_board(data).fair(),
        ensures
            self.never_stuck(known, data),
    {
        assert forall|other: u64| #[trigger] self.passes(known, data, other) implies self.actions_of(
            other,
        ).len() > 0 by {
            self.lemma_passes_fair(known, data, other);
            self.lemma_passes_open(known, data, other);
            self.lemma_word_shape(other);
            self.word_board(other).lemma_can_move();
        }
    }
}

} // verus!
