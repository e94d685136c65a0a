//! The rules of Quoridor, stated on boards.
//!
//! Player 0 starts on row 0 and wins on the last row; player 1 starts on the
//! last row and wins on row 0. A player either moves their pawn or places a
//! wall. Walls span two cells, may not overlap or cross, and may not cut a
//! player off from their goal row.

use vstd::prelude::*;
use crate::layout;
use crate::layout::{Board, Layout};

verus! {

/// The neighbour of a cell in direction 0 (up), 1 (down), 2 (left) or 3 (right).
pub open spec fn toward(cell: (int, int), direction: int) -> (int, int) {
    if direction == 0 {
        (cell.0 - 1, cell.1)
    } else if direction == 1 {
        (cell.0 + 1, cell.1)
    } else if direction == 2 {
        (cell.0, cell.1 - 1)
    } else {
        (cell.0, cell.1 + 1)
    }
}

impl Board {
    /// Whether a cell is on the board.
    pub open spec fn on_board(self, cell: (int, int)) -> bool {
        0 <= cell.0 < self.size && 0 <= cell.1 < self.size
    }

    /// Whether the neighbour of a cell in a direction is on the board with no
    /// wall between the two.
    pub open spec fn passable(self, cell: (int, int), direction: int) -> bool {
        let target = toward(cell, direction);
        &&& self.on_board(target)
        &&& if direction == 0 {
            !self.wall_below(target.0, target.1)
        } else if direction == 1 {
            !self.wall_below(cell.0, cell.1)
        } else if direction == 2 {
            !self.wall_right(target.0, target.1)
        } else {
            !self.wall_right(cell.0, cell.1)
        }
    }

    /// The step from a cell in a direction, if it is passable.
    pub open spec fn step(self, cell: (int, int), direction: int) -> Seq<(int, int)> {
        if self.passable(cell, direction) {
            seq![toward(cell, direction)]
        } else {
            Seq::empty()
        }
    }

    /// The moves that start in a direction: one step; where the opponent stands
    /// there, the jump over them; and where that jump is not passable, the steps
    /// to the opponent's sides.
    pub open spec fn moves_toward(self, direction: int) -> Seq<(int, int)> {
        let from = self.pawn(self.player as int);
        let other = self.pawn(1 - self.player);
        if !self.passable(from, direction) {
            Seq::empty()
        } else if toward(from, direction) != other {
            seq![toward(from, direction)]
        } else if self.passable(other, direction) {
            seq![toward(other, direction)]
        } else if direction < 2 {
            self.step(other, 2) + self.step(other, 3)
        } else {
            self.step(other, 0) + self.step(other, 1)
        }
    }

    /// The moves in the first `count` directions.
    pub open spec fn moves_among(self, count: nat) -> Seq<(int, int)>
        decreases count,
    {
        if count == 0 {
            Seq::empty()
        } else {
            self.moves_among((count - 1) as nat) + self.moves_toward(count - 1)
        }
    }

    /// All moves of the current player, as target cells.
    pub open spec fn moves(self) -> Seq<(int, int)> {
        self.moves_among(4)
    }

    /// The row that a player has to reach.
    pub open spec fn goal_row(self, player: int) -> int {
        if player == 0 {
            self.size - 1
        } else {
            0
        }
    }

    /// Whether a player's pawn stands on their goal row.
    pub open spec fn won(self, player: int) -> bool {
        self.pawn(player).0 == self.goal_row(player)
    }

    /// Whether one can step from a cell to another.
    pub open spec fn neighbours(self, a: (int, int), b: (int, int)) -> bool {
        exists|d: int| 0 <= d < 4 && #[trigger] self.passable(a, d) && b == toward(a, d)
    }

    /// Whether each cell of a sequence can be stepped to from the one before.
    pub open spec fn is_path(self, path: Seq<(int, int)>) -> bool {
        &&& path.len() > 0
        &&& forall|i: int| #![trigger path[i]]
            0 < i < path.len() ==> self.neighbours(path[i - 1], path[i])
    }

    /// Whether a path leads from one cell to another.
    pub open spec fn linked(self, a: (int, int), b: (int, int)) -> bool {
        exists|path: Seq<(int, int)>| #[trigger]
            self.is_path(path) && path[0] == a && path.last() == b
    }

    /// Whether a path leads a player's pawn to their goal row. Pawns do not
    /// stand in the way.
    pub open spec fn can_finish(self, player: int) -> bool {
        exists|goal: (int, int)| #[trigger]
            self.linked(self.pawn(player), goal) && goal.0 == self.goal_row(player)
    }

    /// Whether a wall at a position would neither overlap nor cross another.
    pub open spec fn wall_has_room(self, row: int, col: int, orientation: int) -> bool {
        &&& !self.wall(row, col, 0)
        &&& !self.wall(row, col, 1)
        &&& if orientation == 0 {
            !self.wall(row - 1, col, 0) && !self.wall(row + 1, col, 0)
        } else {
            !self.wall(row, col - 1, 1) && !self.wall(row, col + 1, 1)
        }
    }

    /// The board with a wall placed.
    pub open spec fn with_wall(self, index: int) -> Board {
        Board { walls: self.walls.update(index, true), ..self }
    }

    /// Whether the current player may place the wall with the given index.
    pub open spec fn may_place(self, index: int) -> bool {
        let (row, col, orientation) = layout::wall_of(self.size, index);
        &&& self.walls_left[self.player as int] > 0
        &&& self.wall_has_room(row, col, orientation)
        &&& self.with_wall(index).can_finish(0)
        &&& self.with_wall(index).can_finish(1)
    }

    /// The walls with an index below `count` that the current player may place,
    /// as row, column and orientation.
    pub open spec fn placements_among(self, count: nat) -> Seq<(int, int, int)>
        decreases count,
    {
        if count == 0 {
            Seq::empty()
        } else if self.may_place(count - 1) {
            self.placements_among((count - 1) as nat).push(layout::wall_of(self.size, count - 1))
        } else {
            self.placements_among((count - 1) as nat)
        }
    }

    /// All walls that the current player may place.
    pub open spec fn placements(self) -> Seq<(int, int, int)> {
        self.placements_among(self.walls.len())
    }

    /// All actions of the current player, as row, column and type: moves (type
    /// 2), then wall placements (the type is the orientation).
    pub open spec fn actions(self) -> Seq<(u8, u8, u8)> {
        self.moves().map_values(|m: (int, int)| (m.0 as u8, m.1 as u8, 2u8))
            + self.placements().map_values(
            |w: (int, int, int)| (w.0 as u8, w.1 as u8, w.2 as u8),
        )
    }

    /// The board after an action: the pawn moved or the wall placed, the turn
    /// passed on and the step counted.
    pub open spec fn after(self, action: (u8, u8, u8)) -> Board {
        let p = self.player as int;
        let acted = if action.2 == 2 {
            Board {
                pawns: self.pawns.update(
                    p,
                    layout::cell_index(self.size, action.0 as int, action.1 as int) as nat,
                ),
                ..self
            }
        } else {
            Board {
                walls_left: self.walls_left.update(p, (self.walls_left[p] - 1) as nat),
                ..self.with_wall(
                    layout::wall_index(
                        self.size,
                        action.0 as int,
                        action.1 as int,
                        action.2 as int,
                    ),
                )
            }
        };
        Board { player: (1 - self.player) as nat, steps: self.steps + 1, ..acted }
    }

    /// Whether an action is of the right form: a cell of the board to move to,
    /// or a wall position while the current player has walls.
    pub open spec fn well_formed_action(self, action: (u8, u8, u8)) -> bool {
        if action.2 == 2 {
            action.0 < self.size && action.1 < self.size
        } else {
            &&& action.0 < self.size - 1
            &&& action.1 < self.size - 1
            &&& action.2 < 2
            &&& self.walls_left[self.player as int] > 0
        }
    }

    /// A passable direction leads to a cell of the board.
    proof fn lemma_moves_on_board(self, count: nat)
        requires
            count <= 4,
        ensures
            forall|i: int| 0 <= i < self.moves_among(count).len() ==> self.on_board(
                #[trigger] self.moves_among(count)[i],
            ),
        decreases count,
    {
        if count > 0 {
            self.lemma_moves_on_board((count - 1) as nat);
            let before = self.moves_among((count - 1) as nat);
            let here = self.moves_toward(count - 1);
            assert forall|i: int| 0 <= i < here.len() implies self.on_board(#[trigger] here[i]) by {
                let other = self.pawn(1 - self.player);
                let a = if count - 1 < 2 { 2int } else { 0int };
                let sides = self.step(other, a) + self.step(other, a + 1);
                assert(forall|j: int| 0 <= j < sides.len() ==> self.on_board(#[trigger] sides[j]));
            }
            assert forall|i: int| 0 <= i < self.moves_among(count).len() implies self.on_board(
                #[trigger] self.moves_among(count)[i],
            ) by {
                if i < before.len() {
                    assert(self.on_board(before[i]));
                } else {
                    assert(self.on_board(here[i - before.len()]));
                }
            }
        }
    }

    proof fn lemma_placements_on_grid(self, count: nat)
        requires
            self.size >= 1,
            count <= 2 * ((self.size - 1) * (self.size - 1)),
        ensures
            forall|i: int| 0 <= i < self.placements_among(count).len() ==> {
                let w = #[trigger] self.placements_among(count)[i];
                &&& 0 <= w.0 < self.size - 1
                &&& 0 <= w.1 < self.size - 1
                &&& 0 <= w.2 < 2
                &&& self.walls_left[self.player as int] > 0
            },
        decreases count,
    {
        if count > 0 {
            self.lemma_placements_on_grid((count - 1) as nat);
            layout::lemma_wall_index_round_trip(self.size, count - 1);
            let before = self.placements_among((count - 1) as nat);
            assert forall|i: int| 0 <= i < self.placements_among(count).len() implies {
                let w = #[trigger] self.placements_among(count)[i];
                &&& 0 <= w.0 < self.size - 1
                &&& 0 <= w.1 < self.size - 1
                &&& 0 <= w.2 < 2
                &&& self.walls_left[self.player as int] > 0
            } by {
                if i < before.len() {
                    let w = before[i];
                    assert(self.placements_among(count)[i] == w);
                }
            }
        }
    }

    /// Every action has the right form.
    pub proof fn lemma_actions_well_formed(self)
        requires
            self.ok(),
            self.size <= 9,
        ensures
            forall|i: int| 0 <= i < self.actions().len() ==> self.well_formed_action(
                #[trigger] self.actions()[i],
            ),
    {
        self.lemma_moves_on_board(4);
        self.lemma_placements_on_grid(self.walls.len());
        assert forall|i: int| 0 <= i < self.actions().len() implies self.well_formed_action(
            #[trigger] self.actions()[i],
        ) by {
            let m = self.moves();
            if i < m.len() {
                assert(self.on_board(self.moves_among(4)[i]));
            } else {
                let w = self.placements_among(self.walls.len())[i - m.len()];
                assert(0 <= w.0 < self.size - 1);
            }
        }
    }

    /// A well-formed action leads from a board in order to another, with the
    /// turn passed on and one more step.
    pub proof fn lemma_after_ok(self, action: (u8, u8, u8))
        requires
            self.ok(),
            self.well_formed_action(action),
        ensures
            self.after(action).ok(),
            self.after(action).steps == self.steps + 1,
            self.after(action).player == 1 - self.player,
            self.after(action).size == self.size,
    {
        if action.2 == 2 {
            layout::lemma_cell_round_trip(self.size, action.0 as int, action.1 as int);
        } else {
            layout::lemma_wall_round_trip(
                self.size,
                action.0 as int,
                action.1 as int,
                action.2 as int,
            );
        }
    }
}

impl Layout {
    /// The board on which a game starts: both pawns in the middle of their own
    /// row, no wall placed, player 0 to act.
    pub open spec fn start_board(self) -> Board {
        let middle = self.board_size as int / 2;
        Board {
            size: self.board_size,
            walls: Seq::new(self.base(), |i: int| false),
            pawns: seq![
                layout::cell_index(self.board_size, 0, middle) as nat,
                layout::cell_index(self.board_size, self.board_size - 1, middle) as nat,
            ],
            walls_left: seq![self.max_walls, self.max_walls],
            player: 0,
            steps: 0,
        }
    }

    /// The word in which a game starts: the pawns and the walls of the start
    /// board, and nothing else.
    pub open spec fn start_word(self) -> u64 {
        let board = self.start_board();
        let one = self.with_index(0, self.base(), 0, board.pawns[0]);
        let both = self.with_index(one, self.base(), 1, board.pawns[1]);
        let walls = self.with_walls_left(both, self.base(), 0, self.max_walls);
        self.with_walls_left(walls, self.base(), 1, self.max_walls)
    }

    /// The word after a pawn has moved.
    pub open spec fn moved(self, data: u64, player: nat, row: int, col: int) -> u64 {
        self.with_index(
            data,
            self.base(),
            player,
            layout::cell_index(self.board_size, row, col) as nat,
        )
    }

    /// The word after a player has placed a wall.
    pub open spec fn walled(
        self,
        data: u64,
        player: nat,
        row: int,
        col: int,
        orientation: int,
    ) -> u64 {
        self.with_walls_left(
            self.with_wall(
                data,
                layout::wall_index(self.board_size, row, col, orientation),
                true,
            ),
            self.base(),
            player,
            (self.word_board(data).walls_left[player as int] - 1) as nat,
        )
    }

    /// The word after the turn has passed on.
    pub open spec fn switched(self, data: u64) -> u64 {
        let board = self.word_board(data);
        self.with_steps(
            self.with_player(data, self.base(), (1 - board.player) as nat),
            self.base(),
            board.steps + 1,
        )
    }

    /// The word after an action of the current player.
    pub open spec fn child(self, data: u64, action: (u8, u8, u8)) -> u64 {
        let player = self.word_board(data).player;
        self.switched(
            if action.2 == 2 {
                self.moved(data, player, action.0 as int, action.1 as int)
            } else {
                self.walled(data, player, action.0 as int, action.1 as int, action.2 as int)
            },
        )
    }

    /// Whether a word describes a game in progress or finished: both pawns
    /// stand on the board.
    pub open spec fn valid(self, data: u64) -> bool {
        self.word_board(data).ok()
    }

    /// Every word describes a board of the right shape.
    pub proof fn lemma_word_shape(self, data: u64)
        requires
            self.fits_word(),
        ensures
            self.word_board(data).size == self.board_size,
            self.word_board(data).walls.len() == self.wall_positions(),
            self.word_board(data).player < 2,
            self.word_board(data).walls_left[0] < vstd::arithmetic::power2::pow2(
                self.walls_left_bits(),
            ),
            self.word_board(data).walls_left[1] < vstd::arithmetic::power2::pow2(
                self.walls_left_bits(),
            ),
            self.valid(data) <==> {
                &&& self.word_board(data).pawns[0] < self.player_positions()
                &&& self.word_board(data).pawns[1] < self.player_positions()
            },
    {
        self.lemma_widths();
        vstd::arithmetic::power2::lemma2_to64();
        vstd::arithmetic::power2::lemma_pow2_pos(self.walls_left_bits());
    }

    /// The word after an action describes the board after it.
    pub proof fn lemma_child(self, data: u64, action: (u8, u8, u8))
        requires
            self.fits_word(),
            self.valid(data),
            self.word_board(data).steps < self.max_steps,
            self.word_board(data).well_formed_action(action),
        ensures
            self.word_board(self.child(data, action)) == self.word_board(data).after(action),
            self.valid(self.child(data, action)),
    {
        self.lemma_widths();
        self.lemma_word_shape(data);
        let board = self.word_board(data);
        let player = board.player;
        board.lemma_after_ok(action);
        let acted = if action.2 == 2 {
            self.moved(data, player, action.0 as int, action.1 as int)
        } else {
            self.walled(data, player, action.0 as int, action.1 as int, action.2 as int)
        };
        if action.2 == 2 {
            layout::lemma_cell_round_trip(board.size, action.0 as int, action.1 as int);
            self.lemma_word_index(
                data,
                player,
                layout::cell_index(board.size, action.0 as int, action.1 as int) as nat,
            );
        } else {
            let index = layout::wall_index(
                board.size,
                action.0 as int,
                action.1 as int,
                action.2 as int,
            );
            layout::lemma_wall_round_trip(
                board.size,
                action.0 as int,
                action.1 as int,
                action.2 as int,
            );
            self.lemma_word_wall(data, index, true);
            self.lemma_word_walls_left(
                self.with_wall(data, index, true),
                player,
                (board.walls_left[player as int] - 1) as nat,
            );
        }
        let next = (1 - player) as nat;
        self.lemma_word_player(acted, next);
        self.lemma_word_steps(
            self.with_player(acted, self.base(), next),
            board.steps + 1,
        );
    }

    /// Moving a pawn or placing a wall counts no step by itself.
    pub proof fn lemma_acted_steps(self, data: u64, action: (u8, u8, u8))
        requires
            self.fits_word(),
            self.valid(data),
            self.word_board(data).well_formed_action(action),
        ensures
            ({
                let player = self.word_board(data).player;
                let acted = if action.2 == 2 {
                    self.moved(data, player, action.0 as int, action.1 as int)
                } else {
                    self.walled(data, player, action.0 as int, action.1 as int, action.2 as int)
                };
                self.word_board(acted).steps == self.word_board(data).steps
            }),
    {
        self.lemma_widths();
        self.lemma_word_shape(data);
        let board = self.word_board(data);
        if action.2 == 2 {
            layout::lemma_cell_round_trip(board.size, action.0 as int, action.1 as int);
            self.lemma_word_index(
                data,
                board.player,
                layout::cell_index(board.size, action.0 as int, action.1 as int) as nat,
            );
        } else {
            let index = layout::wall_index(
                board.size,
                action.0 as int,
                action.1 as int,
                action.2 as int,
            );
            layout::lemma_wall_round_trip(
                board.size,
                action.0 as int,
                action.1 as int,
                action.2 as int,
            );
            self.lemma_word_wall(data, index, true);
            self.lemma_word_walls_left(
                self.with_wall(data, index, true),
                board.player,
                (board.walls_left[board.player as int] - 1) as nat,
            );
        }
    }
}

} // verus!
