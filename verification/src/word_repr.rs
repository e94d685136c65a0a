//! Accessor for game states that are packed into one 64-bit word.
//!
//! The walls take the low end of the word, by wall index. The scalars follow,
//! in the order in which a compact state holds them. This is the form in which
//! states are searched, used as keys and stored.

use vstd::prelude::*;
use vstd::arithmetic::power2::*;
use crate::bits;
use crate::layout;
use crate::layout::{Board, Layout};
use crate::q_bit_repr::QBitRepr;

verus! {

impl Layout {
    /// Where the scalars start in a word: after the walls.
    pub open spec fn base(self) -> nat {
        self.wall_positions() as nat
    }

    /// Walls and scalars fit one word of 64 bits.
    pub open spec fn fits_word(self) -> bool {
        &&& self.fits()
        &&& self.wall_positions() + self.scalar_bits() <= 64
    }

    /// The walls of a word, by wall index.
    pub open spec fn word_walls(self, data: u64) -> Seq<bool> {
        Seq::new(self.base(), |i: int| bits::field(data, i as nat, 1) == 1)
    }

    /// The board that a word describes.
    pub open spec fn word_board(self, data: u64) -> Board {
        self.board_at(self.word_walls(data), data, self.base())
    }

    /// The word with a wall placed or removed.
    pub open spec fn with_wall(self, data: u64, index: int, present: bool) -> u64 {
        bits::with_field(data, index as nat, 1, if present { 1 } else { 0 })
    }

    /// Writing a field after the walls leaves the walls alone.
    proof fn lemma_walls_kept(self, data: u64, offset: nat, width: nat, value: nat)
        requires
            self.fits_word(),
            0 < width < 64,
            self.base() <= offset,
            offset + width <= 64,
        ensures
            self.word_walls(bits::with_field(data, offset, width, value)) == self.word_walls(data),
    {
        self.lemma_widths();
        let changed = bits::with_field(data, offset, width, value);
        assert forall|i: int| 0 <= i < self.base() implies self.word_walls(changed)[i]
            == self.word_walls(data)[i] by {
            bits::lemma_other_field(data, offset, width, value, i as nat, 1);
        }
        assert(self.word_walls(changed) =~= self.word_walls(data));
    }

    /// Moving a pawn changes its cell and nothing else on the board.
    pub proof fn lemma_word_index(self, data: u64, player: nat, index: nat)
        requires
            self.fits_word(),
            player < 2,
            index < self.player_positions(),
        ensures
            self.word_board(self.with_index(data, self.base(), player, index)) == (Board {
                pawns: self.word_board(data).pawns.update(player as int, index),
                ..self.word_board(data)
            }),
    {
        self.lemma_widths();
        self.lemma_walls_kept(
            data,
            self.base() + self.position_offset(player),
            self.position_bits(),
            index,
        );
        self.lemma_with_index(self.word_walls(data), data, self.base(), player, index);
    }

    /// Changing a player's remaining walls changes that count and nothing else.
    pub proof fn lemma_word_walls_left(self, data: u64, player: nat, left: nat)
        requires
            self.fits_word(),
            player < 2,
            left < pow2(self.walls_left_bits()),
        ensures
            self.word_board(self.with_walls_left(data, self.base(), player, left)) == (Board {
                walls_left: self.word_board(data).walls_left.update(player as int, left),
                ..self.word_board(data)
            }),
    {
        self.lemma_widths();
        self.lemma_walls_kept(
            data,
            self.base() + self.walls_left_offset(player),
            self.walls_left_bits(),
            left,
        );
        self.lemma_with_walls_left(self.word_walls(data), data, self.base(), player, left);
    }

    /// Changing the current player changes that and nothing else.
    pub proof fn lemma_word_player(self, data: u64, player: nat)
        requires
            self.fits_word(),
            player < 2,
        ensures
            self.word_board(self.with_player(data, self.base(), player)) == (Board {
                player,
                ..self.word_board(data)
            }),
    {
        self.lemma_widths();
        self.lemma_walls_kept(data, self.base() + self.player_offset(), 1, player);
        self.lemma_with_player(self.word_walls(data), data, self.base(), player);
    }

    /// Changing the completed steps changes that count and nothing else.
    pub proof fn lemma_word_steps(self, data: u64, steps: nat)
        requires
            self.fits_word(),
            steps < pow2(self.steps_bits()),
        ensures
            self.word_board(self.with_steps(data, self.base(), steps)) == (Board {
                steps,
                ..self.word_board(data)
            }),
    {
        self.lemma_widths();
        self.lemma_walls_kept(data, self.base() + self.steps_offset(), self.steps_bits(), steps);
        self.lemma_with_steps(self.word_walls(data), data, self.base(), steps);
    }

    /// Placing or removing a wall changes that wall and nothing else.
    pub proof fn lemma_word_wall(self, data: u64, index: int, present: bool)
        requires
            self.fits_word(),
            0 <= index < self.wall_positions(),
        ensures
            self.word_board(self.with_wall(data, index, present)) == (Board {
                walls: self.word_board(data).walls.update(index, present),
                ..self.word_board(data)
            }),
    {
        self.lemma_widths();
        lemma2_to64();
        let bit: nat = if present { 1 } else { 0 };
        let changed = self.with_wall(data, index, present);
        let i = index as nat;
        bits::lemma_read_back(data, i, 1, bit);
        assert forall|j: int| 0 <= j < self.base() implies self.word_walls(changed)[j]
            == self.word_walls(data).update(index, present)[j] by {
            if j != index {
                bits::lemma_other_field(data, i, 1, bit, j as nat, 1);
            }
        }
        assert(self.word_walls(changed) =~= self.word_walls(data).update(index, present));
        let b = self.base();
        bits::lemma_other_field(data, i, 1, bit, b + self.position_offset(0), self.position_bits());
        bits::lemma_other_field(data, i, 1, bit, b + self.position_offset(1), self.position_bits());
        bits::lemma_other_field(data, i, 1, bit, b + self.walls_left_offset(0), self.walls_left_bits());
        bits::lemma_other_field(data, i, 1, bit, b + self.walls_left_offset(1), self.walls_left_bits());
        bits::lemma_other_field(data, i, 1, bit, b + self.player_offset(), 1);
        bits::lemma_other_field(data, i, 1, bit, b + self.steps_offset(), self.steps_bits());
        assert(self.word_board(changed).pawns =~= self.word_board(data).pawns);
        assert(self.word_board(changed).walls_left =~= self.word_board(data).walls_left);
    }

    /// Placing a wall where there is none and removing it again gives the word back.
    pub proof fn lemma_wall_undone(self, data: u64, index: int)
        requires
            self.fits_word(),
            0 <= index < self.wall_positions(),
            !self.word_walls(data)[index],
        ensures
            self.with_wall(self.with_wall(data, index, true), index, false) == data,
    {
        lemma2_to64();
        assert(bits::field(data, index as nat, 1) == 0);
        bits::lemma_restore(data, index as nat, 1, 1);
    }
}

/// Accessor for game states that are packed into one word.
#[derive(Debug)]
pub struct WordRepr {
    fields: QBitRepr,
}

impl Clone for WordRepr {
    fn clone(&self) -> (copy: Self)
        ensures
            copy == *self,
    {
        proof {
            use_type_invariant(self);
        }
        WordRepr { fields: self.fields.clone() }
    }
}

impl View for WordRepr {
    type V = Layout;

    closed spec fn view(&self) -> Layout {
        self.fields@
    }
}

impl WordRepr {
    #[verifier::type_invariant]
    pub closed spec fn inv(self) -> bool {
        self.fields@.fits_word()
    }

    /// What a caller may rely on of every accessor.
    pub proof fn lemma_inv(self)
        requires
            self.inv(),
        ensures
            self@.fits_word(),
    {
    }

    /// Whether the parameters give states that fit one word.
    pub fn fits(board_size: usize, max_walls: usize, max_steps: usize) -> (result: bool)
        ensures
            result == (Layout {
                board_size: board_size as nat,
                max_walls: max_walls as nat,
                max_steps: max_steps as nat,
            }).fits_word(),
    {
        QBitRepr::fits(board_size, max_walls, max_steps) && QBitRepr::new(
            board_size,
            max_walls,
            max_steps,
        ).size_bits() <= 64
    }

    /// Creates an accessor for the given parameters.
    pub fn new(board_size: usize, max_walls: usize, max_steps: usize) -> (repr: Self)
        requires
            (Layout {
                board_size: board_size as nat,
                max_walls: max_walls as nat,
                max_steps: max_steps as nat,
            }).fits_word(),
        ensures
            repr@ == (Layout {
                board_size: board_size as nat,
                max_walls: max_walls as nat,
                max_steps: max_steps as nat,
            }),
    {
        WordRepr { fields: QBitRepr::new(board_size, max_walls, max_steps) }
    }

    /// The board size.
    pub fn board_size(&self) -> (size: usize)
        ensures
            size == self@.board_size,
    {
        self.fields.board_size()
    }

    /// The greatest number of walls that a player can hold.
    pub fn max_walls(&self) -> (walls: usize)
        ensures
            walls == self@.max_walls,
    {
        self.fields.max_walls()
    }

    /// The number of steps after which a game is a tie.
    pub fn max_steps(&self) -> (steps: usize)
        ensures
            steps == self@.max_steps,
    {
        self.fields.max_steps()
    }

    /// The number of wall positions.
    pub fn num_wall_positions(&self) -> (count: usize)
        ensures
            count == self@.wall_positions(),
    {
        self.fields.num_wall_positions()
    }

    /// The number of player positions.
    pub fn num_player_positions(&self) -> (count: usize)
        ensures
            count == self@.player_positions(),
    {
        self.fields.num_player_positions()
    }

    /// Converts a row and column to a flat index.
    pub fn position_to_index(&self, row: usize, col: usize) -> (index: usize)
        requires
            row < self@.board_size,
            col < self@.board_size,
        ensures
            index == layout::cell_index(self@.board_size, row as int, col as int),
            index < self@.player_positions(),
    {
        self.fields.position_to_index(row, col)
    }

    /// Converts a flat index to a row and column.
    pub fn index_to_position(&self, index: usize) -> (position: (usize, usize))
        requires
            index < self@.player_positions(),
        ensures
            (position.0 as int, position.1 as int) == layout::cell_of(
                self@.board_size,
                index as int,
            ),
            position.0 < self@.board_size,
            position.1 < self@.board_size,
    {
        self.fields.index_to_position(index)
    }

    /// Converts a wall index to row, column and orientation.
    pub fn wall_index_to_position(&self, wall_index: usize) -> (position: (usize, usize, usize))
        requires
            wall_index < self@.wall_positions(),
        ensures
            (position.0 as int, position.1 as int, position.2 as int) == layout::wall_of(
                self@.board_size,
                wall_index as int,
            ),
            position.0 < self@.board_size - 1,
            position.1 < self@.board_size - 1,
            position.2 < 2,
    {
        self.fields.wall_index_to_position(wall_index)
    }

    /// Whether a wall is present at the given position.
    pub fn get_wall(&self, data: u64, row: usize, col: usize, orientation: usize) -> (present: bool)
        requires
            row < self@.board_size - 1,
            col < self@.board_size - 1,
            orientation < 2,
        ensures
            present == self@.word_board(data).wall(row as int, col as int, orientation as int),
    {
        proof {
            use_type_invariant(self);
        }
        let index: usize = self.fields.wall_position_to_index(row, col, orientation);
        bits::read_field(data, index, 1) == 1
    }

    /// Places or removes the wall at the given position.
    pub fn set_wall(
        &self,
        data: &mut u64,
        row: usize,
        col: usize,
        orientation: usize,
        present: bool,
    )
        requires
            row < self@.board_size - 1,
            col < self@.board_size - 1,
            orientation < 2,
        ensures
            *final(data) == self@.with_wall(
                *old(data),
                layout::wall_index(self@.board_size, row as int, col as int, orientation as int),
                present,
            ),
            self@.word_board(*final(data)) == (Board {
                walls: self@.word_board(*old(data)).walls.update(
                    layout::wall_index(
                        self@.board_size,
                        row as int,
                        col as int,
                        orientation as int,
                    ),
                    present,
                ),
                ..self@.word_board(*old(data))
            }),
    {
        proof {
            use_type_invariant(self);
        }
        let index: usize = self.fields.wall_position_to_index(row, col, orientation);
        let bit: u64 = if present { 1 } else { 0 };
        proof {
            self@.lemma_word_wall(*data, index as int, present);
        }
        *data = bits::write_field(*data, index, 1, bit);
    }

    /// A player's position, as row and column.
    pub fn get_player_position(&self, data: u64, player: usize) -> (position: (usize, usize))
        requires
            player < 2,
            self@.word_board(data).pawns[player as int] < self@.player_positions(),
        ensures
            (position.0 as int, position.1 as int) == self@.word_board(data).pawn(player as int),
            position.0 < self@.board_size,
            position.1 < self@.board_size,
    {
        proof {
            use_type_invariant(self);
            self@.lemma_widths();
        }
        let (offset, width) = self.fields.position_field(player);
        let base: usize = self.fields.num_wall_positions();
        let index: usize = bits::read_field(data, base + offset, width) as usize;
        self.fields.index_to_position(index)
    }

    /// Whether both pawns stand on the board.
    pub fn is_valid(&self, data: u64) -> (valid: bool)
        ensures
            valid == self@.valid(data),
    {
        proof {
            use_type_invariant(self);
            self@.lemma_widths();
            self@.lemma_word_shape(data);
        }
        let base: usize = self.fields.num_wall_positions();
        let (first_offset, width) = self.fields.position_field(0);
        let (second_offset, _) = self.fields.position_field(1);
        let first: usize = bits::read_field(data, base + first_offset, width) as usize;
        let second: usize = bits::read_field(data, base + second_offset, width) as usize;
        let positions: usize = self.fields.num_player_positions();
        first < positions && second < positions
    }

    /// Moves a player to the given row and column.
    pub fn set_player_position(&self, data: &mut u64, player: usize, row: usize, col: usize)
        requires
            player < 2,
            row < self@.board_size,
            col < self@.board_size,
        ensures
            *final(data) == self@.with_index(
                *old(data),
                self@.base(),
                player as nat,
                layout::cell_index(self@.board_size, row as int, col as int) as nat,
            ),
            self@.word_board(*final(data)) == (Board {
                pawns: self@.word_board(*old(data)).pawns.update(
                    player as int,
                    layout::cell_index(self@.board_size, row as int, col as int) as nat,
                ),
                ..self@.word_board(*old(data))
            }),
            self@.word_board(*final(data)).pawn(player as int) == (row as int, col as int),
    {
        proof {
            use_type_invariant(self);
            self@.lemma_widths();
        }
        let new_index: usize = self.fields.position_to_index(row, col);
        let (offset, width) = self.fields.position_field(player);
        let base: usize = self.fields.num_wall_positions();
        proof {
            self@.lemma_word_index(*data, player as nat, new_index as nat);
            layout::lemma_cell_round_trip(self@.board_size, row as int, col as int);
        }
        *data = bits::write_field(*data, base + offset, width, new_index as u64);
    }

    /// A player's remaining walls.
    pub fn get_walls_remaining(&self, data: u64, player: usize) -> (walls: usize)
        requires
            player < 2,
        ensures
            walls == self@.word_board(data).walls_left[player as int],
    {
        proof {
            use_type_invariant(self);
            self@.lemma_widths();
        }
        let (offset, width) = self.fields.walls_left_field(player);
        let base: usize = self.fields.num_wall_positions();
        bits::read_field(data, base + offset, width) as usize
    }

    /// Sets a player's remaining walls.
    pub fn set_walls_remaining(&self, data: &mut u64, player: usize, walls: usize)
        requires
            player < 2,
            walls < pow2(self@.walls_left_bits()),
        ensures
            *final(data) == self@.with_walls_left(
                *old(data),
                self@.base(),
                player as nat,
                walls as nat,
            ),
            self@.word_board(*final(data)) == (Board {
                walls_left: self@.word_board(*old(data)).walls_left.update(
                    player as int,
                    walls as nat,
                ),
                ..self@.word_board(*old(data))
            }),
    {
        proof {
            use_type_invariant(self);
            self@.lemma_widths();
            self@.lemma_word_walls_left(*data, player as nat, walls as nat);
        }
        let (offset, width) = self.fields.walls_left_field(player);
        let base: usize = self.fields.num_wall_positions();
        *data = bits::write_field(*data, base + offset, width, walls as u64);
    }

    /// The current player (0 or 1).
    pub fn get_current_player(&self, data: u64) -> (player: usize)
        ensures
            player == self@.word_board(data).player,
            player < 2,
    {
        proof {
            use_type_invariant(self);
            lemma2_to64();
        }
        let base: usize = self.fields.num_wall_positions();
        bits::read_field(data, base + self.fields.player_field(), 1) as usize
    }

    /// Sets the current player.
    pub fn set_current_player(&self, data: &mut u64, player: usize)
        requires
            player < 2,
        ensures
            *final(data) == self@.with_player(*old(data), self@.base(), player as nat),
            self@.word_board(*final(data)) == (Board {
                player: player as nat,
                ..self@.word_board(*old(data))
            }),
    {
        proof {
            use_type_invariant(self);
            self@.lemma_word_player(*data, player as nat);
        }
        let base: usize = self.fields.num_wall_positions();
        *data = bits::write_field(*data, base + self.fields.player_field(), 1, player as u64);
    }

    /// The number of completed steps.
    pub fn get_completed_steps(&self, data: u64) -> (steps: usize)
        ensures
            steps == self@.word_board(data).steps,
    {
        proof {
            use_type_invariant(self);
            self@.lemma_widths();
        }
        let (offset, width) = self.fields.steps_field();
        let base: usize = self.fields.num_wall_positions();
        bits::read_field(data, base + offset, width) as usize
    }

    /// Sets the number of completed steps.
    pub fn set_completed_steps(&self, data: &mut u64, steps: usize)
        requires
            steps <= self@.max_steps,
        ensures
            *final(data) == self@.with_steps(*old(data), self@.base(), steps as nat),
            self@.word_board(*final(data)) == (Board {
                steps: steps as nat,
                ..self@.word_board(*old(data))
            }),
    {
        proof {
            use_type_invariant(self);
            self@.lemma_widths();
            self@.lemma_word_steps(*data, steps as nat);
        }
        let (offset, width) = self.fields.steps_field();
        let base: usize = self.fields.num_wall_positions();
        *data = bits::write_field(*data, base + offset, width, steps as u64);
    }
}

} // verus!
