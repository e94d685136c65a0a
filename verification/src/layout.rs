//! Where the parts of a packed game state stand, and the board that they describe.

use vstd::prelude::*;
use vstd::arithmetic::div_mod::*;
use vstd::arithmetic::mul::*;
use vstd::arithmetic::power2::*;
use crate::bits;

verus! {

/// A game state without its encoding.
///
/// Walls are listed by wall index, pawns by flat cell index.
pub struct Board {
    pub size: nat,
    pub walls: Seq<bool>,
    pub pawns: Seq<nat>,
    pub walls_left: Seq<nat>,
    pub player: nat,
    pub steps: nat,
}

impl Board {
    /// Whether a wall is placed at the given position; none is outside the wall grid.
    pub open spec fn wall(self, row: int, col: int, orientation: int) -> bool {
        &&& 0 <= row < self.size - 1
        &&& 0 <= col < self.size - 1
        &&& 0 <= orientation < 2
        &&& self.walls[wall_index(self.size, row, col, orientation)]
    }

    /// Whether a vertical wall stands to the right of a cell. A vertical wall
    /// spans its own row and the next.
    pub open spec fn wall_right(self, row: int, col: int) -> bool {
        self.wall(row, col, 0) || self.wall(row - 1, col, 0)
    }

    /// Whether a horizontal wall lies below a cell. A horizontal wall spans its
    /// own column and the next.
    pub open spec fn wall_below(self, row: int, col: int) -> bool {
        self.wall(row, col, 1) || self.wall(row, col - 1, 1)
    }

    /// The cell, as row and column, on which a player's pawn stands.
    pub open spec fn pawn(self, player: int) -> (int, int) {
        cell_of(self.size, self.pawns[player] as int)
    }

    /// The parts of the board have the sizes that the board size gives them,
    /// and both pawns stand on the board.
    pub open spec fn ok(self) -> bool {
        &&& self.size >= 1
        &&& self.walls.len() == 2 * ((self.size - 1) * (self.size - 1))
        &&& self.pawns.len() == 2
        &&& self.walls_left.len() == 2
        &&& self.player < 2
        &&& self.pawns[0] < self.size * self.size
        &&& self.pawns[1] < self.size * self.size
    }
}

/// The flat index of a cell.
pub open spec fn cell_index(size: nat, row: int, col: int) -> int {
    row * size + col
}

/// The cell with the given flat index.
pub open spec fn cell_of(size: nat, index: int) -> (int, int) {
    (index / size as int, index % size as int)
}

/// The index of a wall position.
pub open spec fn wall_index(size: nat, row: int, col: int, orientation: int) -> int {
    orientation * ((size - 1) * (size - 1)) + row * (size - 1) + col
}

/// The wall position, as row, column and orientation, with the given index.
pub open spec fn wall_of(size: nat, index: int) -> (int, int, int) {
    let per_orientation = (size - 1) * (size - 1);
    let rest = index % per_orientation;
    (rest / (size - 1), rest % (size - 1), index / per_orientation)
}

/// A cell on the board has an index below `size * size`, and the index leads
/// back to the cell.
pub proof fn lemma_cell_round_trip(size: nat, row: int, col: int)
    requires
        0 <= row < size,
        0 <= col < size,
    ensures
        0 <= cell_index(size, row, col) < size * size,
        cell_of(size, cell_index(size, row, col)) == (row, col),
{
    assert(0 <= row * size + col < size * size) by (nonlinear_arith)
        requires
            0 <= row < size,
            0 <= col < size,
    ;
    lemma_fundamental_div_mod_converse(row * size + col, size as int, row, col);
}

/// An index below `size * size` is the index of a cell on the board.
pub proof fn lemma_index_round_trip(size: nat, index: int)
    requires
        0 <= index < size * size,
    ensures
        0 <= cell_of(size, index).0 < size,
        0 <= cell_of(size, index).1 < size,
        cell_index(size, cell_of(size, index).0, cell_of(size, index).1) == index,
{
    assert(size > 0) by (nonlinear_arith)
        requires
            0 <= index < size * size,
    ;
    lemma_fundamental_div_mod(index, size as int);
    lemma_mod_bound(index, size as int);
    assert(0 <= index / size as int) by (nonlinear_arith)
        requires
            0 <= index,
            size > 0,
    ;
    assert(index / (size as int) < size) by (nonlinear_arith)
        requires
            index < size * size,
            size > 0,
    ;
    assert((index / size as int) * size == size * (index / size as int)) by (nonlinear_arith);
}

/// A wall position has an index below the number of wall positions, and the
/// index leads back to the position.
pub proof fn lemma_wall_round_trip(size: nat, row: int, col: int, orientation: int)
    requires
        0 <= row < size - 1,
        0 <= col < size - 1,
        0 <= orientation < 2,
    ensures
        0 <= wall_index(size, row, col, orientation) < 2 * ((size - 1) * (size - 1)),
        wall_of(size, wall_index(size, row, col, orientation)) == (row, col, orientation),
{
    let m = size - 1;
    let rest = row * m + col;
    assert(0 <= rest < m * m) by (nonlinear_arith)
        requires
            0 <= row < m,
            0 <= col < m,
            rest == row * m + col,
    ;
    lemma_fundamental_div_mod_converse(rest, m, row, col);
    lemma_fundamental_div_mod_converse(orientation * (m * m) + rest, m * m, orientation, rest);
    assert(orientation * (m * m) <= m * m) by (nonlinear_arith)
        requires
            0 <= orientation < 2,
            0 <= m,
    ;
    assert(0 <= orientation * (m * m)) by (nonlinear_arith)
        requires
            0 <= orientation,
            0 <= m,
    ;
}

/// An index below the number of wall positions is the index of a wall position.
pub proof fn lemma_wall_index_round_trip(size: nat, index: int)
    requires
        size >= 1,
        0 <= index < 2 * ((size - 1) * (size - 1)),
    ensures
        ({
            let (row, col, orientation) = wall_of(size, index);
            &&& 0 <= row < size - 1
            &&& 0 <= col < size - 1
            &&& 0 <= orientation < 2
            &&& wall_index(size, row, col, orientation) == index
        }),
{
    let m = size - 1;
    let per = m * m;
    assert(m > 0) by (nonlinear_arith)
        requires
            0 <= index < 2 * (m * m),
            m >= 0,
    ;
    assert(per > 0) by (nonlinear_arith)
        requires
            per == m * m,
            m > 0,
    ;
    lemma_fundamental_div_mod(index, per);
    lemma_mod_bound(index, per);
    assert(0 <= index / per < 2) by (nonlinear_arith)
        requires
            0 <= index < 2 * per,
            per > 0,
    ;
    let rest = index % per;
    lemma_index_round_trip(m as nat, rest);
    assert((index / per) * per == per * (index / per)) by (nonlinear_arith);
}

/// The parameters of a packed game state. They fix where each part stands.
pub struct Layout {
    pub board_size: nat,
    pub max_walls: nat,
    pub max_steps: nat,
}

impl Layout {
    /// The number of wall positions.
    pub open spec fn wall_positions(self) -> int {
        2 * ((self.board_size - 1) * (self.board_size - 1))
    }

    /// The number of cells.
    pub open spec fn player_positions(self) -> int {
        (self.board_size * self.board_size) as int
    }

    /// The width of a pawn's flat cell index.
    pub open spec fn position_bits(self) -> nat {
        bits::bits_for((self.player_positions() - 1) as nat)
    }

    /// The width of a count of remaining walls.
    pub open spec fn walls_left_bits(self) -> nat {
        bits::bits_for(self.max_walls)
    }

    /// The width of the count of completed steps.
    pub open spec fn steps_bits(self) -> nat {
        bits::bits_for(self.max_steps)
    }

    /// Where a pawn's cell index stands among the scalars.
    pub open spec fn position_offset(self, player: nat) -> nat {
        if player == 0 {
            0
        } else {
            self.position_bits()
        }
    }

    /// Where a player's count of remaining walls stands among the scalars.
    pub open spec fn walls_left_offset(self, player: nat) -> nat {
        2 * self.position_bits() + if player == 0 {
            0
        } else {
            self.walls_left_bits()
        }
    }

    /// Where the number of the current player stands among the scalars.
    pub open spec fn player_offset(self) -> nat {
        2 * self.position_bits() + 2 * self.walls_left_bits()
    }

    /// Where the count of completed steps stands among the scalars.
    pub open spec fn steps_offset(self) -> nat {
        self.player_offset() + 1
    }

    /// The number of bits that all scalars take.
    pub open spec fn scalar_bits(self) -> nat {
        self.steps_offset() + self.steps_bits()
    }

    /// The walls fit a bitmap of 128 bits and the scalars a word of 64 bits.
    pub open spec fn fits(self) -> bool {
        &&& self.board_size >= 1
        &&& self.max_walls <= usize::MAX
        &&& self.max_steps <= usize::MAX
        &&& self.wall_positions() <= 128
        &&& self.scalar_bits() <= 64
    }

    /// The cell index of a pawn, where the scalars start at bit `base`.
    pub open spec fn index_at(self, word: u64, base: nat, player: nat) -> nat {
        bits::field(word, base + self.position_offset(player), self.position_bits())
    }

    /// A player's remaining walls, where the scalars start at bit `base`.
    pub open spec fn walls_left_at(self, word: u64, base: nat, player: nat) -> nat {
        bits::field(word, base + self.walls_left_offset(player), self.walls_left_bits())
    }

    /// The current player, where the scalars start at bit `base`.
    pub open spec fn player_at(self, word: u64, base: nat) -> nat {
        bits::field(word, base + self.player_offset(), 1)
    }

    /// The completed steps, where the scalars start at bit `base`.
    pub open spec fn steps_at(self, word: u64, base: nat) -> nat {
        bits::field(word, base + self.steps_offset(), self.steps_bits())
    }

    /// The word with a pawn's cell index replaced.
    pub open spec fn with_index(self, word: u64, base: nat, player: nat, index: nat) -> u64 {
        bits::with_field(word, base + self.position_offset(player), self.position_bits(), index)
    }

    /// The word with a player's remaining walls replaced.
    pub open spec fn with_walls_left(self, word: u64, base: nat, player: nat, walls: nat) -> u64 {
        bits::with_field(word, base + self.walls_left_offset(player), self.walls_left_bits(), walls)
    }

    /// The word with the current player replaced.
    pub open spec fn with_player(self, word: u64, base: nat, player: nat) -> u64 {
        bits::with_field(word, base + self.player_offset(), 1, player)
    }

    /// The word with the completed steps replaced.
    pub open spec fn with_steps(self, word: u64, base: nat, steps: nat) -> u64 {
        bits::with_field(word, base + self.steps_offset(), self.steps_bits(), steps)
    }

    /// What the scalars at `base` say, beside the walls given.
    pub open spec fn board_at(self, walls: Seq<bool>, word: u64, base: nat) -> Board {
        Board {
            size: self.board_size,
            walls,
            pawns: seq![self.index_at(word, base, 0), self.index_at(word, base, 1)],
            walls_left: seq![self.walls_left_at(word, base, 0), self.walls_left_at(word, base, 1)],
            player: self.player_at(word, base),
            steps: self.steps_at(word, base),
        }
    }

    /// Bounds that every layout meets whose parts fit.
    pub proof fn lemma_widths(self)
        requires
            self.fits(),
        ensures
            1 <= self.board_size <= 9,
            1 <= self.position_bits() <= 59,
            1 <= self.walls_left_bits() <= 59,
            1 <= self.steps_bits() <= 59,
            self.player_positions() <= pow2(self.position_bits()),
            self.max_walls < pow2(self.walls_left_bits()),
            self.max_steps < pow2(self.steps_bits()),
            self.player_positions() >= 1,
            0 <= self.wall_positions(),
    {
        bits::lemma_bits_for((self.player_positions() - 1) as nat);
        bits::lemma_bits_for(self.max_walls);
        bits::lemma_bits_for(self.max_steps);
        let m = self.board_size - 1;
        assert(m <= 8) by (nonlinear_arith)
            requires
                0 <= m,
                2 * (m * m) <= 128,
        ;
        assert(m * m >= 0) by (nonlinear_arith)
            requires
                0 <= m,
        ;
        let n = self.board_size;
        assert(n * n >= 1) by (nonlinear_arith)
            requires
                n >= 1,
        ;
    }

    /// A word of zeros reads zero in every field.
    pub proof fn lemma_zero(self, base: nat)
        ensures
            self.index_at(0, base, 0) == 0,
            self.index_at(0, base, 1) == 0,
            self.walls_left_at(0, base, 0) == 0,
            self.walls_left_at(0, base, 1) == 0,
            self.player_at(0, base) == 0,
            self.steps_at(0, base) == 0,
            forall|i: nat| #[trigger] bits::field(0, i, 1) == 0,
    {
        assert forall|offset: nat, width: nat| #[trigger] bits::field(0, offset, width) == 0 by {
            lemma_pow2_pos(offset);
            lemma_pow2_pos(width);
            lemma_div_of0(pow2(offset) as int);
            lemma_small_mod(0, pow2(width));
        }
    }

    /// Replacing a pawn's cell index changes that index and nothing else.
    pub proof fn lemma_with_index(
        self,
        walls: Seq<bool>,
        word: u64,
        base: nat,
        player: nat,
        index: nat,
    )
        requires
            self.fits(),
            base + self.scalar_bits() <= 64,
            player < 2,
            index < self.player_positions(),
        ensures
            self.board_at(walls, self.with_index(word, base, player, index), base) == (Board {
                pawns: self.board_at(walls, word, base).pawns.update(player as int, index),
                ..self.board_at(walls, word, base)
            }),
    {
        self.lemma_widths();
        let o = base + self.position_offset(player);
        let w = self.position_bits();
        lemma_small_mod(index, pow2(w));
        bits::lemma_read_back(word, o, w, index);
        let q = (1 - player) as nat;
        bits::lemma_other_field(word, o, w, index, base + self.position_offset(q), w);
        bits::lemma_other_field(word, o, w, index, base + self.walls_left_offset(0), self.walls_left_bits());
        bits::lemma_other_field(word, o, w, index, base + self.walls_left_offset(1), self.walls_left_bits());
        bits::lemma_other_field(word, o, w, index, base + self.player_offset(), 1);
        bits::lemma_other_field(word, o, w, index, base + self.steps_offset(), self.steps_bits());
        assert(self.board_at(walls, self.with_index(word, base, player, index), base).pawns
            =~= self.board_at(walls, word, base).pawns.update(player as int, index));
        assert(self.board_at(walls, self.with_index(word, base, player, index), base).walls_left
            =~= self.board_at(walls, word, base).walls_left);
    }

    /// Replacing a player's remaining walls changes that count and nothing else.
    pub proof fn lemma_with_walls_left(
        self,
        walls: Seq<bool>,
        word: u64,
        base: nat,
        player: nat,
        left: nat,
    )
        requires
            self.fits(),
            base + self.scalar_bits() <= 64,
            player < 2,
            left < pow2(self.walls_left_bits()),
        ensures
            self.board_at(walls, self.with_walls_left(word, base, player, left), base) == (Board {
                walls_left: self.board_at(walls, word, base).walls_left.update(player as int, left),
                ..self.board_at(walls, word, base)
            }),
    {
        self.lemma_widths();
        let o = base + self.walls_left_offset(player);
        let w = self.walls_left_bits();
        lemma_small_mod(left, pow2(w));
        bits::lemma_read_back(word, o, w, left);
        let q = (1 - player) as nat;
        bits::lemma_other_field(word, o, w, left, base + self.walls_left_offset(q), w);
        bits::lemma_other_field(word, o, w, left, base + self.position_offset(0), self.position_bits());
        bits::lemma_other_field(word, o, w, left, base + self.position_offset(1), self.position_bits());
        bits::lemma_other_field(word, o, w, left, base + self.player_offset(), 1);
        bits::lemma_other_field(word, o, w, left, base + self.steps_offset(), self.steps_bits());
        assert(self.board_at(walls, self.with_walls_left(word, base, player, left), base).pawns
            =~= self.board_at(walls, word, base).pawns);
        assert(self.board_at(walls, self.with_walls_left(word, base, player, left), base).walls_left
            =~= self.board_at(walls, word, base).walls_left.update(player as int, left));
    }

    /// Replacing the current player changes that and nothing else.
    pub proof fn lemma_with_player(self, walls: Seq<bool>, word: u64, base: nat, player: nat)
        requires
            self.fits(),
            base + self.scalar_bits() <= 64,
            player < 2,
        ensures
            self.board_at(walls, self.with_player(word, base, player), base) == (Board {
                player,
                ..self.board_at(walls, word, base)
            }),
    {
        self.lemma_widths();
        lemma2_to64();
        let o = base + self.player_offset();
        bits::lemma_read_back(word, o, 1, player);
        bits::lemma_other_field(word, o, 1, player, base + self.position_offset(0), self.position_bits());
        bits::lemma_other_field(word, o, 1, player, base + self.position_offset(1), self.position_bits());
        bits::lemma_other_field(word, o, 1, player, base + self.walls_left_offset(0), self.walls_left_bits());
        bits::lemma_other_field(word, o, 1, player, base + self.walls_left_offset(1), self.walls_left_bits());
        bits::lemma_other_field(word, o, 1, player, base + self.steps_offset(), self.steps_bits());
        assert(self.board_at(walls, self.with_player(word, base, player), base).pawns
            =~= self.board_at(walls, word, base).pawns);
        assert(self.board_at(walls, self.with_player(word, base, player), base).walls_left
            =~= self.board_at(walls, word, base).walls_left);
    }

    /// Replacing the completed steps changes that count and nothing else.
    pub proof fn lemma_with_steps(self, walls: Seq<bool>, word: u64, base: nat, steps: nat)
        requires
            self.fits(),
            base + self.scalar_bits() <= 64,
            steps < pow2(self.steps_bits()),
        ensures
            self.board_at(walls, self.with_steps(word, base, steps), base) == (Board {
                steps,
                ..self.board_at(walls, word, base)
            }),
    {
        self.lemma_widths();
        let o = base + self.steps_offset();
        let w = self.steps_bits();
        lemma_small_mod(steps, pow2(w));
        bits::lemma_read_back(word, o, w, steps);
        bits::lemma_other_field(word, o, w, steps, base + self.position_offset(0), self.position_bits());
        bits::lemma_other_field(word, o, w, steps, base + self.position_offset(1), self.position_bits());
        bits::lemma_other_field(word, o, w, steps, base + self.walls_left_offset(0), self.walls_left_bits());
        bits::lemma_other_field(word, o, w, steps, base + self.walls_left_offset(1), self.walls_left_bits());
        bits::lemma_other_field(word, o, w, steps, base + self.player_offset(), 1);
        assert(self.board_at(walls, self.with_steps(word, base, steps), base).pawns
            =~= self.board_at(walls, word, base).pawns);
        assert(self.board_at(walls, self.with_steps(word, base, steps), base).walls_left
            =~= self.board_at(walls, word, base).walls_left);
    }
}

} // verus!
