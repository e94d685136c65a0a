//! Accessor for bit-packed game states.
//!
//! The state is split into two words so that each part lives in one of them:
//!   - `walls: u128`: wall bitmap, for up to 128 wall positions (a 9x9 board).
//!   - `scalars: u64`: positions, walls remaining, current player, completed steps.
//!
//! `QBitRepr` itself stores no game state. It stores the parameters and the
//! offsets needed to interpret a `CompactState`.

use vstd::prelude::*;
use vstd::arithmetic::power2::*;
use crate::bits;
use crate::layout;
use crate::layout::{Board, Layout};

verus! {

/// Orientation of a wall that stands between two columns.
pub const WALL_VERTICAL: usize = 0;

/// Orientation of a wall that lies between two rows.
pub const WALL_HORIZONTAL: usize = 1;

/// Bit-packed Quoridor game state.
///
/// `walls`: bit `i` is set iff the wall with index `i` is placed.
/// `scalars`: first pawn, second pawn, first player's remaining walls, second
/// player's remaining walls, current player, completed steps, from the low end.
#[derive(Clone, Copy, PartialEq, Eq, Hash, Debug, Structural)]
pub struct CompactState {
    pub walls: u128,
    pub scalars: u64,
}

/// The number whose little-endian digits to base 256 are the given bytes.
pub open spec fn le_value(bytes: Seq<u8>) -> nat
    decreases bytes.len(),
{
    if bytes.len() == 0 {
        0
    } else {
        bytes[0] as nat + 256 * le_value(bytes.drop_first())
    }
}

/// Byte strings of one length that stand for the same number are equal.
pub proof fn lemma_le_value_injective(a: Seq<u8>, b: Seq<u8>)
    requires
        a.len() == b.len(),
        le_value(a) == le_value(b),
    ensures
        a == b,
    decreases a.len(),
{
    if a.len() == 0 {
        assert(a =~= b);
    } else {
        lemma_le_value_injective(a.drop_first(), b.drop_first());
        assert forall|i: int| 0 <= i < a.len() implies a[i] == b[i] by {
            if i > 0 {
                assert(a.drop_first()[i - 1] == a[i] && b.drop_first()[i - 1] == b[i]);
            }
        }
        assert(a =~= b);
    }
}

/// `n` bytes stand for a number below `256^n`.
proof fn lemma_le_value_bound(bytes: Seq<u8>)
    ensures
        le_value(bytes) < pow2(8 * bytes.len()),
    decreases bytes.len(),
{
    lemma2_to64();
    if bytes.len() > 0 {
        lemma_le_value_bound(bytes.drop_first());
        lemma_pow2_adds(8, 8 * bytes.drop_first().len());
    }
}

/// Appending a digit adds it at its place value.
proof fn lemma_le_value_push(bytes: Seq<u8>, digit: u8)
    ensures
        le_value(bytes.push(digit)) == le_value(bytes) + digit * pow2(8 * bytes.len()),
    decreases bytes.len(),
{
    lemma2_to64();
    if bytes.len() == 0 {
        assert(bytes.push(digit).drop_first() =~= Seq::<u8>::empty());
        assert(le_value(Seq::<u8>::empty()) == 0);
        assert(8 * bytes.len() == 0);
        assert(digit * pow2(8 * bytes.len()) == digit) by (nonlinear_arith)
            requires
                pow2(8 * bytes.len()) == 1,
        ;
    } else {
        assert(bytes.push(digit).drop_first() =~= bytes.drop_first().push(digit));
        lemma_le_value_push(bytes.drop_first(), digit);
        let rest = 8 * bytes.drop_first().len();
        lemma_pow2_adds(8, rest);
        let place = pow2(rest);
        assert(256 * (digit * place) == digit * (256 * place)) by (nonlinear_arith);
    }
}

/// Whether 24 bytes are the little-endian encoding of a state: 16 bytes of
/// walls, then 8 bytes of scalars.
pub open spec fn encodes(bytes: Seq<u8>, state: CompactState) -> bool {
    &&& bytes.len() == 24
    &&& le_value(bytes.subrange(0, 16)) == state.walls
    &&& le_value(bytes.subrange(16, 24)) == state.scalars
}

/// Bytes encode one state only: decoding what a state was encoded to gives the
/// state back.
pub proof fn lemma_decode_encode(bytes: Seq<u8>, state: CompactState, restored: CompactState)
    requires
        encodes(bytes, state),
        encodes(bytes, restored),
    ensures
        restored == state,
{
}

/// A state has one encoding only: encoding what bytes were decoded to gives the
/// bytes back.
pub proof fn lemma_encode_decode(bytes: Seq<u8>, state: CompactState, again: Seq<u8>)
    requires
        encodes(bytes, state),
        encodes(again, state),
    ensures
        again == bytes,
{
    lemma_le_value_injective(bytes.subrange(0, 16), again.subrange(0, 16));
    lemma_le_value_injective(bytes.subrange(16, 24), again.subrange(16, 24));
    assert(bytes =~= bytes.subrange(0, 16) + bytes.subrange(16, 24));
    assert(again =~= again.subrange(0, 16) + again.subrange(16, 24));
}

impl CompactState {
    /// The two words as 24 little-endian bytes: walls (16), then scalars (8).
    pub fn to_bytes(self) -> (out: [u8; 24])
        ensures
            encodes(out@, self),
    {
        let mut out: [u8; 24] = [0u8; 24];
        let mut walls: u128 = self.walls;
        let mut i: usize = 0;
        proof {
            lemma2_to64();
            lemma2_to64_rest();
            lemma_pow2_adds(64, 64);
            assert(le_value(out@.subrange(0, 0)) == 0);
            assert(walls * pow2(8 * i as nat) == walls) by (nonlinear_arith)
                requires
                    pow2(8 * i as nat) == 1,
            ;
        }
        while i < 16
            invariant
                i <= 16,
                le_value(out@.subrange(0, i as int)) + walls * pow2(8 * i as nat) == self.walls,
                walls < pow2((128 - 8 * i) as nat),
            decreases 16 - i,
        {
            let ghost before = out@;
            let ghost rest = walls;
            let digit: u8 = (walls % 256) as u8;
            out[i] = digit;
            walls = walls / 256;
            proof {
                lemma2_to64();
                assert(out@.subrange(0, i + 1) =~= before.subrange(0, i as int).push(digit));
                lemma_le_value_push(before.subrange(0, i as int), digit);
                lemma_pow2_adds(8, 8 * i as nat);
                lemma_pow2_adds(8, (128 - 8 * (i + 1)) as nat);
                let place = pow2(8 * i as nat);
                assert(rest * place == digit * place + walls * (256 * place)) by (nonlinear_arith)
                    requires
                        rest == digit + walls * 256,
                ;
            }
            i = i + 1;
        }
        let ghost low = out@.subrange(0, 16);
        let mut scalars: u64 = self.scalars;
        let mut k: usize = 0;
        assert(le_value(out@.subrange(16, 16)) == 0);
        while k < 8
            invariant
                k <= 8,
                out@.subrange(0, 16) == low,
                le_value(out@.subrange(16, 16 + k)) + scalars * pow2(8 * k as nat) == self.scalars,
                scalars < pow2((64 - 8 * k) as nat),
            decreases 8 - k,
        {
            let ghost before = out@;
            let ghost rest = scalars;
            let digit: u8 = (scalars % 256) as u8;
            out[16 + k] = digit;
            scalars = scalars / 256;
            proof {
                lemma2_to64();
                assert(out@.subrange(0, 16) =~= low);
                assert(out@.subrange(16, 16 + k + 1) =~= before.subrange(16, 16 + k).push(digit));
                lemma_le_value_push(before.subrange(16, 16 + k), digit);
                lemma_pow2_adds(8, 8 * k as nat);
                lemma_pow2_adds(8, (64 - 8 * (k + 1)) as nat);
                let place = pow2(8 * k as nat);
                assert(rest * place == digit * place + scalars * (256 * place)) by (nonlinear_arith)
                    requires
                        rest == digit + scalars * 256,
                ;
            }
            k = k + 1;
        }
        out
    }

    /// The state whose 24 little-endian bytes are given.
    pub fn from_bytes(b: [u8; 24]) -> (state: Self)
        ensures
            encodes(b@, state),
    {
        let mut walls: u128 = 0;
        let mut i: usize = 16;
        proof {
            lemma2_to64();
            lemma2_to64_rest();
            lemma_pow2_adds(64, 64);
            assert(le_value(b@.subrange(16, 16)) == 0);
        }
        while i > 0
            invariant
                i <= 16,
                walls == le_value(b@.subrange(i as int, 16)),
                pow2(128) == u128::MAX + 1,
            decreases i,
        {
            i = i - 1;
            proof {
                let part = b@.subrange(i as int, 16);
                assert(part.drop_first() =~= b@.subrange(i + 1, 16));
                lemma_le_value_bound(part);
                if part.len() < 16 {
                    lemma_pow2_strictly_increases(8 * part.len(), 128);
                }
            }
            walls = walls * 256 + b[i] as u128;
        }
        let mut scalars: u64 = 0;
        let mut k: usize = 24;
        assert(le_value(b@.subrange(24, 24)) == 0);
        while k > 16
            invariant
                16 <= k <= 24,
                scalars == le_value(b@.subrange(k as int, 24)),
                pow2(64) == u64::MAX + 1,
            decreases k,
        {
            k = k - 1;
            proof {
                let part = b@.subrange(k as int, 24);
                assert(part.drop_first() =~= b@.subrange(k + 1, 24));
                lemma_le_value_bound(part);
                if part.len() < 8 {
                    lemma_pow2_strictly_increases(8 * part.len(), 64);
                }
            }
            scalars = scalars * 256 + b[k] as u64;
        }
        CompactState { walls, scalars }
    }
}

impl Default for CompactState {
    fn default() -> (state: Self)
        ensures
            state.walls == 0,
            state.scalars == 0,
    {
        CompactState { walls: 0, scalars: 0 }
    }
}

impl Layout {
    /// The walls of a compact state, by wall index.
    pub open spec fn walls_of(self, state: CompactState) -> Seq<bool> {
        Seq::new(self.wall_positions() as nat, |i: int| bits::wall_bit(state.walls, i as nat))
    }

    /// The board that a compact state describes.
    pub open spec fn board(self, state: CompactState) -> Board {
        self.board_at(self.walls_of(state), state.scalars, 0)
    }
}

/// Accessor for bit-packed game states.
/// Stores parameters and computed offsets, but not the game state itself.
#[derive(Debug)]
pub struct QBitRepr {
    board_size: usize,
    max_walls: usize,
    max_steps: usize,
    num_wall_positions: usize,
    num_player_positions: usize,
    position_bits: usize,
    walls_remaining_bits: usize,
    completed_steps_bits: usize,
    total_scalar_bits: usize,
    player_pos_offsets: [usize; 2],
    walls_remaining_offsets: [usize; 2],
    current_player_offset: usize,
    completed_steps_offset: usize,
}

impl Clone for QBitRepr {
    fn clone(&self) -> (copy: Self)
        ensures
            copy == *self,
    {
        proof {
            use_type_invariant(self);
        }
        QBitRepr {
            board_size: self.board_size,
            max_walls: self.max_walls,
            max_steps: self.max_steps,
            num_wall_positions: self.num_wall_positions,
            num_player_positions: self.num_player_positions,
            position_bits: self.position_bits,
            walls_remaining_bits: self.walls_remaining_bits,
            completed_steps_bits: self.completed_steps_bits,
            total_scalar_bits: self.total_scalar_bits,
            player_pos_offsets: self.player_pos_offsets,
            walls_remaining_offsets: self.walls_remaining_offsets,
            current_player_offset: self.current_player_offset,
            completed_steps_offset: self.completed_steps_offset,
        }
    }
}

impl View for QBitRepr {
    type V = Layout;

    closed spec fn view(&self) -> Layout {
        Layout {
            board_size: self.board_size as nat,
            max_walls: self.max_walls as nat,
            max_steps: self.max_steps as nat,
        }
    }
}

impl QBitRepr {
    /// The stored sizes and offsets are those of the layout, and the layout fits.
    #[verifier::type_invariant]
    pub closed spec fn inv(self) -> bool {
        &&& self@.fits()
        &&& self.num_wall_positions == self@.wall_positions()
        &&& self.num_player_positions == self@.player_positions()
        &&& self.position_bits == self@.position_bits()
        &&& self.walls_remaining_bits == self@.walls_left_bits()
        &&& self.completed_steps_bits == self@.steps_bits()
        &&& self.total_scalar_bits == self@.scalar_bits()
        &&& self.player_pos_offsets@ == seq![
            self@.position_offset(0) as usize,
            self@.position_offset(1) as usize,
        ]
        &&& self.walls_remaining_offsets@ == seq![
            self@.walls_left_offset(0) as usize,
            self@.walls_left_offset(1) as usize,
        ]
        &&& self.current_player_offset == self@.player_offset()
        &&& self.completed_steps_offset == self@.steps_offset()
    }

    /// What a caller may rely on of every accessor.
    pub proof fn lemma_inv(self)
        requires
            self.inv(),
        ensures
            self@.fits(),
    {
    }

    /// Whether the parameters give a layout that fits.
    pub fn fits(board_size: usize, max_walls: usize, max_steps: usize) -> (result: bool)
        ensures
            result == (Layout {
                board_size: board_size as nat,
                max_walls: max_walls as nat,
                max_steps: max_steps as nat,
            }).fits(),
    {
        let ghost layout = Layout {
            board_size: board_size as nat,
            max_walls: max_walls as nat,
            max_steps: max_steps as nat,
        };
        if board_size < 1 || board_size > 9 {
            proof {
                if layout.fits() {
                    layout.lemma_widths();
                }
            }
            return false;
        }
        let gaps: usize = board_size - 1;
        assert(gaps * gaps <= 64) by (nonlinear_arith)
            requires
                0 <= gaps <= 8,
        ;
        assert(1 <= board_size * board_size <= 81) by (nonlinear_arith)
            requires
                1 <= board_size <= 9,
        ;
        let position_bits: usize = bits::bits_needed(board_size * board_size - 1);
        let walls_remaining_bits: usize = bits::bits_needed(max_walls);
        let completed_steps_bits: usize = bits::bits_needed(max_steps);
        2 * position_bits + 2 * walls_remaining_bits + 1 + completed_steps_bits <= 64
    }

    /// Creates an accessor for the given parameters.
    pub fn new(board_size: usize, max_walls: usize, max_steps: usize) -> (repr: Self)
        requires
            (Layout {
                board_size: board_size as nat,
                max_walls: max_walls as nat,
                max_steps: max_steps as nat,
            }).fits(),
        ensures
            repr@ == (Layout {
                board_size: board_size as nat,
                max_walls: max_walls as nat,
                max_steps: max_steps as nat,
            }),
    {
        let ghost layout = Layout {
            board_size: board_size as nat,
            max_walls: max_walls as nat,
            max_steps: max_steps as nat,
        };
        proof {
            layout.lemma_widths();
        }
        let gaps: usize = board_size - 1;
        assert(0 <= gaps * gaps <= 64) by (nonlinear_arith)
            requires
                0 <= gaps <= 8,
        ;
        assert(1 <= board_size * board_size <= 81) by (nonlinear_arith)
            requires
                1 <= board_size <= 9,
        ;
        let num_wall_positions: usize = 2 * (gaps * gaps);
        let num_player_positions: usize = board_size * board_size;
        let position_bits: usize = bits::bits_needed(num_player_positions - 1);
        let walls_remaining_bits: usize = bits::bits_needed(max_walls);
        let completed_steps_bits: usize = bits::bits_needed(max_steps);

        let p1_pos_offset: usize = 0;
        let p2_pos_offset: usize = p1_pos_offset + position_bits;
        let p1_walls_remaining_offset: usize = p2_pos_offset + position_bits;
        let p2_walls_remaining_offset: usize = p1_walls_remaining_offset + walls_remaining_bits;
        let current_player_offset: usize = p2_walls_remaining_offset + walls_remaining_bits;
        let completed_steps_offset: usize = current_player_offset + 1;
        let total_scalar_bits: usize = completed_steps_offset + completed_steps_bits;
        let player_pos_offsets: [usize; 2] = [p1_pos_offset, p2_pos_offset];
        let walls_remaining_offsets: [usize; 2] = [
            p1_walls_remaining_offset,
            p2_walls_remaining_offset,
        ];
        assert(player_pos_offsets@ =~= seq![
            layout.position_offset(0) as usize,
            layout.position_offset(1) as usize,
        ]);
        assert(walls_remaining_offsets@ =~= seq![
            layout.walls_left_offset(0) as usize,
            layout.walls_left_offset(1) as usize,
        ]);
        QBitRepr {
            board_size,
            max_walls,
            max_steps,
            num_wall_positions,
            num_player_positions,
            position_bits,
            walls_remaining_bits,
            completed_steps_bits,
            total_scalar_bits,
            player_pos_offsets,
            walls_remaining_offsets,
            current_player_offset,
            completed_steps_offset,
        }
    }

    /// Total bits used across walls and scalars.
    pub fn size_bits(&self) -> (bits: usize)
        ensures
            bits == self@.wall_positions() + self@.scalar_bits(),
    {
        proof {
            use_type_invariant(self);
        }
        self.num_wall_positions + self.total_scalar_bits
    }

    /// The number of wall positions.
    pub fn num_wall_positions(&self) -> (count: usize)
        ensures
            count == self@.wall_positions(),
    {
        proof {
            use_type_invariant(self);
        }
        self.num_wall_positions
    }

    /// The number of player positions.
    pub fn num_player_positions(&self) -> (count: usize)
        ensures
            count == self@.player_positions(),
    {
        proof {
            use_type_invariant(self);
        }
        self.num_player_positions
    }

    /// A zero-initialized state: no wall is placed, and every field reads zero.
    pub fn create_data(&self) -> (state: CompactState)
        ensures
            state.walls == 0,
            state.scalars == 0,
            self@.board(state) == (Board {
                size: self@.board_size,
                walls: Seq::new(self@.wall_positions() as nat, |i: int| false),
                pawns: seq![0nat, 0nat],
                walls_left: seq![0nat, 0nat],
                player: 0,
                steps: 0,
            }),
    {
        let state = CompactState::default();
        proof {
            use_type_invariant(self);
            self@.lemma_zero(0);
            let board = self@.board(state);
            assert forall|i: int| 0 <= i < self@.wall_positions() implies !board.walls[i] by {
                lemma_pow2_pos(i as nat);
                vstd::arithmetic::div_mod::lemma_div_of0(pow2(i as nat) as int);
            }
            assert(board.walls =~= Seq::new(self@.wall_positions() as nat, |i: int| false));
            assert(board.pawns =~= seq![0nat, 0nat]);
            assert(board.walls_left =~= seq![0nat, 0nat]);
        }
        state
    }

    /// Reads a bit from the wall bitmap.
    fn get_wall_bit(&self, state: CompactState, wall_idx: usize) -> (set: bool)
        requires
            wall_idx < self@.wall_positions(),
        ensures
            set == bits::wall_bit(state.walls, wall_idx as nat),
    {
        proof {
            use_type_invariant(self);
        }
        bits::read_wall_bit(state.walls, wall_idx)
    }

    /// Writes a bit to the wall bitmap.
    fn set_wall_bit(&self, state: &mut CompactState, wall_idx: usize, value: bool)
        requires
            wall_idx < self@.wall_positions(),
        ensures
            final(state).scalars == old(state).scalars,
            forall|j: nat| #![trigger bits::wall_bit(final(state).walls, j)]
                j < 128 ==> bits::wall_bit(final(state).walls, j) == if j == wall_idx {
                    value
                } else {
                    bits::wall_bit(old(state).walls, j)
                },
    {
        proof {
            use_type_invariant(self);
        }
        state.walls = bits::write_wall_bit(state.walls, wall_idx, value);
    }

    /// Reads a multi-bit integer from the scalar word.
    fn get_scalar_bits(&self, state: CompactState, bit_offset: usize, num_bits: usize) -> (value: usize)
        requires
            bit_offset + num_bits <= self@.scalar_bits(),
            0 < num_bits < 64,
            pow2(num_bits as nat) <= usize::MAX + 1,
        ensures
            value == bits::field(state.scalars, bit_offset as nat, num_bits as nat),
    {
        proof {
            use_type_invariant(self);
        }
        bits::read_field(state.scalars, bit_offset, num_bits) as usize
    }

    /// Writes a multi-bit integer to the scalar word.
    fn set_scalar_bits(
        &self,
        state: &mut CompactState,
        bit_offset: usize,
        num_bits: usize,
        value: usize,
    )
        requires
            bit_offset + num_bits <= self@.scalar_bits(),
            0 < num_bits < 64,
        ensures
            final(state).walls == old(state).walls,
            final(state).scalars == bits::with_field(
                old(state).scalars,
                bit_offset as nat,
                num_bits as nat,
                value as nat,
            ),
    {
        proof {
            use_type_invariant(self);
        }
        state.scalars = bits::write_field(state.scalars, bit_offset, num_bits, value as u64);
    }

    /// Reads a single scalar bit.
    fn get_scalar_bit(&self, state: CompactState, bit_offset: usize) -> (set: bool)
        requires
            bit_offset < self@.scalar_bits(),
        ensures
            set == (bits::field(state.scalars, bit_offset as nat, 1) == 1),
    {
        proof {
            use_type_invariant(self);
        }
        bits::read_field(state.scalars, bit_offset, 1) == 1
    }

    /// Writes a single scalar bit.
    fn set_scalar_bit(&self, state: &mut CompactState, bit_offset: usize, value: bool)
        requires
            bit_offset < self@.scalar_bits(),
        ensures
            final(state).walls == old(state).walls,
            final(state).scalars == bits::with_field(
                old(state).scalars,
                bit_offset as nat,
                1,
                if value { 1 } else { 0 },
            ),
    {
        proof {
            use_type_invariant(self);
        }
        let bit: u64 = if value { 1 } else { 0 };
        state.scalars = bits::write_field(state.scalars, bit_offset, 1, bit);
    }

    /// Where a pawn's cell index stands among the scalars, and its width.
    pub(crate) fn position_field(&self, player: usize) -> (place: (usize, usize))
        requires
            player < 2,
        ensures
            place.0 == self@.position_offset(player as nat),
            place.1 == self@.position_bits(),
            pow2(place.1 as nat) <= usize::MAX + 1,
    {
        proof {
            use_type_invariant(self);
            self@.lemma_widths();
            bits::lemma_bits_for_usize((self.num_player_positions - 1) as usize);
        }
        (self.player_pos_offsets[player], self.position_bits)
    }

    /// Where a player's remaining walls stand among the scalars, and their width.
    pub(crate) fn walls_left_field(&self, player: usize) -> (place: (usize, usize))
        requires
            player < 2,
        ensures
            place.0 == self@.walls_left_offset(player as nat),
            place.1 == self@.walls_left_bits(),
            pow2(place.1 as nat) <= usize::MAX + 1,
    {
        proof {
            use_type_invariant(self);
            bits::lemma_bits_for_usize(self.max_walls);
        }
        (self.walls_remaining_offsets[player], self.walls_remaining_bits)
    }

    /// Where the current player stands among the scalars.
    pub(crate) fn player_field(&self) -> (offset: usize)
        ensures
            offset == self@.player_offset(),
    {
        proof {
            use_type_invariant(self);
        }
        self.current_player_offset
    }

    /// Where the completed steps stand among the scalars, and their width.
    pub(crate) fn steps_field(&self) -> (place: (usize, usize))
        ensures
            place.0 == self@.steps_offset(),
            place.1 == self@.steps_bits(),
            pow2(place.1 as nat) <= usize::MAX + 1,
    {
        proof {
            use_type_invariant(self);
            bits::lemma_bits_for_usize(self.max_steps);
        }
        (self.completed_steps_offset, self.completed_steps_bits)
    }

    /// Whether a wall is present at the given position.
    pub fn get_wall(
        &self,
        state: CompactState,
        row: usize,
        col: usize,
        orientation: usize,
    ) -> (present: bool)
        requires
            row < self@.board_size - 1,
            col < self@.board_size - 1,
            orientation < 2,
        ensures
            present == self@.board(state).wall(row as int, col as int, orientation as int),
    {
        let wall_index: usize = self.wall_position_to_index(row, col, orientation);
        self.get_wall_bit(state, wall_index)
    }

    /// Places or removes the wall at the given position.
    pub fn set_wall(
        &self,
        state: &mut CompactState,
        row: usize,
        col: usize,
        orientation: usize,
        present: bool,
    )
        requires
            row < self@.board_size - 1,
            col < self@.board_size - 1,
            orientation < 2,
        ensures
            final(state).scalars == old(state).scalars,
            forall|j: nat| #![trigger bits::wall_bit(final(state).walls, j)]
                j < 128 ==> bits::wall_bit(final(state).walls, j) == if j == layout::wall_index(
                    self@.board_size,
                    row as int,
                    col as int,
                    orientation as int,
                ) {
                    present
                } else {
                    bits::wall_bit(old(state).walls, j)
                },
            self@.board(*final(state)) == (Board {
                walls: self@.board(*old(state)).walls.update(
                    layout::wall_index(
                        self@.board_size,
                        row as int,
                        col as int,
                        orientation as int,
                    ),
                    present,
                ),
                ..self@.board(*old(state))
            }),
    {
        let wall_index: usize = self.wall_position_to_index(row, col, orientation);
        self.set_wall_bit(state, wall_index, present);
        proof {
            use_type_invariant(self);
            assert(self@.walls_of(*state) =~= self@.walls_of(*old(state)).update(
                wall_index as int,
                present,
            ));
        }
    }

    /// A player's position, as row and column.
    pub fn get_player_position(&self, state: CompactState, player: usize) -> (position: (usize, usize))
        requires
            player < 2,
            self@.board(state).pawns[player as int] < self@.player_positions(),
        ensures
            (position.0 as int, position.1 as int) == self@.board(state).pawn(player as int),
            position.0 < self@.board_size,
            position.1 < self@.board_size,
    {
        proof {
            use_type_invariant(self);
            self@.lemma_widths();
            bits::lemma_bits_for_usize((self.num_player_positions - 1) as usize);
        }
        let index: usize = self.get_scalar_bits(
            state,
            self.player_pos_offsets[player],
            self.position_bits,
        );
        self.index_to_position(index)
    }

    /// Whether both pawns stand on the board.
    pub fn is_valid(&self, state: CompactState) -> (valid: bool)
        ensures
            valid == self@.board(state).ok(),
    {
        proof {
            use_type_invariant(self);
            self@.lemma_widths();
            bits::lemma_bits_for_usize((self.num_player_positions - 1) as usize);
            lemma2_to64();
        }
        let first: usize = self.get_scalar_bits(
            state,
            self.player_pos_offsets[0],
            self.position_bits,
        );
        let second: usize = self.get_scalar_bits(
            state,
            self.player_pos_offsets[1],
            self.position_bits,
        );
        first < self.num_player_positions && second < self.num_player_positions
    }

    /// Moves a player to the given row and column.
    pub fn set_player_position(
        &self,
        state: &mut CompactState,
        player: usize,
        row: usize,
        col: usize,
    )
        requires
            player < 2,
            row < self@.board_size,
            col < self@.board_size,
        ensures
            final(state).walls == old(state).walls,
            final(state).scalars == self@.with_index(
                old(state).scalars,
                0,
                player as nat,
                layout::cell_index(self@.board_size, row as int, col as int) as nat,
            ),
            self@.board(*final(state)) == (Board {
                pawns: self@.board(*old(state)).pawns.update(
                    player as int,
                    layout::cell_index(self@.board_size, row as int, col as int) as nat,
                ),
                ..self@.board(*old(state))
            }),
            self@.board(*final(state)).pawn(player as int) == (row as int, col as int),
    {
        let new_index: usize = self.position_to_index(row, col);
        proof {
            use_type_invariant(self);
            self@.lemma_widths();
            self@.lemma_with_index(
                self@.walls_of(*state),
                state.scalars,
                0,
                player as nat,
                new_index as nat,
            );
            layout::lemma_cell_round_trip(self@.board_size, row as int, col as int);
        }
        self.set_scalar_bits(
            state,
            self.player_pos_offsets[player],
            self.position_bits,
            new_index,
        );
        assert(self@.walls_of(*state) =~= self@.walls_of(*old(state)));
    }

    /// A player's remaining walls.
    pub fn get_walls_remaining(&self, state: CompactState, player: usize) -> (walls: usize)
        requires
            player < 2,
        ensures
            walls == self@.board(state).walls_left[player as int],
    {
        proof {
            use_type_invariant(self);
            self@.lemma_widths();
            bits::lemma_bits_for_usize(self.max_walls);
        }
        self.get_scalar_bits(
            state,
            self.walls_remaining_offsets[player],
            self.walls_remaining_bits,
        )
    }

    /// Sets a player's remaining walls.
    pub fn set_walls_remaining(&self, state: &mut CompactState, player: usize, walls: usize)
        requires
            player < 2,
            walls <= self@.max_walls,
        ensures
            final(state).walls == old(state).walls,
            final(state).scalars == self@.with_walls_left(
                old(state).scalars,
                0,
                player as nat,
                walls as nat,
            ),
            self@.board(*final(state)) == (Board {
                walls_left: self@.board(*old(state)).walls_left.update(player as int, walls as nat),
                ..self@.board(*old(state))
            }),
    {
        proof {
            use_type_invariant(self);
            self@.lemma_widths();
            self@.lemma_with_walls_left(
                self@.walls_of(*state),
                state.scalars,
                0,
                player as nat,
                walls as nat,
            );
        }
        self.set_scalar_bits(
            state,
            self.walls_remaining_offsets[player],
            self.walls_remaining_bits,
            walls,
        );
        assert(self@.walls_of(*state) =~= self@.walls_of(*old(state)));
    }

    /// The current player (0 or 1).
    pub fn get_current_player(&self, state: CompactState) -> (player: usize)
        ensures
            player == self@.board(state).player,
            player < 2,
    {
        proof {
            use_type_invariant(self);
            lemma2_to64();
        }
        if self.get_scalar_bit(state, self.current_player_offset) {
            1
        } else {
            0
        }
    }

    /// Sets the current player.
    pub fn set_current_player(&self, state: &mut CompactState, player: usize)
        requires
            player < 2,
        ensures
            final(state).walls == old(state).walls,
            final(state).scalars == self@.with_player(old(state).scalars, 0, player as nat),
            self@.board(*final(state)) == (Board {
                player: player as nat,
                ..self@.board(*old(state))
            }),
    {
        proof {
            use_type_invariant(self);
            self@.lemma_with_player(self@.walls_of(*state), state.scalars, 0, player as nat);
        }
        self.set_scalar_bit(state, self.current_player_offset, player == 1);
        assert(self@.walls_of(*state) =~= self@.walls_of(*old(state)));
    }

    /// The number of completed steps.
    pub fn get_completed_steps(&self, state: CompactState) -> (steps: usize)
        ensures
            steps == self@.board(state).steps,
    {
        proof {
            use_type_invariant(self);
            self@.lemma_widths();
            bits::lemma_bits_for_usize(self.max_steps);
        }
        self.get_scalar_bits(state, self.completed_steps_offset, self.completed_steps_bits)
    }

    /// Sets the number of completed steps.
    pub fn set_completed_steps(&self, state: &mut CompactState, steps: usize)
        requires
            steps <= self@.max_steps,
        ensures
            final(state).walls == old(state).walls,
            final(state).scalars == self@.with_steps(old(state).scalars, 0, steps as nat),
            self@.board(*final(state)) == (Board {
                steps: steps as nat,
                ..self@.board(*old(state))
            }),
    {
        proof {
            use_type_invariant(self);
            self@.lemma_widths();
            self@.lemma_with_steps(self@.walls_of(*state), state.scalars, 0, steps as nat);
        }
        self.set_scalar_bits(
            state,
            self.completed_steps_offset,
            self.completed_steps_bits,
            steps,
        );
        assert(self@.walls_of(*state) =~= self@.walls_of(*old(state)));
    }

    /// Converts a row and column to a flat index.
    pub fn position_to_index(&self, row: usize, col: usize) -> (index: usize)
        requires
            row < self@.board_size,
            col < self@.board_size,
        ensures
            index == layout::cell_index(self@.board_size, row as int, col as int),
            index < self@.player_positions(),
    {
        proof {
            use_type_invariant(self);
            self@.lemma_widths();
            layout::lemma_cell_round_trip(self@.board_size, row as int, col as int);
            assert(row * self.board_size <= 81) by (nonlinear_arith)
                requires
                    0 <= row < self.board_size <= 9,
            ;
        }
        row * self.board_size + col
    }

    /// Converts a flat index to a row and column.
    pub fn index_to_position(&self, index: usize) -> (position: (usize, usize))
        requires
            index < self@.player_positions(),
        ensures
            (position.0 as int, position.1 as int) == layout::cell_of(
                self@.board_size,
                index as int,
            ),
            position.0 < self@.board_size,
            position.1 < self@.board_size,
    {
        proof {
            use_type_invariant(self);
            layout::lemma_index_round_trip(self@.board_size, index as int);
        }
        (index / self.board_size, index % self.board_size)
    }

    /// The board size.
    pub fn board_size(&self) -> (size: usize)
        ensures
            size == self@.board_size,
    {
        self.board_size
    }

    /// The greatest number of walls that a player can hold.
    pub fn max_walls(&self) -> (walls: usize)
        ensures
            walls == self@.max_walls,
    {
        self.max_walls
    }

    /// The number of steps after which a game is a tie.
    pub fn max_steps(&self) -> (steps: usize)
        ensures
            steps == self@.max_steps,
    {
        self.max_steps
    }

    /// Converts a row, column and orientation (0 = vertical, 1 = horizontal) to
    /// a wall index.
    pub fn wall_position_to_index(&self, row: usize, col: usize, orientation: usize) -> (index: usize)
        requires
            row < self@.board_size - 1,
            col < self@.board_size - 1,
            orientation < 2,
        ensures
            index == layout::wall_index(
                self@.board_size,
                row as int,
                col as int,
                orientation as int,
            ),
            index < self@.wall_positions(),
    {
        proof {
            use_type_invariant(self);
            self@.lemma_widths();
            layout::lemma_wall_round_trip(
                self@.board_size,
                row as int,
                col as int,
                orientation as int,
            );
        }
        let gaps: usize = self.board_size - 1;
        assert(0 <= gaps * gaps <= 64 && 0 <= orientation * (gaps * gaps) <= 64 && 0 <= row * gaps
            <= 64) by (nonlinear_arith)
            requires
                0 <= gaps <= 8,
                0 <= row < gaps,
                0 <= orientation < 2,
        ;
        orientation * (gaps * gaps) + row * gaps + col
    }

    /// Converts a wall index to row, column and orientation (0 = vertical,
    /// 1 = horizontal).
    pub fn wall_index_to_position(&self, wall_index: usize) -> (position: (usize, usize, usize))
        requires
            wall_index < self@.wall_positions(),
        ensures
            (position.0 as int, position.1 as int, position.2 as int) == layout::wall_of(
                self@.board_size,
                wall_index as int,
            ),
            position.0 < self@.board_size - 1,
            position.1 < self@.board_size - 1,
            position.2 < 2,
    {
        proof {
            use_type_invariant(self);
            self@.lemma_widths();
            layout::lemma_wall_index_round_trip(self@.board_size, wall_index as int);
        }
        let gaps: usize = self.board_size - 1;
        assert(0 < gaps * gaps <= 64) by (nonlinear_arith)
            requires
                0 < gaps <= 8,
        ;
        let positions_per_orientation: usize = gaps * gaps;
        let orientation: usize = wall_index / positions_per_orientation;
        let remainder: usize = wall_index % positions_per_orientation;
        let row: usize = remainder / gaps;
        let col: usize = remainder % gaps;
        (row, col, orientation)
    }
}

} // verus!
