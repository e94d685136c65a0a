//! Where everything stands in packed states, bit by bit and byte by byte.

use vstd::prelude::*;
use vstd::arithmetic::div_mod::*;
use vstd::arithmetic::power2::*;
use crate::bits;
use crate::layout;
use crate::layout::{Board, Layout};
use crate::q_bit_repr;
use crate::q_bit_repr::CompactState;

verus! {

/// Whether so many bits hold every number up to one, and fewer do not. At least
/// one bit is taken.
pub open spec fn is_width(max: nat, width: nat) -> bool {
    width >= 1 && max < pow2(width) && (width == 1 || max >= pow2((width - 1) as nat))
}

/// The bits of a number, from one on.
pub open spec fn part(number: nat, from: nat, width: nat) -> nat {
    (number / pow2(from)) % pow2(width)
}

/// What a board says, where its scalars are read from a number: the first pawn,
/// the second, the walls left to each, the player to act and the steps, from the
/// low end and without a gap.
pub open spec fn reads(
    board: Board,
    layout: Layout,
    number: nat,
    position: nat,
    walls: nat,
    steps: nat,
) -> bool {
    &&& board.size == layout.board_size
    &&& board.pawns == seq![part(number, 0, position), part(number, position, position)]
    &&& board.walls_left == seq![
        part(number, 2 * position, walls),
        part(number, 2 * position + walls, walls),
    ]
    &&& board.player == part(number, 2 * position + 2 * walls, 1)
    &&& board.steps == part(number, 2 * position + 2 * walls + 1, steps)
}

/// Whether the widths of the scalars are the least that hold every cell, every
/// count of walls and every count of steps.
pub open spec fn are_widths(layout: Layout, position: nat, walls: nat, steps: nat) -> bool {
    &&& is_width((layout.board_size * layout.board_size - 1) as nat, position)
    &&& is_width(layout.max_walls, walls)
    &&& is_width(layout.max_steps, steps)
}

/// The number of bits that a number needs is the least that holds it.
pub proof fn lemma_width(max: nat, width: nat)
    ensures
        is_width(max, bits::bits_for(max)),
        is_width(max, width) ==> width == bits::bits_for(max),
{
    bits::lemma_bits_for(max);
    let needed = bits::bits_for(max);
    if is_width(max, width) {
        if width < needed {
            if width < needed - 1 {
                lemma_pow2_strictly_increases(width, (needed - 1) as nat);
            }
        }
        if needed < width {
            if needed < width - 1 {
                lemma_pow2_strictly_increases(needed, (width - 1) as nat);
            }
        }
    }
}

/// Writing some bits of a word sets them and leaves every other bit as it was.
pub proof fn lemma_set_bits(word: u64, from: nat, width: nat, value: nat, other: nat)
    requires
        0 < width < 64,
        from + width <= 64,
        other < 64,
    ensures
        bits::field(word, from, width) == part(word as nat, from, width),
        value < pow2(width) ==> part(bits::with_field(word, from, width, value) as nat, from, width)
            == value,
        other < from || from + width <= other ==> part(
            bits::with_field(word, from, width, value) as nat,
            other,
            1,
        ) == part(word as nat, other, 1),
{
    bits::lemma_read_back(word, from, width, value);
    if value < pow2(width) {
        lemma_small_mod(value, pow2(width));
    }
    if other < from || from + width <= other {
        bits::lemma_other_field(word, from, width, value, other, 1);
    }
}

/// The two words of a state are read so: bit `i` of the one is the wall with
/// index `i`, and the other holds the scalars from its low end.
pub proof fn lemma_state(
    layout: Layout,
    state: CompactState,
    position: nat,
    walls: nat,
    steps: nat,
)
    requires
        layout.fits(),
        are_widths(layout, position, walls, steps),
    ensures
        reads(layout.board(state), layout, state.scalars as nat, position, walls, steps),
        layout.board(state).walls.len() == 2 * ((layout.board_size - 1) * (layout.board_size - 1)),
        forall|i: int| 0 <= i < layout.board(state).walls.len() ==> #[trigger] layout.board(
            state,
        ).walls[i] == (part(state.walls as nat, i as nat, 1) == 1),
        layout.wall_positions() + layout.scalar_bits() == 2 * ((layout.board_size - 1) * (
        layout.board_size - 1)) + 2 * position + 2 * walls + 1 + steps,
{
    lemma2_to64();
    layout.lemma_widths();
    lemma_width((layout.board_size * layout.board_size - 1) as nat, position);
    lemma_width(layout.max_walls, walls);
    lemma_width(layout.max_steps, steps);
    let board = layout.board(state);
    let n = state.scalars as nat;
    assert(board.pawns =~= seq![part(n, 0, position), part(n, position, position)]);
    assert(board.walls_left =~= seq![
        part(n, 2 * position, walls),
        part(n, 2 * position + walls, walls),
    ]);
}

/// A word is read so: bit `i` is the wall with index `i`, and the scalars follow
/// the walls.
pub proof fn lemma_word(layout: Layout, data: u64, position: nat, walls: nat, steps: nat)
    requires
        layout.fits_word(),
        are_widths(layout, position, walls, steps),
    ensures
        ({
            let board = layout.word_board(data);
            let count = (2 * ((layout.board_size - 1) * (layout.board_size - 1))) as nat;
            &&& board.walls.len() == count
            &&& forall|i: int| 0 <= i < count ==> #[trigger] board.walls[i] == (part(
                data as nat,
                i as nat,
                1,
            ) == 1)
            &&& reads(board, layout, data as nat / pow2(count), position, walls, steps)
        }),
{
    lemma2_to64();
    layout.lemma_widths();
    lemma_width((layout.board_size * layout.board_size - 1) as nat, position);
    lemma_width(layout.max_walls, walls);
    lemma_width(layout.max_steps, steps);
    let board = layout.word_board(data);
    let base = layout.base();
    let n = data as nat / pow2(base);
    assert forall|from: nat, width: nat| #[trigger] bits::field(data, base + from, width) == part(
        n,
        from,
        width,
    ) by {
        lemma_pow2_adds(base, from);
        lemma_pow2_pos(base);
        lemma_pow2_pos(from);
        lemma_div_denominator(data as int, pow2(base) as int, pow2(from) as int);
    }
    assert(bits::field(data, base + 0, position) == part(n, 0, position));
    assert(board.pawns =~= seq![part(n, 0, position), part(n, position, position)]);
    assert(board.walls_left =~= seq![
        part(n, 2 * position, walls),
        part(n, 2 * position + walls, walls),
    ]);
}

/// The bits behind the scalars are spare: no setter touches them.
pub proof fn lemma_setters_spare(
    layout: Layout,
    word: u64,
    base: nat,
    player: nat,
    value: nat,
    spare: nat,
)
    requires
        layout.fits(),
        player < 2,
        base + layout.scalar_bits() <= spare < 64,
    ensures
        part(layout.with_index(word, base, player, value) as nat, spare, 1) == part(
            word as nat,
            spare,
            1,
        ),
        part(layout.with_walls_left(word, base, player, value) as nat, spare, 1) == part(
            word as nat,
            spare,
            1,
        ),
        part(layout.with_player(word, base, value) as nat, spare, 1) == part(
            word as nat,
            spare,
            1,
        ),
        part(layout.with_steps(word, base, value) as nat, spare, 1) == part(word as nat, spare, 1),
{
    layout.lemma_widths();
    let p = layout.position_bits();
    let w = layout.walls_left_bits();
    lemma_set_bits(word, base + layout.position_offset(player), p, value, spare);
    lemma_set_bits(word, base + layout.walls_left_offset(player), w, value, spare);
    lemma_set_bits(word, base + layout.player_offset(), 1, value, spare);
    lemma_set_bits(word, base + layout.steps_offset(), layout.steps_bits(), value, spare);
}

/// No action touches the spare bits either, and a game starts with them clear.
pub proof fn lemma_actions_spare(layout: Layout, data: u64, action: (u8, u8, u8), spare: nat)
    requires
        layout.fits_word(),
        layout.wall_positions() + layout.scalar_bits() <= spare < 64,
        action.2 == 2 || (action.0 < layout.board_size - 1 && action.1 < layout.board_size - 1
            && action.2 < 2),
    ensures
        part(layout.child(data, action) as nat, spare, 1) == part(data as nat, spare, 1),
        part(layout.switched(data) as nat, spare, 1) == part(data as nat, spare, 1),
        forall|player: nat|
            player < 2 && action.2 == 2 ==> part(
                #[trigger] layout.moved(data, player, action.0 as int, action.1 as int) as nat,
                spare,
                1,
            ) == part(data as nat, spare, 1),
        forall|player: nat|
            player < 2 && action.2 < 2 ==> part(
                #[trigger] layout.walled(
                    data,
                    player,
                    action.0 as int,
                    action.1 as int,
                    action.2 as int,
                ) as nat,
                spare,
                1,
            ) == part(data as nat, spare, 1),
        part(layout.start_word() as nat, spare, 1) == 0,
{
    layout.lemma_widths();
    layout.lemma_word_shape(data);
    let base = layout.base();
    let (row, col, kind) = (action.0 as int, action.1 as int, action.2 as int);
    lemma_switch_spare(layout, data, spare);
    assert forall|player: nat| player < 2 && action.2 == 2 implies part(
        #[trigger] layout.moved(data, player, row, col) as nat,
        spare,
        1,
    ) == part(data as nat, spare, 1) by {
        let index = layout::cell_index(layout.board_size, row, col) as nat;
        lemma_setters_spare(layout, data, base, player, index, spare);
    }
    assert forall|player: nat| player < 2 && action.2 < 2 implies part(
        #[trigger] layout.walled(data, player, row, col, kind) as nat,
        spare,
        1,
    ) == part(data as nat, spare, 1) by {
        let index = layout::wall_index(layout.board_size, row, col, kind);
        layout::lemma_wall_round_trip(layout.board_size, row, col, kind);
        let walled = layout.with_wall(data, index, true);
        lemma_set_bits(data, index as nat, 1, 1, spare);
        let left = (layout.word_board(data).walls_left[player as int] - 1) as nat;
        lemma_setters_spare(layout, walled, base, player, left, spare);
    }
    let me = layout.word_board(data).player;
    let acted = if action.2 == 2 {
        layout.moved(data, me, row, col)
    } else {
        layout.walled(data, me, row, col, kind)
    };
    lemma_switch_spare(layout, acted, spare);
    let board = layout.start_board();
    lemma_setters_spare(layout, 0, base, 0, board.pawns[0], spare);
    let one = layout.with_index(0, base, 0, board.pawns[0]);
    lemma_setters_spare(layout, one, base, 1, board.pawns[1], spare);
    let both = layout.with_index(one, base, 1, board.pawns[1]);
    lemma_setters_spare(layout, both, base, 0, layout.max_walls, spare);
    let walls = layout.with_walls_left(both, base, 0, layout.max_walls);
    lemma_setters_spare(layout, walls, base, 1, layout.max_walls, spare);
    lemma_pow2_pos(spare);
    lemma_div_of0(pow2(spare) as int);
    lemma2_to64();
}

proof fn lemma_switch_spare(layout: Layout, data: u64, spare: nat)
    requires
        layout.fits_word(),
        layout.wall_positions() + layout.scalar_bits() <= spare < 64,
    ensures
        part(layout.switched(data) as nat, spare, 1) == part(data as nat, spare, 1),
{
    layout.lemma_widths();
    let base = layout.base();
    let board = layout.word_board(data);
    let next = (1 - board.player) as nat;
    lemma_setters_spare(layout, data, base, 0, next, spare);
    lemma_setters_spare(
        layout,
        layout.with_player(data, base, next),
        base,
        0,
        board.steps + 1,
        spare,
    );
}

/// Which parameters fit: at least one cell, walls for 128 bits, and scalars for
/// 64 bits; in one word, walls and scalars for 64 bits together.
pub proof fn lemma_fits(layout: Layout, position: nat, walls: nat, steps: nat)
    requires
        layout.board_size >= 1,
        are_widths(layout, position, walls, steps),
    ensures
        ({
            let count = 2 * ((layout.board_size - 1) * (layout.board_size - 1));
            let scalars = 2 * position + 2 * walls + 1 + steps;
            &&& layout.fits() <==> count <= 128 && scalars <= 64 && layout.max_walls <= usize::MAX
                && layout.max_steps <= usize::MAX
            &&& layout.fits_word() <==> layout.fits() && count + scalars <= 64
        }),
{
    assert(layout.board_size * layout.board_size >= 1) by (nonlinear_arith)
        requires
            layout.board_size >= 1,
    ;
    lemma_width((layout.board_size * layout.board_size - 1) as nat, position);
    lemma_width(layout.max_walls, walls);
    lemma_width(layout.max_steps, steps);
}

/// Cells are counted row by row and, within a row, column by column.
pub proof fn lemma_cells_in_order(size: nat, row: int, col: int)
    ensures
        layout::cell_index(size, 0, 0) == 0,
        layout::cell_index(size, row, col + 1) == layout::cell_index(size, row, col) + 1,
        layout::cell_index(size, row + 1, col) == layout::cell_index(size, row, col) + size,
        0 <= row < size && 0 <= col < size ==> layout::cell_of(
            size,
            layout::cell_index(size, row, col),
        ) == (row, col),
{
    assert((row + 1) * size == row * size + size) by (nonlinear_arith);
    if 0 <= row < size && 0 <= col < size {
        layout::lemma_cell_round_trip(size, row, col);
    }
}

/// Walls are counted row by row and, within a row, column by column: first all
/// vertical ones, then all horizontal ones.
pub proof fn lemma_walls_in_order(size: nat, row: int, col: int, orientation: int)
    requires
        size >= 1,
    ensures
        layout::wall_index(size, 0, 0, 0) == 0,
        layout::wall_index(size, row, col + 1, orientation) == layout::wall_index(
            size,
            row,
            col,
            orientation,
        ) + 1,
        layout::wall_index(size, row + 1, col, orientation) == layout::wall_index(
            size,
            row,
            col,
            orientation,
        ) + size - 1,
        layout::wall_index(size, row, col, 1) == layout::wall_index(size, row, col, 0) + (size - 1)
            * (size - 1),
        0 <= row < size - 1 && 0 <= col < size - 1 && 0 <= orientation < 2 ==> layout::wall_of(
            size,
            layout::wall_index(size, row, col, orientation),
        ) == (row, col, orientation),
{
    let gaps = size - 1;
    assert((row + 1) * gaps == row * gaps + gaps) by (nonlinear_arith);
    assert(0 * gaps == 0 && 0 * (gaps * gaps) == 0 && 1 * (gaps * gaps) == gaps * gaps)
        by (nonlinear_arith);
    if 0 <= row < gaps && 0 <= col < gaps && 0 <= orientation < 2 {
        layout::lemma_wall_round_trip(size, row, col, orientation);
    }
}

/// Byte `j` of a state's bytes holds bits `8 * j` to `8 * j + 7` of the walls;
/// after 16 bytes, the scalars follow in the same way.
pub proof fn lemma_bytes(bytes: Seq<u8>, state: CompactState)
    requires
        q_bit_repr::encodes(bytes, state),
    ensures
        bytes.len() == 24,
        forall|j: int| 0 <= j < 16 ==> #[trigger] bytes[j] == part(
            state.walls as nat,
            (8 * j) as nat,
            8,
        ),
        forall|j: int| 0 <= j < 8 ==> #[trigger] bytes[16 + j] == part(
            state.scalars as nat,
            (8 * j) as nat,
            8,
        ),
{
    let low = bytes.subrange(0, 16);
    let high = bytes.subrange(16, 24);
    assert forall|j: int| 0 <= j < 16 implies #[trigger] bytes[j] == part(
        state.walls as nat,
        (8 * j) as nat,
        8,
    ) by {
        lemma_byte(low, j);
        assert(low[j] == bytes[j]);
    }
    assert forall|j: int| 0 <= j < 8 implies #[trigger] bytes[16 + j] == part(
        state.scalars as nat,
        (8 * j) as nat,
        8,
    ) by {
        lemma_byte(high, j);
        assert(high[j] == bytes[16 + j]);
    }
}

proof fn lemma_byte(bytes: Seq<u8>, j: int)
    requires
        0 <= j < bytes.len(),
    ensures
        bytes[j] == part(q_bit_repr::le_value(bytes), (8 * j) as nat, 8),
    decreases j,
{
    lemma2_to64();
    let value = q_bit_repr::le_value(bytes);
    let rest = bytes.drop_first();
    let more = q_bit_repr::le_value(rest);
    assert(value == bytes[0] + 256 * more);
    if j == 0 {
        assert(value / 1 == value);
        assert((8 * j) as nat == 0);
    } else {
        lemma_byte(rest, j - 1);
        assert(rest[j - 1] == bytes[j]);
        let lower = (8 * (j - 1)) as nat;
        lemma_pow2_adds(8, lower);
        lemma_pow2_pos(lower);
        lemma_div_denominator(value as int, 256, pow2(lower) as int);
        assert(value / 256 == more);
    }
}

} // verus!
