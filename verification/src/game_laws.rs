//! What the rules come to, said of cells, walls and pawns themselves.
//!
//! A pawn with cell index `i` stands on row `i / size` and column `i % size`. The
//! wall at row `r` and column `c` has index `r * (size - 1) + c` where it is
//! vertical, and comes after all vertical ones where it is horizontal.

use vstd::prelude::*;
use crate::layout;
use crate::layout::{Board, Layout};
use crate::q_game_mechanics;
use crate::rules;

verus! {

/// Whether a cell is one of the `size * size` cells.
pub open spec fn is_cell(size: nat, cell: (int, int)) -> bool {
    0 <= cell.0 && cell.0 < size && 0 <= cell.1 && cell.1 < size
}

/// Whether a wall stands at a place.
pub open spec fn placed(board: Board, place: (int, int, int)) -> bool {
    let gaps = board.size - 1;
    &&& 0 <= place.0 && place.0 < gaps
    &&& 0 <= place.1 && place.1 < gaps
    &&& place.2 == 0 || place.2 == 1
    &&& board.walls[place.2 * (gaps * gaps) + place.0 * gaps + place.1]
}

/// Whether a wall at a place would stand between two cells. A vertical wall
/// stands to the right of its own cell and of the one below; a horizontal wall
/// stands below its own cell and the one to the right.
pub open spec fn parts(place: (int, int, int), a: (int, int), b: (int, int)) -> bool {
    let (row, col, orientation) = place;
    if orientation == 0 {
        ||| (a == (row, col) && b == (row, col + 1))
        ||| (b == (row, col) && a == (row, col + 1))
        ||| (a == (row + 1, col) && b == (row + 1, col + 1))
        ||| (b == (row + 1, col) && a == (row + 1, col + 1))
    } else {
        ||| (a == (row, col) && b == (row + 1, col))
        ||| (b == (row, col) && a == (row + 1, col))
        ||| (a == (row, col + 1) && b == (row + 1, col + 1))
        ||| (b == (row, col + 1) && a == (row + 1, col + 1))
    }
}

/// Whether two cells of the board touch with no wall between them.
pub open spec fn touch(board: Board, a: (int, int), b: (int, int)) -> bool {
    &&& is_cell(board.size, a)
    &&& is_cell(board.size, b)
    &&& ((a.0 == b.0 && (a.1 - b.1 == 1 || b.1 - a.1 == 1)) || (a.1 == b.1 && (a.0 - b.0 == 1
        || b.0 - a.0 == 1)))
    &&& forall|place: (int, int, int)| #[trigger] placed(board, place) ==> !parts(place, a, b)
}

/// The cell of a player's pawn.
pub open spec fn stands_on(board: Board, player: int) -> (int, int) {
    let index = board.pawns[player] as int;
    (index / (board.size as int), index % (board.size as int))
}

/// Whether cells include a player's pawn and, with each cell, all that touch it.
pub open spec fn spreads_from(board: Board, player: int, cells: Set<(int, int)>) -> bool {
    &&& cells.contains(stands_on(board, player))
    &&& forall|a: (int, int), b: (int, int)|
        cells.contains(a) && #[trigger] touch(board, a, b) ==> cells.contains(b)
}

/// Whether a player is not cut off: however cells spread from the pawn, they
/// come to the player's goal row, which is the last row for player 0 and the
/// first row for player 1.
pub open spec fn has_way(board: Board, player: int) -> bool {
    forall|cells: Set<(int, int)>| #[trigger]
        spreads_from(board, player, cells) ==> exists|goal: (int, int)| #[trigger]
            cells.contains(goal) && goal.0 == if player == 0 {
                board.size - 1
            } else {
                0
            }
}

proof fn lemma_placed(board: Board, row: int, col: int, orientation: int)
    ensures
        0 <= orientation < 2 ==> board.wall(row, col, orientation) == placed(
            board,
            (row, col, orientation),
        ),
{
}

/// One can step between two cells just where they touch with no wall between.
pub proof fn lemma_steps(board: Board, a: (int, int), b: (int, int))
    requires
        is_cell(board.size, a),
    ensures
        board.neighbours(a, b) <==> touch(board, a, b),
{
    let down = (a.0 + 1, a.1);
    let up = (a.0 - 1, a.1);
    let right = (a.0, a.1 + 1);
    let left = (a.0, a.1 - 1);
    lemma_touch_below(board, a);
    lemma_touch_right(board, a);
    lemma_touch_below(board, up);
    lemma_touch_right(board, left);
    assert(touch(board, up, a) == touch(board, a, up)) by {
        lemma_touch_both_ways(board, a, up);
    }
    assert(touch(board, left, a) == touch(board, a, left)) by {
        lemma_touch_both_ways(board, a, left);
    }
    assert(board.passable(a, 0) == touch(board, a, up));
    assert(board.passable(a, 1) == touch(board, a, down));
    assert(board.passable(a, 2) == touch(board, a, left));
    assert(board.passable(a, 3) == touch(board, a, right));
    assert(rules::toward(a, 0) == up);
    assert(rules::toward(a, 1) == down);
    assert(rules::toward(a, 2) == left);
    assert(rules::toward(a, 3) == right);
    if board.neighbours(a, b) {
        let d = choose|d: int| 0 <= d < 4 && #[trigger] board.passable(a, d) && b == rules::toward(
            a,
            d,
        );
        assert(d == 0 || d == 1 || d == 2 || d == 3);
    }
}

proof fn lemma_touch_both_ways(board: Board, a: (int, int), b: (int, int))
    ensures
        touch(board, a, b) == touch(board, b, a),
{
    assert forall|place: (int, int, int)| parts(place, a, b) == #[trigger] parts(
        place,
        b,
        a,
    ) by {}
    if touch(board, a, b) {
        assert forall|place: (int, int, int)| #[trigger] placed(board, place) implies !parts(
            place,
            b,
            a,
        ) by {}
    }
    if touch(board, b, a) {
        assert forall|place: (int, int, int)| #[trigger] placed(board, place) implies !parts(
            place,
            a,
            b,
        ) by {}
    }
}

proof fn lemma_touch_below(board: Board, a: (int, int))
    ensures
        touch(board, a, (a.0 + 1, a.1)) <==> is_cell(board.size, a) && is_cell(
            board.size,
            (a.0 + 1, a.1),
        ) && !board.wall_below(a.0, a.1),
{
    let b = (a.0 + 1, a.1);
    lemma_placed(board, a.0, a.1, 1);
    lemma_placed(board, a.0, a.1 - 1, 1);
    assert(parts((a.0, a.1, 1int), a, b));
    assert(parts((a.0, a.1 - 1, 1int), a, b));
    if is_cell(board.size, a) && is_cell(board.size, b) && !board.wall_below(a.0, a.1) {
        assert forall|place: (int, int, int)| #[trigger] placed(board, place) implies !parts(
            place,
            a,
            b,
        ) by {
            if parts(place, a, b) {
                assert(place == (a.0, a.1, 1int) || place == (a.0, a.1 - 1, 1int));
            }
        }
    }
}

proof fn lemma_touch_right(board: Board, a: (int, int))
    ensures
        touch(board, a, (a.0, a.1 + 1)) <==> is_cell(board.size, a) && is_cell(
            board.size,
            (a.0, a.1 + 1),
        ) && !board.wall_right(a.0, a.1),
{
    let b = (a.0, a.1 + 1);
    lemma_placed(board, a.0, a.1, 0);
    lemma_placed(board, a.0 - 1, a.1, 0);
    assert(parts((a.0, a.1, 0int), a, b));
    assert(parts((a.0 - 1, a.1, 0int), a, b));
    if is_cell(board.size, a) && is_cell(board.size, b) && !board.wall_right(a.0, a.1) {
        assert forall|place: (int, int, int)| #[trigger] placed(board, place) implies !parts(
            place,
            a,
            b,
        ) by {
            if parts(place, a, b) {
                assert(place == (a.0, a.1, 0int) || place == (a.0 - 1, a.1, 0int));
            }
        }
    }
}

/// Whether the player to act may move to a cell: it touches their own cell and
/// is not the opponent's; or the opponent's cell touches both, and the cell lies
/// straight behind the opponent, or nothing straight behind them can be stepped
/// to.
pub open spec fn may_move_to(board: Board, target: (int, int)) -> bool {
    let me = stands_on(board, board.player as int);
    let other = stands_on(board, 1 - board.player);
    let straight = (other.0 + other.0 - me.0, other.1 + other.1 - me.1);
    if touch(board, me, target) && target != other {
        true
    } else {
        &&& touch(board, me, other)
        &&& touch(board, other, target)
        &&& target != me
        &&& target == straight || !touch(board, other, straight)
    }
}

/// The moves are exactly the cells that the player may move to, each once.
pub proof fn lemma_moves(board: Board, target: (int, int))
    requires
        board.ok(),
    ensures
        board.moves().contains(target) <==> may_move_to(board, target),
        board.moves().no_duplicates(),
{
    let me = board.pawn(board.player as int);
    let other = board.pawn(1 - board.player);
    layout::lemma_index_round_trip(board.size, board.pawns[0] as int);
    layout::lemma_index_round_trip(board.size, board.pawns[1] as int);
    let m0 = board.moves_toward(0);
    let m1 = board.moves_toward(1);
    let m2 = board.moves_toward(2);
    let m3 = board.moves_toward(3);
    reveal_with_fuel(Board::moves_among, 5);
    assert(board.moves() =~= m0 + m1 + m2 + m3);
    lemma_moves_one_way(board, 0, target);
    lemma_moves_one_way(board, 1, target);
    lemma_moves_one_way(board, 2, target);
    lemma_moves_one_way(board, 3, target);
    lemma_contains_sum(m0 + m1 + m2, m3, target);
    lemma_contains_sum(m0 + m1, m2, target);
    lemma_contains_sum(m0, m1, target);
    lemma_direction(board, me, target);
    lemma_direction(board, me, other);
    lemma_direction(board, other, target);
    let all = board.moves();
    assert forall|i: int, j: int| 0 <= i < all.len() && 0 <= j < all.len() && i != j implies all[i]
        != all[j] by {
        lemma_moves_differ(board, i, j);
    }
}

/// Touching cells lie in one of the four directions, and that direction is passable.
proof fn lemma_direction(board: Board, a: (int, int), b: (int, int))
    requires
        is_cell(board.size, a),
    ensures
        touch(board, a, b) <==> exists|d: int|
            0 <= d < 4 && #[trigger] board.passable(a, d) && b == rules::toward(a, d),
        forall|d: int| 0 <= d < 4 ==> #[trigger] board.passable(a, d) == touch(
            board,
            a,
            rules::toward(a, d),
        ),
{
    lemma_steps(board, a, b);
    assert forall|d: int| 0 <= d < 4 implies #[trigger] board.passable(a, d) == touch(
        board,
        a,
        rules::toward(a, d),
    ) by {
        lemma_steps(board, a, rules::toward(a, d));
        if board.neighbours(a, rules::toward(a, d)) {
            let e = choose|e: int|
                0 <= e < 4 && #[trigger] board.passable(a, e) && rules::toward(a, d)
                    == rules::toward(a, e);
            assert(d == e);
        }
    }
}

proof fn lemma_contains_sum(a: Seq<(int, int)>, b: Seq<(int, int)>, t: (int, int))
    ensures
        (a + b).contains(t) <==> a.contains(t) || b.contains(t),
{
    let both = a + b;
    if a.contains(t) {
        let i = choose|i: int| 0 <= i < a.len() && a[i] == t;
        assert(both[i] == t);
    }
    if b.contains(t) {
        let i = choose|i: int| 0 <= i < b.len() && b[i] == t;
        assert(both[a.len() + i] == t);
    }
    if both.contains(t) {
        let i = choose|i: int| 0 <= i < both.len() && both[i] == t;
        if i < a.len() {
            assert(a[i] == t);
        } else {
            assert(b[i - a.len()] == t);
        }
    }
}

/// The moves that start in a direction, and where they end.
proof fn lemma_moves_one_way(board: Board, d: int, target: (int, int))
    requires
        0 <= d < 4,
    ensures
        ({
            let me = board.pawn(board.player as int);
            let other = board.pawn(1 - board.player);
            let here = board.moves_toward(d);
            let first = if d < 2 { 2int } else { 0int };
            &&& here.contains(target) <==> board.passable(me, d) && if rules::toward(me, d)
                != other {
                target == rules::toward(me, d)
            } else if board.passable(other, d) {
                target == rules::toward(other, d)
            } else {
                ||| (board.passable(other, first) && target == rules::toward(other, first))
                ||| (board.passable(other, first + 1) && target == rules::toward(
                    other,
                    first + 1,
                ))
            }
            &&& here.no_duplicates()
        }),
{
    let me = board.pawn(board.player as int);
    let other = board.pawn(1 - board.player);
    let here = board.moves_toward(d);
    let first = if d < 2 { 2int } else { 0int };
    if board.passable(me, d) {
        if rules::toward(me, d) != other {
            assert(here[0] == rules::toward(me, d));
        } else if board.passable(other, d) {
            assert(here[0] == rules::toward(other, d));
        } else {
            let one = board.step(other, first);
            let two = board.step(other, first + 1);
            assert(here == one + two);
            lemma_contains_sum(one, two, target);
            if board.passable(other, first) {
                assert(one[0] == rules::toward(other, first));
            }
            if board.passable(other, first + 1) {
                assert(two[0] == rules::toward(other, first + 1));
            }
            assert(rules::toward(other, first) != rules::toward(other, first + 1));
        }
    }
}

/// Moves that start in different directions end on different cells.
proof fn lemma_ways_differ(board: Board, d: int, e: int, target: (int, int))
    requires
        0 <= d < 4,
        0 <= e < 4,
        board.moves_toward(d).contains(target),
        board.moves_toward(e).contains(target),
    ensures
        d == e,
{
    lemma_moves_one_way(board, d, target);
    lemma_moves_one_way(board, e, target);
}

proof fn lemma_moves_differ(board: Board, i: int, j: int)
    requires
        0 <= i < board.moves().len(),
        0 <= j < board.moves().len(),
        i != j,
    ensures
        board.moves()[i] != board.moves()[j],
{
    reveal_with_fuel(Board::moves_among, 5);
    let m0 = board.moves_toward(0);
    let m1 = board.moves_toward(1);
    let m2 = board.moves_toward(2);
    let m3 = board.moves_toward(3);
    let all = board.moves();
    assert(all =~= m0 + m1 + m2 + m3);
    let (d, k) = lemma_which_way(board, i);
    let (e, l) = lemma_which_way(board, j);
    if all[i] == all[j] {
        assert(board.moves_toward(d).contains(all[i]));
        assert(board.moves_toward(e).contains(all[i]));
        lemma_ways_differ(board, d, e, all[i]);
        lemma_moves_one_way(board, d, all[i]);
        assert(k != l);
    }
}

proof fn lemma_which_way(board: Board, i: int) -> (place: (int, int))
    requires
        0 <= i < board.moves().len(),
    ensures
        0 <= place.0 < 4,
        0 <= place.1 < board.moves_toward(place.0).len(),
        board.moves_toward(place.0)[place.1] == board.moves()[i],
        i == place.1 + if place.0 == 0 {
            0nat
        } else if place.0 == 1 {
            board.moves_toward(0).len()
        } else if place.0 == 2 {
            board.moves_toward(0).len() + board.moves_toward(1).len()
        } else {
            board.moves_toward(0).len() + board.moves_toward(1).len() + board.moves_toward(2).len()
        },
{
    reveal_with_fuel(Board::moves_among, 5);
    let m0 = board.moves_toward(0);
    let m1 = board.moves_toward(1);
    let m2 = board.moves_toward(2);
    let m3 = board.moves_toward(3);
    assert(board.moves() =~= m0 + m1 + m2 + m3);
    if i < m0.len() {
        (0, i)
    } else if i < m0.len() + m1.len() {
        (1, i - m0.len())
    } else if i < m0.len() + m1.len() + m2.len() {
        (2, i - m0.len() - m1.len())
    } else {
        (3, i - m0.len() - m1.len() - m2.len())
    }
}

/// A player can finish just where they are not cut off.
pub proof fn lemma_can_finish(board: Board, player: int)
    requires
        board.ok(),
        player == 0 || player == 1,
    ensures
        board.can_finish(player) <==> has_way(board, player),
{
    let from = board.pawn(player);
    layout::lemma_index_round_trip(board.size, board.pawns[player] as int);
    if board.can_finish(player) {
        let goal = choose|goal: (int, int)| #[trigger]
            board.linked(from, goal) && goal.0 == board.goal_row(player);
        assert forall|cells: Set<(int, int)>| #[trigger]
            spreads_from(board, player, cells) implies exists|goal: (int, int)| #[trigger]
            cells.contains(goal) && goal.0 == if player == 0 {
                board.size - 1
            } else {
                0
            } by {
            let path = choose|path: Seq<(int, int)>| #[trigger]
                board.is_path(path) && path[0] == from && path.last() == goal;
            lemma_path_spreads(board, player, cells, path);
            assert(cells.contains(goal));
        }
    }
    if has_way(board, player) {
        let cells = Set::new(|c: (int, int)| is_cell(board.size, c) && board.linked(from, c));
        assert(board.linked(from, from)) by {
            let path = seq![from];
            assert(board.is_path(path));
        }
        assert forall|a: (int, int), b: (int, int)|
            cells.contains(a) && #[trigger] touch(board, a, b) implies cells.contains(b) by {
            lemma_steps(board, a, b);
            let path = choose|path: Seq<(int, int)>| #[trigger]
                board.is_path(path) && path[0] == from && path.last() == a;
            let longer = path.push(b);
            assert forall|i: int| #![trigger longer[i]]
                0 < i < longer.len() implies board.neighbours(longer[i - 1], longer[i]) by {
                if i < path.len() {
                    assert(path[i] == longer[i]);
                    assert(path[i - 1] == longer[i - 1]);
                }
            }
            assert(board.is_path(longer));
            assert(longer[0] == from && longer.last() == b);
        }
        assert(spreads_from(board, player, cells));
        let goal = choose|goal: (int, int)| #[trigger]
            cells.contains(goal) && goal.0 == if player == 0 {
                board.size - 1
            } else {
                0
            };
        assert(board.linked(board.pawn(player), goal));
    }
}

proof fn lemma_path_spreads(
    board: Board,
    player: int,
    cells: Set<(int, int)>,
    path: Seq<(int, int)>,
)
    requires
        board.ok(),
        player == 0 || player == 1,
        spreads_from(board, player, cells),
        board.is_path(path),
        path[0] == board.pawn(player),
    ensures
        cells.contains(path.last()),
        is_cell(board.size, path.last()),
    decreases path.len(),
{
    layout::lemma_index_round_trip(board.size, board.pawns[player] as int);
    if path.len() > 1 {
        let shorter = path.drop_last();
        assert forall|i: int| #![trigger shorter[i]] 0 < i < shorter.len() implies board.neighbours(
            shorter[i - 1],
            shorter[i],
        ) by {
            assert(path[i] == shorter[i]);
        }
        lemma_path_spreads(board, player, cells, shorter);
        assert(path[path.len() - 1] == path.last());
        assert(board.neighbours(shorter.last(), path.last()));
        lemma_steps(board, shorter.last(), path.last());
        assert(touch(board, shorter.last(), path.last()));
    }
}

/// The board with one more wall.
pub open spec fn with_placed(board: Board, place: (int, int, int)) -> Board {
    let gaps = board.size - 1;
    Board {
        walls: board.walls.update(
            place.2 * (gaps * gaps) + place.0 * gaps + place.1,
            true,
        ),
        ..board
    }
}

/// Whether the player to act may place a wall: they have one left, its place is
/// free, it crosses no wall and shares no stretch with one, and neither player
/// is cut off by it.
pub open spec fn may_wall(board: Board, place: (int, int, int)) -> bool {
    let (row, col, orientation) = place;
    &&& 0 <= row && row < board.size - 1
    &&& 0 <= col && col < board.size - 1
    &&& orientation == 0 || orientation == 1
    &&& board.walls_left[board.player as int] > 0
    &&& !placed(board, (row, col, 0)) && !placed(board, (row, col, 1))
    &&& orientation == 0 ==> !placed(board, (row - 1, col, 0)) && !placed(board, (row + 1, col, 0))
    &&& orientation == 1 ==> !placed(board, (row, col - 1, 1)) && !placed(board, (row, col + 1, 1))
    &&& has_way(with_placed(board, place), 0)
    &&& has_way(with_placed(board, place), 1)
}

/// The walls that can be placed are exactly those that may be, each once.
pub proof fn lemma_placements(board: Board, place: (int, int, int))
    requires
        board.ok(),
    ensures
        board.placements().contains(place) <==> may_wall(board, place),
        board.placements().no_duplicates(),
{
    lemma_placements_below(board, board.walls.len(), place);
    if may_wall(board, place) {
        layout::lemma_wall_round_trip(board.size, place.0, place.1, place.2);
    }
}

proof fn lemma_may_place(board: Board, index: int)
    requires
        board.ok(),
        0 <= index < board.walls.len(),
    ensures
        board.may_place(index) <==> may_wall(board, layout::wall_of(board.size, index)),
        layout::wall_index(
            board.size,
            layout::wall_of(board.size, index).0,
            layout::wall_of(board.size, index).1,
            layout::wall_of(board.size, index).2,
        ) == index,
{
    layout::lemma_wall_index_round_trip(board.size, index);
    let place = layout::wall_of(board.size, index);
    let (row, col, orientation) = place;
    let walled = board.with_wall(index);
    assert(walled == with_placed(board, place));
    lemma_can_finish(walled, 0);
    lemma_can_finish(walled, 1);
    lemma_placed(board, row, col, 0);
    lemma_placed(board, row, col, 1);
    lemma_placed(board, row - 1, col, 0);
    lemma_placed(board, row + 1, col, 0);
    lemma_placed(board, row, col - 1, 1);
    lemma_placed(board, row, col + 1, 1);
}

proof fn lemma_placements_below(board: Board, count: nat, place: (int, int, int))
    requires
        board.ok(),
        count <= board.walls.len(),
    ensures
        board.placements_among(count).contains(place) <==> may_wall(board, place)
            && layout::wall_index(board.size, place.0, place.1, place.2) < count,
        board.placements_among(count).no_duplicates(),
        forall|i: int| 0 <= i < board.placements_among(count).len() ==> {
            let w = #[trigger] board.placements_among(count)[i];
            layout::wall_index(board.size, w.0, w.1, w.2) < count
        },
    decreases count,
{
    let list = board.placements_among(count);
    if count == 0 {
        if may_wall(board, place) {
            layout::lemma_wall_round_trip(board.size, place.0, place.1, place.2);
        }
    } else {
        let index = count - 1;
        let last = layout::wall_of(board.size, index);
        lemma_placements_below(board, index as nat, place);
        lemma_may_place(board, index);
        let before = board.placements_among(index as nat);
        if may_wall(board, place) {
            layout::lemma_wall_round_trip(board.size, place.0, place.1, place.2);
        }
        if board.may_place(index) {
            assert(list == before.push(last));
            if before.contains(place) {
                let i = choose|i: int| 0 <= i < before.len() && before[i] == place;
                assert(list[i] == place);
            }
            if place == last {
                assert(list[list.len() - 1] == place);
            }
            if list.contains(place) {
                let i = choose|i: int| 0 <= i < list.len() && list[i] == place;
                if i < before.len() {
                    assert(before[i] == place);
                }
            }
            assert forall|i: int| 0 <= i < list.len() implies {
                let w = #[trigger] list[i];
                layout::wall_index(board.size, w.0, w.1, w.2) < count
            } by {
                if i < before.len() {
                    let w = before[i];
                    assert(list[i] == w);
                    assert(layout::wall_index(board.size, w.0, w.1, w.2) < index);
                }
            }
            assert forall|i: int, j: int|
                0 <= i < list.len() && 0 <= j < list.len() && i != j implies list[i] != list[j] by {
                let a = if i < before.len() { before[i] } else { before[j] };
                assert(layout::wall_index(board.size, a.0, a.1, a.2) < index);
            }
        }
    }
}

/// The actions are exactly the moves, with type 2, and the walls, with their
/// orientation as type; each occurs once, and there are as many as both together.
pub proof fn lemma_actions(board: Board, action: (u8, u8, u8))
    requires
        board.ok(),
        board.size <= 9,
    ensures
        action.2 == 2 ==> (board.actions().contains(action) <==> may_move_to(
            board,
            (action.0 as int, action.1 as int),
        )),
        action.2 != 2 ==> (board.actions().contains(action) <==> may_wall(
            board,
            (action.0 as int, action.1 as int, action.2 as int),
        )),
        board.actions().no_duplicates(),
        board.actions().len() == board.moves().len() + board.placements().len(),
{
    let acts = board.actions();
    let moves = board.moves();
    let walls = board.placements();
    let cell = (action.0 as int, action.1 as int);
    let place = (action.0 as int, action.1 as int, action.2 as int);
    assert forall|i: int| 0 <= i < moves.len() implies is_cell(board.size, #[trigger] moves[i]) by {
        assert(moves.contains(moves[i]));
        lemma_moves(board, moves[i]);
    }
    assert forall|i: int| 0 <= i < walls.len() implies may_wall(board, #[trigger] walls[i]) by {
        assert(walls.contains(walls[i]));
        lemma_placements(board, walls[i]);
    }
    lemma_moves(board, cell);
    lemma_placements(board, place);
    assert forall|i: int| 0 <= i < acts.len() implies #[trigger] acts[i] == if i < moves.len() {
        (moves[i].0 as u8, moves[i].1 as u8, 2u8)
    } else {
        (
            walls[i - moves.len()].0 as u8,
            walls[i - moves.len()].1 as u8,
            walls[i - moves.len()].2 as u8,
        )
    } by {}
    if acts.contains(action) {
        let i = choose|i: int| 0 <= i < acts.len() && acts[i] == action;
        if i < moves.len() {
            assert(is_cell(board.size, moves[i]));
            assert(moves[i] == cell);
        } else {
            assert(may_wall(board, walls[i - moves.len()]));
            assert(walls[i - moves.len()] == place);
        }
    }
    if action.2 == 2 && may_move_to(board, cell) {
        let i = choose|i: int| 0 <= i < moves.len() && moves[i] == cell;
        assert(acts[i] == action);
    }
    if action.2 != 2 && may_wall(board, place) {
        let i = choose|i: int| 0 <= i < walls.len() && walls[i] == place;
        assert(acts[moves.len() + i] == action);
    }
    assert forall|i: int, j: int|
        0 <= i < acts.len() && 0 <= j < acts.len() && i != j implies acts[i] != acts[j] by {
        if i < moves.len() && j < moves.len() {
            assert(is_cell(board.size, moves[i]) && is_cell(board.size, moves[j]));
            assert(moves[i] != moves[j]);
        } else if i >= moves.len() && j >= moves.len() {
            assert(may_wall(board, walls[i - moves.len()]));
            assert(may_wall(board, walls[j - moves.len()]));
            assert(walls[i - moves.len()] != walls[j - moves.len()]);
        } else if i >= moves.len() {
            assert(may_wall(board, walls[i - moves.len()]));
        } else {
            assert(may_wall(board, walls[j - moves.len()]));
        }
    }
}

/// In a state, the actions of the player to act are exactly the cells that they
/// may move to and the walls that they may place, each once.
pub proof fn lemma_actions_of(layout: Layout, data: u64, action: (u8, u8, u8))
    requires
        layout.fits_word(),
        layout.valid(data),
    ensures
        layout.actions_of(data).contains(action) <==> if action.2 == 2 {
            may_move_to(layout.word_board(data), (action.0 as int, action.1 as int))
        } else {
            may_wall(
                layout.word_board(data),
                (action.0 as int, action.1 as int, action.2 as int),
            )
        },
        layout.actions_of(data).no_duplicates(),
        layout.actions_of(data).len() == layout.word_board(data).moves().len()
            + layout.word_board(data).placements().len(),
{
    layout.lemma_widths();
    layout.lemma_word_shape(data);
    lemma_actions(layout.word_board(data), action);
}

/// Cells and wall places with machine coordinates are read as they stand.
pub proof fn lemma_coordinates(
    cells: Seq<(usize, usize)>,
    walls: Seq<(usize, usize, usize)>,
    i: int,
)
    ensures
        q_game_mechanics::cells(cells).len() == cells.len(),
        q_game_mechanics::wall_positions(walls).len() == walls.len(),
        0 <= i < cells.len() ==> q_game_mechanics::cells(cells)[i] == (
            cells[i].0 as int,
            cells[i].1 as int,
        ),
        0 <= i < walls.len() ==> q_game_mechanics::wall_positions(walls)[i] == (
            walls[i].0 as int,
            walls[i].1 as int,
            walls[i].2 as int,
        ),
{
}

/// A state describes a game just where both pawns stand on cells of the board.
pub proof fn lemma_valid(layout: Layout, data: u64)
    requires
        layout.fits_word(),
    ensures
        layout.valid(data) <==> is_cell(layout.board_size, stands_on(layout.word_board(data), 0))
            && is_cell(layout.board_size, stands_on(layout.word_board(data), 1)),
{
    layout.lemma_widths();
    layout.lemma_word_shape(data);
    let board = layout.word_board(data);
    let size = layout.board_size;
    if layout.valid(data) {
        layout::lemma_index_round_trip(size, board.pawns[0] as int);
        layout::lemma_index_round_trip(size, board.pawns[1] as int);
    }
    assert forall|p: int| 0 <= p < 2 && is_cell(size, stands_on(board, p)) implies board.pawns[p]
        < size * size by {
        let (row, col) = stands_on(board, p);
        vstd::arithmetic::div_mod::lemma_fundamental_div_mod(board.pawns[p] as int, size as int);
        assert(size * row == row * size) by (nonlinear_arith);
        layout::lemma_cell_round_trip(size, row, col);
    }
}

/// A player has won just where their pawn stands on the last row, for player 0,
/// or on the first, for player 1.
pub proof fn lemma_won(board: Board)
    ensures
        board.won(0) <==> board.pawns[0] as int / (board.size as int) == board.size - 1,
        board.won(1) <==> board.pawns[1] as int / (board.size as int) == 0,
{
}

/// After a move the pawn stands on the cell, and nothing else has changed.
pub proof fn lemma_moved(layout: Layout, data: u64, player: nat, row: int, col: int)
    requires
        layout.fits_word(),
        player < 2,
        is_cell(layout.board_size, (row, col)),
    ensures
        ({
            let before = layout.word_board(data);
            let after = layout.word_board(layout.moved(data, player, row, col));
            &&& stands_on(after, player as int) == (row, col)
            &&& after.pawns[1 - player] == before.pawns[1 - player]
            &&& after.walls == before.walls
            &&& after.walls_left == before.walls_left
            &&& after.player == before.player
            &&& after.steps == before.steps
        }),
{
    layout::lemma_cell_round_trip(layout.board_size, row, col);
    layout.lemma_widths();
    layout.lemma_word_index(
        data,
        player,
        layout::cell_index(layout.board_size, row, col) as nat,
    );
}

/// After a wall has been placed it stands, its player has one less, and nothing
/// else has changed.
pub proof fn lemma_walled(layout: Layout, data: u64, player: nat, place: (int, int, int))
    requires
        layout.fits_word(),
        player < 2,
        0 <= place.0 < layout.board_size - 1,
        0 <= place.1 < layout.board_size - 1,
        0 <= place.2 < 2,
        layout.word_board(data).walls_left[player as int] > 0,
    ensures
        ({
            let before = layout.word_board(data);
            let after = layout.word_board(
                layout.walled(data, player, place.0, place.1, place.2),
            );
            &&& placed(after, place)
            &&& forall|other: (int, int, int)|
                other != place ==> #[trigger] placed(after, other) == placed(before, other)
            &&& after.pawns == before.pawns
            &&& after.walls_left[player as int] == before.walls_left[player as int] - 1
            &&& after.walls_left[1 - player] == before.walls_left[1 - player]
            &&& after.player == before.player
            &&& after.steps == before.steps
        }),
{
    let size = layout.board_size;
    let before = layout.word_board(data);
    let index = layout::wall_index(size, place.0, place.1, place.2);
    layout::lemma_wall_round_trip(size, place.0, place.1, place.2);
    layout.lemma_widths();
    layout.lemma_word_shape(data);
    layout.lemma_word_wall(data, index, true);
    layout.lemma_word_walls_left(
        layout.with_wall(data, index, true),
        player,
        (before.walls_left[player as int] - 1) as nat,
    );
    let after = layout.word_board(layout.walled(data, player, place.0, place.1, place.2));
    assert(after.walls == before.walls.update(index, true));
    assert forall|other: (int, int, int)| other != place implies #[trigger] placed(after, other)
        == placed(before, other) by {
        if 0 <= other.0 < size - 1 && 0 <= other.1 < size - 1 && 0 <= other.2 < 2 {
            layout::lemma_wall_round_trip(size, other.0, other.1, other.2);
        }
    }
}

/// When the turn has passed on, the other player acts, one more step is
/// counted, and nothing else has changed.
pub proof fn lemma_switched(layout: Layout, data: u64)
    requires
        layout.fits_word(),
        layout.word_board(data).steps < layout.max_steps,
    ensures
        ({
            let before = layout.word_board(data);
            let after = layout.word_board(layout.switched(data));
            &&& before.player == 0 ==> after.player == 1
            &&& before.player == 1 ==> after.player == 0
            &&& after.steps == before.steps + 1
            &&& after.pawns == before.pawns
            &&& after.walls == before.walls
            &&& after.walls_left == before.walls_left
        }),
{
    layout.lemma_widths();
    layout.lemma_word_shape(data);
    let board = layout.word_board(data);
    let next = (1 - board.player) as nat;
    layout.lemma_word_player(data, next);
    layout.lemma_word_steps(layout.with_player(data, layout.base(), next), board.steps + 1);
}

/// After a move of the player to act: their pawn stands on the cell, the other
/// player acts, one more step is counted, and nothing else has changed.
pub proof fn lemma_child_by_move(layout: Layout, data: u64, row: u8, col: u8)
    requires
        layout.fits_word(),
        layout.valid(data),
        layout.word_board(data).steps < layout.max_steps,
        row < layout.board_size,
        col < layout.board_size,
    ensures
        ({
            let before = layout.word_board(data);
            let after = layout.word_board(layout.child(data, (row, col, 2)));
            let me = before.player as int;
            &&& stands_on(after, me) == (row as int, col as int)
            &&& after.pawns[1 - me] == before.pawns[1 - me]
            &&& after.walls == before.walls
            &&& after.walls_left == before.walls_left
            &&& after.player == 1 - me
            &&& after.steps == before.steps + 1
        }),
{
    layout.lemma_word_shape(data);
    let me = layout.word_board(data).player;
    lemma_moved(layout, data, me, row as int, col as int);
    lemma_switched(layout, layout.moved(data, me, row as int, col as int));
}

/// After a wall of the player to act: it stands, they have one less, the other
/// player acts, one more step is counted, and nothing else has changed.
pub proof fn lemma_child_by_wall(layout: Layout, data: u64, action: (u8, u8, u8))
    requires
        layout.fits_word(),
        layout.valid(data),
        layout.word_board(data).steps < layout.max_steps,
        action.0 < layout.board_size - 1,
        action.1 < layout.board_size - 1,
        action.2 < 2,
        layout.word_board(data).walls_left[layout.word_board(data).player as int] > 0,
    ensures
        ({
            let before = layout.word_board(data);
            let after = layout.word_board(layout.child(data, action));
            let me = before.player as int;
            let place = (action.0 as int, action.1 as int, action.2 as int);
            &&& placed(after, place)
            &&& forall|other: (int, int, int)|
                other != place ==> #[trigger] placed(after, other) == placed(before, other)
            &&& after.pawns == before.pawns
            &&& after.walls_left[me] == before.walls_left[me] - 1
            &&& after.walls_left[1 - me] == before.walls_left[1 - me]
            &&& after.player == 1 - me
            &&& after.steps == before.steps + 1
        }),
{
    layout.lemma_word_shape(data);
    let me = layout.word_board(data).player;
    let place = (action.0 as int, action.1 as int, action.2 as int);
    lemma_walled(layout, data, me, place);
    let acted = layout.walled(data, me, place.0, place.1, place.2);
    lemma_switched(layout, acted);
    let middle = layout.word_board(acted);
    let after = layout.word_board(layout.child(data, action));
    assert(placed(middle, place));
    assert forall|other: (int, int, int)| other != place implies #[trigger] placed(after, other)
        == placed(layout.word_board(data), other) by {
        assert(placed(middle, other) == placed(layout.word_board(data), other));
    }
}

/// A game starts with player 0 in the middle of the first row and player 1 in
/// the middle of the last, no wall placed, all walls left, player 0 to act, and
/// no step made.
pub proof fn lemma_start(layout: Layout)
    requires
        layout.fits_word(),
    ensures
        ({
            let board = layout.word_board(layout.start_word());
            let size = layout.board_size;
            &&& stands_on(board, 0) == (0int, size as int / 2)
            &&& stands_on(board, 1) == (size - 1, size as int / 2)
            &&& forall|place: (int, int, int)| !(#[trigger] placed(board, place))
            &&& board.walls_left == seq![layout.max_walls, layout.max_walls]
            &&& board.player == 0
            &&& board.steps == 0
        }),
        layout.word_board(layout.start_word()) == layout.start_board(),
{
    layout.lemma_widths();
    layout.lemma_zero(layout.base());
    let size = layout.board_size;
    let base = layout.base();
    let start = layout.start_board();
    layout::lemma_cell_round_trip(size, 0, size as int / 2);
    layout::lemma_cell_round_trip(size, size - 1, size as int / 2);
    assert(layout.word_walls(0) =~= Seq::new(base, |i: int| false));
    layout.lemma_word_index(0, 0, start.pawns[0]);
    let one = layout.with_index(0, base, 0, start.pawns[0]);
    layout.lemma_word_index(one, 1, start.pawns[1]);
    let both = layout.with_index(one, base, 1, start.pawns[1]);
    layout.lemma_word_walls_left(both, 0, layout.max_walls);
    let walls = layout.with_walls_left(both, base, 0, layout.max_walls);
    layout.lemma_word_walls_left(walls, 1, layout.max_walls);
    let board = layout.word_board(layout.start_word());
    assert(board.pawns =~= start.pawns);
    assert(board.walls_left =~= start.walls_left);
    assert forall|place: (int, int, int)| !(#[trigger] placed(board, place)) by {
        if 0 <= place.0 < size - 1 && 0 <= place.1 < size - 1 && 0 <= place.2 < 2 {
            layout::lemma_wall_round_trip(size, place.0, place.1, place.2);
        }
    }
}

} // verus!
