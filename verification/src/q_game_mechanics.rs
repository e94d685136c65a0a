//! The rules of Quoridor, executed on packed states.

use vstd::prelude::*;
use vstd::arithmetic::power2::*;
use crate::layout;
use crate::layout::{Board, Layout};
use crate::rules;
use crate::q_bit_repr::{WALL_HORIZONTAL, WALL_VERTICAL};
use crate::word_repr::WordRepr;

verus! {

/// Cells with machine coordinates, as mathematical ones.
pub open spec fn cells(list: Seq<(usize, usize)>) -> Seq<(int, int)> {
    list.map_values(|m: (usize, usize)| (m.0 as int, m.1 as int))
}

/// Wall positions with machine coordinates, as mathematical ones.
pub open spec fn wall_positions(list: Seq<(usize, usize, usize)>) -> Seq<(int, int, int)> {
    list.map_values(|w: (usize, usize, usize)| (w.0 as int, w.1 as int, w.2 as int))
}

/// The number of cells that have not been visited.
spec fn unvisited(visited: Seq<bool>) -> nat
    decreases visited.len(),
{
    if visited.len() == 0 {
        0
    } else {
        unvisited(visited.drop_last()) + if visited.last() { 0nat } else { 1nat }
    }
}

proof fn lemma_visit(visited: Seq<bool>, i: int)
    requires
        0 <= i < visited.len(),
        !visited[i],
    ensures
        unvisited(visited.update(i, true)) + 1 == unvisited(visited),
    decreases visited.len(),
{
    let after = visited.update(i, true);
    if i == visited.len() - 1 {
        assert(after.drop_last() =~= visited.drop_last());
    } else {
        lemma_visit(visited.drop_last(), i);
        assert(after.drop_last() =~= visited.drop_last().update(i, true));
    }
}

/// A path extended by a step is a path.
proof fn lemma_linked_step(board: Board, a: (int, int), b: (int, int), direction: int)
    requires
        board.linked(a, b),
        0 <= direction < 4,
        board.passable(b, direction),
    ensures
        board.linked(a, rules::toward(b, direction)),
{
    let path = choose|path: Seq<(int, int)>| #[trigger]
        board.is_path(path) && path[0] == a && path.last() == b;
    let next = rules::toward(b, direction);
    let longer = path.push(next);
    assert(board.neighbours(b, next));
    assert forall|i: int| #![trigger longer[i]] 0 < i < longer.len() implies board.neighbours(
        longer[i - 1],
        longer[i],
    ) by {
        if i < path.len() {
            assert(path[i] == longer[i]);
            assert(path[i - 1] == longer[i - 1]);
        }
    }
    assert(board.is_path(longer));
    assert(longer[0] == a && longer.last() == next);
}

/// Whether the passable steps from a cell in the first `count` directions all
/// lead to visited cells.
spec fn explored(board: Board, visited: Seq<bool>, cell: (int, int), count: int) -> bool {
    forall|d: int| #![trigger board.passable(cell, d)]
        0 <= d < count && board.passable(cell, d) ==> {
            let t = rules::toward(cell, d);
            visited[layout::cell_index(board.size, t.0, t.1)]
        }
}

/// The state of a search for a goal row: what is visited is linked to the
/// origin; what is visited and not on the stack is off the goal row and, but for
/// the cell with index `open`, explored.
#[verifier::opaque]
spec fn searching(
    board: Board,
    origin: (int, int),
    goal: int,
    visited: Seq<bool>,
    stack: Seq<usize>,
    open: int,
) -> bool {
    &&& visited.len() == board.size * board.size
    &&& board.on_board(origin)
    &&& visited[layout::cell_index(board.size, origin.0, origin.1)]
    &&& forall|i: int| #![trigger visited[i]]
        0 <= i < visited.len() && visited[i] ==> board.linked(
            origin,
            layout::cell_of(board.size, i),
        )
    &&& forall|k: int| 0 <= k < stack.len() ==> #[trigger] stack[k] < visited.len()
        && visited[stack[k] as int]
    &&& forall|i: int| #![trigger visited[i]]
        0 <= i < visited.len() && visited[i] && i != open && !stack.contains(i as usize) ==> {
            &&& layout::cell_of(board.size, i).0 != goal
            &&& explored(board, visited, layout::cell_of(board.size, i), 4)
        }
}

proof fn lemma_search_start(board: Board, origin: (int, int), goal: int, visited: Seq<bool>, start: usize)
    requires
        board.on_board(origin),
        start == layout::cell_index(board.size, origin.0, origin.1),
        visited == Seq::new(board.size * board.size, |i: int| false).update(start as int, true),
        board.size * board.size <= usize::MAX,
    ensures
        searching(board, origin, goal, visited, seq![start], -1),
{
    reveal(searching);
    layout::lemma_cell_round_trip(board.size, origin.0, origin.1);
    let path = seq![origin];
    assert(board.is_path(path));
    assert(board.linked(origin, origin));
    assert(seq![start][0] == start);
    assert(seq![start].contains(start));
}

proof fn lemma_search_pop(
    board: Board,
    origin: (int, int),
    goal: int,
    visited: Seq<bool>,
    stack: Seq<usize>,
)
    requires
        searching(board, origin, goal, visited, stack, -1),
        stack.len() > 0,
        visited.len() <= usize::MAX,
    ensures
        searching(board, origin, goal, visited, stack.drop_last(), stack.last() as int),
        stack.last() < visited.len(),
        visited.len() == board.size * board.size,
        board.linked(origin, layout::cell_of(board.size, stack.last() as int)),
{
    reveal(searching);
    let rest = stack.drop_last();
    assert(stack[stack.len() - 1] == stack.last());
    assert(visited[stack.last() as int]);
    assert forall|k: int| 0 <= k < rest.len() implies #[trigger] rest[k] < visited.len()
        && visited[rest[k] as int] by {
        assert(stack[k] == rest[k]);
    }
    assert forall|i: int| #![trigger visited[i]]
        0 <= i < visited.len() && visited[i] && i != stack.last() && !rest.contains(
            i as usize,
        ) implies {
        &&& layout::cell_of(board.size, i).0 != goal
        &&& explored(board, visited, layout::cell_of(board.size, i), 4)
    } by {
        if stack.contains(i as usize) {
            let k = choose|k: int| 0 <= k < stack.len() && stack[k] == i as usize;
            if k < rest.len() {
                assert(rest[k] == i as usize);
            } else {
                assert(stack[k] == stack.last());
            }
        }
    }
}

proof fn lemma_search_push(
    board: Board,
    origin: (int, int),
    goal: int,
    visited: Seq<bool>,
    stack: Seq<usize>,
    open: int,
    target: usize,
)
    requires
        searching(board, origin, goal, visited, stack, open),
        target < visited.len(),
        !visited[target as int],
        board.linked(origin, layout::cell_of(board.size, target as int)),
        visited.len() <= usize::MAX,
    ensures
        searching(board, origin, goal, visited.update(target as int, true), stack.push(target), open),
{
    reveal(searching);
    let after = visited.update(target as int, true);
    let longer = stack.push(target);
    assert(longer[longer.len() - 1] == target);
    assert(longer.contains(target));
    assert forall|x: usize| stack.contains(x) implies #[trigger] longer.contains(x) by {
        let k = choose|k: int| 0 <= k < stack.len() && stack[k] == x;
        assert(longer[k] == x);
    }
    assert forall|k: int| 0 <= k < longer.len() implies #[trigger] longer[k] < after.len()
        && after[longer[k] as int] by {
        if k < stack.len() {
            assert(stack[k] == longer[k]);
        }
    }
    layout::lemma_cell_round_trip(board.size, origin.0, origin.1);
    assert forall|i: int| #![trigger after[i]]
        0 <= i < after.len() && after[i] && i != open && !longer.contains(i as usize) implies {
        &&& layout::cell_of(board.size, i).0 != goal
        &&& explored(board, after, layout::cell_of(board.size, i), 4)
    } by {
        assert(i != target);
        assert(visited[i]);
        assert(!stack.contains(i as usize));
        let cell = layout::cell_of(board.size, i);
        lemma_explored_grows(board, visited, target as int, cell, 4);
    }
}

/// Visiting another cell leaves what is explored explored.
proof fn lemma_explored_grows(
    board: Board,
    visited: Seq<bool>,
    target: int,
    cell: (int, int),
    count: int,
)
    requires
        visited.len() == board.size * board.size,
        0 <= target < visited.len(),
        count <= 4,
        explored(board, visited, cell, count),
    ensures
        explored(board, visited.update(target, true), cell, count),
{
    assert forall|d: int| #![trigger board.passable(cell, d)]
        0 <= d < count && board.passable(cell, d) implies {
        let t = rules::toward(cell, d);
        visited.update(target, true)[layout::cell_index(board.size, t.0, t.1)]
    } by {
        let t = rules::toward(cell, d);
        layout::lemma_cell_round_trip(board.size, t.0, t.1);
    }
}

proof fn lemma_search_close(
    board: Board,
    origin: (int, int),
    goal: int,
    visited: Seq<bool>,
    stack: Seq<usize>,
    open: int,
)
    requires
        searching(board, origin, goal, visited, stack, open),
        0 <= open < visited.len(),
        layout::cell_of(board.size, open).0 != goal,
        explored(board, visited, layout::cell_of(board.size, open), 4),
    ensures
        searching(board, origin, goal, visited, stack, -1),
{
    reveal(searching);
}

/// What the visited cells are closed under, no path leaves.
proof fn lemma_path_stays(
    board: Board,
    origin: (int, int),
    goal: int,
    visited: Seq<bool>,
    path: Seq<(int, int)>,
)
    requires
        searching(board, origin, goal, visited, Seq::empty(), -1),
        board.is_path(path),
        path[0] == origin,
    ensures
        board.on_board(path.last()),
        visited[layout::cell_index(board.size, path.last().0, path.last().1)],
        path.last().0 != goal,
    decreases path.len(),
{
    reveal(searching);
    if path.len() > 1 {
        let shorter = path.drop_last();
        assert forall|i: int| #![trigger shorter[i]] 0 < i < shorter.len() implies board.neighbours(
            shorter[i - 1],
            shorter[i],
        ) by {
            assert(path[i] == shorter[i]);
        }
        lemma_path_stays(board, origin, goal, visited, shorter);
        let b = shorter.last();
        assert(path[path.len() - 1] == path.last());
        assert(board.neighbours(b, path.last()));
        let d = choose|d: int| 0 <= d < 4 && #[trigger] board.passable(b, d) && path.last()
            == rules::toward(b, d);
        let i = layout::cell_index(board.size, b.0, b.1);
        layout::lemma_cell_round_trip(board.size, b.0, b.1);
        assert(visited[i]);
        assert(explored(board, visited, b, 4));
    }
    let end = path.last();
    layout::lemma_cell_round_trip(board.size, end.0, end.1);
    assert(visited[layout::cell_index(board.size, end.0, end.1)]);
}

/// The rules of the game for one board size, wall count and step limit.
#[derive(Debug)]
pub struct QGameMechanics {
    repr: WordRepr,
}

impl Clone for QGameMechanics {
    fn clone(&self) -> (copy: Self)
        ensures
            copy == *self,
    {
        proof {
            use_type_invariant(self);
        }
        QGameMechanics { repr: self.repr.clone() }
    }
}

impl View for QGameMechanics {
    type V = Layout;

    closed spec fn view(&self) -> Layout {
        self.repr@
    }
}

impl QGameMechanics {
    #[verifier::type_invariant]
    pub closed spec fn inv(self) -> bool {
        self.repr@.fits_word()
    }

    /// What a caller may rely on of all mechanics.
    pub proof fn lemma_inv(self)
        requires
            self.inv(),
        ensures
            self@.fits_word(),
    {
    }

    /// Whether the parameters give states that fit one word.
    pub fn fits(board_size: usize, max_walls: usize, max_steps: usize) -> (result: bool)
        ensures
            result == (Layout {
                board_size: board_size as nat,
                max_walls: max_walls as nat,
                max_steps: max_steps as nat,
            }).fits_word(),
    {
        WordRepr::fits(board_size, max_walls, max_steps)
    }

    /// Creates the mechanics for the given parameters.
    pub fn new(board_size: usize, max_walls: usize, max_steps: usize) -> (mechanics: Self)
        requires
            (Layout {
                board_size: board_size as nat,
                max_walls: max_walls as nat,
                max_steps: max_steps as nat,
            }).fits_word(),
        ensures
            mechanics@ == (Layout {
                board_size: board_size as nat,
                max_walls: max_walls as nat,
                max_steps: max_steps as nat,
            }),
    {
        QGameMechanics { repr: WordRepr::new(board_size, max_walls, max_steps) }
    }

    /// The accessor of the states.
    pub fn repr(&self) -> (repr: &WordRepr)
        ensures
            repr@ == self@,
    {
        &self.repr
    }

    /// The state in which a game starts: both pawns in the middle of their own
    /// row, no wall placed, player 0 to act.
    pub fn create_initial_state(&self) -> (data: u64)
        ensures
            data == self@.start_word(),
            self@.word_board(data) == self@.start_board(),
            self@.valid(data),
    {
        proof {
            use_type_invariant(self);
            self@.lemma_widths();
            self@.lemma_zero(self@.base());
            assert(self@.word_walls(0) =~= Seq::new(self@.base(), |i: int| false));
        }
        let size: usize = self.repr.board_size();
        let mut data: u64 = 0;
        self.repr.set_player_position(&mut data, 0, 0, size / 2);
        self.repr.set_player_position(&mut data, 1, size - 1, size / 2);
        self.repr.set_walls_remaining(&mut data, 0, self.repr.max_walls());
        self.repr.set_walls_remaining(&mut data, 1, self.repr.max_walls());
        proof {
            let board = self@.word_board(data);
            layout::lemma_cell_round_trip(self@.board_size, 0, size as int / 2);
            layout::lemma_cell_round_trip(self@.board_size, size - 1, size as int / 2);
            assert(board.pawns =~= self@.start_board().pawns);
            assert(board.walls_left =~= self@.start_board().walls_left);
            self@.lemma_word_shape(data);
        }
        data
    }

    /// Whether a vertical wall stands to the right of a cell.
    fn wall_right(&self, data: u64, row: usize, col: usize) -> (blocked: bool)
        requires
            row < self@.board_size,
            col < self@.board_size,
        ensures
            blocked == self@.word_board(data).wall_right(row as int, col as int),
    {
        let last: usize = self.repr.board_size() - 1;
        col < last && ((row < last && self.repr.get_wall(data, row, col, WALL_VERTICAL)) || (row > 0
            && self.repr.get_wall(data, row - 1, col, WALL_VERTICAL)))
    }

    /// Whether a horizontal wall lies below a cell.
    fn wall_below(&self, data: u64, row: usize, col: usize) -> (blocked: bool)
        requires
            row < self@.board_size,
            col < self@.board_size,
        ensures
            blocked == self@.word_board(data).wall_below(row as int, col as int),
    {
        let last: usize = self.repr.board_size() - 1;
        row < last && ((col < last && self.repr.get_wall(data, row, col, WALL_HORIZONTAL)) || (col
            > 0 && self.repr.get_wall(data, row, col - 1, WALL_HORIZONTAL)))
    }

    /// The cell that can be stepped to from a cell in direction 0 (up), 1
    /// (down), 2 (left) or 3 (right), if there is one.
    fn step(&self, data: u64, row: usize, col: usize, direction: usize) -> (target: Option<
        (usize, usize),
    >)
        requires
            row < self@.board_size,
            col < self@.board_size,
            direction < 4,
        ensures
            target is Some <==> self@.word_board(data).passable(
                (row as int, col as int),
                direction as int,
            ),
            target matches Some(t) ==> {
                &&& (t.0 as int, t.1 as int) == rules::toward(
                    (row as int, col as int),
                    direction as int,
                )
                &&& t.0 < self@.board_size
                &&& t.1 < self@.board_size
            },
    {
        let size: usize = self.repr.board_size();
        proof {
            use_type_invariant(self);
            self@.lemma_widths();
        }
        if direction == 0 {
            if row > 0 && !self.wall_below(data, row - 1, col) {
                Some((row - 1, col))
            } else {
                None
            }
        } else if direction == 1 {
            if row + 1 < size && !self.wall_below(data, row, col) {
                Some((row + 1, col))
            } else {
                None
            }
        } else if direction == 2 {
            if col > 0 && !self.wall_right(data, row, col - 1) {
                Some((row, col - 1))
            } else {
                None
            }
        } else {
            if col + 1 < size && !self.wall_right(data, row, col) {
                Some((row, col + 1))
            } else {
                None
            }
        }
    }

    /// Appends the step from a cell in a direction, if it is passable.
    fn push_step(
        &self,
        data: u64,
        row: usize,
        col: usize,
        direction: usize,
        moves: &mut Vec<(usize, usize)>,
    )
        requires
            row < self@.board_size,
            col < self@.board_size,
            direction < 4,
        ensures
            cells(final(moves)@) == cells(old(moves)@) + self@.word_board(data).step(
                (row as int, col as int),
                direction as int,
            ),
    {
        if let Some(target) = self.step(data, row, col, direction) {
            moves.push(target);
        }
        assert(cells(moves@) =~= cells(old(moves)@) + self@.word_board(data).step(
            (row as int, col as int),
            direction as int,
        ));
    }

    /// The cells that the current player can move to.
    pub fn get_valid_moves(&self, data: u64) -> (moves: Vec<(usize, usize)>)
        requires
            self@.valid(data),
        ensures
            cells(moves@) == self@.word_board(data).moves(),
    {
        let ghost board = self@.word_board(data);
        let player: usize = self.repr.get_current_player(data);
        let (row, col) = self.repr.get_player_position(data, player);
        let (other_row, other_col) = self.repr.get_player_position(data, 1 - player);
        let mut moves: Vec<(usize, usize)> = Vec::new();
        let mut direction: usize = 0;
        assert(cells(moves@) =~= board.moves_among(0));
        while direction < 4
            invariant
                direction <= 4,
                board == self@.word_board(data),
                board.player == player,
                player < 2,
                row < self@.board_size,
                col < self@.board_size,
                other_row < self@.board_size,
                other_col < self@.board_size,
                board.pawn(player as int) == (row as int, col as int),
                board.pawn(1 - player) == (other_row as int, other_col as int),
                cells(moves@) == board.moves_among(direction as nat),
            decreases 4 - direction,
        {
            let ghost before = moves@;
            match self.step(data, row, col, direction) {
                None => {},
                Some((r, c)) => {
                    if r != other_row || c != other_col {
                        moves.push((r, c));
                    } else {
                        match self.step(data, other_row, other_col, direction) {
                            Some(jump) => {
                                moves.push(jump);
                            },
                            None => {
                                let side: usize = if direction < 2 { 2 } else { 0 };
                                self.push_step(data, other_row, other_col, side, &mut moves);
                                self.push_step(data, other_row, other_col, side + 1, &mut moves);
                            },
                        }
                    }
                },
            }
            assert(cells(moves@) =~= cells(before) + board.moves_toward(direction as int));
            direction = direction + 1;
        }
        moves
    }

    /// Whether a path leads a player's pawn to their goal row.
    fn can_reach_goal(&self, data: u64, player: usize) -> (reachable: bool)
        requires
            self@.valid(data),
            player < 2,
        ensures
            reachable == self@.word_board(data).can_finish(player as int),
    {
        let ghost board = self@.word_board(data);
        let ghost n = self@.board_size;
        let size: usize = self.repr.board_size();
        let count: usize = self.repr.num_player_positions();
        let goal: usize = if player == 0 { size - 1 } else { 0 };
        let (row, col) = self.repr.get_player_position(data, player);
        let start: usize = self.repr.position_to_index(row, col);
        let ghost origin = (row as int, col as int);
        let mut visited: Vec<bool> = vec![false; count];
        assert(visited@ =~= Seq::new(n * n, |i: int| false));
        visited.set(start, true);
        let mut stack: Vec<usize> = Vec::new();
        stack.push(start);
        proof {
            lemma_search_start(board, origin, goal as int, visited@, start);
            assert(stack@ =~= seq![start]);
        }
        while stack.len() > 0
            invariant
                board == self@.word_board(data),
                n == self@.board_size,
                board.size == n,
                count == n * n,
                self@.player_positions() == n * n,
                player < 2,
                goal == board.goal_row(player as int),
                board.pawn(player as int) == origin,
                visited@.len() == count,
                searching(board, origin, goal as int, visited@, stack@, -1),
            decreases unvisited(visited@), stack@.len(),
        {
            let ghost size_before = stack@.len();
            let ghost left_before = unvisited(visited@);
            proof {
                lemma_search_pop(board, origin, goal as int, visited@, stack@);
            }
            let current: usize = stack[stack.len() - 1];
            stack.pop();
            let (r, c) = self.repr.index_to_position(current);
            let ghost cell = (r as int, c as int);
            if r == goal {
                assert(board.linked(board.pawn(player as int), cell));
                return true;
            }
            let mut direction: usize = 0;
            while direction < 4
                invariant
                    direction <= 4,
                    board == self@.word_board(data),
                    n == self@.board_size,
                    board.size == n,
                    count == n * n,
                    self@.player_positions() == n * n,
                    cell == (r as int, c as int),
                    cell == layout::cell_of(n, current as int),
                    r < n,
                    c < n,
                    visited@.len() == count,
                    board.linked(origin, cell),
                    searching(board, origin, goal as int, visited@, stack@, current as int),
                    explored(board, visited@, cell, direction as int),
                    unvisited(visited@) < left_before || (unvisited(visited@) == left_before
                        && stack@.len() < size_before),
                decreases 4 - direction,
            {
                if let Some((tr, tc)) = self.step(data, r, c, direction) {
                    let target: usize = self.repr.position_to_index(tr, tc);
                    if !visited[target] {
                        proof {
                            layout::lemma_cell_round_trip(n, tr as int, tc as int);
                            lemma_linked_step(board, origin, cell, direction as int);
                            lemma_visit(visited@, target as int);
                            lemma_search_push(
                                board,
                                origin,
                                goal as int,
                                visited@,
                                stack@,
                                current as int,
                                target,
                            );
                            lemma_explored_grows(
                                board,
                                visited@,
                                target as int,
                                cell,
                                direction as int,
                            );
                        }
                        visited.set(target, true);
                        stack.push(target);
                    }
                }
                direction = direction + 1;
            }
            proof {
                lemma_search_close(
                    board,
                    origin,
                    goal as int,
                    visited@,
                    stack@,
                    current as int,
                );
            }
        }
        proof {
            assert(stack@ =~= Seq::empty());
            if board.can_finish(player as int) {
                let end = choose|end: (int, int)| #[trigger]
                    board.linked(board.pawn(player as int), end) && end.0 == board.goal_row(
                        player as int,
                    );
                let path = choose|path: Seq<(int, int)>| #[trigger]
                    board.is_path(path) && path[0] == origin && path.last() == end;
                lemma_path_stays(board, origin, goal as int, visited@, path);
            }
        }
        false
    }

    /// Whether a wall at a position would neither overlap nor cross another.
    fn wall_has_room(&self, data: u64, row: usize, col: usize, orientation: usize) -> (room: bool)
        requires
            row < self@.board_size - 1,
            col < self@.board_size - 1,
            orientation < 2,
        ensures
            room == self@.word_board(data).wall_has_room(
                row as int,
                col as int,
                orientation as int,
            ),
    {
        proof {
            use_type_invariant(self);
            self@.lemma_widths();
        }
        let last: usize = self.repr.board_size() - 1;
        if self.repr.get_wall(data, row, col, WALL_VERTICAL) || self.repr.get_wall(
            data,
            row,
            col,
            WALL_HORIZONTAL,
        ) {
            false
        } else if orientation == WALL_VERTICAL {
            !(row > 0 && self.repr.get_wall(data, row - 1, col, WALL_VERTICAL)) && !(row + 1 < last
                && self.repr.get_wall(data, row + 1, col, WALL_VERTICAL))
        } else {
            !(col > 0 && self.repr.get_wall(data, row, col - 1, WALL_HORIZONTAL)) && !(col + 1
                < last && self.repr.get_wall(data, row, col + 1, WALL_HORIZONTAL))
        }
    }

    /// The walls that the current player may place, as row, column and
    /// orientation. Each candidate is placed for the time of its check and
    /// removed again.
    pub fn get_valid_wall_placements(&self, data: &mut u64) -> (walls: Vec<(usize, usize, usize)>)
        requires
            self@.valid(*old(data)),
        ensures
            *final(data) == *old(data),
            wall_positions(walls@) == self@.word_board(*old(data)).placements(),
    {
        let ghost board = self@.word_board(*data);
        let ghost start = *data;
        proof {
            use_type_invariant(self);
            self@.lemma_word_shape(start);
        }
        let player: usize = self.repr.get_current_player(*data);
        let has_walls: bool = self.repr.get_walls_remaining(*data, player) > 0;
        let count: usize = self.repr.num_wall_positions();
        let mut walls: Vec<(usize, usize, usize)> = Vec::new();
        let mut index: usize = 0;
        assert(wall_positions(walls@) =~= board.placements_among(0));
        while index < count
            invariant
                index <= count,
                count == self@.wall_positions(),
                self@.fits_word(),
                *data == start,
                board == self@.word_board(start),
                board.ok(),
                board.size == self@.board_size,
                board.walls.len() == count,
                has_walls == (board.walls_left[board.player as int] > 0),
                wall_positions(walls@) == board.placements_among(index as nat),
            decreases count - index,
        {
            let ghost before = walls@;
            let (row, col, orientation) = self.repr.wall_index_to_position(index);
            proof {
                layout::lemma_wall_index_round_trip(board.size, index as int);
            }
            if has_walls && self.wall_has_room(*data, row, col, orientation) {
                proof {
                    assert(!board.wall(row as int, col as int, orientation as int));
                    self@.lemma_wall_undone(start, index as int);
                    self@.lemma_word_wall(start, index as int, true);
                    self@.lemma_word_shape(self@.with_wall(start, index as int, true));
                }
                self.repr.set_wall(data, row, col, orientation, true);
                let open: bool = self.can_reach_goal(*data, 0) && self.can_reach_goal(*data, 1);
                self.repr.set_wall(data, row, col, orientation, false);
                if open {
                    walls.push((row, col, orientation));
                }
                assert(open == board.may_place(index as int));
            }
            proof {
                if board.may_place(index as int) {
                    assert(wall_positions(walls@) =~= wall_positions(before).push(
                        layout::wall_of(board.size, index as int),
                    ));
                } else {
                    assert(wall_positions(walls@) =~= wall_positions(before));
                }
            }
            index = index + 1;
        }
        walls
    }

    /// Moves a player's pawn.
    pub fn execute_move(&self, data: &mut u64, player: usize, row: usize, col: usize)
        requires
            player < 2,
            row < self@.board_size,
            col < self@.board_size,
        ensures
            *final(data) == self@.moved(*old(data), player as nat, row as int, col as int),
    {
        self.repr.set_player_position(data, player, row, col);
    }

    /// Places a wall of a player.
    pub fn execute_wall_placement(
        &self,
        data: &mut u64,
        player: usize,
        row: usize,
        col: usize,
        orientation: usize,
    )
        requires
            player < 2,
            row < self@.board_size - 1,
            col < self@.board_size - 1,
            orientation < 2,
            self@.word_board(*old(data)).walls_left[player as int] > 0,
        ensures
            *final(data) == self@.walled(
                *old(data),
                player as nat,
                row as int,
                col as int,
                orientation as int,
            ),
    {
        proof {
            use_type_invariant(self);
            self@.lemma_word_shape(*data);
        }
        let left: usize = self.repr.get_walls_remaining(*data, player);
        self.repr.set_wall(data, row, col, orientation, true);
        self.repr.set_walls_remaining(data, player, left - 1);
    }

    /// Passes the turn on and counts the step.
    pub fn switch_player(&self, data: &mut u64)
        requires
            self@.word_board(*old(data)).steps < self@.max_steps,
        ensures
            *final(data) == self@.switched(*old(data)),
    {
        proof {
            use_type_invariant(self);
        }
        let player: usize = self.repr.get_current_player(*data);
        let steps: usize = self.repr.get_completed_steps(*data);
        self.repr.set_current_player(data, 1 - player);
        self.repr.set_completed_steps(data, steps + 1);
    }

    /// Whether a player's pawn stands on their goal row.
    pub fn check_win(&self, data: u64, player: usize) -> (won: bool)
        requires
            self@.valid(data),
            player < 2,
        ensures
            won == self@.word_board(data).won(player as int),
    {
        let (row, _) = self.repr.get_player_position(data, player);
        let size: usize = self.repr.board_size();
        if player == 0 {
            row == size - 1
        } else {
            row == 0
        }
    }
}

} // verus!
