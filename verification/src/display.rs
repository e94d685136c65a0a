//! Text art of a board.
//!
//! Cell rows and wall rows alternate, starting with the cells of row 0:
//! - `1` and `2` for the pawns, `.` for empty cells;
//! - `|` for vertical walls, to the right of the cells they touch;
//! - `-` for horizontal walls, below the cells they touch.
//!
//! Steps and walls are shown on the right side of the first lines.

use vstd::prelude::*;
use crate::layout::Board;
use crate::q_bit_repr::{CompactState, QBitRepr, WALL_HORIZONTAL, WALL_VERTICAL};
use crate::text;

verus! {

impl Board {
    /// What a cell shows. The first pawn hides the second.
    pub open spec fn cell_char(self, row: int, col: int) -> char {
        if self.pawn(0) == (row, col) {
            '1'
        } else if self.pawn(1) == (row, col) {
            '2'
        } else {
            '.'
        }
    }

    /// What stands to the right of a cell.
    pub open spec fn right_char(self, row: int, col: int) -> char {
        if self.wall_right(row, col) {
            '|'
        } else {
            ' '
        }
    }

    /// What lies below a cell.
    pub open spec fn below_char(self, row: int, col: int) -> char {
        if self.wall_below(row, col) {
            '-'
        } else {
            ' '
        }
    }

    /// The first `cols` cells of a row, each but the last of the row with what
    /// stands to its right.
    pub open spec fn cell_line(self, row: int, cols: nat) -> Seq<char>
        decreases cols,
    {
        if cols == 0 {
            Seq::empty()
        } else {
            let col = cols - 1;
            let line = self.cell_line(row, col as nat).push(self.cell_char(row, col));
            if col < self.size - 1 {
                line.push(self.right_char(row, col))
            } else {
                line
            }
        }
    }

    /// What lies below the first `cols` cells of a row, with a gap after each
    /// but the last of the row.
    pub open spec fn wall_line(self, row: int, cols: nat) -> Seq<char>
        decreases cols,
    {
        if cols == 0 {
            Seq::empty()
        } else {
            let col = cols - 1;
            let line = self.wall_line(row, col as nat).push(self.below_char(row, col));
            if col < self.size - 1 {
                line.push(' ')
            } else {
                line
            }
        }
    }

    /// The remark at the right of line `k`.
    pub open spec fn remark(self, max_steps: nat, k: int) -> Seq<char> {
        if k == 0 {
            "Steps: "@ + text::decimal(self.steps)
        } else if k == 1 {
            "Current: P"@ + text::decimal(self.player + 1)
        } else if k == 2 {
            "P1 walls: "@ + text::decimal(self.walls_left[0])
        } else if k == 3 {
            "P2 walls: "@ + text::decimal(self.walls_left[1])
        } else {
            "Max steps: "@ + text::decimal(max_steps)
        }
    }

    /// Line `k`: a row of cells where `k` is even, a row of walls where it is
    /// odd; the first five lines carry a remark.
    pub open spec fn line(self, max_steps: nat, k: int) -> Seq<char> {
        let art = if k % 2 == 0 {
            self.cell_line(k / 2, self.size)
        } else {
            self.wall_line(k / 2, self.size)
        };
        if k < 5 {
            art + "  "@ + self.remark(max_steps, k) + "\n"@
        } else {
            art + "\n"@
        }
    }

    /// The first `count` lines.
    pub open spec fn lines(self, max_steps: nat, count: nat) -> Seq<char>
        decreases count,
    {
        if count == 0 {
            Seq::empty()
        } else {
            self.lines(max_steps, (count - 1) as nat) + self.line(max_steps, count - 1)
        }
    }

    /// The whole picture: one line per row of cells and one between each two.
    pub open spec fn picture(self, max_steps: nat) -> Seq<char> {
        self.lines(max_steps, (2 * self.size - 1) as nat)
    }
}

/// Appends a label and a number.
fn remark_text(label: &str, number: usize) -> (out: String)
    ensures
        out@ == label@ + text::decimal(number as nat),
{
    let mut out = String::new();
    out.append(label);
    text::push_decimal(&mut out, number);
    assert(out@ =~= label@ + text::decimal(number as nat));
    out
}

impl QBitRepr {
    /// The cells of a row, with the vertical walls between them.
    fn cell_text(&self, state: CompactState, row: usize) -> (line: String)
        requires
            row < self@.board_size,
            self@.board(state).ok(),
        ensures
            line@ == self@.board(state).cell_line(row as int, self@.board_size),
    {
        let ghost board = self@.board(state);
        let size: usize = self.board_size();
        let (p0_row, p0_col) = self.get_player_position(state, 0);
        let (p1_row, p1_col) = self.get_player_position(state, 1);
        let mut line = String::new();
        let mut col: usize = 0;
        while col < size
            invariant
                col <= size,
                size == self@.board_size,
                row < size,
                board == self@.board(state),
                board.pawn(0) == (p0_row as int, p0_col as int),
                board.pawn(1) == (p1_row as int, p1_col as int),
                line@ == board.cell_line(row as int, col as nat),
            decreases size - col,
        {
            proof {
                reveal_strlit("1");
                reveal_strlit("2");
                reveal_strlit(".");
                reveal_strlit("|");
                reveal_strlit(" ");
            }
            let ghost before = line@;
            if p0_row == row && p0_col == col {
                line.append("1");
            } else if p1_row == row && p1_col == col {
                line.append("2");
            } else {
                line.append(".");
            }
            assert(line@ =~= before.push(board.cell_char(row as int, col as int)));
            if col < size - 1 {
                let ghost cells = line@;
                if row < size - 1 && self.get_wall(state, row, col, WALL_VERTICAL) {
                    line.append("|");
                } else if row > 0 && self.get_wall(state, row - 1, col, WALL_VERTICAL) {
                    line.append("|");
                } else {
                    line.append(" ");
                }
                assert(line@ =~= cells.push(board.right_char(row as int, col as int)));
            }
            col = col + 1;
        }
        line
    }

    /// The horizontal walls below a row.
    fn wall_text(&self, state: CompactState, row: usize) -> (line: String)
        requires
            row < self@.board_size - 1,
        ensures
            line@ == self@.board(state).wall_line(row as int, self@.board_size),
    {
        let ghost board = self@.board(state);
        let size: usize = self.board_size();
        let mut line = String::new();
        let mut col: usize = 0;
        while col < size
            invariant
                col <= size,
                size == self@.board_size,
                row < size - 1,
                board == self@.board(state),
                line@ == board.wall_line(row as int, col as nat),
            decreases size - col,
        {
            proof {
                reveal_strlit("-");
                reveal_strlit(" ");
            }
            let ghost before = line@;
            if col < size - 1 && self.get_wall(state, row, col, WALL_HORIZONTAL) {
                line.append("-");
            } else if col > 0 && self.get_wall(state, row, col - 1, WALL_HORIZONTAL) {
                line.append("-");
            } else {
                line.append(" ");
            }
            assert(line@ =~= before.push(board.below_char(row as int, col as int)));
            if col < size - 1 {
                let ghost walls = line@;
                line.append(" ");
                assert(line@ =~= walls.push(' '));
            }
            col = col + 1;
        }
        line
    }

    /// The board as text art.
    pub fn display(&self, state: CompactState) -> (output: String)
        requires
            self@.board(state).pawns[0] < self@.player_positions(),
            self@.board(state).pawns[1] < self@.player_positions(),
        ensures
            output@ == self@.board(state).picture(self@.max_steps),
    {
        let ghost board = self@.board(state);
        let ghost max_steps = self@.max_steps;
        let size: usize = self.board_size();
        let current_player: usize = self.get_current_player(state);
        let mut remarks: Vec<String> = Vec::new();
        remarks.push(remark_text("Steps: ", self.get_completed_steps(state)));
        remarks.push(remark_text("Current: P", current_player + 1));
        remarks.push(remark_text("P1 walls: ", self.get_walls_remaining(state, 0)));
        remarks.push(remark_text("P2 walls: ", self.get_walls_remaining(state, 1)));
        remarks.push(remark_text("Max steps: ", self.max_steps()));

        proof {
            use_type_invariant(self);
            self.lemma_inv();
            self@.lemma_widths();
        }
        let mut output = String::new();
        let mut line_idx: usize = 0;
        let mut row: usize = 0;
        while row < size
            invariant
                row <= size,
                1 <= size <= 9,
                size == self@.board_size,
                board == self@.board(state),
                board.ok(),
                board.size == size,
                max_steps == self@.max_steps,
                line_idx == if row < size { 2 * row } else { 2 * size - 1 },
                remarks@.len() == 5,
                forall|k: int| 0 <= k < 5 ==> (#[trigger] remarks@[k])@ == board.remark(max_steps, k),
                output@ == board.lines(max_steps, line_idx as nat),
            decreases size - row,
        {
            let cells = self.cell_text(state, row);
            let ghost before = output@;
            output.append(cells.as_str());
            if line_idx < remarks.len() {
                output.append("  ");
                output.append(remarks[line_idx].as_str());
            }
            output.append("\n");
            proof {
                assert(line_idx as int / 2 == row && line_idx as int % 2 == 0);
                assert(output@ =~= before + board.line(max_steps, line_idx as int));
            }
            line_idx = line_idx + 1;
            assert(output@ =~= board.lines(max_steps, line_idx as nat));

            if row < size - 1 {
                let walls = self.wall_text(state, row);
                let ghost middle = output@;
                output.append(walls.as_str());
                if line_idx < remarks.len() {
                    output.append("  ");
                    output.append(remarks[line_idx].as_str());
                }
                output.append("\n");
                proof {
                    assert(line_idx as int / 2 == row && line_idx as int % 2 == 1);
                    assert(output@ =~= middle + board.line(max_steps, line_idx as int));
                }
                line_idx = line_idx + 1;
                assert(output@ =~= board.lines(max_steps, line_idx as nat));
            }
            row = row + 1;
        }
        output
    }
}

} // verus!
