//! What stands where in the text art of a board, character by character, and in
//! the decimal text of a number, digit by digit.

use vstd::prelude::*;
use vstd::arithmetic::power::*;
use crate::game_laws;
use crate::layout::Board;
use crate::text;

verus! {

/// What a cell has to show: 1 where the first pawn stands, else 2 where the second
/// stands, else a dot.
pub open spec fn shown(board: Board, cell: (int, int)) -> char {
    if game_laws::stands_on(board, 0) == cell {
        '1'
    } else if game_laws::stands_on(board, 1) == cell {
        '2'
    } else {
        '.'
    }
}

/// What is noted beside a line: the steps, the player to act counted from 1, the
/// walls left to each, and the greatest number of steps.
pub open spec fn noted(board: Board, max_steps: nat, line: int) -> Seq<char> {
    if line == 0 {
        "  "@ + "Steps: "@ + text::decimal(board.steps)
    } else if line == 1 {
        "  "@ + "Current: P"@ + text::decimal(board.player + 1)
    } else if line == 2 {
        "  "@ + "P1 walls: "@ + text::decimal(board.walls_left[0])
    } else if line == 3 {
        "  "@ + "P2 walls: "@ + text::decimal(board.walls_left[1])
    } else if line == 4 {
        "  "@ + "Max steps: "@ + text::decimal(max_steps)
    } else {
        Seq::empty()
    }
}

proof fn lemma_cell_line(board: Board, row: int, cols: nat)
    requires
        cols <= board.size,
    ensures
        ({
            let line = board.cell_line(row, cols);
            &&& line.len() == if cols == board.size && cols > 0 {
                2 * cols - 1
            } else {
                2 * cols as int
            }
            &&& forall|c: int| 0 <= c < cols ==> #[trigger] line[2 * c] == board.cell_char(row, c)
            &&& forall|c: int| 0 <= c < cols && c < board.size - 1 ==> #[trigger] line[2 * c + 1]
                == board.right_char(row, c)
        }),
    decreases cols,
{
    if cols > 0 {
        let before = board.cell_line(row, (cols - 1) as nat);
        lemma_cell_line(board, row, (cols - 1) as nat);
        let line = board.cell_line(row, cols);
        assert(before.len() == 2 * (cols - 1));
        assert forall|c: int| 0 <= c < cols implies #[trigger] line[2 * c] == board.cell_char(
            row,
            c,
        ) by {
            if c < cols - 1 {
                assert(line[2 * c] == before[2 * c]);
            }
        }
        assert forall|c: int| 0 <= c < cols && c < board.size - 1 implies #[trigger] line[2 * c
            + 1] == board.right_char(row, c) by {
            if c < cols - 1 {
                assert(line[2 * c + 1] == before[2 * c + 1]);
            }
        }
    }
}

proof fn lemma_wall_line(board: Board, row: int, cols: nat)
    requires
        cols <= board.size,
    ensures
        ({
            let line = board.wall_line(row, cols);
            &&& line.len() == if cols == board.size && cols > 0 {
                2 * cols - 1
            } else {
                2 * cols as int
            }
            &&& forall|c: int| 0 <= c < cols ==> #[trigger] line[2 * c] == board.below_char(row, c)
            &&& forall|c: int| 0 <= c < cols && c < board.size - 1 ==> #[trigger] line[2 * c + 1]
                == ' '
        }),
    decreases cols,
{
    if cols > 0 {
        let before = board.wall_line(row, (cols - 1) as nat);
        lemma_wall_line(board, row, (cols - 1) as nat);
        let line = board.wall_line(row, cols);
        assert(before.len() == 2 * (cols - 1));
        assert forall|c: int| 0 <= c < cols implies #[trigger] line[2 * c] == board.below_char(
            row,
            c,
        ) by {
            if c < cols - 1 {
                assert(line[2 * c] == before[2 * c]);
            }
        }
        assert forall|c: int| 0 <= c < cols && c < board.size - 1 implies #[trigger] line[2 * c
            + 1] == ' ' by {
            if c < cols - 1 {
                assert(line[2 * c + 1] == before[2 * c + 1]);
            }
        }
    }
}

/// The art of a line.
spec fn art(board: Board, k: int) -> Seq<char> {
    if k % 2 == 0 {
        board.cell_line(k / 2, board.size)
    } else {
        board.wall_line(k / 2, board.size)
    }
}

proof fn lemma_art(board: Board, k: int)
    requires
        board.size >= 1,
        k >= 0,
    ensures
        art(board, k).len() == 2 * board.size - 1,
        forall|j: int| 0 <= j < art(board, k).len() ==> #[trigger] art(board, k)[j] != '\n',
{
    lemma_cell_line(board, k / 2, board.size);
    lemma_wall_line(board, k / 2, board.size);
    let line = art(board, k);
    assert forall|j: int| 0 <= j < line.len() implies #[trigger] line[j] != '\n' by {
        let c = j / 2;
        if j % 2 == 0 {
            assert(line[2 * c] == line[j]);
        } else {
            assert(line[2 * c + 1] == line[j]);
        }
    }
}

/// No note holds a line break.
proof fn lemma_noted(board: Board, max_steps: nat, k: int)
    requires
        0 <= k,
    ensures
        forall|j: int| 0 <= j < noted(board, max_steps, k).len() ==> #[trigger] noted(
            board,
            max_steps,
            k,
        )[j] != '\n',
        k < 5 ==> noted(board, max_steps, k) == "  "@ + board.remark(max_steps, k),
{
    reveal_strlit("  ");
    reveal_strlit("Steps: ");
    reveal_strlit("Current: P");
    reveal_strlit("P1 walls: ");
    reveal_strlit("P2 walls: ");
    reveal_strlit("Max steps: ");
    text::lemma_decimal(board.steps);
    text::lemma_decimal(board.player + 1);
    text::lemma_decimal(board.walls_left[0]);
    text::lemma_decimal(board.walls_left[1]);
    text::lemma_decimal(max_steps);
    if k < 5 {
        assert(noted(board, max_steps, k) =~= "  "@ + board.remark(max_steps, k));
    }
    let number = if k == 0 {
        text::decimal(board.steps)
    } else if k == 1 {
        text::decimal(board.player + 1)
    } else if k == 2 {
        text::decimal(board.walls_left[0])
    } else if k == 3 {
        text::decimal(board.walls_left[1])
    } else {
        text::decimal(max_steps)
    };
    let note = noted(board, max_steps, k);
    assert forall|j: int| 0 <= j < note.len() implies #[trigger] note[j] != '\n' by {
        let start = note.len() - number.len();
        if j >= start {
            assert(note[j] == number[j - start]);
            assert(text::is_digit(number[j - start]));
        }
    }
}

proof fn lemma_lines_prefix(board: Board, max_steps: nat, a: nat, b: nat)
    requires
        a <= b,
    ensures
        board.lines(max_steps, a).len() <= board.lines(max_steps, b).len(),
        forall|j: int| 0 <= j < board.lines(max_steps, a).len() ==> board.lines(max_steps, b)[j]
            == #[trigger] board.lines(max_steps, a)[j],
    decreases b - a,
{
    if a < b {
        lemma_lines_prefix(board, max_steps, a, (b - 1) as nat);
        let shorter = board.lines(max_steps, (b - 1) as nat);
        assert forall|j: int| 0 <= j < board.lines(max_steps, a).len() implies board.lines(
            max_steps,
            b,
        )[j] == #[trigger] board.lines(max_steps, a)[j] by {
            assert(board.lines(max_steps, b)[j] == shorter[j]);
        }
    }
}

/// A line stands in the picture from where the lines before it end.
proof fn lemma_line_in_picture(board: Board, max_steps: nat, k: int)
    requires
        board.size >= 1,
        0 <= k < 2 * board.size - 1,
    ensures
        ({
            let whole = board.picture(max_steps);
            let start = board.lines(max_steps, k as nat).len() as int;
            let end = board.lines(max_steps, (k + 1) as nat).len() as int;
            let note = noted(board, max_steps, k);
            &&& end == start + 2 * board.size - 1 + note.len() + 1
            &&& end <= whole.len()
            &&& whole[end - 1] == '\n'
            &&& forall|j: int| start <= j < end - 1 ==> #[trigger] whole[j] != '\n'
            &&& forall|j: int| 0 <= j < 2 * board.size - 1 ==> whole[start + j] == #[trigger] art(
                board,
                k,
            )[j]
            &&& whole.subrange(start + 2 * board.size - 1, end - 1) == note
        }),
{
    let whole = board.picture(max_steps);
    let before = board.lines(max_steps, k as nat);
    let upto = board.lines(max_steps, (k + 1) as nat);
    let start = before.len() as int;
    let note = noted(board, max_steps, k);
    lemma_art(board, k);
    lemma_noted(board, max_steps, k);
    lemma_lines_prefix(board, max_steps, (k + 1) as nat, (2 * board.size - 1) as nat);
    reveal_strlit("\n");
    let line = board.line(max_steps, k);
    assert(line =~= art(board, k) + note + "\n"@);
    assert(upto == before + line);
    let width = 2 * board.size - 1;
    let end = upto.len() as int;
    assert forall|j: int| start <= j < end implies #[trigger] whole[j] == line[j - start] by {
        assert(whole[j] == upto[j]);
    }
    assert forall|j: int| 0 <= j < width implies whole[start + j] == #[trigger] art(
        board,
        k,
    )[j] by {
        assert(whole[start + j] == line[j]);
    }
    assert forall|j: int| start <= j < end - 1 implies #[trigger] whole[j] != '\n' by {
        if j - start < width {
            assert(line[j - start] == art(board, k)[j - start]);
        } else {
            assert(line[j - start] == note[j - start - width]);
        }
    }
    assert(whole.subrange(start + width, end - 1) =~= note) by {
        assert forall|j: int| 0 <= j < note.len() implies whole[start + width + j]
            == note[j] by {
            assert(line[width + j] == note[j]);
        }
    }
}

/// The text art of a board, character by character.
///
/// `starts` gives where each line starts and, last, where the text ends: a line
/// ends with a line break and holds no other. There are `2 * size - 1` lines. Cell
/// `(r, c)` is shown at column `2 * c` of line `2 * r`, and to the right of it
/// stands `|` where a vertical wall is there. Below it, at column `2 * c` of the next
/// line, stands `-` where a horizontal wall is there. All else is blank, but for
/// the notes behind the first five lines.
pub proof fn lemma_picture(board: Board, max_steps: nat) -> (starts: Seq<int>)
    requires
        board.size >= 1,
    ensures
        ({
            let whole = board.picture(max_steps);
            let size = board.size as int;
            &&& starts.len() == 2 * size
            &&& starts[0] == 0
            &&& starts[2 * size - 1] == whole.len()
            &&& forall|k: int| 0 <= k < 2 * size - 1 ==> {
                &&& whole[#[trigger] starts[k + 1] - 1] == '\n'
                &&& starts[k] + 2 * size - 1 < starts[k + 1]
                &&& whole.subrange(starts[k] + 2 * size - 1, starts[k + 1] - 1) == noted(
                    board,
                    max_steps,
                    k,
                )
            }
            &&& forall|k: int, j: int|
                #![trigger starts[k], whole[j]]
                0 <= k < 2 * size - 1 && starts[k] <= j < starts[k + 1] - 1 ==> whole[j] != '\n'
            &&& forall|r: int, c: int|
                0 <= r < size && 0 <= c < size ==> whole[#[trigger] starts[2 * r] + 2 * c]
                    == #[trigger] shown(board, (r, c))
            &&& forall|r: int, c: int|
                0 <= r < size && 0 <= c < size - 1 ==> whole[#[trigger] starts[2 * r] + 2 * c + 1]
                    == if (#[trigger] game_laws::placed(board, (r, c, 0))) || game_laws::placed(
                    board,
                    (r - 1, c, 0),
                ) {
                    '|'
                } else {
                    ' '
                }
            &&& forall|r: int, c: int|
                0 <= r < size - 1 && 0 <= c < size ==> whole[#[trigger] starts[2 * r + 1] + 2 * c]
                    == if (#[trigger] game_laws::placed(board, (r, c, 1))) || game_laws::placed(
                    board,
                    (r, c - 1, 1),
                ) {
                    '-'
                } else {
                    ' '
                }
            &&& forall|r: int, j: int|
                #![trigger starts[2 * r + 1], whole[j]]
                0 <= r < size - 1 && starts[2 * r + 1] <= j < starts[2 * r + 1] + 2 * size - 1 && (
                j - starts[2 * r + 1]) % 2 == 1 ==> whole[j] == ' '
        }),
{
    let whole = board.picture(max_steps);
    let size = board.size as int;
    let starts = Seq::new(
        (2 * size) as nat,
        |k: int| board.lines(max_steps, k as nat).len() as int,
    );
    assert(board.lines(max_steps, 0).len() == 0);
    assert forall|k: int| 0 <= k < 2 * size - 1 implies {
        &&& whole[#[trigger] starts[k + 1] - 1] == '\n'
        &&& starts[k] + 2 * size - 1 < starts[k + 1]
        &&& whole.subrange(starts[k] + 2 * size - 1, starts[k + 1] - 1) == noted(
            board,
            max_steps,
            k,
        )
    } by {
        lemma_line_in_picture(board, max_steps, k);
    }
    assert forall|k: int, j: int|
        #![trigger starts[k], whole[j]]
        0 <= k < 2 * size - 1 && starts[k] <= j < starts[k + 1] - 1 implies whole[j] != '\n' by {
        lemma_line_in_picture(board, max_steps, k);
    }
    assert forall|r: int, c: int| 0 <= r < size && 0 <= c < size implies whole[#[trigger] starts[2
        * r] + 2 * c] == #[trigger] shown(board, (r, c)) by {
        lemma_line_in_picture(board, max_steps, 2 * r);
        lemma_cell_line(board, r, board.size);
        assert((2 * r) / 2 == r);
        let line = art(board, 2 * r);
        assert(line[2 * c] == board.cell_char(r, c));
        assert(whole[starts[2 * r] + 2 * c] == line[2 * c]);
    }
    assert forall|r: int, c: int| 0 <= r < size && 0 <= c < size - 1 implies whole[
    #[trigger] starts[2 * r] + 2 * c + 1] == if (#[trigger] game_laws::placed(board, (r, c, 0)))
        || game_laws::placed(board, (r - 1, c, 0)) {
        '|'
    } else {
        ' '
    } by {
        lemma_line_in_picture(board, max_steps, 2 * r);
        lemma_cell_line(board, r, board.size);
        assert((2 * r) / 2 == r);
        let line = art(board, 2 * r);
        assert(line[2 * c + 1] == board.right_char(r, c));
        assert(whole[starts[2 * r] + (2 * c + 1)] == line[2 * c + 1]);
    }
    assert forall|r: int, c: int| 0 <= r < size - 1 && 0 <= c < size implies whole[
    #[trigger] starts[2 * r + 1] + 2 * c] == if (#[trigger] game_laws::placed(board, (r, c, 1)))
        || game_laws::placed(board, (r, c - 1, 1)) {
        '-'
    } else {
        ' '
    } by {
        lemma_line_in_picture(board, max_steps, 2 * r + 1);
        lemma_wall_line(board, r, board.size);
        assert((2 * r + 1) / 2 == r && (2 * r + 1) % 2 == 1);
        let line = art(board, 2 * r + 1);
        assert(line[2 * c] == board.below_char(r, c));
        assert(whole[starts[2 * r + 1] + 2 * c] == line[2 * c]);
    }
    assert forall|r: int, j: int|
        #![trigger starts[2 * r + 1], whole[j]]
        0 <= r < size - 1 && starts[2 * r + 1] <= j < starts[2 * r + 1] + 2 * size - 1 && (j
            - starts[2 * r + 1]) % 2 == 1 implies whole[j] == ' ' by {
        lemma_line_in_picture(board, max_steps, 2 * r + 1);
        lemma_wall_line(board, r, board.size);
        assert((2 * r + 1) / 2 == r && (2 * r + 1) % 2 == 1);
        let line = art(board, 2 * r + 1);
        let c = (j - starts[2 * r + 1]) / 2;
        assert(j == starts[2 * r + 1] + (2 * c + 1));
        assert(line[2 * c + 1] == ' ');
        assert(whole[starts[2 * r + 1] + (2 * c + 1)] == line[2 * c + 1]);
    }
    starts
}

/// The decimal text of a number, digit by digit: the character at a place is the
/// digit of the number there, and the first is no zero but in zero itself.
pub proof fn lemma_digits(n: nat, i: int)
    requires
        0 <= i < text::decimal(n).len(),
    ensures
        text::decimal(n)[i] as int == 48 + (n as int / pow(
            10,
            (text::decimal(n).len() - 1 - i) as nat,
        )) % 10,
        n > 0 ==> text::decimal(n)[0] != '0',
        n == 0 ==> text::decimal(n) == seq!['0'],
        (n as int) < pow(10, text::decimal(n).len()),
    decreases n,
{
    lemma_pow0(10);
    lemma_pow1(10);
    if n >= 10 {
        let rest = text::decimal(n / 10);
        let len = text::decimal(n).len();
        assert(rest.len() == len - 1);
        text::lemma_decimal(n / 10);
        lemma_pow_adds(10, 1, (len - 1) as nat);
        if i < rest.len() {
            lemma_digits(n / 10, i);
            let e = (rest.len() - 1 - i) as nat;
            lemma_pow_adds(10, 1, e);
            lemma_pow_positive(10, e);
            vstd::arithmetic::div_mod::lemma_div_denominator(n as int, 10, pow(10, e));
        } else {
            lemma_digits(n / 10, 0);
            assert(n as int / 1 == n);
        }
    } else {
        assert(text::decimal(n) =~= seq![text::digit_char(n)]);
        assert(n as int / 1 == n);
    }
}

} // verus!
