//! The mathematical model of a 9x9 board, and the cell accessors on the
//! nested vectors that hold one at run time.

use vstd::prelude::*;

verus! {

/// A board as contracts see it: rows of cells, `0` standing for an empty cell.
pub type Board = Seq<Seq<u8>>;

/// The board that a nested vector stands for.
pub open spec fn board_of(grid: &Vec<Vec<u8>>) -> Board {
    Seq::new(grid@.len(), |r: int| grid@[r]@)
}

/// Nine rows of nine cells each.
pub open spec fn has_shape(b: Board) -> bool {
    &&& b.len() == 9
    &&& forall|r: int| 0 <= r < 9 ==> (#[trigger] b[r]).len() == 9
}

/// A coordinate pair that lies on the board.
pub open spec fn on_board(r: int, c: int) -> bool {
    0 <= r < 9 && 0 <= c < 9
}

/// The cell at (`r`, `c`).
pub open spec fn cell(b: Board, r: int, c: int) -> u8 {
    b[r][c]
}

/// The board `b` with the cell at (`row`, `col`) holding `value`.
pub open spec fn with_cell(b: Board, row: int, col: int, value: u8) -> Board {
    b.update(row, b[row].update(col, value))
}

/// The board without a single digit on it.
pub open spec fn blank_board() -> Board {
    Seq::new(9, |r: int| Seq::new(9, |c: int| 0u8))
}

/// No cell is empty.
pub open spec fn is_full(b: Board) -> bool {
    forall|r: int, c: int| on_board(r, c) ==> #[trigger] cell(b, r, c) != 0
}

/// The number of empty cells among the first `n` cells in row-major order.
pub open spec fn empties_before(b: Board, n: int) -> nat
    decreases n,
{
    if n <= 0 {
        0
    } else {
        let rest = empties_before(b, n - 1);
        if cell(b, (n - 1) / 9, (n - 1) % 9) == 0 {
            rest + 1
        } else {
            rest
        }
    }
}

/// The number of empty cells on the board.
pub open spec fn empties(b: Board) -> nat {
    empties_before(b, 81)
}

/// Two boards of the right shape that agree on every cell are the same board.
pub proof fn lemma_same_cells(a: Board, b: Board)
    requires
        has_shape(a),
        has_shape(b),
        forall|r: int, c: int| on_board(r, c) ==> #[trigger] cell(a, r, c) == cell(b, r, c),
    ensures
        a == b,
{
    assert forall|r: int| 0 <= r < 9 implies a[r] == b[r] by {
        assert(a[r].len() == 9 && b[r].len() == 9);
        assert forall|c: int| 0 <= c < 9 implies a[r][c] == b[r][c] by {
            assert(cell(a, r, c) == cell(b, r, c));
        }
        assert(a[r] =~= b[r]);
    }
    assert(a =~= b);
}

/// What writing one cell does to the board: that cell changes, no other does.
pub proof fn lemma_with_cell(b: Board, row: int, col: int, value: u8)
    requires
        has_shape(b),
        on_board(row, col),
    ensures
        has_shape(with_cell(b, row, col, value)),
        cell(with_cell(b, row, col, value), row, col) == value,
        forall|r: int, c: int|
            on_board(r, c) && !(r == row && c == col) ==> #[trigger] cell(
                with_cell(b, row, col, value),
                r,
                c,
            ) == cell(b, r, c),
{
    let w = with_cell(b, row, col, value);
    assert(b[row].len() == 9);
    assert forall|r: int| 0 <= r < 9 implies (#[trigger] w[r]).len() == 9 by {
        assert(b[r].len() == 9);
    }
}

/// A cell of the blank board is empty.
pub proof fn lemma_blank_board()
    ensures
        has_shape(blank_board()),
        forall|r: int, c: int| on_board(r, c) ==> #[trigger] cell(blank_board(), r, c) == 0,
{
}

/// A fresh grid of nine rows of nine empty cells.
pub fn blank_grid() -> (grid: Vec<Vec<u8>>)
    ensures
        board_of(&grid) == blank_board(),
{
    let mut grid: Vec<Vec<u8>> = Vec::new();
    let mut r: usize = 0;
    while r < 9
        invariant
            r <= 9,
            grid@.len() == r,
            forall|i: int| 0 <= i < r ==> (#[trigger] grid@[i])@ == Seq::new(9, |c: int| 0u8),
        decreases 9 - r,
    {
        let mut row: Vec<u8> = Vec::new();
        let mut c: usize = 0;
        while c < 9
            invariant
                c <= 9,
                row@.len() == c,
                forall|j: int| 0 <= j < c ==> row@[j] == 0u8,
            decreases 9 - c,
        {
            row.push(0u8);
            c += 1;
        }
        assert(row@ =~= Seq::new(9, |c: int| 0u8));
        grid.push(row);
        r += 1;
    }
    assert(board_of(&grid) =~= blank_board());
    grid
}

/// A grid of its own that holds the same board.
pub fn copy_grid(grid: &Vec<Vec<u8>>) -> (copy: Vec<Vec<u8>>)
    requires
        has_shape(board_of(grid)),
    ensures
        board_of(&copy) == board_of(grid),
{
    let mut copy: Vec<Vec<u8>> = Vec::new();
    let mut r: usize = 0;
    while r < 9
        invariant
            r <= 9,
            has_shape(board_of(grid)),
            copy@.len() == r,
            forall|i: int| 0 <= i < r ==> (#[trigger] copy@[i])@ == board_of(grid)[i],
        decreases 9 - r,
    {
        let mut row: Vec<u8> = Vec::new();
        let mut c: usize = 0;
        assert(board_of(grid)[r as int].len() == 9);
        while c < 9
            invariant
                c <= 9,
                r < 9,
                grid@.len() == 9,
                grid@[r as int]@.len() == 9,
                row@.len() == c,
                forall|j: int| 0 <= j < c ==> row@[j] == grid@[r as int]@[j],
            decreases 9 - c,
        {
            row.push(grid[r][c]);
            c += 1;
        }
        assert(row@ =~= board_of(grid)[r as int]);
        copy.push(row);
        r += 1;
    }
    assert(board_of(&copy) =~= board_of(grid));
    copy
}

/// Reads one cell.
pub fn cell_at(grid: &Vec<Vec<u8>>, row: usize, col: usize) -> (value: u8)
    requires
        has_shape(board_of(grid)),
        row < 9,
        col < 9,
    ensures
        value == cell(board_of(grid), row as int, col as int),
{
    assert(board_of(grid)[row as int].len() == 9);
    grid[row][col]
}

/// Writes one cell and leaves every other cell as it was.
pub fn set_cell(grid: &mut Vec<Vec<u8>>, row: usize, col: usize, value: u8)
    requires
        has_shape(board_of(old(grid))),
        row < 9,
        col < 9,
    ensures
        board_of(final(grid)) == with_cell(board_of(old(grid)), row as int, col as int, value),
        has_shape(board_of(final(grid))),
{
    assert(board_of(grid)[row as int].len() == 9);
    grid[row][col] = value;
    assert(board_of(grid) =~~= with_cell(board_of(old(grid)), row as int, col as int, value));
    proof {
        lemma_with_cell(board_of(old(grid)), row as int, col as int, value);
    }
}

/// Whether the nested vector has nine rows of nine cells.
pub fn is_nine_by_nine(grid: &Vec<Vec<u8>>) -> (ok: bool)
    ensures
        ok == has_shape(board_of(grid)),
{
    if grid.len() != 9 {
        return false;
    }
    let mut r: usize = 0;
    while r < 9
        invariant
            r <= 9,
            grid@.len() == 9,
            forall|i: int| 0 <= i < r ==> (#[trigger] board_of(grid)[i]).len() == 9,
        decreases 9 - r,
    {
        if grid[r].len() != 9 {
            assert(board_of(grid)[r as int].len() != 9);
            return false;
        }
        r += 1;
    }
    true
}

} // verus!
