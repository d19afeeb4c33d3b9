//! The validators that a player's grid and moves are held to.

use vstd::prelude::*;
use crate::board::{blank_board, board_of, cell, cell_at, has_shape, is_full, on_board};
use crate::rules::{agrees_with, is_peer, move_allowed};

verus! {

/// Whether every filled cell of `grid` holds what `solution` holds there.
/// Empty cells of `grid` are not held against it.
pub fn check_solution(grid: Vec<Vec<u8>>, solution: Vec<Vec<u8>>) -> (ok: bool)
    requires
        has_shape(board_of(&grid)),
        has_shape(board_of(&solution)),
    ensures
        ok == agrees_with(board_of(&grid), board_of(&solution)),
        board_of(&grid) == blank_board() ==> ok,
{
    let ghost g = board_of(&grid);
    let ghost s = board_of(&solution);
    proof {
        crate::board::lemma_blank_board();
    }
    let mut i: usize = 0;
    while i < 9
        invariant
            i <= 9,
            g == board_of(&grid),
            s == board_of(&solution),
            has_shape(g),
            has_shape(s),
            forall|r: int, c: int|
                0 <= r < i && 0 <= c < 9 && #[trigger] cell(g, r, c) != 0 ==> cell(g, r, c) == cell(
                    s,
                    r,
                    c,
                ),
        decreases 9 - i,
    {
        let mut j: usize = 0;
        while j < 9
            invariant
                j <= 9,
                i < 9,
                g == board_of(&grid),
                s == board_of(&solution),
                has_shape(g),
                has_shape(s),
                forall|r: int, c: int|
                    0 <= r < i && 0 <= c < 9 && #[trigger] cell(g, r, c) != 0 ==> cell(g, r, c)
                        == cell(s, r, c),
                forall|c: int|
                    0 <= c < j && #[trigger] cell(g, i as int, c) != 0 ==> cell(g, i as int, c)
                        == cell(s, i as int, c),
            decreases 9 - j,
        {
            let given = cell_at(&grid, i, j);
            if given != 0 && given != cell_at(&solution, i, j) {
                assert(on_board(i as int, j as int));
                return false;
            }
            j += 1;
        }
        i += 1;
    }
    true
}

/// Whether the player may write `value` to (`row`, `col`): clearing a cell
/// is always allowed; a digit is allowed where no other cell of the row,
/// column and box holds it. What the cell itself holds does not count.
pub fn is_valid_move(grid: Vec<Vec<u8>>, row: usize, col: usize, value: u8) -> (ok: bool)
    requires
        value != 0 ==> has_shape(board_of(&grid)) && row < 9 && col < 9,
    ensures
        ok == move_allowed(board_of(&grid), row as int, col as int, value),
        value == 0 ==> ok,
{
    if value == 0 {
        return true;
    }
    let ghost b = board_of(&grid);
    let mut x: usize = 0;
    while x < 9
        invariant
            x <= 9,
            row < 9,
            col < 9,
            value != 0,
            b == board_of(&grid),
            has_shape(b),
            forall|c: int| 0 <= c < x && c != col ==> #[trigger] cell(b, row as int, c) != value,
        decreases 9 - x,
    {
        if x != col && cell_at(&grid, row, x) == value {
            assert(is_peer(row as int, col as int, row as int, x as int));
            return false;
        }
        x += 1;
    }
    let mut y: usize = 0;
    while y < 9
        invariant
            y <= 9,
            row < 9,
            col < 9,
            value != 0,
            b == board_of(&grid),
            has_shape(b),
            forall|r: int| 0 <= r < y && r != row ==> #[trigger] cell(b, r, col as int) != value,
        decreases 9 - y,
    {
        if y != row && cell_at(&grid, y, col) == value {
            assert(is_peer(row as int, col as int, y as int, col as int));
            return false;
        }
        y += 1;
    }
    let start_row = row - row % 3;
    let start_col = col - col % 3;
    let mut i: usize = 0;
    while i < 3
        invariant
            i <= 3,
            row < 9,
            col < 9,
            value != 0,
            start_row == row - row % 3,
            start_col == col - col % 3,
            b == board_of(&grid),
            has_shape(b),
            forall|r: int, c: int|
                start_row <= r < start_row + i && start_col <= c < start_col + 3 && r != row && c
                    != col ==> #[trigger] cell(b, r, c) != value,
        decreases 3 - i,
    {
        let mut j: usize = 0;
        while j < 3
            invariant
                j <= 3,
                i < 3,
                row < 9,
                col < 9,
                value != 0,
                start_row == row - row % 3,
                start_col == col - col % 3,
                b == board_of(&grid),
                has_shape(b),
                forall|r: int, c: int|
                    start_row <= r < start_row + i && start_col <= c < start_col + 3 && r != row
                        && c != col ==> #[trigger] cell(b, r, c) != value,
                forall|c: int|
                    start_col <= c < start_col + j && start_row + i != row && c != col
                        ==> #[trigger] cell(b, start_row + i, c) != value,
            decreases 3 - j,
        {
            let r = i + start_row;
            let c = j + start_col;
            if r != row && c != col && cell_at(&grid, r, c) == value {
                assert(is_peer(row as int, col as int, r as int, c as int));
                return false;
            }
            j += 1;
        }
        i += 1;
    }
    assert forall|r: int, c: int|
        on_board(r, c) && is_peer(row as int, col as int, r, c) implies #[trigger] cell(b, r, c)
        != value by {
        if r == row {
        } else if c == col {
        } else {
            assert(start_row <= r < start_row + 3 && start_col <= c < start_col + 3);
        }
    }
    true
}

/// Whether no cell of `grid` is empty. Says nothing of whether the digits
/// obey the rules.
pub fn is_complete(grid: Vec<Vec<u8>>) -> (full: bool)
    requires
        has_shape(board_of(&grid)),
    ensures
        full == is_full(board_of(&grid)),
        !full <==> exists|r: int, c: int| on_board(r, c) && cell(board_of(&grid), r, c) == 0,
{
    let ghost b = board_of(&grid);
    let mut i: usize = 0;
    while i < 9
        invariant
            i <= 9,
            b == board_of(&grid),
            has_shape(b),
            forall|r: int, c: int| 0 <= r < i && 0 <= c < 9 ==> #[trigger] cell(b, r, c) != 0,
        decreases 9 - i,
    {
        let mut j: usize = 0;
        while j < 9
            invariant
                j <= 9,
                i < 9,
                b == board_of(&grid),
                has_shape(b),
                forall|r: int, c: int| 0 <= r < i && 0 <= c < 9 ==> #[trigger] cell(b, r, c) != 0,
                forall|c: int| 0 <= c < j ==> #[trigger] cell(b, i as int, c) != 0,
            decreases 9 - j,
        {
            if cell_at(&grid, i, j) == 0 {
                assert(on_board(i as int, j as int) && cell(b, i as int, j as int) == 0);
                return false;
            }
            j += 1;
        }
        i += 1;
    }
    true
}

} // verus!
