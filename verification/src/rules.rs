//! What the rules of the game say of a board: units, placements, solved
//! boards, completions, and how many completions a board has.

use vstd::prelude::*;
use crate::board::{Board, cell, has_shape, on_board};

verus! {

/// Two cells lie in one row, one column or one of the nine 3x3 boxes.
/// A cell shares all three with itself.
pub open spec fn same_unit(r1: int, c1: int, r2: int, c2: int) -> bool {
    r1 == r2 || c1 == c2 || (r1 / 3 == r2 / 3 && c1 / 3 == c2 / 3)
}

/// Two different cells that share a unit.
pub open spec fn is_peer(r1: int, c1: int, r2: int, c2: int) -> bool {
    same_unit(r1, c1, r2, c2) && !(r1 == r2 && c1 == c2)
}

/// `digit` stands nowhere in the row, column and box of (`row`, `col`), the
/// cell itself included.
pub open spec fn unit_free(b: Board, row: int, col: int, digit: u8) -> bool {
    forall|r: int, c: int|
        on_board(r, c) && same_unit(row, col, r, c) ==> #[trigger] cell(b, r, c) != digit
}

/// `digit` stands in no other cell of the row, column and box of
/// (`row`, `col`); what the cell itself holds does not count.
pub open spec fn peers_free(b: Board, row: int, col: int, digit: u8) -> bool {
    forall|r: int, c: int|
        on_board(r, c) && is_peer(row, col, r, c) ==> #[trigger] cell(b, r, c) != digit
}

/// What a move may be: clearing a cell always, a digit where no peer holds it.
pub open spec fn move_allowed(b: Board, row: int, col: int, value: u8) -> bool {
    value == 0 || peers_free(b, row, col, value)
}

/// Every filled cell of `candidate` holds what `solution` holds there.
pub open spec fn agrees_with(candidate: Board, solution: Board) -> bool {
    forall|r: int, c: int|
        on_board(r, c) && #[trigger] cell(candidate, r, c) != 0 ==> cell(candidate, r, c) == cell(
            solution,
            r,
            c,
        )
}

/// A full board of digits 1 to 9 on which every row, column and box holds
/// each digit once.
pub open spec fn is_solved(b: Board) -> bool {
    &&& has_shape(b)
    &&& forall|r: int, c: int|
        on_board(r, c) ==> 1 <= #[trigger] cell(b, r, c) <= 9 && peers_free(b, r, c, cell(b, r, c))
}

/// The place of a cell in row-major order.
pub open spec fn cell_index(r: int, c: int) -> int {
    r * 9 + c
}

/// What a completion `f` of `g` holds at one cell, where the search starts at
/// the cell with index `start`: a cell before `start`, and a filled cell of
/// `g`, is kept; any other cell gets a digit that none of its peers holds.
pub open spec fn settles(g: Board, f: Board, start: int, r: int, c: int) -> bool {
    if cell_index(r, c) < start || cell(g, r, c) != 0 {
        cell(f, r, c) == cell(g, r, c)
    } else {
        1 <= cell(f, r, c) <= 9 && peers_free(f, r, c, cell(f, r, c))
    }
}

/// `f` keeps the first `start` cells and the filled cells of `g`, and gives
/// every other cell a digit that none of its peers holds.
pub open spec fn completes_from(g: Board, f: Board, start: int) -> bool {
    &&& has_shape(f)
    &&& forall|r: int, c: int| on_board(r, c) ==> #[trigger] settles(g, f, start, r, c)
}

/// `f` is a completion of `g`: it keeps the filled cells of `g` and gives
/// every empty cell a digit that none of its peers holds.
pub open spec fn is_completion(g: Board, f: Board) -> bool {
    completes_from(g, f, 0)
}

/// Some filling of the cells from index `start` on completes `g`.
pub open spec fn has_completion_from(g: Board, start: int) -> bool {
    exists|f: Board| completes_from(g, f, start)
}

/// The board has at least one completion.
pub open spec fn has_completion(g: Board) -> bool {
    exists|f: Board| is_completion(g, f)
}

/// The board has two completions that differ.
pub open spec fn has_two_completions(g: Board) -> bool {
    exists|f1: Board, f2: Board|
        #![trigger is_completion(g, f1), is_completion(g, f2)]
        is_completion(g, f1) && is_completion(g, f2) && f1 != f2
}

/// The number of completions of the board, where 2 stands for two or more.
pub open spec fn solution_count(g: Board) -> nat {
    if has_two_completions(g) {
        2
    } else if has_completion(g) {
        1
    } else {
        0
    }
}

/// A board without an empty cell has itself as its only completion.
pub proof fn lemma_full_board_count(g: Board)
    requires
        has_shape(g),
        crate::board::is_full(g),
    ensures
        is_completion(g, g),
        forall|f: Board| is_completion(g, f) ==> f == g,
        solution_count(g) == 1,
{
    assert forall|r: int, c: int| on_board(r, c) implies #[trigger] settles(g, g, 0, r, c) by {
        assert(cell(g, r, c) != 0);
    }
    assert(is_completion(g, g));
    assert forall|f: Board| is_completion(g, f) implies f == g by {
        assert forall|r: int, c: int| on_board(r, c) implies #[trigger] cell(f, r, c) == cell(
            g,
            r,
            c,
        ) by {
            assert(settles(g, f, 0, r, c));
            assert(cell(g, r, c) != 0);
        }
        crate::board::lemma_same_cells(f, g);
    }
}

/// A solved board that agrees with the filled cells of `g` is a completion
/// of `g`.
pub proof fn lemma_solved_completes(g: Board, s: Board)
    requires
        is_solved(s),
        agrees_with(g, s),
    ensures
        is_completion(g, s),
{
    assert forall|r: int, c: int| on_board(r, c) implies #[trigger] settles(g, s, 0, r, c) by {
        assert(1 <= cell(s, r, c) <= 9);
        if cell(g, r, c) != 0 {
            assert(cell(g, r, c) == cell(s, r, c));
        }
    }
}

/// A completion is what a search from the first cell on finds.
pub proof fn lemma_completion_from_first(g: Board)
    ensures
        has_completion(g) == has_completion_from(g, 0),
{
    if has_completion(g) {
        let f = choose|f: Board| is_completion(g, f);
        assert(completes_from(g, f, 0));
    }
    if has_completion_from(g, 0) {
        let f = choose|f: Board| completes_from(g, f, 0);
        assert(is_completion(g, f));
    }
}

} // verus!
