//! Why a search that fills one empty cell at a time finds exactly the
//! completions of a board: the lemmas behind the solver and the counter.

use vstd::prelude::*;
use crate::board::{
    Board, cell, empties, empties_before, has_shape, lemma_with_cell, on_board, with_cell,
};
use crate::rules::{
    cell_index, completes_from, has_completion, has_completion_from, has_two_completions,
    is_completion, is_peer, peers_free, same_unit, settles, solution_count, unit_free,
};

verus! {

/// Filling an empty cell with a digit that its row, column and box do not
/// hold yet keeps exactly those completions that have this digit there.
pub proof fn lemma_place(g: Board, row: int, col: int, digit: u8, start: int, f: Board)
    requires
        has_shape(g),
        on_board(row, col),
        cell(g, row, col) == 0,
        cell_index(row, col) >= start,
        1 <= digit <= 9,
        unit_free(g, row, col, digit),
    ensures
        completes_from(with_cell(g, row, col, digit), f, start) <==> completes_from(g, f, start)
            && cell(f, row, col) == digit,
{
    let w = with_cell(g, row, col, digit);
    lemma_with_cell(g, row, col, digit);
    if completes_from(w, f, start) {
        assert(settles(w, f, start, row, col));
        assert(cell(f, row, col) == digit);
        assert forall|r: int, c: int| on_board(r, c) implies #[trigger] settles(
            g,
            f,
            start,
            r,
            c,
        ) by {
            assert(settles(w, f, start, r, c));
            if r == row && c == col {
                assert forall|r2: int, c2: int|
                    on_board(r2, c2) && is_peer(row, col, r2, c2) implies #[trigger] cell(
                    f,
                    r2,
                    c2,
                ) != digit by {
                    assert(settles(w, f, start, r2, c2));
                    assert(cell(w, r2, c2) == cell(g, r2, c2));
                    assert(cell(g, r2, c2) != digit);
                    if cell_index(r2, c2) < start || cell(g, r2, c2) != 0 {
                    } else {
                        assert(peers_free(f, r2, c2, cell(f, r2, c2)));
                        assert(is_peer(r2, c2, row, col));
                        assert(cell(f, row, col) != cell(f, r2, c2));
                    }
                }
            } else {
                assert(cell(w, r, c) == cell(g, r, c));
            }
        }
    }
    if completes_from(g, f, start) && cell(f, row, col) == digit {
        assert forall|r: int, c: int| on_board(r, c) implies #[trigger] settles(
            w,
            f,
            start,
            r,
            c,
        ) by {
            assert(settles(g, f, start, r, c));
            if r == row && c == col {
            } else {
                assert(cell(w, r, c) == cell(g, r, c));
            }
        }
    }
}

/// Where the row, column or box of an empty cell holds a digit already, no
/// completion has that digit in the cell.
pub proof fn lemma_blocked(g: Board, row: int, col: int, digit: u8, start: int, f: Board)
    requires
        has_shape(g),
        on_board(row, col),
        cell(g, row, col) == 0,
        cell_index(row, col) >= start,
        digit != 0,
        !unit_free(g, row, col, digit),
        completes_from(g, f, start),
    ensures
        cell(f, row, col) != digit,
{
    let (r2, c2) = choose|r2: int, c2: int|
        on_board(r2, c2) && same_unit(row, col, r2, c2) && #[trigger] cell(g, r2, c2) == digit;
    assert(settles(g, f, start, r2, c2));
    assert(settles(g, f, start, row, col));
    assert(is_peer(row, col, r2, c2));
    if cell(f, row, col) == digit {
        assert(peers_free(f, row, col, digit));
        assert(cell(f, r2, c2) != digit);
    }
}

/// A filled cell at the start of the search can be passed over.
pub proof fn lemma_advance(g: Board, f: Board, start: int)
    requires
        0 <= start < 81,
        cell(g, start / 9, start % 9) != 0,
    ensures
        completes_from(g, f, start) == completes_from(g, f, start + 1),
{
    if completes_from(g, f, start) {
        assert forall|r: int, c: int| on_board(r, c) implies #[trigger] settles(
            g,
            f,
            start + 1,
            r,
            c,
        ) by {
            assert(settles(g, f, start, r, c));
        }
    }
    if completes_from(g, f, start + 1) {
        assert forall|r: int, c: int| on_board(r, c) implies #[trigger] settles(
            g,
            f,
            start,
            r,
            c,
        ) by {
            assert(settles(g, f, start + 1, r, c));
            if cell_index(r, c) == start {
                assert(r == start / 9 && c == start % 9);
            }
        }
    }
}

/// Filling an empty cell leaves one empty cell fewer among the first `n`
/// cells, where the cell is one of them.
pub proof fn lemma_empties_filled(g: Board, row: int, col: int, digit: u8, n: int)
    requires
        has_shape(g),
        on_board(row, col),
        cell(g, row, col) == 0,
        digit != 0,
        0 <= n <= 81,
    ensures
        empties_before(with_cell(g, row, col, digit), n) + (if cell_index(row, col) < n {
            1nat
        } else {
            0nat
        }) == empties_before(g, n),
    decreases n,
{
    let w = with_cell(g, row, col, digit);
    lemma_with_cell(g, row, col, digit);
    if n > 0 {
        lemma_empties_filled(g, row, col, digit, n - 1);
        let r = (n - 1) / 9;
        let c = (n - 1) % 9;
        assert(on_board(r, c));
        if r == row && c == col {
        } else {
            assert(cell(w, r, c) == cell(g, r, c));
        }
    }
}

/// Filling an empty cell leaves one empty cell fewer on the board.
pub proof fn lemma_fill_decreases(g: Board, row: int, col: int, digit: u8)
    requires
        has_shape(g),
        on_board(row, col),
        cell(g, row, col) == 0,
        digit != 0,
    ensures
        empties(with_cell(g, row, col, digit)) + 1 == empties(g),
{
    lemma_empties_filled(g, row, col, digit, 81);
}

/// Clearing cells never lowers the number of empty cells among the first `n`.
pub proof fn lemma_empties_monotone(a: Board, b: Board, n: int)
    requires
        0 <= n <= 81,
        forall|r: int, c: int| on_board(r, c) && #[trigger] cell(a, r, c) == 0 ==> cell(b, r, c) == 0,
    ensures
        empties_before(a, n) <= empties_before(b, n),
    decreases n,
{
    if n > 0 {
        lemma_empties_monotone(a, b, n - 1);
        let r = (n - 1) / 9;
        let c = (n - 1) % 9;
        assert(on_board(r, c));
        if cell(a, r, c) == 0 {
            assert(cell(b, r, c) == 0);
        }
    }
}

/// Clearing a cell adds one empty cell among the first `n` cells where the
/// cell is one of them and was filled, and none otherwise.
pub proof fn lemma_empties_cleared(g: Board, row: int, col: int, n: int)
    requires
        has_shape(g),
        on_board(row, col),
        0 <= n <= 81,
    ensures
        empties_before(with_cell(g, row, col, 0), n) == empties_before(g, n) + (if cell_index(
            row,
            col,
        ) < n && cell(g, row, col) != 0 {
            1nat
        } else {
            0nat
        }),
    decreases n,
{
    let w = with_cell(g, row, col, 0);
    lemma_with_cell(g, row, col, 0);
    if n > 0 {
        lemma_empties_cleared(g, row, col, n - 1);
        let r = (n - 1) / 9;
        let c = (n - 1) % 9;
        assert(on_board(r, c));
        if r == row && c == col {
        } else {
            assert(cell(w, r, c) == cell(g, r, c));
        }
    }
}

/// A completion with a digit below `bound` in the cell (`row`, `col`).
pub open spec fn completes_below(g: Board, f: Board, row: int, col: int, bound: int) -> bool {
    is_completion(g, f) && cell(f, row, col) < bound
}

/// The number of completions with a digit below `bound` in the cell
/// (`row`, `col`), where 2 stands for two or more.
pub open spec fn count_below(g: Board, row: int, col: int, bound: int) -> nat {
    if exists|f1: Board, f2: Board|
        #![trigger completes_below(g, f1, row, col, bound), completes_below(g, f2, row, col, bound)]
        completes_below(g, f1, row, col, bound) && completes_below(g, f2, row, col, bound) && f1
            != f2 {
        2
    } else if exists|f: Board| completes_below(g, f, row, col, bound) {
        1
    } else {
        0
    }
}

/// The smaller of a sum and 2.
pub open spec fn capped_sum(a: nat, b: nat) -> nat {
    if a + b >= 2 {
        2
    } else {
        a + b
    }
}

/// No completion gives an empty cell a digit below 1.
pub proof fn lemma_count_none_below_one(g: Board, row: int, col: int)
    requires
        on_board(row, col),
        cell(g, row, col) == 0,
    ensures
        count_below(g, row, col, 1) == 0,
{
    assert forall|f: Board| !completes_below(g, f, row, col, 1) by {
        if is_completion(g, f) {
            assert(settles(g, f, 0, row, col));
        }
    }
}

/// Every completion gives an empty cell a digit below 10, so counting below
/// 10 counts them all.
pub proof fn lemma_count_all_below_ten(g: Board, row: int, col: int)
    requires
        on_board(row, col),
        cell(g, row, col) == 0,
    ensures
        count_below(g, row, col, 10) == solution_count(g),
{
    assert forall|f: Board| is_completion(g, f) == completes_below(g, f, row, col, 10) by {
        if is_completion(g, f) {
            assert(settles(g, f, 0, row, col));
        }
    }
    if has_two_completions(g) {
        let (f1, f2) = choose|f1: Board, f2: Board|
            #![trigger is_completion(g, f1), is_completion(g, f2)]
            is_completion(g, f1) && is_completion(g, f2) && f1 != f2;
        assert(completes_below(g, f1, row, col, 10) && completes_below(g, f2, row, col, 10));
    } else if has_completion(g) {
        let f = choose|f: Board| is_completion(g, f);
        assert(completes_below(g, f, row, col, 10));
    }
}

/// A digit that the cell's row, column or box holds already adds no
/// completion.
pub proof fn lemma_count_skip(g: Board, row: int, col: int, digit: u8)
    requires
        has_shape(g),
        on_board(row, col),
        cell(g, row, col) == 0,
        digit != 0,
        !unit_free(g, row, col, digit),
    ensures
        count_below(g, row, col, digit + 1) == count_below(g, row, col, digit as int),
{
    let d = digit as int;
    let e = d + 1;
    assert forall|f: Board|
        #![trigger completes_below(g, f, row, col, e)]
        completes_below(g, f, row, col, e) == completes_below(g, f, row, col, d) by {
        if is_completion(g, f) {
            lemma_blocked(g, row, col, digit, 0, f);
        }
    }
    if count_below(g, row, col, d) == 2 {
        let (f1, f2) = choose|f1: Board, f2: Board|
            #![trigger completes_below(g, f1, row, col, d), completes_below(g, f2, row, col, d)]
            completes_below(g, f1, row, col, d) && completes_below(g, f2, row, col, d) && f1 != f2;
        assert(completes_below(g, f1, row, col, e) && completes_below(g, f2, row, col, e));
    } else if count_below(g, row, col, d) == 1 {
        let f = choose|f: Board| completes_below(g, f, row, col, d);
        assert(completes_below(g, f, row, col, e));
    }
}

/// A digit that may go to the cell adds the completions of the board with
/// the digit placed.
pub proof fn lemma_count_add(g: Board, row: int, col: int, digit: u8)
    requires
        has_shape(g),
        on_board(row, col),
        cell(g, row, col) == 0,
        1 <= digit <= 9,
        unit_free(g, row, col, digit),
    ensures
        count_below(g, row, col, digit + 1) == capped_sum(
            count_below(g, row, col, digit as int),
            solution_count(with_cell(g, row, col, digit)),
        ),
{
    let w = with_cell(g, row, col, digit);
    let d = digit as int;
    let e = d + 1;
    assert forall|f: Board|
        is_completion(w, f) == (is_completion(g, f) && cell(f, row, col) == digit) by {
        lemma_place(g, row, col, digit, 0, f);
    }
    assert forall|f: Board|
        #![trigger completes_below(g, f, row, col, e)]
        completes_below(g, f, row, col, e) == (completes_below(g, f, row, col, d)
            || is_completion(w, f)) by {}
    let below = count_below(g, row, col, d);
    let placed = solution_count(w);
    if below == 2 {
        let (f1, f2) = choose|f1: Board, f2: Board|
            #![trigger completes_below(g, f1, row, col, d), completes_below(g, f2, row, col, d)]
            completes_below(g, f1, row, col, d) && completes_below(g, f2, row, col, d) && f1 != f2;
        assert(completes_below(g, f1, row, col, e) && completes_below(g, f2, row, col, e));
    } else if placed == 2 {
        let (f1, f2) = choose|f1: Board, f2: Board|
            #![trigger is_completion(w, f1), is_completion(w, f2)]
            is_completion(w, f1) && is_completion(w, f2) && f1 != f2;
        assert(completes_below(g, f1, row, col, e) && completes_below(g, f2, row, col, e));
    } else if below == 1 && placed == 1 {
        let f1 = choose|f: Board| completes_below(g, f, row, col, d);
        let f2 = choose|f: Board| is_completion(w, f);
        assert(cell(f1, row, col) != cell(f2, row, col));
        assert(completes_below(g, f1, row, col, e) && completes_below(g, f2, row, col, e));
    } else if below == 1 {
        let f1 = choose|f: Board| completes_below(g, f, row, col, d);
        assert(completes_below(g, f1, row, col, e));
        if count_below(g, row, col, e) == 2 {
            let (a, b) = choose|a: Board, b: Board|
                #![trigger completes_below(g, a, row, col, e), completes_below(g, b, row, col, e)]
                completes_below(g, a, row, col, e) && completes_below(g, b, row, col, e)
                    && a != b;
            assert(!is_completion(w, a) && !is_completion(w, b));
            assert(completes_below(g, a, row, col, d) && completes_below(g, b, row, col, d));
            assert(false);
        }
    } else if placed == 1 {
        let f2 = choose|f: Board| is_completion(w, f);
        assert(completes_below(g, f2, row, col, e));
        if count_below(g, row, col, e) == 2 {
            let (a, b) = choose|a: Board, b: Board|
                #![trigger completes_below(g, a, row, col, e), completes_below(g, b, row, col, e)]
                completes_below(g, a, row, col, e) && completes_below(g, b, row, col, e)
                    && a != b;
            assert(!completes_below(g, a, row, col, d) && !completes_below(g, b, row, col, d));
            assert(is_completion(w, a) && is_completion(w, b));
            assert(false);
        }
    } else {
        assert forall|f: Board| !completes_below(g, f, row, col, e) by {
            assert(!completes_below(g, f, row, col, d));
            assert(!is_completion(w, f));
        }
    }
}

/// Two completions that differ, whatever the bound on one cell, are two
/// completions of the board.
pub proof fn lemma_count_two(g: Board, row: int, col: int, bound: int)
    requires
        count_below(g, row, col, bound) == 2,
    ensures
        solution_count(g) == 2,
{
    let (f1, f2) = choose|f1: Board, f2: Board|
        #![trigger completes_below(g, f1, row, col, bound), completes_below(g, f2, row, col, bound)]
        completes_below(g, f1, row, col, bound) && completes_below(g, f2, row, col, bound) && f1
            != f2;
    assert(is_completion(g, f1) && is_completion(g, f2));
}

/// Filling an empty cell and clearing it again gives the board back.
pub proof fn lemma_refill(g: Board, row: int, col: int, digit: u8)
    requires
        has_shape(g),
        on_board(row, col),
        cell(g, row, col) == 0,
    ensures
        with_cell(with_cell(g, row, col, digit), row, col, 0) == g,
{
    let w = with_cell(g, row, col, digit);
    lemma_with_cell(g, row, col, digit);
    lemma_with_cell(w, row, col, 0);
    let back = with_cell(w, row, col, 0);
    assert forall|r: int, c: int| on_board(r, c) implies #[trigger] cell(back, r, c) == cell(
        g,
        r,
        c,
    ) by {
        if r == row && c == col {
        } else {
            assert(cell(w, r, c) == cell(g, r, c));
        }
    }
    crate::board::lemma_same_cells(back, g);
}

/// No completion of `g` from `start` on has `digit` in the cell
/// (`row`, `col`).
pub open spec fn rules_out(g: Board, start: int, row: int, col: int, digit: u8) -> bool {
    forall|f: Board| #[trigger] completes_from(g, f, start) ==> cell(f, row, col) != digit
}

/// Once the search has passed the last cell, the board is its own and only
/// completion.
pub proof fn lemma_past_the_end(g: Board, f: Board, start: int)
    requires
        has_shape(g),
        start >= 81,
    ensures
        completes_from(g, g, start),
        completes_from(g, f, start) ==> f == g,
{
    assert forall|r: int, c: int| on_board(r, c) implies #[trigger] settles(g, g, start, r, c) by {}
    if completes_from(g, f, start) {
        assert forall|r: int, c: int| on_board(r, c) implies #[trigger] cell(f, r, c) == cell(
            g,
            r,
            c,
        ) by {
            assert(settles(g, f, start, r, c));
        }
        crate::board::lemma_same_cells(f, g);
    }
}

/// A filled cell at the start of the search changes nothing about whether a
/// completion exists.
pub proof fn lemma_advance_exists(g: Board, start: int)
    requires
        0 <= start < 81,
        cell(g, start / 9, start % 9) != 0,
    ensures
        has_completion_from(g, start) == has_completion_from(g, start + 1),
{
    if has_completion_from(g, start) {
        let f = choose|f: Board| completes_from(g, f, start);
        lemma_advance(g, f, start);
    }
    let next = start + 1;
    if has_completion_from(g, next) {
        let f = choose|f: Board| completes_from(g, f, next);
        lemma_advance(g, f, start);
    }
}

/// A digit that the row, column or box of the cell holds already is ruled
/// out.
pub proof fn lemma_rules_out_blocked(g: Board, row: int, col: int, digit: u8, start: int)
    requires
        has_shape(g),
        on_board(row, col),
        cell(g, row, col) == 0,
        cell_index(row, col) >= start,
        digit != 0,
        !unit_free(g, row, col, digit),
    ensures
        rules_out(g, start, row, col, digit),
{
    assert forall|f: Board| #[trigger] completes_from(g, f, start) implies cell(f, row, col)
        != digit by {
        lemma_blocked(g, row, col, digit, start, f);
    }
}

/// What the search below a placed digit found is a completion of the board
/// before the digit was placed.
pub proof fn lemma_found_below(g: Board, row: int, col: int, digit: u8, f: Board)
    requires
        has_shape(g),
        on_board(row, col),
        cell(g, row, col) == 0,
        1 <= digit <= 9,
        unit_free(g, row, col, digit),
        completes_from(with_cell(g, row, col, digit), f, cell_index(row, col) + 1),
    ensures
        completes_from(g, f, cell_index(row, col)),
{
    let start = cell_index(row, col);
    let w = with_cell(g, row, col, digit);
    lemma_with_cell(g, row, col, digit);
    assert(start / 9 == row && start % 9 == col);
    lemma_advance(w, f, start);
    lemma_place(g, row, col, digit, start, f);
}

/// Where the search below a placed digit finds nothing, the digit is ruled
/// out.
pub proof fn lemma_rules_out_dead_end(g: Board, row: int, col: int, digit: u8)
    requires
        has_shape(g),
        on_board(row, col),
        cell(g, row, col) == 0,
        1 <= digit <= 9,
        unit_free(g, row, col, digit),
        !has_completion_from(with_cell(g, row, col, digit), cell_index(row, col) + 1),
    ensures
        rules_out(g, cell_index(row, col), row, col, digit),
{
    let start = cell_index(row, col);
    let w = with_cell(g, row, col, digit);
    lemma_with_cell(g, row, col, digit);
    assert(start / 9 == row && start % 9 == col);
    assert forall|f: Board| #[trigger] completes_from(g, f, start) implies cell(f, row, col)
        != digit by {
        if cell(f, row, col) == digit {
            lemma_place(g, row, col, digit, start, f);
            lemma_advance(w, f, start);
            assert(completes_from(w, f, start + 1));
        }
    }
}

/// With every digit ruled out for an empty cell, the board has no
/// completion.
pub proof fn lemma_all_ruled_out(g: Board, row: int, col: int, start: int)
    requires
        on_board(row, col),
        cell(g, row, col) == 0,
        cell_index(row, col) >= start,
        forall|d: u8| 1 <= d <= 9 ==> #[trigger] rules_out(g, start, row, col, d),
    ensures
        !has_completion_from(g, start),
{
    if has_completion_from(g, start) {
        let f = choose|f: Board| completes_from(g, f, start);
        assert(settles(g, f, start, row, col));
        assert(rules_out(g, start, row, col, cell(f, row, col)));
    }
}

/// A board without an empty cell has no empty cell among its first `n`.
pub proof fn lemma_no_empties(g: Board, n: int)
    requires
        crate::board::is_full(g),
        0 <= n <= 81,
    ensures
        empties_before(g, n) == 0,
    decreases n,
{
    if n > 0 {
        lemma_no_empties(g, n - 1);
        assert(on_board((n - 1) / 9, (n - 1) % 9));
        assert(cell(g, (n - 1) / 9, (n - 1) % 9) != 0);
    }
}

} // verus!
