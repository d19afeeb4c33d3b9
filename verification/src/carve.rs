//! What carving a board means: clearing cells in a given order for as long
//! as the board keeps exactly one completion, up to a quota.

use vstd::prelude::*;
use crate::board::{Board, cell, empties, has_shape, lemma_with_cell, on_board, with_cell};
use crate::rules::solution_count;
use crate::search::{lemma_empties_cleared, lemma_empties_monotone};

verus! {

/// How many cells at most are cleared for a difficulty: three steps, rising
/// with the difficulty.
pub open spec fn quota_for(difficulty: usize) -> nat {
    if difficulty <= 20 {
        30
    } else if difficulty <= 40 {
        45
    } else {
        55
    }
}

/// How many cells at most are cleared for a difficulty.
pub fn removal_quota(difficulty: usize) -> (quota: usize)
    ensures
        quota == quota_for(difficulty),
{
    if difficulty <= 20 {
        30
    } else if difficulty <= 40 {
        45
    } else {
        55
    }
}

/// A higher difficulty never has a lower quota.
pub proof fn lemma_quota_monotone(easier: usize, harder: usize)
    requires
        easier <= harder,
    ensures
        quota_for(easier) <= quota_for(harder),
{
}

/// The 81 cells in row-major order.
pub open spec fn all_cells() -> Seq<(usize, usize)> {
    Seq::new(81, |i: int| ((i / 9) as usize, (i % 9) as usize))
}

/// `order` holds each of the 81 cells once.
pub open spec fn is_cell_order(order: Seq<(usize, usize)>) -> bool {
    order.to_multiset() == all_cells().to_multiset()
}

/// Every entry of `order` names a cell of the board.
pub open spec fn cells_on_board(order: Seq<(usize, usize)>) -> bool {
    forall|i: int| 0 <= i < order.len() ==> on_board((#[trigger] order[i]).0 as int, order[i].1 as int)
}

/// An order of the 81 cells names cells of the board only.
pub proof fn lemma_cell_order(order: Seq<(usize, usize)>)
    requires
        is_cell_order(order),
    ensures
        order.len() == 81,
        cells_on_board(order),
{
    broadcast use vstd::seq_lib::group_to_multiset_ensures;

    let all = all_cells();
    assert(order.len() == order.to_multiset().len());
    assert(all.len() == all.to_multiset().len());
    assert forall|i: int| 0 <= i < order.len() implies on_board(
        (#[trigger] order[i]).0 as int,
        order[i].1 as int,
    ) by {
        assert(order.contains(order[i]));
        assert(order.to_multiset().count(order[i]) > 0);
        assert(all.contains(order[i]));
        let k = choose|k: int| 0 <= k < all.len() && all[k] == order[i];
        assert(all[k] == ((k / 9) as usize, (k % 9) as usize));
    }
}

/// The 81 cells in row-major order.
pub fn all_positions() -> (positions: Vec<(usize, usize)>)
    ensures
        positions@ == all_cells(),
{
    let mut positions: Vec<(usize, usize)> = Vec::new();
    let mut i: usize = 0;
    while i < 9
        invariant
            i <= 9,
            positions@.len() == i * 9,
            forall|k: int|
                0 <= k < i * 9 ==> positions@[k] == ((k / 9) as usize, (k % 9) as usize),
        decreases 9 - i,
    {
        let mut j: usize = 0;
        while j < 9
            invariant
                j <= 9,
                i < 9,
                positions@.len() == i * 9 + j,
                forall|k: int|
                    0 <= k < i * 9 + j ==> positions@[k] == ((k / 9) as usize, (k % 9) as usize),
            decreases 9 - j,
        {
            positions.push((i, j));
            j += 1;
        }
        i += 1;
    }
    assert(positions@ =~= all_cells());
    positions
}

/// The board after carving: the cells of `order` are taken in turn; a cell
/// is cleared where the board then has exactly one completion, and kept
/// otherwise; the carving ends with the order or when `quota` cells were
/// cleared.
pub open spec fn carved(g: Board, order: Seq<(usize, usize)>, quota: nat) -> Board
    decreases order.len(),
{
    if order.len() == 0 || quota == 0 {
        g
    } else {
        let cleared = with_cell(g, order[0].0 as int, order[0].1 as int, 0);
        if solution_count(cleared) == 1 {
            carved(cleared, order.drop_first(), (quota - 1) as nat)
        } else {
            carved(g, order.drop_first(), quota)
        }
    }
}

/// Carving only clears cells, keeps a single completion single, and clears
/// no more cells than the quota allows.
pub proof fn lemma_carved(g: Board, order: Seq<(usize, usize)>, quota: nat)
    requires
        has_shape(g),
        cells_on_board(order),
    ensures
        has_shape(carved(g, order, quota)),
        forall|r: int, c: int|
            on_board(r, c) ==> #[trigger] cell(carved(g, order, quota), r, c) == 0 || cell(
                carved(g, order, quota),
                r,
                c,
            ) == cell(g, r, c),
        solution_count(g) == 1 ==> solution_count(carved(g, order, quota)) == 1,
        empties(carved(g, order, quota)) <= empties(g) + quota,
    decreases order.len(),
{
    if order.len() == 0 || quota == 0 {
    } else {
        let row = order[0].0 as int;
        let col = order[0].1 as int;
        let rest = order.drop_first();
        assert(on_board(row, col));
        assert forall|i: int| 0 <= i < rest.len() implies on_board(
            (#[trigger] rest[i]).0 as int,
            rest[i].1 as int,
        ) by {
            assert(rest[i] == order[i + 1]);
        }
        let cleared = with_cell(g, row, col, 0);
        lemma_with_cell(g, row, col, 0);
        if solution_count(cleared) == 1 {
            let less = (quota - 1) as nat;
            lemma_carved(cleared, rest, less);
            lemma_empties_cleared(g, row, col, 81);
            assert forall|r: int, c: int| on_board(r, c) implies #[trigger] cell(
                carved(g, order, quota),
                r,
                c,
            ) == 0 || cell(carved(g, order, quota), r, c) == cell(g, r, c) by {
                if r == row && c == col {
                } else {
                    assert(cell(cleared, r, c) == cell(g, r, c));
                }
            }
        } else {
            lemma_carved(g, rest, quota);
        }
    }
}

/// With the same board and the same order, a higher quota leaves every cell
/// empty that a lower quota leaves empty, and so never fewer empty cells.
pub proof fn lemma_carved_more(g: Board, order: Seq<(usize, usize)>, lower: nat, higher: nat)
    requires
        has_shape(g),
        cells_on_board(order),
        lower <= higher,
    ensures
        forall|r: int, c: int|
            on_board(r, c) && #[trigger] cell(carved(g, order, lower), r, c) == 0 ==> cell(
                carved(g, order, higher),
                r,
                c,
            ) == 0,
        empties(carved(g, order, lower)) <= empties(carved(g, order, higher)),
    decreases order.len(),
{
    let few = carved(g, order, lower);
    let many = carved(g, order, higher);
    if order.len() == 0 {
    } else if lower == 0 {
        lemma_carved(g, order, higher);
        assert forall|r: int, c: int| on_board(r, c) && #[trigger] cell(few, r, c) == 0 implies cell(
            many,
            r,
            c,
        ) == 0 by {
            assert(cell(many, r, c) == 0 || cell(many, r, c) == cell(g, r, c));
        }
    } else {
        let row = order[0].0 as int;
        let col = order[0].1 as int;
        let rest = order.drop_first();
        assert(on_board(row, col));
        assert forall|i: int| 0 <= i < rest.len() implies on_board(
            (#[trigger] rest[i]).0 as int,
            rest[i].1 as int,
        ) by {
            assert(rest[i] == order[i + 1]);
        }
        let cleared = with_cell(g, row, col, 0);
        lemma_with_cell(g, row, col, 0);
        if solution_count(cleared) == 1 {
            lemma_carved_more(cleared, rest, (lower - 1) as nat, (higher - 1) as nat);
        } else {
            lemma_carved_more(g, rest, lower, higher);
        }
    }
    lemma_empties_monotone(few, many, 81);
}

/// With the same solved board and the same order of cells, a higher
/// difficulty never leaves fewer empty cells than a lower one.
pub proof fn lemma_harder_clears_more(
    g: Board,
    order: Seq<(usize, usize)>,
    easier: usize,
    harder: usize,
)
    requires
        has_shape(g),
        cells_on_board(order),
        easier <= harder,
    ensures
        empties(carved(g, order, quota_for(easier))) <= empties(
            carved(g, order, quota_for(harder)),
        ),
{
    lemma_quota_monotone(easier, harder);
    lemma_carved_more(g, order, quota_for(easier), quota_for(harder));
}

/// Writing back what a cleared cell held gives the board back.
pub proof fn lemma_restore(g: Board, row: int, col: int)
    requires
        has_shape(g),
        on_board(row, col),
    ensures
        with_cell(with_cell(g, row, col, 0), row, col, cell(g, row, col)) == g,
{
    let w = with_cell(g, row, col, 0);
    lemma_with_cell(g, row, col, 0);
    lemma_with_cell(w, row, col, cell(g, row, col));
    let back = with_cell(w, row, col, cell(g, row, col));
    assert forall|r: int, c: int| on_board(r, c) implies #[trigger] cell(back, r, c) == cell(
        g,
        r,
        c,
    ) by {
        if r == row && c == col {
        } else {
            assert(cell(w, r, c) == cell(g, r, c));
        }
    }
    crate::board::lemma_same_cells(back, g);
}

} // verus!
