//! Orders of the nine digits, and boards whose 3x3 blocks were filled from
//! such orders.

use vstd::prelude::*;
use crate::board::{Board, blank_board, cell, has_shape, on_board};
use crate::rules::{is_completion, is_peer, is_solved, peers_free, settles};

verus! {

/// The digits 1 to 9 in rising order.
pub open spec fn digits() -> Seq<u8> {
    Seq::new(9, |i: int| (i + 1) as u8)
}

/// `order` holds each digit from 1 to 9 once.
pub open spec fn is_digit_order(order: Seq<u8>) -> bool {
    order.to_multiset() == digits().to_multiset()
}

/// What an order of the nine digits is made of: nine entries from 1 to 9,
/// no two alike, and every digit among them.
pub proof fn lemma_digit_order(order: Seq<u8>)
    requires
        is_digit_order(order),
    ensures
        order.len() == 9,
        forall|i: int| 0 <= i < 9 ==> 1 <= #[trigger] order[i] <= 9,
        forall|i: int, j: int| 0 <= i < 9 && 0 <= j < 9 && i != j ==> order[i] != order[j],
        forall|d: u8| 1 <= d <= 9 ==> #[trigger] order.contains(d),
{
    broadcast use vstd::seq_lib::group_to_multiset_ensures;

    let ds = digits();
    assert(order.len() == order.to_multiset().len());
    assert(ds.len() == ds.to_multiset().len());
    assert forall|i: int| 0 <= i < 9 implies 1 <= #[trigger] order[i] <= 9 by {
        assert(order.contains(order[i]));
        assert(order.to_multiset().count(order[i]) > 0);
        assert(ds.contains(order[i]));
    }
    assert forall|d: u8| 1 <= d <= 9 implies #[trigger] order.contains(d) by {
        assert(ds[d - 1] == d);
        assert(ds.contains(d));
        assert(ds.to_multiset().count(d) > 0);
        assert(order.contains(d));
    }
    assert(ds.no_duplicates());
    ds.lemma_multiset_has_no_duplicates();
    order.lemma_multiset_has_no_duplicates_conv();
}

/// The digits 1 to 9 in rising order.
pub fn rising_digits() -> (numbers: Vec<u8>)
    ensures
        numbers@ == digits(),
{
    let mut numbers: Vec<u8> = Vec::new();
    let mut d: u8 = 1;
    while d <= 9
        invariant
            1 <= d <= 10,
            numbers@.len() == d - 1,
            forall|i: int| 0 <= i < d - 1 ==> numbers@[i] == (i + 1) as u8,
        decreases 10 - d,
    {
        numbers.push(d);
        d += 1;
    }
    assert(numbers@ =~= digits());
    numbers
}

/// The cell (`r`, `c`) lies in the 3x3 block whose top left cell is
/// (`row`, `col`).
pub open spec fn in_block(row: int, col: int, r: int, c: int) -> bool {
    row <= r < row + 3 && col <= c < col + 3
}

/// The board `b` with the 3x3 block at (`row`, `col`) filled row by row from
/// the first nine entries of `numbers`.
pub open spec fn with_block(b: Board, row: int, col: int, numbers: Seq<u8>) -> Board {
    Seq::new(
        9,
        |r: int|
            Seq::new(
                9,
                |c: int|
                    if in_block(row, col, r, c) {
                        numbers[(r - row) * 3 + (c - col)]
                    } else {
                        cell(b, r, c)
                    },
            ),
    )
}

/// The cells of a board with one block filled.
pub proof fn lemma_with_block(b: Board, row: int, col: int, numbers: Seq<u8>)
    ensures
        has_shape(with_block(b, row, col, numbers)),
        forall|r: int, c: int|
            on_board(r, c) ==> #[trigger] cell(with_block(b, row, col, numbers), r, c) == (if in_block(
                row,
                col,
                r,
                c,
            ) {
                numbers[(r - row) * 3 + (c - col)]
            } else {
                cell(b, r, c)
            }),
{
}

/// The board `b` with its three diagonal blocks filled from three orders.
pub open spec fn with_diagonal(b: Board, first: Seq<u8>, second: Seq<u8>, third: Seq<u8>) -> Board {
    with_block(with_block(with_block(b, 0, 0, first), 3, 3, second), 6, 6, third)
}

/// `seeded` is `b` with each diagonal block filled from some order of the
/// nine digits.
pub open spec fn is_diagonal_seed(b: Board, seeded: Board) -> bool {
    exists|first: Seq<u8>, second: Seq<u8>, third: Seq<u8>|
        #![trigger with_diagonal(b, first, second, third)]
        is_digit_order(first) && is_digit_order(second) && is_digit_order(third) && seeded
            == with_diagonal(b, first, second, third)
}

/// The cell lies in one of the three diagonal blocks.
pub open spec fn on_diagonal(r: int, c: int) -> bool {
    r / 3 == c / 3
}

/// A completion of a blank board with seeded diagonal blocks is a solved
/// board: the three blocks share no row, column or box, so the digits in
/// them cannot clash with each other.
pub proof fn lemma_seeded_completion_solved(seeded: Board, f: Board)
    requires
        is_diagonal_seed(blank_board(), seeded),
        is_completion(seeded, f),
    ensures
        is_solved(f),
{
    let (first, second, third) = choose|first: Seq<u8>, second: Seq<u8>, third: Seq<u8>|
        #![trigger with_diagonal(blank_board(), first, second, third)]
        is_digit_order(first) && is_digit_order(second) && is_digit_order(third) && seeded
            == with_diagonal(blank_board(), first, second, third);
    lemma_digit_order(first);
    lemma_digit_order(second);
    lemma_digit_order(third);
    let b0 = blank_board();
    let b1 = with_block(b0, 0, 0, first);
    let b2 = with_block(b1, 3, 3, second);
    crate::board::lemma_blank_board();
    lemma_with_block(b0, 0, 0, first);
    lemma_with_block(b1, 3, 3, second);
    lemma_with_block(b2, 6, 6, third);
    assert forall|r: int, c: int| on_board(r, c) implies #[trigger] cell(seeded, r, c)
        == seed_cell(first, second, third, r, c) by {
        assert(cell(b1, r, c) == if in_block(0, 0, r, c) {
            first[(r - 0) * 3 + (c - 0)]
        } else {
            cell(b0, r, c)
        });
        assert(cell(b2, r, c) == if in_block(3, 3, r, c) {
            second[(r - 3) * 3 + (c - 3)]
        } else {
            cell(b1, r, c)
        });
    }
    assert forall|r: int, c: int| on_board(r, c) implies 1 <= #[trigger] cell(f, r, c) <= 9
        && peers_free(f, r, c, cell(f, r, c)) by {
        assert(settles(seeded, f, 0, r, c));
        assert(cell(seeded, r, c) == seed_cell(first, second, third, r, c));
        if on_diagonal(r, c) {
            assert forall|r2: int, c2: int|
                on_board(r2, c2) && is_peer(r, c, r2, c2) implies #[trigger] cell(f, r2, c2)
                != cell(f, r, c) by {
                assert(settles(seeded, f, 0, r2, c2));
                assert(cell(seeded, r2, c2) == seed_cell(first, second, third, r2, c2));
                if on_diagonal(r2, c2) {
                    assert(r2 / 3 == r / 3 && c2 / 3 == c / 3);
                    let i = (r % 3) * 3 + (c % 3);
                    let j = (r2 % 3) * 3 + (c2 % 3);
                    assert(i != j);
                } else {
                    assert(peers_free(f, r2, c2, cell(f, r2, c2)));
                    assert(is_peer(r2, c2, r, c));
                }
            }
        }
    }
}

/// What a seeded blank board holds at one cell.
pub open spec fn seed_cell(first: Seq<u8>, second: Seq<u8>, third: Seq<u8>, r: int, c: int) -> u8 {
    if in_block(0, 0, r, c) {
        first[r * 3 + c]
    } else if in_block(3, 3, r, c) {
        second[(r - 3) * 3 + (c - 3)]
    } else if in_block(6, 6, r, c) {
        third[(r - 6) * 3 + (c - 6)]
    } else {
        0
    }
}

} // verus!
