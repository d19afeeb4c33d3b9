//! The puzzle type with its placement test, its solution counter, its
//! solver and its carver.

use vstd::prelude::*;
use crate::board::{
    Board, blank_board, blank_grid, board_of, cell, cell_at, copy_grid, empties, has_shape,
    is_full, lemma_same_cells, lemma_with_cell, on_board, set_cell, with_cell,
};
use crate::carve::{
    all_positions, carved, cells_on_board, is_cell_order, lemma_carved, lemma_cell_order,
    lemma_restore, quota_for, removal_quota,
};
use crate::random::shuffle;
use crate::rules::{
    agrees_with, cell_index, completes_from, has_completion, has_completion_from, is_completion,
    is_solved, lemma_completion_from_first, lemma_full_board_count, lemma_solved_completes,
    same_unit, solution_count, unit_free,
};
use crate::search::{
    count_below, lemma_advance, lemma_advance_exists, lemma_all_ruled_out, lemma_count_add,
    lemma_count_all_below_ten, lemma_count_none_below_one, lemma_count_skip, lemma_count_two,
    lemma_fill_decreases, lemma_found_below, lemma_no_empties, lemma_past_the_end, lemma_refill,
    lemma_rules_out_blocked, lemma_rules_out_dead_end, rules_out,
};
use crate::seed::{
    is_diagonal_seed, is_digit_order, lemma_digit_order, lemma_seeded_completion_solved,
    lemma_with_block, rising_digits, with_block, with_diagonal,
};

verus! {

/// A puzzle: the cells shown to the player, the solution they lead to, and
/// the difficulty the puzzle was asked for.
#[derive(Debug, Clone)]
pub struct SudokuGrid {
    cells: Vec<Vec<u8>>,
    solution: Vec<Vec<u8>>,
    difficulty: usize,
}

/// Why no puzzle could be made.
#[derive(Debug, Clone, Copy, PartialEq, Eq, Structural)]
pub enum GenerationError {
    /// The random filling of the diagonal blocks had no completion.
    NoCompletion,
}

/// Makes a puzzle of the given difficulty with exactly one solution.
pub fn generate_sudoku(difficulty: usize) -> (outcome: Result<SudokuGrid, GenerationError>)
    ensures
        outcome matches Ok(grid) ==> grid.is_puzzle() && grid.level() == difficulty,
        outcome matches Err(error) ==> error == GenerationError::NoCompletion,
        exists|seeded: Board|
            {
                &&& #[trigger] is_diagonal_seed(blank_board(), seeded)
                &&& outcome is Ok <==> has_completion(seeded)
                &&& outcome matches Ok(grid) ==> is_completion(seeded, grid.solution_board())
            },
{
    let mut grid = SudokuGrid::new(difficulty);
    match grid.generate() {
        Ok(()) => Ok(grid),
        Err(error) => Err(error),
    }
}

impl SudokuGrid {
    /// The board of the cells shown to the player.
    pub closed spec fn cells_board(&self) -> Board {
        board_of(&self.cells)
    }

    /// The board of the stored solution.
    pub closed spec fn solution_board(&self) -> Board {
        board_of(&self.solution)
    }

    /// The difficulty the puzzle was made with.
    pub closed spec fn level(&self) -> usize {
        self.difficulty
    }

    /// Both boards have nine rows of nine cells.
    pub open spec fn well_formed(&self) -> bool {
        has_shape(self.cells_board()) && has_shape(self.solution_board())
    }

    /// The cells are what carving the solution leaves, for some order of the
    /// 81 cells and the quota of the difficulty.
    pub open spec fn is_carved(&self) -> bool {
        exists|order: Seq<(usize, usize)>|
            is_cell_order(order) && self.cells_board() == #[trigger] carved(
                self.solution_board(),
                order,
                quota_for(self.level()),
            )
    }

    /// A finished puzzle: the solution is a solved board, the cells were
    /// carved from it, it is the one and only completion of the cells, and
    /// no more cells are empty than the difficulty allows.
    pub open spec fn is_puzzle(&self) -> bool {
        &&& self.well_formed()
        &&& is_solved(self.solution_board())
        &&& self.is_carved()
        &&& agrees_with(self.cells_board(), self.solution_board())
        &&& is_completion(self.cells_board(), self.solution_board())
        &&& solution_count(self.cells_board()) == 1
        &&& empties(self.cells_board()) <= quota_for(self.level())
    }

    /// A puzzle with nothing on either board yet.
    pub fn new(difficulty: usize) -> (grid: Self)
        ensures
            grid.cells_board() == blank_board(),
            grid.solution_board() == blank_board(),
            grid.level() == difficulty,
            grid.well_formed(),
    {
        let cells = blank_grid();
        let solution = blank_grid();
        proof {
            crate::board::lemma_blank_board();
        }
        Self { cells, solution, difficulty }
    }

    /// A puzzle made of the given parts, taken as they are.
    pub fn from_parts(
        cells: Vec<Vec<u8>>,
        solution: Vec<Vec<u8>>,
        difficulty: usize,
    ) -> (grid: Self)
        ensures
            grid.cells_board() == board_of(&cells),
            grid.solution_board() == board_of(&solution),
            grid.level() == difficulty,
    {
        Self { cells, solution, difficulty }
    }

    /// The cells shown to the player.
    pub fn cells(&self) -> (cells: &Vec<Vec<u8>>)
        ensures
            board_of(cells) == self.cells_board(),
    {
        &self.cells
    }

    /// The stored solution.
    pub fn solution(&self) -> (solution: &Vec<Vec<u8>>)
        ensures
            board_of(solution) == self.solution_board(),
    {
        &self.solution
    }

    /// The difficulty the puzzle was made with.
    pub fn difficulty(&self) -> (difficulty: usize)
        ensures
            difficulty == self.level(),
    {
        self.difficulty
    }

    /// Whether `num` may go to (`row`, `col`) of this puzzle's cells: true
    /// where the digit stands nowhere in the cell's row, column and box.
    pub fn is_safe(&self, row: usize, col: usize, num: u8) -> (safe: bool)
        requires
            has_shape(self.cells_board()),
            row < 9,
            col < 9,
        ensures
            safe == unit_free(self.cells_board(), row as int, col as int, num),
    {
        self.is_valid_placement(&self.cells, row, col, num)
    }

    /// Whether `num` may go to (`row`, `col`) of `grid`: true where the digit
    /// stands nowhere in the cell's row, column and box.
    pub fn is_valid_placement(
        &self,
        grid: &Vec<Vec<u8>>,
        row: usize,
        col: usize,
        num: u8,
    ) -> (ok: bool)
        requires
            has_shape(board_of(grid)),
            row < 9,
            col < 9,
        ensures
            ok == unit_free(board_of(grid), row as int, col as int, num),
    {
        let ghost b = board_of(grid);
        let mut x: usize = 0;
        while x < 9
            invariant
                x <= 9,
                row < 9,
                col < 9,
                b == board_of(grid),
                has_shape(b),
                forall|c: int| 0 <= c < x ==> #[trigger] cell(b, row as int, c) != num,
            decreases 9 - x,
        {
            if cell_at(grid, row, x) == num {
                assert(same_unit(row as int, col as int, row as int, x as int));
                return false;
            }
            x += 1;
        }
        let mut y: usize = 0;
        while y < 9
            invariant
                y <= 9,
                row < 9,
                col < 9,
                b == board_of(grid),
                has_shape(b),
                forall|r: int| 0 <= r < y ==> #[trigger] cell(b, r, col as int) != num,
            decreases 9 - y,
        {
            if cell_at(grid, y, col) == num {
                assert(same_unit(row as int, col as int, y as int, col as int));
                return false;
            }
            y += 1;
        }
        let start_row = row - row % 3;
        let start_col = col - col % 3;
        let mut i: usize = 0;
        while i < 3
            invariant
                i <= 3,
                row < 9,
                col < 9,
                start_row == row - row % 3,
                start_col == col - col % 3,
                b == board_of(grid),
                has_shape(b),
                forall|r: int, c: int|
                    start_row <= r < start_row + i && start_col <= c < start_col + 3
                        ==> #[trigger] cell(b, r, c) != num,
            decreases 3 - i,
        {
            let mut j: usize = 0;
            while j < 3
                invariant
                    j <= 3,
                    i < 3,
                    row < 9,
                    col < 9,
                    start_row == row - row % 3,
                    start_col == col - col % 3,
                    b == board_of(grid),
                    has_shape(b),
                    forall|r: int, c: int|
                        start_row <= r < start_row + i && start_col <= c < start_col + 3
                            ==> #[trigger] cell(b, r, c) != num,
                    forall|c: int|
                        start_col <= c < start_col + j ==> #[trigger] cell(
                            b,
                            start_row + i,
                            c,
                        ) != num,
                decreases 3 - j,
            {
                if cell_at(grid, i + start_row, j + start_col) == num {
                    assert(same_unit(
                        row as int,
                        col as int,
                        (i + start_row) as int,
                        (j + start_col) as int,
                    ));
                    return false;
                }
                j += 1;
            }
            i += 1;
        }
        assert forall|r: int, c: int|
            on_board(r, c) && same_unit(row as int, col as int, r, c) implies #[trigger] cell(
            b,
            r,
            c,
        ) != num by {
            if r == row {
            } else if c == col {
            } else {
                assert(start_row <= r < start_row + 3 && start_col <= c < start_col + 3);
            }
        }
        true
    }

    /// Makes a puzzle with exactly one solution: a fresh board is filled at
    /// random, kept as the solution, and carved. Fails where the random
    /// filling of the diagonal blocks has no completion, and only there; the
    /// puzzle is then left as it was.
    pub fn generate(&mut self) -> (outcome: Result<(), GenerationError>)
        ensures
            final(self).level() == old(self).level(),
            outcome is Ok ==> final(self).is_puzzle(),
            outcome is Err ==> final(self).cells_board() == old(self).cells_board(),
            outcome is Err ==> final(self).solution_board() == old(self).solution_board(),
            exists|seeded: Board|
                {
                    &&& #[trigger] is_diagonal_seed(blank_board(), seeded)
                    &&& outcome is Ok <==> has_completion(seeded)
                    &&& outcome is Ok ==> is_completion(seeded, final(self).solution_board())
                },
    {
        let mut fresh = SudokuGrid::new(self.difficulty);
        if !fresh.solve_empty() {
            return Err(GenerationError::NoCompletion);
        }
        let ghost solved = fresh.cells_board();
        fresh.solution = copy_grid(&fresh.cells);
        fresh.remove_cells_unique();
        proof {
            let order = choose|order: Seq<(usize, usize)>|
                is_cell_order(order) && fresh.cells_board() == #[trigger] carved(
                    solved,
                    order,
                    quota_for(fresh.level()),
                );
            lemma_cell_order(order);
            lemma_carved(solved, order, quota_for(fresh.level()));
            assert(is_full(solved));
            lemma_full_board_count(solved);
            lemma_no_empties(solved, 81);
            lemma_solved_completes(fresh.cells_board(), solved);
        }
        self.cells = fresh.cells;
        self.solution = fresh.solution;
        Ok(())
    }

    /// Fills the cells with a solved board: the three diagonal blocks get
    /// the nine digits in random orders, then the search fills the rest.
    /// Returns whether it could; it cannot where the seeded blocks clash
    /// with what the cells held or admit no completion.
    pub fn solve_empty(&mut self) -> (solved: bool)
        requires
            has_shape(old(self).cells_board()),
        ensures
            exists|seeded: Board|
                {
                    &&& #[trigger] is_diagonal_seed(old(self).cells_board(), seeded)
                    &&& solved == has_completion(seeded)
                    &&& solved ==> is_completion(seeded, final(self).cells_board())
                    &&& !solved ==> final(self).cells_board() == seeded
                },
            solved && old(self).cells_board() == blank_board() ==> is_solved(
                final(self).cells_board(),
            ),
            has_shape(final(self).cells_board()),
            final(self).solution_board() == old(self).solution_board(),
            final(self).level() == old(self).level(),
    {
        let ghost g = self.cells_board();
        self.fill_box(0, 0);
        let ghost g1 = self.cells_board();
        proof {
            let first = choose|order: Seq<u8>|
                is_digit_order(order) && g1 == #[trigger] with_block(g, 0, 0, order);
            lemma_with_block(g, 0, 0, first);
        }
        self.fill_box(3, 3);
        let ghost g2 = self.cells_board();
        proof {
            let second = choose|order: Seq<u8>|
                is_digit_order(order) && g2 == #[trigger] with_block(g1, 3, 3, order);
            lemma_with_block(g1, 3, 3, second);
        }
        self.fill_box(6, 6);
        let ghost seeded = self.cells_board();
        proof {
            let first = choose|order: Seq<u8>|
                is_digit_order(order) && g1 == #[trigger] with_block(g, 0, 0, order);
            let second = choose|order: Seq<u8>|
                is_digit_order(order) && g2 == #[trigger] with_block(g1, 3, 3, order);
            let third = choose|order: Seq<u8>|
                is_digit_order(order) && seeded == #[trigger] with_block(g2, 6, 6, order);
            lemma_with_block(g2, 6, 6, third);
            assert(seeded == with_diagonal(g, first, second, third));
            assert(is_diagonal_seed(g, seeded));
        }
        let solved = self.solve_grid(0, 0);
        proof {
            lemma_completion_from_first(seeded);
            if solved {
                if g == blank_board() {
                    lemma_seeded_completion_solved(seeded, self.cells_board());
                }
            }
        }
        solved
    }

    /// Clears cells in a random order of the 81 cells, each only where the
    /// cells keep exactly one completion, up to the quota of the difficulty.
    pub fn remove_cells_unique(&mut self)
        requires
            has_shape(old(self).cells_board()),
        ensures
            exists|order: Seq<(usize, usize)>|
                is_cell_order(order) && final(self).cells_board() == #[trigger] carved(
                    old(self).cells_board(),
                    order,
                    quota_for(old(self).level()),
                ),
            final(self).solution_board() == old(self).solution_board(),
            final(self).level() == old(self).level(),
    {
        let mut positions = all_positions();
        shuffle(&mut positions);
        proof {
            lemma_cell_order(positions@);
        }
        let max_cells_to_remove = removal_quota(self.difficulty);
        self.remove_cells_in_order(&positions, max_cells_to_remove);
    }

    /// Takes the cells of `positions` in turn and clears each where the
    /// cells then have exactly one completion; a cell that fails this is
    /// written back and not tried again. Ends with the positions or when
    /// `quota` cells were cleared.
    pub fn remove_cells_in_order(&mut self, positions: &Vec<(usize, usize)>, quota: usize)
        requires
            has_shape(old(self).cells_board()),
            cells_on_board(positions@),
        ensures
            final(self).cells_board() == carved(old(self).cells_board(), positions@, quota as nat),
            final(self).solution_board() == old(self).solution_board(),
            final(self).level() == old(self).level(),
    {
        let ghost start = self.cells_board();
        let mut cells_removed: usize = 0;
        let mut i: usize = 0;
        assert(positions@.skip(0) =~= positions@);
        while i < positions.len() && cells_removed < quota
            invariant
                i <= positions@.len(),
                cells_removed <= quota,
                cells_on_board(positions@),
                has_shape(self.cells_board()),
                carved(start, positions@, quota as nat) == carved(
                    self.cells_board(),
                    positions@.skip(i as int),
                    (quota - cells_removed) as nat,
                ),
                self.solution_board() == old(self).solution_board(),
                self.level() == old(self).level(),
            decreases positions@.len() - i,
        {
            let ghost before = self.cells_board();
            let ghost rest = positions@.skip(i as int);
            assert(rest[0] == positions@[i as int]);
            assert(rest.drop_first() =~= positions@.skip(i + 1));
            let (row, col) = positions[i];
            let temp = cell_at(&self.cells, row, col);
            set_cell(&mut self.cells, row, col, 0);
            let solutions_count = self.count_solutions();
            if solutions_count != 1 {
                set_cell(&mut self.cells, row, col, temp);
                proof {
                    lemma_restore(before, row as int, col as int);
                }
            } else {
                cells_removed += 1;
            }
            i += 1;
        }
    }

    /// Fills the 3x3 block whose top left cell is (`row`, `col`) with the
    /// digits 1 to 9 in a random order.
    pub fn fill_box(&mut self, row: usize, col: usize)
        requires
            has_shape(old(self).cells_board()),
            row <= 6,
            col <= 6,
        ensures
            exists|order: Seq<u8>|
                is_digit_order(order) && final(self).cells_board() == #[trigger] with_block(
                    old(self).cells_board(),
                    row as int,
                    col as int,
                    order,
                ),
            final(self).solution_board() == old(self).solution_board(),
            final(self).level() == old(self).level(),
    {
        let mut numbers = rising_digits();
        shuffle(&mut numbers);
        proof {
            lemma_digit_order(numbers@);
        }
        self.fill_box_with(row, col, &numbers);
    }

    /// Fills the 3x3 block whose top left cell is (`row`, `col`) row by row
    /// from the first nine entries of `numbers`.
    pub fn fill_box_with(&mut self, row: usize, col: usize, numbers: &Vec<u8>)
        requires
            has_shape(old(self).cells_board()),
            row <= 6,
            col <= 6,
            numbers@.len() >= 9,
        ensures
            final(self).cells_board() == with_block(
                old(self).cells_board(),
                row as int,
                col as int,
                numbers@,
            ),
            final(self).solution_board() == old(self).solution_board(),
            final(self).level() == old(self).level(),
    {
        let ghost g = self.cells_board();
        let mut index: usize = 0;
        let mut i: usize = 0;
        while i < 3
            invariant
                i <= 3,
                index == i * 3,
                row <= 6,
                col <= 6,
                numbers@.len() >= 9,
                has_shape(g),
                has_shape(self.cells_board()),
                self.solution_board() == old(self).solution_board(),
                self.level() == old(self).level(),
                forall|r: int, c: int|
                    on_board(r, c) ==> #[trigger] cell(self.cells_board(), r, c) == (if row <= r
                        < row + i && col <= c < col + 3 {
                        numbers@[(r - row) * 3 + (c - col)]
                    } else {
                        cell(g, r, c)
                    }),
            decreases 3 - i,
        {
            let mut j: usize = 0;
            while j < 3
                invariant
                    j <= 3,
                    i < 3,
                    index == i * 3 + j,
                    row <= 6,
                    col <= 6,
                    numbers@.len() >= 9,
                    has_shape(g),
                    has_shape(self.cells_board()),
                    self.solution_board() == old(self).solution_board(),
                    self.level() == old(self).level(),
                    forall|r: int, c: int|
                        on_board(r, c) ==> #[trigger] cell(self.cells_board(), r, c) == (if (row
                            <= r < row + i && col <= c < col + 3) || (r == row + i && col <= c
                            < col + j) {
                            numbers@[(r - row) * 3 + (c - col)]
                        } else {
                            cell(g, r, c)
                        }),
                decreases 3 - j,
            {
                let ghost before = self.cells_board();
                set_cell(&mut self.cells, row + i, col + j, numbers[index]);
                proof {
                    lemma_with_cell(
                        before,
                        (row + i) as int,
                        (col + j) as int,
                        numbers@[index as int],
                    );
                }
                index += 1;
                j += 1;
            }
            i += 1;
        }
        proof {
            lemma_with_block(g, row as int, col as int, numbers@);
            lemma_same_cells(
                self.cells_board(),
                with_block(g, row as int, col as int, numbers@),
            );
        }
    }

    /// Fills the empty cells from (`row`, `col`) on in row-major order, each
    /// with a digit that none of its peers holds, trying the digits of each
    /// cell in a random order and going back where a cell has none left.
    /// Returns whether the board could be filled; where it could not, the
    /// cells are left as they were.
    pub fn solve_grid(&mut self, row: usize, col: usize) -> (solved: bool)
        requires
            has_shape(old(self).cells_board()),
            row <= 9,
            col < 9,
        ensures
            solved ==> completes_from(
                old(self).cells_board(),
                final(self).cells_board(),
                cell_index(row as int, col as int),
            ),
            !solved ==> final(self).cells_board() == old(self).cells_board(),
            solved == has_completion_from(
                old(self).cells_board(),
                cell_index(row as int, col as int),
            ),
            final(self).solution_board() == old(self).solution_board(),
            final(self).level() == old(self).level(),
        decreases 81 - cell_index(row as int, col as int),
    {
        let ghost g = self.cells_board();
        let ghost start = cell_index(row as int, col as int);
        if row == 9 {
            proof {
                lemma_past_the_end(g, g, start);
            }
            return true;
        }
        let (next_row, next_col) = if col == 8 {
            (row + 1, 0)
        } else {
            (row, col + 1)
        };
        assert(start / 9 == row && start % 9 == col);
        if cell_at(&self.cells, row, col) != 0 {
            let solved = self.solve_grid(next_row, next_col);
            proof {
                lemma_advance_exists(g, start);
                lemma_advance(g, self.cells_board(), start);
            }
            return solved;
        }
        let mut numbers = rising_digits();
        shuffle(&mut numbers);
        proof {
            lemma_digit_order(numbers@);
        }
        let mut tried: usize = 0;
        while tried < 9
            invariant
                tried <= 9,
                row < 9,
                col < 9,
                next_row <= 9,
                next_col < 9,
                start == cell_index(row as int, col as int),
                cell_index(next_row as int, next_col as int) == start + 1,
                g == old(self).cells_board(),
                g == self.cells_board(),
                has_shape(g),
                cell(g, row as int, col as int) == 0,
                numbers@.len() == 9,
                forall|i: int| 0 <= i < 9 ==> 1 <= #[trigger] numbers@[i] <= 9,
                forall|i: int|
                    0 <= i < tried ==> rules_out(
                        g,
                        start,
                        row as int,
                        col as int,
                        #[trigger] numbers@[i],
                    ),
                self.solution_board() == old(self).solution_board(),
                self.level() == old(self).level(),
            decreases 9 - tried,
        {
            let num = numbers[tried];
            if self.is_safe(row, col, num) {
                set_cell(&mut self.cells, row, col, num);
                if self.solve_grid(next_row, next_col) {
                    proof {
                        lemma_found_below(g, row as int, col as int, num, self.cells_board());
                    }
                    return true;
                }
                set_cell(&mut self.cells, row, col, 0);
                proof {
                    lemma_rules_out_dead_end(g, row as int, col as int, num);
                    lemma_refill(g, row as int, col as int, num);
                }
            } else {
                proof {
                    lemma_rules_out_blocked(g, row as int, col as int, num, start);
                }
            }
            tried += 1;
        }
        proof {
            assert forall|d: u8| 1 <= d <= 9 implies #[trigger] rules_out(
                g,
                start,
                row as int,
                col as int,
                d,
            ) by {
                assert(numbers@.contains(d));
                let i = choose|i: int| 0 <= i < numbers@.len() && numbers@[i] == d;
                assert(rules_out(g, start, row as int, col as int, numbers@[i]));
            }
            lemma_all_ruled_out(g, row as int, col as int, start);
        }
        false
    }

    /// The number of completions of this puzzle's cells, where 2 stands for
    /// two or more.
    pub fn count_solutions(&self) -> (count: usize)
        requires
            has_shape(self.cells_board()),
        ensures
            count == solution_count(self.cells_board()),
    {
        let mut scratch = copy_grid(&self.cells);
        self.count_solutions_recursive(&mut scratch)
    }

    /// The number of completions of `grid`, where 2 stands for two or more.
    /// The search fills the first empty cell with each digit that may go
    /// there, counts below it, and stops at the second completion it meets.
    /// It hands `grid` back as it was.
    pub fn count_solutions_recursive(&self, grid: &mut Vec<Vec<u8>>) -> (count: usize)
        requires
            has_shape(board_of(old(grid))),
        ensures
            count == solution_count(board_of(old(grid))),
            board_of(final(grid)) == board_of(old(grid)),
        decreases empties(board_of(old(grid))),
    {
        let ghost g = board_of(grid);
        let (row, col) = match first_empty(grid) {
            Some(place) => place,
            None => {
                proof {
                    lemma_full_board_count(g);
                }
                return 1;
            },
        };
        let mut total: usize = 0;
        let mut num: u8 = 1;
        proof {
            lemma_count_none_below_one(g, row as int, col as int);
        }
        while num <= 9
            invariant
                1 <= num <= 10,
                row < 9,
                col < 9,
                g == board_of(old(grid)),
                g == board_of(grid),
                has_shape(g),
                cell(g, row as int, col as int) == 0,
                total == count_below(g, row as int, col as int, num as int),
                total <= 1,
            decreases 10 - num,
        {
            if self.is_valid_placement(grid, row, col, num) {
                set_cell(grid, row, col, num);
                proof {
                    lemma_fill_decreases(g, row as int, col as int, num);
                    lemma_count_add(g, row as int, col as int, num);
                }
                let found = self.count_solutions_recursive(grid);
                total += found;
                set_cell(grid, row, col, 0);
                proof {
                    lemma_refill(g, row as int, col as int, num);
                }
                if total > 1 {
                    proof {
                        lemma_count_two(g, row as int, col as int, num + 1);
                    }
                    return 2;
                }
            } else {
                proof {
                    lemma_count_skip(g, row as int, col as int, num);
                }
            }
            num += 1;
        }
        proof {
            lemma_count_all_below_ten(g, row as int, col as int);
        }
        total
    }
}

/// The first empty cell in row-major order, if there is one.
pub fn first_empty(grid: &Vec<Vec<u8>>) -> (found: Option<(usize, usize)>)
    requires
        has_shape(board_of(grid)),
    ensures
        match found {
            Some((row, col)) => {
                &&& on_board(row as int, col as int)
                &&& cell(board_of(grid), row as int, col as int) == 0
                &&& forall|r: int, c: int|
                    on_board(r, c) && cell_index(r, c) < cell_index(row as int, col as int)
                        ==> #[trigger] cell(board_of(grid), r, c) != 0
            },
            None => is_full(board_of(grid)),
        },
{
    let ghost b = board_of(grid);
    let mut r: usize = 0;
    while r < 9
        invariant
            r <= 9,
            b == board_of(grid),
            has_shape(b),
            forall|i: int, j: int| 0 <= i < r && 0 <= j < 9 ==> #[trigger] cell(b, i, j) != 0,
        decreases 9 - r,
    {
        let mut c: usize = 0;
        while c < 9
            invariant
                c <= 9,
                r < 9,
                b == board_of(grid),
                has_shape(b),
                forall|i: int, j: int| 0 <= i < r && 0 <= j < 9 ==> #[trigger] cell(b, i, j) != 0,
                forall|j: int| 0 <= j < c ==> #[trigger] cell(b, r as int, j) != 0,
            decreases 9 - c,
        {
            if cell_at(grid, r, c) == 0 {
                return Some((r, c));
            }
            c += 1;
        }
        r += 1;
    }
    None
}

} // verus!
