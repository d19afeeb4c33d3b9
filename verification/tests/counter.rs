use sudoku_grid::grid::first_empty;
use sudoku_grid::SudokuGrid;

fn solved() -> Vec<Vec<u8>> {
    vec![
        vec![5, 3, 4, 6, 7, 8, 9, 1, 2],
        vec![6, 7, 2, 1, 9, 5, 3, 4, 8],
        vec![1, 9, 8, 3, 4, 2, 5, 6, 7],
        vec![8, 5, 9, 7, 6, 1, 4, 2, 3],
        vec![4, 2, 6, 8, 5, 3, 7, 9, 1],
        vec![7, 1, 3, 9, 2, 4, 8, 5, 6],
        vec![9, 6, 1, 5, 3, 7, 2, 8, 4],
        vec![2, 8, 7, 4, 1, 9, 6, 3, 5],
        vec![3, 4, 5, 2, 8, 6, 1, 7, 9],
    ]
}

fn classic() -> Vec<Vec<u8>> {
    vec![
        vec![5, 3, 0, 0, 7, 0, 0, 0, 0],
        vec![6, 0, 0, 1, 9, 5, 0, 0, 0],
        vec![0, 9, 8, 0, 0, 0, 0, 6, 0],
        vec![8, 0, 0, 0, 6, 0, 0, 0, 3],
        vec![4, 0, 0, 8, 0, 3, 0, 0, 1],
        vec![7, 0, 0, 0, 2, 0, 0, 0, 6],
        vec![0, 6, 0, 0, 0, 0, 2, 8, 0],
        vec![0, 0, 0, 4, 1, 9, 0, 0, 5],
        vec![0, 0, 0, 0, 8, 0, 0, 7, 9],
    ]
}

fn blank() -> Vec<Vec<u8>> {
    vec![vec![0; 9]; 9]
}

fn puzzle_of(cells: Vec<Vec<u8>>) -> SudokuGrid {
    SudokuGrid::from_parts(cells, blank(), 0)
}

#[test]
fn a_solved_grid_with_one_cell_cleared_has_one_solution() {
    let mut cells = solved();
    cells[0][0] = 0;
    assert_eq!(puzzle_of(cells).count_solutions(), 1);
}

#[test]
fn the_empty_grid_has_more_than_one_solution() {
    assert_eq!(puzzle_of(blank()).count_solutions(), 2);
}

#[test]
fn a_full_grid_counts_as_one_solution() {
    assert_eq!(puzzle_of(solved()).count_solutions(), 1);
    assert_eq!(puzzle_of(vec![vec![1; 9]; 9]).count_solutions(), 1);
}

#[test]
fn the_classic_puzzle_has_one_solution() {
    assert_eq!(puzzle_of(classic()).count_solutions(), 1);
}

#[test]
fn a_cell_without_a_candidate_gives_no_solution() {
    let mut cells = blank();
    for col in 0..8 {
        cells[0][col] = (col + 1) as u8;
    }
    cells[1][8] = 9;
    assert_eq!(puzzle_of(cells).count_solutions(), 0);
}

#[test]
fn a_cleared_rectangle_of_two_digits_gives_two_solutions() {
    let mut cells = solved();
    for (row, col) in [(0usize, 3usize), (0, 4), (3, 3), (3, 4)] {
        cells[row][col] = 0;
    }
    assert_eq!(puzzle_of(cells.clone()).count_solutions(), 2);
    cells[0][3] = 6;
    assert_eq!(puzzle_of(cells).count_solutions(), 1);
}

#[test]
fn counting_leaves_the_cells_as_they_were() {
    let puzzle = puzzle_of(classic());
    puzzle.count_solutions();
    assert_eq!(puzzle.cells(), &classic());
}

#[test]
fn the_recursive_counter_hands_the_grid_back() {
    let puzzle = SudokuGrid::new(0);
    for start in [classic(), blank(), solved()] {
        let mut grid = start.clone();
        let count = puzzle.count_solutions_recursive(&mut grid);
        assert_eq!(grid, start);
        assert_eq!(count, puzzle_of(start).count_solutions());
    }
}

#[test]
fn the_recursive_counter_agrees_on_known_counts() {
    let puzzle = SudokuGrid::new(0);
    assert_eq!(puzzle.count_solutions_recursive(&mut blank()), 2);
    assert_eq!(puzzle.count_solutions_recursive(&mut classic()), 1);
    let mut dead = blank();
    for col in 0..8 {
        dead[0][col] = (col + 1) as u8;
    }
    dead[1][8] = 9;
    assert_eq!(puzzle.count_solutions_recursive(&mut dead), 0);
}

#[test]
fn is_safe_checks_row_column_and_box() {
    let puzzle = puzzle_of(classic());
    assert!(puzzle.is_safe(0, 2, 4));
    assert!(!puzzle.is_safe(0, 2, 5));
    assert!(!puzzle.is_safe(0, 2, 8));
    assert!(!puzzle.is_safe(0, 2, 9));
    assert!(!puzzle.is_safe(0, 2, 7));
    assert!(puzzle.is_safe(0, 2, 1));
    assert!(puzzle.is_safe(0, 2, 2));
}

#[test]
fn is_safe_counts_the_cell_itself() {
    let puzzle = puzzle_of(classic());
    assert!(!puzzle.is_safe(0, 0, 5));
    let mut lone = blank();
    lone[4][4] = 3;
    assert!(!puzzle_of(lone).is_safe(4, 4, 3));
}

#[test]
fn is_valid_placement_reads_the_grid_it_is_given() {
    let puzzle = puzzle_of(solved());
    let grid = classic();
    assert!(puzzle.is_valid_placement(&grid, 0, 2, 4));
    assert!(!puzzle.is_valid_placement(&grid, 0, 2, 3));
    assert!(!puzzle.is_valid_placement(&grid, 4, 4, 8));
    assert!(!puzzle.is_valid_placement(&grid, 4, 4, 6));
    assert!(!puzzle.is_valid_placement(&grid, 4, 4, 2));
    assert!(puzzle.is_valid_placement(&grid, 4, 4, 5));
    assert!(puzzle.is_valid_placement(&blank(), 8, 8, 9));
}

#[test]
fn first_empty_scans_row_by_row() {
    assert_eq!(first_empty(&blank()), Some((0, 0)));
    assert_eq!(first_empty(&classic()), Some((0, 2)));
    assert_eq!(first_empty(&solved()), None);
    let mut grid = solved();
    grid[8][8] = 0;
    assert_eq!(first_empty(&grid), Some((8, 8)));
    grid[3][7] = 0;
    grid[5][0] = 0;
    assert_eq!(first_empty(&grid), Some((3, 7)));
}
