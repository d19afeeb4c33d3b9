use sudoku_grid::board::{blank_grid, cell_at, copy_grid, is_nine_by_nine, set_cell};
use sudoku_grid::seed::rising_digits;
use sudoku_grid::{check_solution, generate_sudoku, is_complete, is_valid_move, SudokuGrid};

fn blank() -> Vec<Vec<u8>> {
    vec![vec![0; 9]; 9]
}

fn empties(grid: &Vec<Vec<u8>>) -> usize {
    grid.iter().flatten().filter(|&&value| value == 0).count()
}

fn assert_is_puzzle(puzzle: &SudokuGrid, difficulty: usize, quota: usize) {
    let cells = puzzle.cells();
    let solution = puzzle.solution();
    assert_eq!(puzzle.difficulty(), difficulty);
    assert!(is_nine_by_nine(cells));
    assert!(is_nine_by_nine(solution));
    assert!(is_complete(solution.clone()));
    for row in 0..9 {
        for col in 0..9 {
            let digit = solution[row][col];
            assert!((1..=9).contains(&digit));
            assert!(is_valid_move(solution.clone(), row, col, digit));
        }
    }
    assert!(check_solution(cells.clone(), solution.clone()));
    assert_eq!(puzzle.count_solutions(), 1);
    assert!(empties(cells) <= quota);
}

#[test]
fn a_new_puzzle_is_blank() {
    let puzzle = SudokuGrid::new(25);
    assert_eq!(puzzle.cells(), &blank());
    assert_eq!(puzzle.solution(), &blank());
    assert_eq!(puzzle.difficulty(), 25);
}

#[test]
fn from_parts_keeps_the_parts() {
    let cells = vec![vec![1, 2], vec![3]];
    let solution = vec![vec![4]];
    let puzzle = SudokuGrid::from_parts(cells.clone(), solution.clone(), 99);
    assert_eq!(puzzle.cells(), &cells);
    assert_eq!(puzzle.solution(), &solution);
    assert_eq!(puzzle.difficulty(), 99);
}

#[test]
fn an_easy_puzzle_is_a_puzzle() {
    let puzzle = generate_sudoku(10).unwrap();
    assert_is_puzzle(&puzzle, 10, 30);
}

#[test]
fn a_medium_puzzle_is_a_puzzle() {
    let puzzle = generate_sudoku(30).unwrap();
    assert_is_puzzle(&puzzle, 30, 45);
}

#[test]
fn a_hard_puzzle_is_a_puzzle() {
    let puzzle = generate_sudoku(50).unwrap();
    assert_is_puzzle(&puzzle, 50, 55);
}

#[test]
fn an_easy_puzzle_has_all_its_thirty_cells_cleared() {
    let puzzle = generate_sudoku(0).unwrap();
    assert_eq!(empties(puzzle.cells()), 30);
}

#[test]
fn generate_replaces_what_the_puzzle_held() {
    let mut puzzle = SudokuGrid::from_parts(vec![vec![9; 9]; 9], blank(), 21);
    assert!(puzzle.generate().is_ok());
    assert_is_puzzle(&puzzle, 21, 45);
    let first = puzzle.solution().clone();
    assert!(puzzle.generate().is_ok());
    assert_is_puzzle(&puzzle, 21, 45);
    assert!(is_complete(first));
}

#[test]
fn two_puzzles_are_not_always_the_same() {
    let first = generate_sudoku(10).unwrap();
    let mut differs = false;
    for _ in 0..5 {
        let next = generate_sudoku(10).unwrap();
        if next.solution() != first.solution() {
            differs = true;
        }
    }
    assert!(differs);
}

#[test]
fn the_digits_rise_from_one_to_nine() {
    assert_eq!(rising_digits(), vec![1, 2, 3, 4, 5, 6, 7, 8, 9]);
}

#[test]
fn a_blank_grid_has_nine_rows_of_nine_empty_cells() {
    assert_eq!(blank_grid(), blank());
}

#[test]
fn a_copy_holds_the_same_cells() {
    let mut grid = blank();
    grid[2][5] = 7;
    grid[8][0] = 1;
    let copy = copy_grid(&grid);
    assert_eq!(copy, grid);
}

#[test]
fn cells_are_read_and_written_one_at_a_time() {
    let mut grid = blank();
    set_cell(&mut grid, 3, 4, 6);
    assert_eq!(cell_at(&grid, 3, 4), 6);
    assert_eq!(cell_at(&grid, 4, 3), 0);
    let mut expected = blank();
    expected[3][4] = 6;
    assert_eq!(grid, expected);
    set_cell(&mut grid, 3, 4, 0);
    assert_eq!(grid, blank());
}

#[test]
fn only_nine_rows_of_nine_have_the_shape() {
    assert!(is_nine_by_nine(&blank()));
    assert!(!is_nine_by_nine(&Vec::new()));
    assert!(!is_nine_by_nine(&vec![vec![0; 9]; 8]));
    assert!(!is_nine_by_nine(&vec![vec![0; 9]; 10]));
    assert!(!is_nine_by_nine(&vec![vec![0; 8]; 9]));
    let mut ragged = blank();
    ragged[8].push(0);
    assert!(!is_nine_by_nine(&ragged));
}
