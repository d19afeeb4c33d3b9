use sudoku_grid::SudokuGrid;

fn solved() -> Vec<Vec<u8>> {
    vec![
        vec![5, 3, 4, 6, 7, 8, 9, 1, 2],
        vec![6, 7, 2, 1, 9, 5, 3, 4, 8],
        vec![1, 9, 8, 3, 4, 2, 5, 6, 7],
        vec![8, 5, 9, 7, 6, 1, 4, 2, 3],
        vec![4, 2, 6, 8, 5, 3, 7, 9, 1],
        vec![7, 1, 3, 9, 2, 4, 8, 5, 6],
        vec![9, 6, 1, 5, 3, 7, 2, 8, 4],
        vec![2, 8, 7, 4, 1, 9, 6, 3, 5],
        vec![3, 4, 5, 2, 8, 6, 1, 7, 9],
    ]
}

fn classic() -> Vec<Vec<u8>> {
    vec![
        vec![5, 3, 0, 0, 7, 0, 0, 0, 0],
        vec![6, 0, 0, 1, 9, 5, 0, 0, 0],
        vec![0, 9, 8, 0, 0, 0, 0, 6, 0],
        vec![8, 0, 0, 0, 6, 0, 0, 0, 3],
        vec![4, 0, 0, 8, 0, 3, 0, 0, 1],
        vec![7, 0, 0, 0, 2, 0, 0, 0, 6],
        vec![0, 6, 0, 0, 0, 0, 2, 8, 0],
        vec![0, 0, 0, 4, 1, 9, 0, 0, 5],
        vec![0, 0, 0, 0, 8, 0, 0, 7, 9],
    ]
}

fn blank() -> Vec<Vec<u8>> {
    vec![vec![0; 9]; 9]
}

fn is_solved_board(grid: &Vec<Vec<u8>>) -> bool {
    if grid.len() != 9 || grid.iter().any(|row| row.len() != 9) {
        return false;
    }
    for unit in 0..9 {
        let mut row_seen = [false; 10];
        let mut col_seen = [false; 10];
        let mut box_seen = [false; 10];
        for k in 0..9 {
            let in_row = grid[unit][k] as usize;
            let in_col = grid[k][unit] as usize;
            let in_box = grid[unit / 3 * 3 + k / 3][unit % 3 * 3 + k % 3] as usize;
            for digit in [in_row, in_col, in_box] {
                if digit < 1 || digit > 9 {
                    return false;
                }
            }
            if row_seen[in_row] || col_seen[in_col] || box_seen[in_box] {
                return false;
            }
            row_seen[in_row] = true;
            col_seen[in_col] = true;
            box_seen[in_box] = true;
        }
    }
    true
}

#[test]
fn fill_box_with_writes_the_block_row_by_row() {
    let mut puzzle = SudokuGrid::new(3);
    puzzle.fill_box_with(3, 6, &vec![9, 8, 7, 6, 5, 4, 3, 2, 1]);
    let mut expected = blank();
    expected[3][6] = 9;
    expected[3][7] = 8;
    expected[3][8] = 7;
    expected[4][6] = 6;
    expected[4][7] = 5;
    expected[4][8] = 4;
    expected[5][6] = 3;
    expected[5][7] = 2;
    expected[5][8] = 1;
    assert_eq!(puzzle.cells(), &expected);
    assert_eq!(puzzle.solution(), &blank());
    assert_eq!(puzzle.difficulty(), 3);
}

#[test]
fn fill_box_with_overwrites_what_the_block_held() {
    let mut puzzle = SudokuGrid::from_parts(solved(), solved(), 0);
    puzzle.fill_box_with(0, 0, &vec![1, 2, 3, 4, 5, 6, 7, 8, 9, 0, 0]);
    let mut expected = solved();
    expected[0][0] = 1;
    expected[0][1] = 2;
    expected[0][2] = 3;
    expected[1][0] = 4;
    expected[1][1] = 5;
    expected[1][2] = 6;
    expected[2][0] = 7;
    expected[2][1] = 8;
    expected[2][2] = 9;
    assert_eq!(puzzle.cells(), &expected);
}

#[test]
fn fill_box_places_each_digit_once() {
    let mut puzzle = SudokuGrid::new(0);
    puzzle.fill_box(6, 3);
    let cells = puzzle.cells();
    let mut seen = [0usize; 10];
    for row in 0..9 {
        for col in 0..9 {
            let inside = row >= 6 && (3..6).contains(&col);
            if inside {
                seen[cells[row][col] as usize] += 1;
            } else {
                assert_eq!(cells[row][col], 0);
            }
        }
    }
    assert_eq!(seen[0], 0);
    for digit in 1..=9 {
        assert_eq!(seen[digit], 1);
    }
}

#[test]
fn fill_box_does_not_always_give_the_rising_order() {
    let mut rising = 0;
    for _ in 0..12 {
        let mut puzzle = SudokuGrid::new(0);
        puzzle.fill_box(0, 0);
        let cells = puzzle.cells();
        let block: Vec<u8> = (0..9).map(|k| cells[k / 3][k % 3]).collect();
        if block == vec![1, 2, 3, 4, 5, 6, 7, 8, 9] {
            rising += 1;
        }
    }
    assert!(rising < 12);
}

#[test]
fn solve_grid_finds_the_solution_of_the_classic_puzzle() {
    let mut puzzle = SudokuGrid::from_parts(classic(), blank(), 7);
    assert!(puzzle.solve_grid(0, 0));
    assert_eq!(puzzle.cells(), &solved());
    assert_eq!(puzzle.solution(), &blank());
    assert_eq!(puzzle.difficulty(), 7);
}

#[test]
fn solve_grid_past_the_last_row_has_nothing_to_do() {
    let mut puzzle = SudokuGrid::from_parts(classic(), blank(), 0);
    assert!(puzzle.solve_grid(9, 0));
    assert_eq!(puzzle.cells(), &classic());
}

#[test]
fn solve_grid_leaves_earlier_cells_alone() {
    let mut cells = solved();
    cells[0][0] = 0;
    cells[8][8] = 0;
    let mut puzzle = SudokuGrid::from_parts(cells, blank(), 0);
    assert!(puzzle.solve_grid(4, 0));
    let mut expected = solved();
    expected[0][0] = 0;
    assert_eq!(puzzle.cells(), &expected);
}

#[test]
fn solve_grid_gives_up_where_a_cell_has_no_candidate() {
    let mut cells = blank();
    for col in 0..8 {
        cells[0][col] = (col + 1) as u8;
    }
    cells[1][8] = 9;
    let mut puzzle = SudokuGrid::from_parts(cells.clone(), blank(), 0);
    assert!(!puzzle.solve_grid(0, 0));
    assert_eq!(puzzle.cells(), &cells);
}

#[test]
fn solve_grid_fills_the_blank_board() {
    let mut puzzle = SudokuGrid::new(0);
    assert!(puzzle.solve_grid(0, 0));
    assert!(is_solved_board(puzzle.cells()));
}

#[test]
fn solve_empty_fills_a_blank_puzzle_with_a_solved_board() {
    for _ in 0..5 {
        let mut puzzle = SudokuGrid::new(0);
        assert!(puzzle.solve_empty());
        assert!(is_solved_board(puzzle.cells()));
        assert_eq!(puzzle.solution(), &blank());
    }
}

#[test]
fn solve_empty_fails_where_the_cells_leave_no_candidate() {
    let mut cells = blank();
    cells[3][1] = 1;
    cells[3][2] = 2;
    cells[4][0] = 3;
    cells[4][1] = 4;
    cells[4][2] = 5;
    cells[5][0] = 6;
    cells[5][1] = 7;
    cells[5][2] = 8;
    cells[3][6] = 9;
    let mut puzzle = SudokuGrid::from_parts(cells, blank(), 0);
    assert!(!puzzle.solve_empty());
    let after = puzzle.cells();
    assert_eq!(after[3][0], 0);
    assert_eq!(after[3][6], 9);
    assert_eq!(after[4][1], 4);
    for diagonal in [0usize, 3, 6] {
        let mut seen = [false; 10];
        for k in 0..9 {
            seen[after[diagonal + k / 3][diagonal + k % 3] as usize] = true;
        }
        assert!(!seen[0]);
        assert!(seen[1..].iter().all(|&there| there));
    }
}
