use sudoku_solver::backtracking::solve_backtracking;
use sudoku_solver::constraints::is_matrix_valid;

fn holds_each_digit_once(grid: &Vec<Vec<i8>>, block: usize) -> bool {
    let side = grid.len();
    for k in 0..side {
        for d in 1..=(side as i8) {
            let in_row = (0..side).filter(|&c| grid[k][c] == d).count();
            let in_col = (0..side).filter(|&r| grid[r][k] == d).count();
            let (br, bc) = (k / block * block, k % block * block);
            let in_block = (0..side)
                .filter(|&i| grid[br + i / block][bc + i % block] == d)
                .count();
            if in_row != 1 || in_col != 1 || in_block != 1 {
                return false;
            }
        }
    }
    true
}

fn classic_puzzle() -> Vec<Vec<i8>> {
    vec![
        vec![5, 3, 0, 0, 7, 0, 0, 0, 0],
        vec![6, 0, 0, 1, 9, 5, 0, 0, 0],
        vec![0, 9, 8, 0, 0, 0, 0, 6, 0],
        vec![8, 0, 0, 0, 6, 0, 0, 0, 3],
        vec![4, 0, 0, 8, 0, 3, 0, 0, 1],
        vec![7, 0, 0, 0, 2, 0, 0, 0, 6],
        vec![0, 6, 0, 0, 0, 0, 2, 8, 0],
        vec![0, 0, 0, 4, 1, 9, 0, 0, 5],
        vec![0, 0, 0, 0, 8, 0, 0, 7, 9],
    ]
}

#[test]
fn backtracking_solves_four_by_four_with_one_given() {
    let mut grid = vec![vec![0i8; 4]; 4];
    grid[0][0] = 1;
    assert!(solve_backtracking(&mut grid));
    assert_eq!(grid[0][0], 1);
    assert!(is_matrix_valid(&grid).is_empty());
    assert!(holds_each_digit_once(&grid, 2));
    assert_eq!(
        grid,
        vec![vec![1, 2, 3, 4], vec![3, 4, 1, 2], vec![2, 1, 4, 3], vec![4, 3, 2, 1]]
    );
}

#[test]
fn backtracking_finds_the_first_filling_of_an_empty_grid() {
    let mut grid = vec![vec![0i8; 9]; 9];
    assert!(solve_backtracking(&mut grid));
    assert_eq!(
        grid,
        vec![
            vec![1, 2, 3, 4, 5, 6, 7, 8, 9],
            vec![4, 5, 6, 7, 8, 9, 1, 2, 3],
            vec![7, 8, 9, 1, 2, 3, 4, 5, 6],
            vec![2, 1, 4, 3, 6, 5, 8, 9, 7],
            vec![3, 6, 5, 8, 9, 7, 2, 1, 4],
            vec![8, 9, 7, 2, 1, 4, 3, 6, 5],
            vec![5, 3, 1, 6, 4, 2, 9, 7, 8],
            vec![6, 4, 2, 9, 7, 8, 5, 3, 1],
            vec![9, 7, 8, 5, 3, 1, 6, 4, 2],
        ]
    );
    assert!(holds_each_digit_once(&grid, 3));
}

#[test]
fn backtracking_solves_a_puzzle_and_keeps_the_givens() {
    let puzzle = classic_puzzle();
    let mut grid = puzzle.clone();
    assert!(solve_backtracking(&mut grid));
    for r in 0..9 {
        for c in 0..9 {
            if puzzle[r][c] != 0 {
                assert_eq!(grid[r][c], puzzle[r][c]);
            }
        }
    }
    assert!(holds_each_digit_once(&grid, 3));
    assert_eq!(grid[0], vec![5, 3, 4, 6, 7, 8, 9, 1, 2]);
    assert_eq!(grid[8], vec![3, 4, 5, 2, 8, 6, 1, 7, 9]);
}

#[test]
fn backtracking_leaves_a_solved_grid_alone() {
    let mut grid = classic_puzzle();
    assert!(solve_backtracking(&mut grid));
    let solved = grid.clone();
    assert!(solve_backtracking(&mut grid));
    assert_eq!(grid, solved);
}

#[test]
fn backtracking_reports_failure_and_restores_the_grid() {
    // The cell (0, 3) sees 1, 2, 3 in its row and 4 in its column.
    let start: Vec<Vec<i8>> = vec![
        vec![1, 2, 3, 0],
        vec![0, 0, 0, 4],
        vec![0, 0, 0, 0],
        vec![0, 0, 0, 0],
    ];
    let mut grid = start.clone();
    assert!(!solve_backtracking(&mut grid));
    assert_eq!(grid, start);
}

#[test]
fn backtracking_fails_on_a_duplicate_in_a_row() {
    let start: Vec<Vec<i8>> = vec![
        vec![1, 1, 0, 0],
        vec![0, 0, 0, 0],
        vec![0, 0, 0, 0],
        vec![0, 0, 0, 0],
    ];
    let mut grid = start.clone();
    assert!(!solve_backtracking(&mut grid));
    assert_eq!(grid, start);

    // The two cells in different blocks.
    let mut apart: Vec<Vec<i8>> = vec![
        vec![0, 0, 0, 0],
        vec![0, 0, 0, 0],
        vec![3, 0, 0, 3],
        vec![0, 0, 0, 0],
    ];
    assert!(!solve_backtracking(&mut apart));
    assert_eq!(apart[2], vec![3, 0, 0, 3]);
}

#[test]
fn backtracking_does_not_check_the_givens_against_one_another() {
    // A solved grid in which (0, 0) repeats (0, 1), and one cell far from
    // both is emptied: the empty cell can be filled, so the search succeeds,
    // and the contradiction stays.
    let mut grid: Vec<Vec<i8>> = vec![
        vec![2, 2, 3, 4],
        vec![3, 4, 1, 2],
        vec![2, 1, 4, 3],
        vec![4, 3, 2, 0],
    ];
    assert!(solve_backtracking(&mut grid));
    assert_eq!(grid[3][3], 1);
    assert_eq!(grid[0], vec![2, 2, 3, 4]);
    assert!(is_matrix_valid(&grid).contains(&(0, 0)));

    // No empty cell at all: nothing to search.
    let mut full: Vec<Vec<i8>> = vec![
        vec![2, 2, 3, 4],
        vec![3, 4, 1, 2],
        vec![2, 1, 4, 3],
        vec![4, 3, 2, 1],
    ];
    assert!(solve_backtracking(&mut full));
}

#[test]
fn backtracking_on_side_one() {
    let mut grid: Vec<Vec<i8>> = vec![vec![0]];
    assert!(solve_backtracking(&mut grid));
    assert_eq!(grid, vec![vec![1]]);
}

#[test]
fn backtracking_solves_side_sixteen() {
    let mut grid = vec![vec![0i8; 16]; 16];
    grid[0][0] = 16;
    grid[15][15] = 1;
    assert!(solve_backtracking(&mut grid));
    assert_eq!(grid[0][0], 16);
    assert_eq!(grid[15][15], 1);
    assert!(holds_each_digit_once(&grid, 4));
}
