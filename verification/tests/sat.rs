use sudoku_solver::backtracking::solve_backtracking;
use sudoku_solver::constraints::is_matrix_valid;
use sudoku_solver::encoding::lit_from_indx;
use sudoku_solver::sat::{apply_answer, formula_to_grid, model_contains, solve_sat};
use varisat::solver::SolverError;

fn each_digit_once(grid: &Vec<Vec<i8>>, block: usize) -> bool {
    let side = grid.len();
    for k in 0..side {
        for d in 1..=(side as i8) {
            let in_row = (0..side).filter(|&c| grid[k][c] == d).count();
            let in_col = (0..side).filter(|&r| grid[r][k] == d).count();
            let (br, bc) = (k / block * block, k % block * block);
            let in_block = (0..side)
                .filter(|&i| grid[br + i / block][bc + i % block] == d)
                .count();
            if in_row != 1 || in_col != 1 || in_block != 1 {
                return false;
            }
        }
    }
    true
}

fn puzzle() -> Vec<Vec<i8>> {
    vec![
        vec![5, 3, 0, 0, 7, 0, 0, 0, 0],
        vec![6, 0, 0, 1, 9, 5, 0, 0, 0],
        vec![0, 9, 8, 0, 0, 0, 0, 6, 0],
        vec![8, 0, 0, 0, 6, 0, 0, 0, 3],
        vec![4, 0, 0, 8, 0, 3, 0, 0, 1],
        vec![7, 0, 0, 0, 2, 0, 0, 0, 6],
        vec![0, 6, 0, 0, 0, 0, 2, 8, 0],
        vec![0, 0, 0, 4, 1, 9, 0, 0, 5],
        vec![0, 0, 0, 0, 8, 0, 0, 7, 9],
    ]
}

fn puzzle_solution() -> Vec<Vec<i8>> {
    vec![
        vec![5, 3, 4, 6, 7, 8, 9, 1, 2],
        vec![6, 7, 2, 1, 9, 5, 3, 4, 8],
        vec![1, 9, 8, 3, 4, 2, 5, 6, 7],
        vec![8, 5, 9, 7, 6, 1, 4, 2, 3],
        vec![4, 2, 6, 8, 5, 3, 7, 9, 1],
        vec![7, 1, 3, 9, 2, 4, 8, 5, 6],
        vec![9, 6, 1, 5, 3, 7, 2, 8, 4],
        vec![2, 8, 7, 4, 1, 9, 6, 3, 5],
        vec![3, 4, 5, 2, 8, 6, 1, 7, 9],
    ]
}

#[test]
fn sat_solves_a_puzzle_with_one_solution() {
    let mut grid = puzzle();
    assert!(solve_sat(&mut grid).unwrap());
    assert_eq!(grid, puzzle_solution());
}

#[test]
fn sat_solves_an_empty_grid() {
    let mut grid = vec![vec![0i8; 9]; 9];
    assert!(solve_sat(&mut grid).unwrap());
    assert!(is_matrix_valid(&grid).is_empty());
    assert!(each_digit_once(&grid, 3));
}

#[test]
fn sat_solves_four_by_four_with_one_given() {
    let mut grid = vec![vec![0i8; 4]; 4];
    grid[0][0] = 1;
    assert!(solve_sat(&mut grid).unwrap());
    assert_eq!(grid[0][0], 1);
    assert!(each_digit_once(&grid, 2));
}

#[test]
fn sat_reports_an_unsolvable_grid_and_leaves_it() {
    let start: Vec<Vec<i8>> = vec![
        vec![1, 2, 3, 0],
        vec![0, 0, 0, 4],
        vec![0, 0, 0, 0],
        vec![0, 0, 0, 0],
    ];
    let mut grid = start.clone();
    assert!(!solve_sat(&mut grid).unwrap());
    assert_eq!(grid, start);
}

#[test]
fn sat_rejects_givens_that_contradict_one_another() {
    // Full, but for one cell, and (0, 0) repeats (0, 1): the search fills
    // the empty cell, the engine finds the contradiction.
    let start: Vec<Vec<i8>> = vec![
        vec![2, 2, 3, 4],
        vec![3, 4, 1, 2],
        vec![2, 1, 4, 3],
        vec![4, 3, 2, 0],
    ];
    let mut grid = start.clone();
    assert!(!solve_sat(&mut grid).unwrap());
    assert_eq!(grid, start);
    let mut searched = start.clone();
    assert!(solve_backtracking(&mut searched));
}

#[test]
fn encode_solve_decode_gives_a_solved_grid_back() {
    let solved = puzzle_solution();
    let mut grid = solved.clone();
    assert!(solve_sat(&mut grid).unwrap());
    assert_eq!(grid, solved);
    // And once more on what came out.
    assert!(solve_sat(&mut grid).unwrap());
    assert_eq!(grid, solved);
}

#[test]
fn both_solvers_succeed_on_a_solvable_grid() {
    let mut by_search = vec![vec![0i8; 9]; 9];
    by_search[0][0] = 9;
    by_search[4][4] = 5;
    by_search[8][8] = 1;
    let mut by_engine = by_search.clone();
    assert!(solve_backtracking(&mut by_search));
    assert!(solve_sat(&mut by_engine).unwrap());
    for grid in [&by_search, &by_engine] {
        assert_eq!(grid[0][0], 9);
        assert_eq!(grid[4][4], 5);
        assert_eq!(grid[8][8], 1);
        assert!(each_digit_once(grid, 3));
        assert!(is_matrix_valid(grid).is_empty());
    }
}

#[test]
fn both_solvers_agree_where_the_solution_is_unique() {
    let mut by_search = puzzle();
    let mut by_engine = puzzle();
    assert!(solve_backtracking(&mut by_search));
    assert!(solve_sat(&mut by_engine).unwrap());
    assert_eq!(by_search, by_engine);
}

#[test]
fn sat_on_side_one() {
    let mut grid: Vec<Vec<i8>> = vec![vec![0]];
    assert!(solve_sat(&mut grid).unwrap());
    assert_eq!(grid, vec![vec![1]]);
}

#[test]
fn sat_solves_side_sixteen() {
    let mut grid = vec![vec![0i8; 16]; 16];
    grid[3][7] = 12;
    assert!(solve_sat(&mut grid).unwrap());
    assert_eq!(grid[3][7], 12);
    assert!(each_digit_once(&grid, 4));
}

#[test]
fn model_membership() {
    let model = vec![(0usize, true), (1, false), (2, true)];
    assert!(model_contains(&model, (0, true)));
    assert!(model_contains(&model, (1, false)));
    assert!(!model_contains(&model, (1, true)));
    assert!(!model_contains(&model, (0, false)));
    assert!(!model_contains(&model, (3, true)));
    assert!(!model_contains(&Vec::new(), (0, true)));
}

#[test]
fn decoding_picks_the_asserted_digit() {
    // Side 4; each cell (r, c) is given the digit (r + c) % 4 + 1.
    let mut model: Vec<(usize, bool)> = Vec::new();
    for r in 0..4 {
        for c in 0..4 {
            for n in 0..4 {
                model.push((lit_from_indx(r, c, n, 4), n == (r + c) % 4));
            }
        }
    }
    let grid = formula_to_grid(&model, 4);
    assert_eq!(
        grid,
        vec![vec![1, 2, 3, 4], vec![2, 3, 4, 1], vec![3, 4, 1, 2], vec![4, 1, 2, 3]]
    );
}

#[test]
fn decoding_picks_the_least_asserted_digit_and_tolerates_none() {
    let model = vec![
        // Cell (0, 0): digits 3 and 2 asserted, in this order.
        (lit_from_indx(0, 0, 2, 4), true),
        (lit_from_indx(0, 0, 1, 4), true),
        // Cell (0, 1): only a denial.
        (lit_from_indx(0, 1, 0, 4), false),
        // Cell (3, 3): digit 4.
        (lit_from_indx(3, 3, 3, 4), true),
    ];
    let grid = formula_to_grid(&model, 4);
    assert_eq!(grid.len(), 4);
    assert!(grid.iter().all(|row| row.len() == 4));
    assert_eq!(grid[0][0], 2);
    assert_eq!(grid[0][1], 0);
    assert_eq!(grid[3][3], 4);
    let filled: usize = grid.iter().flatten().filter(|&&v| v != 0).count();
    assert_eq!(filled, 2);
    assert_eq!(formula_to_grid(&Vec::new(), 9), vec![vec![0i8; 9]; 9]);
    assert_eq!(formula_to_grid(&model, 0), Vec::<Vec<i8>>::new());
}

#[test]
fn a_model_is_decoded_into_the_grid() {
    let mut grid = vec![vec![0i8; 4]; 4];
    grid[1][1] = 3;
    let model = vec![
        (lit_from_indx(0, 0, 3, 4), true),
        (lit_from_indx(1, 1, 0, 4), true),
        (lit_from_indx(2, 3, 1, 4), true),
        (lit_from_indx(2, 3, 2, 4), false),
    ];
    let outcome = apply_answer(&mut grid, Ok(Some(model)));
    assert!(matches!(outcome, Ok(true)));
    // The grid holds what the model says, also where it was filled before.
    assert_eq!(
        grid,
        vec![vec![4, 0, 0, 0], vec![0, 1, 0, 0], vec![0, 0, 0, 2], vec![0, 0, 0, 0]]
    );
}

#[test]
fn unsatisfiable_leaves_the_grid() {
    let mut grid = vec![vec![0i8; 4]; 4];
    grid[1][1] = 3;
    let before = grid.clone();
    let outcome = apply_answer(&mut grid, Ok(None));
    assert!(matches!(outcome, Ok(false)));
    assert_eq!(grid, before);
}

#[test]
fn an_engine_failure_is_handed_on() {
    let mut grid = vec![vec![0i8; 4]; 4];
    grid[1][1] = 3;
    let before = grid.clone();
    let outcome = apply_answer(&mut grid, Err(SolverError::Interrupted));
    match outcome {
        Err(failure) => assert!(matches!(failure.cause, SolverError::Interrupted)),
        Ok(_) => panic!("a failure must not be turned into an answer"),
    }
    assert_eq!(grid, before);
}
