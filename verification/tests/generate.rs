use sudoku_solver::constraints::is_value_valid;
use sudoku_solver::generate::{generate_random_matrix, place_digit};

fn filled(grid: &Vec<Vec<i8>>) -> usize {
    grid.iter().flatten().filter(|&&v| v != 0).count()
}

#[test]
fn placing_a_digit_that_fits() {
    let mut grid = vec![vec![0i8; 4]; 4];
    assert!(place_digit(&mut grid, (1, 2), 3));
    assert_eq!(grid[1][2], 3);
    assert_eq!(filled(&grid), 1);
}

#[test]
fn placing_is_refused_where_the_check_fails_or_the_cell_is_filled() {
    let mut grid = vec![vec![0i8; 4]; 4];
    grid[0][0] = 2;
    let before = grid.clone();
    // Same row, same column, same block.
    assert!(!place_digit(&mut grid, (0, 3), 2));
    assert!(!place_digit(&mut grid, (3, 0), 2));
    assert!(!place_digit(&mut grid, (1, 1), 2));
    // The empty mark is no digit.
    assert!(!place_digit(&mut grid, (2, 2), 0));
    // A filled cell is kept, also where the digit would pass the check.
    assert!(!place_digit(&mut grid, (0, 0), 3));
    assert!(!place_digit(&mut grid, (0, 0), 2));
    assert_eq!(grid, before);
}

#[test]
fn no_attempt_leaves_the_grid_as_it_is() {
    let mut grid = vec![vec![0i8; 9]; 9];
    grid[4][4] = 5;
    let before = grid.clone();
    assert!(generate_random_matrix(&mut grid, 0));
    assert_eq!(grid, before);
}

#[test]
fn generated_digits_pass_the_check() {
    for _ in 0..20 {
        let mut grid = vec![vec![0i8; 9]; 9];
        let attempts = 2 * 9 * 9;
        generate_random_matrix(&mut grid, attempts);
        assert_eq!(grid.len(), 9);
        assert!(grid.iter().all(|row| row.len() == 9));
        assert!(filled(&grid) <= attempts);
        for r in 0..9 {
            for c in 0..9 {
                let v = grid[r][c];
                assert!((0..=9).contains(&v));
                if v != 0 {
                    assert!(is_value_valid(&grid, v, (r, c)));
                }
            }
        }
    }
}

#[test]
fn generation_fills_more_than_one_cell_with_more_than_one_digit() {
    let mut grid = vec![vec![0i8; 9]; 9];
    generate_random_matrix(&mut grid, 2 * 9 * 9);
    assert!(filled(&grid) >= 9);
    let mut digits: Vec<i8> = grid.iter().flatten().cloned().filter(|&v| v != 0).collect();
    digits.sort();
    digits.dedup();
    assert!(digits.len() >= 2);
    let rows_used = grid.iter().filter(|row| row.iter().any(|&v| v != 0)).count();
    assert!(rows_used >= 2);
}

#[test]
fn generation_places_at_most_one_digit_for_each_attempt() {
    for attempts in 1..6 {
        let mut grid = vec![vec![0i8; 4]; 4];
        let complete = generate_random_matrix(&mut grid, attempts);
        assert!(filled(&grid) <= attempts);
        assert!(filled(&grid) >= 1);
        // A grid this empty has a digit for every cell.
        assert!(complete || filled(&grid) >= 3);
    }
}

#[test]
fn generation_keeps_what_was_filled() {
    let mut grid = vec![vec![0i8; 4]; 4];
    grid[0][0] = 4;
    grid[2][1] = 1;
    generate_random_matrix(&mut grid, 32);
    assert_eq!(grid[0][0], 4);
    assert_eq!(grid[2][1], 1);
    for r in 0..4 {
        for c in 0..4 {
            if grid[r][c] != 0 {
                assert!(is_value_valid(&grid, grid[r][c], (r, c)));
            }
        }
    }
}

#[test]
fn generation_gives_up_a_cell_that_no_digit_fits() {
    // The only cell of a grid of side 1 that is empty takes the digit 1;
    // the cell (0, 3) below sees all four digits and takes none.
    let mut one: Vec<Vec<i8>> = vec![vec![0]];
    assert!(generate_random_matrix(&mut one, 3));
    assert_eq!(one, vec![vec![1]]);

    let start: Vec<Vec<i8>> = vec![
        vec![1, 2, 3, 0],
        vec![3, 4, 1, 4],
        vec![2, 1, 4, 3],
        vec![4, 3, 2, 1],
    ];
    let mut grid = start.clone();
    // Enough attempts to draw the empty cell, whatever the order.
    let complete = generate_random_matrix(&mut grid, 400);
    assert!(!complete);
    assert_eq!(grid, start);
}

#[test]
fn a_full_grid_is_left_as_it_is() {
    let start: Vec<Vec<i8>> = vec![
        vec![1, 2, 3, 4],
        vec![3, 4, 1, 2],
        vec![2, 1, 4, 3],
        vec![4, 3, 2, 1],
    ];
    let mut grid = start.clone();
    assert!(generate_random_matrix(&mut grid, 50));
    assert_eq!(grid, start);
    // Also where the cells contradict one another: none is empty.
    let mut same = vec![vec![7i8; 9]; 9];
    assert!(generate_random_matrix(&mut same, 50));
    assert_eq!(same, vec![vec![7i8; 9]; 9]);
}

#[test]
fn an_empty_grid_gets_a_digit_at_the_first_attempt() {
    for side in [1usize, 4, 9, 16] {
        for _ in 0..10 {
            let mut grid = vec![vec![0i8; side]; side];
            assert!(generate_random_matrix(&mut grid, 1));
            assert_eq!(filled(&grid), 1);
        }
    }
}

#[test]
fn an_attempt_that_gives_up_places_nothing() {
    // One empty cell, which no digit fits: each attempt either draws a
    // filled cell or gives the empty one up.
    let start: Vec<Vec<i8>> = vec![
        vec![1, 2, 3, 0],
        vec![3, 4, 1, 4],
        vec![2, 1, 4, 3],
        vec![4, 3, 2, 1],
    ];
    for attempts in 1..40 {
        let mut grid = start.clone();
        let complete = generate_random_matrix(&mut grid, attempts);
        assert_eq!(grid, start);
        assert!(complete || filled(&grid) + 1 <= filled(&start) + attempts);
    }
}
