use sudoku_solver::constraints::{is_matrix_valid, is_value_valid};
use sudoku_solver::grid::{block_side_of, is_well_formed};

fn solved_nine() -> Vec<Vec<i8>> {
    vec![
        vec![1, 2, 3, 4, 5, 6, 7, 8, 9],
        vec![4, 5, 6, 7, 8, 9, 1, 2, 3],
        vec![7, 8, 9, 1, 2, 3, 4, 5, 6],
        vec![2, 1, 4, 3, 6, 5, 8, 9, 7],
        vec![3, 6, 5, 8, 9, 7, 2, 1, 4],
        vec![8, 9, 7, 2, 1, 4, 3, 6, 5],
        vec![5, 3, 1, 6, 4, 2, 9, 7, 8],
        vec![6, 4, 2, 9, 7, 8, 5, 3, 1],
        vec![9, 7, 8, 5, 3, 1, 6, 4, 2],
    ]
}

#[test]
fn zero_is_never_valid() {
    let empty = vec![vec![0i8; 9]; 9];
    for r in 0..9 {
        for c in 0..9 {
            assert!(!is_value_valid(&empty, 0, (r, c)));
        }
    }
    let full = solved_nine();
    assert!(!is_value_valid(&full, 0, (4, 4)));
}

#[test]
fn any_digit_is_valid_in_an_empty_grid() {
    let empty = vec![vec![0i8; 4]; 4];
    for v in 1..=4 {
        assert!(is_value_valid(&empty, v, (2, 3)));
    }
}

#[test]
fn own_cell_is_not_compared() {
    let full = solved_nine();
    for r in 0..9 {
        for c in 0..9 {
            assert!(is_value_valid(&full, full[r][c], (r, c)));
        }
    }
}

#[test]
fn row_column_and_block_conflicts_are_found() {
    let mut grid = vec![vec![0i8; 9]; 9];
    grid[4][4] = 7;
    // Same row, same column, same block, and a cell that sees nothing.
    assert!(!is_value_valid(&grid, 7, (4, 0)));
    assert!(!is_value_valid(&grid, 7, (8, 4)));
    assert!(!is_value_valid(&grid, 7, (3, 5)));
    assert!(is_value_valid(&grid, 7, (0, 0)));
    assert!(is_value_valid(&grid, 6, (4, 0)));
    // The block of (4, 4) ends at row 5 and column 5.
    assert!(is_value_valid(&grid, 7, (6, 6)));
    assert!(is_value_valid(&grid, 7, (2, 3)));
    assert!(!is_value_valid(&grid, 7, (5, 3)));
}

#[test]
fn validity_survives_a_permutation_within_bands() {
    // Rows 0 and 1 change places, and so do columns 2 and 3: both stay in their band.
    let grid: Vec<Vec<i8>> = vec![
        vec![1, 0, 0, 2],
        vec![0, 3, 0, 0],
        vec![0, 0, 4, 0],
        vec![2, 0, 0, 0],
    ];
    let rows = [1usize, 0, 2, 3];
    let cols = [0usize, 1, 3, 2];
    let mut moved = vec![vec![0i8; 4]; 4];
    for r in 0..4 {
        for c in 0..4 {
            moved[rows[r]][cols[c]] = grid[r][c];
        }
    }
    for r in 0..4 {
        for c in 0..4 {
            for v in 0..=4 {
                assert_eq!(
                    is_value_valid(&grid, v, (r, c)),
                    is_value_valid(&moved, v, (rows[r], cols[c]))
                );
            }
        }
    }
}

#[test]
fn solved_grid_has_no_invalid_cell() {
    assert_eq!(is_matrix_valid(&solved_nine()), Vec::<(usize, usize)>::new());
}

#[test]
fn empty_cells_are_reported_invalid() {
    let mut grid = solved_nine();
    grid[2][7] = 0;
    grid[5][1] = 0;
    assert_eq!(is_matrix_valid(&grid), vec![(2, 7), (5, 1)]);
    let empty = vec![vec![0i8; 4]; 4];
    let all = is_matrix_valid(&empty);
    assert_eq!(all.len(), 16);
    assert_eq!(all[0], (0, 0));
    assert_eq!(all[5], (1, 1));
    assert_eq!(all[15], (3, 3));
}

#[test]
fn duplicate_in_a_row_is_reported() {
    // The cell (0, 0) is made to repeat its neighbour (0, 1). Both are
    // reported, and with them the cell of column 0 that held the digit already.
    let mut grid = solved_nine();
    grid[0][0] = grid[0][1];
    let invalid = is_matrix_valid(&grid);
    assert!(invalid.contains(&(0, 0)));
    assert!(invalid.contains(&(0, 1)));
    assert_eq!(invalid, vec![(0, 0), (0, 1), (3, 0)]);
    for &(r, c) in invalid.iter() {
        assert_ne!(grid[r][c], 0);
        assert_eq!(grid[r][c], 2);
    }
}

#[test]
fn grid_of_side_one() {
    let grid: Vec<Vec<i8>> = vec![vec![0]];
    assert!(is_value_valid(&grid, 1, (0, 0)));
    assert!(!is_value_valid(&grid, 0, (0, 0)));
    assert_eq!(is_matrix_valid(&grid), vec![(0, 0)]);
    assert_eq!(is_matrix_valid(&vec![vec![1i8]]), Vec::<(usize, usize)>::new());
}

#[test]
fn block_sides() {
    assert_eq!(block_side_of(1), 1);
    assert_eq!(block_side_of(4), 2);
    assert_eq!(block_side_of(9), 3);
    assert_eq!(block_side_of(16), 4);
    assert_eq!(block_side_of(25), 5);
    assert_eq!(block_side_of(100), 10);
    assert_eq!(block_side_of(121), 11);
}

#[test]
fn well_formed_grids() {
    assert!(is_well_formed(&vec![vec![0i8; 1]; 1]));
    assert!(is_well_formed(&vec![vec![0i8; 4]; 4]));
    assert!(is_well_formed(&vec![vec![0i8; 9]; 9]));
    assert!(is_well_formed(&vec![vec![0i8; 121]; 121]));
    // What the cells hold is not looked at.
    assert!(is_well_formed(&vec![vec![-3i8; 4]; 4]));
}

#[test]
fn malformed_grids() {
    assert!(!is_well_formed(&Vec::new()));
    assert!(!is_well_formed(&vec![vec![0i8; 2]; 2]));
    assert!(!is_well_formed(&vec![vec![0i8; 5]; 5]));
    assert!(!is_well_formed(&vec![vec![0i8; 8]; 8]));
    assert!(!is_well_formed(&vec![vec![0i8; 10]; 10]));
    assert!(!is_well_formed(&vec![vec![0i8; 120]; 120]));
    assert!(!is_well_formed(&vec![vec![0i8; 127]; 127]));
    assert!(!is_well_formed(&vec![vec![0i8; 4]; 9]));
    assert!(!is_well_formed(&vec![vec![0i8; 144]; 144]));
    let mut ragged = vec![vec![0i8; 4]; 4];
    ragged[3].pop();
    assert!(!is_well_formed(&ragged));
}
