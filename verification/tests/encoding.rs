use sudoku_solver::encoding::{has_cells_in_range, lit_from_indx, sudoku_to_sat};
use varisat::{CnfFormula, Lit};

fn clauses_of(formula: &CnfFormula) -> Vec<Vec<isize>> {
    formula
        .iter()
        .map(|clause| clause.iter().map(|lit| lit.to_dimacs()).collect())
        .collect()
}

#[test]
fn literal_index_is_row_major_over_the_cube() {
    assert_eq!(lit_from_indx(0, 0, 0, 9), 0);
    assert_eq!(lit_from_indx(0, 0, 8, 9), 8);
    assert_eq!(lit_from_indx(0, 1, 0, 9), 9);
    assert_eq!(lit_from_indx(1, 0, 0, 9), 81);
    assert_eq!(lit_from_indx(2, 3, 4, 9), 2 * 81 + 3 * 9 + 4);
    assert_eq!(lit_from_indx(8, 8, 8, 9), 728);
    assert_eq!(lit_from_indx(3, 2, 1, 4), 3 * 16 + 2 * 4 + 1);
    assert_eq!(lit_from_indx(120, 120, 120, 121), 121 * 121 * 121 - 1);
}

#[test]
fn literal_index_is_one_to_one() {
    let mut seen = vec![false; 4 * 4 * 4];
    for r in 0..4 {
        for c in 0..4 {
            for n in 0..4 {
                let index = lit_from_indx(r, c, n, 4);
                assert!(index < 64);
                assert!(!seen[index]);
                seen[index] = true;
            }
        }
    }
    assert!(seen.iter().all(|&s| s));
}

#[test]
fn formula_of_an_empty_nine_by_nine_grid() {
    let grid = vec![vec![0i8; 9]; 9];
    let formula = sudoku_to_sat(&grid);
    let clauses = clauses_of(&formula);
    // One clause for each cell, then for each of rows, columns and blocks
    // one exclusion for each digit and each pair of cells; no cell is given.
    let pairs = 9 * 8 / 2;
    assert_eq!(clauses.len(), 81 + 3 * 9 * 9 * pairs);
    assert_eq!(formula.var_count(), 729);
    for clause in &clauses[..81] {
        assert_eq!(clause.len(), 9);
        assert!(clause.iter().all(|&l| l > 0));
    }
    for clause in &clauses[81..] {
        assert_eq!(clause.len(), 2);
        assert!(clause.iter().all(|&l| l < 0));
    }
    assert_eq!(clauses.iter().filter(|c| c.len() == 9).count(), 9 * 9);
    assert_eq!(clauses.iter().filter(|c| c.len() == 2).count(), 3 * 9 * 9 * pairs);
    assert_eq!(clauses.iter().filter(|c| c.len() == 1).count(), 0);
}

#[test]
fn clause_families_come_in_order() {
    let grid = vec![vec![0i8; 9]; 9];
    let clauses = clauses_of(&sudoku_to_sat(&grid));
    let family = 9 * 9 * 36;
    assert_eq!(clauses[0], vec![1, 2, 3, 4, 5, 6, 7, 8, 9]);
    assert_eq!(clauses[1], vec![10, 11, 12, 13, 14, 15, 16, 17, 18]);
    assert_eq!(clauses[80], vec![721, 722, 723, 724, 725, 726, 727, 728, 729]);
    // Rows: row 0, digit 1, columns 0 and 1, then columns 0 and 2.
    assert_eq!(clauses[81], vec![-1, -10]);
    assert_eq!(clauses[82], vec![-1, -19]);
    assert_eq!(clauses[81 + 8], vec![-10, -19]);
    // Row 0, digit 2.
    assert_eq!(clauses[81 + 36], vec![-2, -11]);
    // Columns: column 0, digit 1, rows 0 and 1.
    assert_eq!(clauses[81 + family], vec![-1, -82]);
    assert_eq!(clauses[81 + family + 1], vec![-1, -163]);
    // Blocks: the first block, digit 1, its cells (0,0) and (0,1), then (0,0) and (1,0).
    assert_eq!(clauses[81 + 2 * family], vec![-1, -10]);
    assert_eq!(clauses[81 + 2 * family + 2], vec![-1, -82]);
    // The last block, digit 9, its last two cells (8,7) and (8,8).
    assert_eq!(clauses[81 + 3 * family - 1], vec![-720, -729]);
}

#[test]
fn given_cells_add_unit_clauses() {
    let mut grid = vec![vec![0i8; 4]; 4];
    grid[0][0] = 1;
    grid[1][2] = 3;
    grid[3][3] = 4;
    let formula = sudoku_to_sat(&grid);
    let clauses = clauses_of(&formula);
    let pairs = 4 * 3 / 2;
    assert_eq!(clauses.len(), 16 + 3 * 4 * 4 * pairs + 3);
    let units: Vec<&Vec<isize>> = clauses.iter().filter(|c| c.len() == 1).collect();
    assert_eq!(units.len(), 3);
    assert_eq!(*units[0], vec![1]);
    assert_eq!(*units[1], vec![(16 + 2 * 4 + 2) + 1]);
    assert_eq!(*units[2], vec![64]);
    // They close the formula.
    assert_eq!(clauses[clauses.len() - 3], vec![1]);
    assert_eq!(formula.var_count(), 64);
    let last = formula.iter().last().unwrap();
    assert_eq!(last, &[Lit::from_index(63, true)][..]);
}

#[test]
fn formula_of_side_one() {
    let empty = sudoku_to_sat(&vec![vec![0i8]]);
    assert_eq!(clauses_of(&empty), vec![vec![1]]);
    assert_eq!(empty.var_count(), 1);
    let given = sudoku_to_sat(&vec![vec![1i8]]);
    assert_eq!(clauses_of(&given), vec![vec![1], vec![1]]);
}

#[test]
fn block_exclusions_cover_cells_in_different_rows_and_columns() {
    let grid = vec![vec![0i8; 4]; 4];
    let clauses = clauses_of(&sudoku_to_sat(&grid));
    // Cells (0,0) and (1,1) share only their block; digit 1.
    let a = lit_from_indx(0, 0, 0, 4) as isize + 1;
    let b = lit_from_indx(1, 1, 0, 4) as isize + 1;
    assert_eq!(clauses.iter().filter(|c| **c == vec![-a, -b]).count(), 1);
    // Cells (0,0) and (0,1) share their row and their block.
    let c = lit_from_indx(0, 1, 0, 4) as isize + 1;
    assert_eq!(clauses.iter().filter(|x| **x == vec![-a, -c]).count(), 2);
    // Cells (0,0) and (2,2) share nothing.
    let d = lit_from_indx(2, 2, 0, 4) as isize + 1;
    assert_eq!(clauses.iter().filter(|x| **x == vec![-a, -d]).count(), 0);
}

#[test]
fn cells_in_and_out_of_range() {
    assert!(has_cells_in_range(&vec![vec![0i8; 9]; 9]));
    assert!(has_cells_in_range(&vec![vec![9i8; 9]; 9]));
    assert!(has_cells_in_range(&vec![vec![1i8]]));
    assert!(!has_cells_in_range(&vec![vec![2i8]]));
    assert!(!has_cells_in_range(&vec![vec![-1i8]]));
    let mut grid = vec![vec![4i8; 4]; 4];
    assert!(has_cells_in_range(&grid));
    grid[3][3] = 5;
    assert!(!has_cells_in_range(&grid));
    grid[3][3] = -128;
    assert!(!has_cells_in_range(&grid));
    assert!(has_cells_in_range(&vec![vec![121i8; 121]; 121]));
}
