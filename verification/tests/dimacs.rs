use sudoku_solver::dimacs::get_sat_decode;

#[test]
fn dimacs_text_of_side_one() {
    let mut empty: Vec<Vec<i8>> = vec![vec![0]];
    assert_eq!(get_sat_decode(&mut empty).unwrap(), "p cnf 1 1\n1 0\n");
    assert_eq!(empty, vec![vec![0]]);
    let mut given: Vec<Vec<i8>> = vec![vec![1]];
    assert_eq!(get_sat_decode(&mut given).unwrap(), "p cnf 1 2\n1 0\n1 0\n");
}

#[test]
fn dimacs_text_of_side_four() {
    let mut grid = vec![vec![0i8; 4]; 4];
    grid[2][3] = 2;
    let before = grid.clone();
    let text = get_sat_decode(&mut grid).unwrap();
    assert_eq!(grid, before);
    let lines: Vec<&str> = text.lines().collect();
    let clauses = 16 + 3 * 4 * 4 * 6 + 1;
    assert_eq!(lines.len(), 1 + clauses);
    assert_eq!(lines[0], format!("p cnf 64 {}", clauses));
    assert_eq!(lines[1], "1 2 3 4 0");
    assert_eq!(lines[2], "5 6 7 8 0");
    assert_eq!(lines[16], "61 62 63 64 0");
    assert_eq!(lines[17], "-1 -5 0");
    assert_eq!(lines[18], "-1 -9 0");
    // The given cell (2, 3) holds 2: variable 2 * 16 + 3 * 4 + 1, counted from 1.
    assert_eq!(lines[clauses], "46 0");
    assert!(text.ends_with("46 0\n"));
    assert!(text.is_ascii());
}

#[test]
fn dimacs_text_of_an_empty_nine_by_nine_grid() {
    let mut grid = vec![vec![0i8; 9]; 9];
    let text = get_sat_decode(&mut grid).unwrap();
    let mut lines = text.lines();
    assert_eq!(lines.next(), Some("p cnf 729 8829"));
    assert_eq!(lines.next(), Some("1 2 3 4 5 6 7 8 9 0"));
    assert_eq!(text.lines().count(), 8830);
    assert_eq!(text.lines().last(), Some("-720 -729 0"));
    for line in text.lines().skip(1) {
        assert!(line.ends_with(" 0"));
    }
}
