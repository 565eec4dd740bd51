//! The rule of the puzzle, applied: whether a digit may stand in a cell, and
//! which cells of a grid hold something that may not stand there.

use crate::grid::{
    block_side_of, in_grid, is_grid, lemma_block_member, lemma_block_origin, lemma_grid_rows, sees,
    valid_at, Grid,
};
use vstd::prelude::*;

verus! {

/// What the cell at `(r, c)` holds fails the check there. An empty cell
/// always fails it.
pub open spec fn fails_check(g: Grid, r: int, c: int) -> bool {
    !valid_at(g, g[r][c], r, c)
}

/// `a` comes before `b` when the cells are read row by row.
pub open spec fn row_major_before(a: (usize, usize), b: (usize, usize)) -> bool {
    a.0 < b.0 || (a.0 == b.0 && a.1 < b.1)
}

/// `cells` lists, in reading order and each once, the cells of `g` that fail
/// the check.
pub open spec fn lists_failing_cells(g: Grid, cells: Seq<(usize, usize)>) -> bool {
    &&& forall|k: int|
        0 <= k < cells.len() ==> in_grid(
            g.len() as int,
            (#[trigger] cells[k]).0 as int,
            cells[k].1 as int,
        ) && fails_check(g, cells[k].0 as int, cells[k].1 as int)
    &&& forall|r: usize, c: usize|
        in_grid(g.len() as int, r as int, c as int) && fails_check(g, r as int, c as int)
            ==> cells.contains((r, c))
    &&& forall|i: int, j: int| 0 <= i < j < cells.len() ==> row_major_before(cells[i], cells[j])
}

/// Whether `value` may stand at `pos`: it is not the empty mark, and no
/// other cell of the row, the column or the block of `pos` holds it. What
/// the cell at `pos` holds plays no part.
#[verifier::loop_isolation(false)]
pub fn is_value_valid(matrix: &Vec<Vec<i8>>, value: i8, pos: (usize, usize)) -> (ok: bool)
    requires
        is_grid(matrix.deep_view()),
        in_grid(matrix.len() as int, pos.0 as int, pos.1 as int),
    ensures
        ok == valid_at(matrix.deep_view(), value, pos.0 as int, pos.1 as int),
        value == 0 ==> !ok,
{
    if value == 0 {
        return false;
    }
    let ghost g = matrix.deep_view();
    proof {
        lemma_grid_rows(matrix);
    }
    let size: usize = matrix.len();
    let sub_size: usize = block_side_of(size);
    let ghost b = sub_size as int;

    let mut i: usize = 0;
    while i < size
        invariant
            i <= size,
            forall|k: int| 0 <= k < i && k != pos.1 ==> #[trigger] g[pos.0 as int][k] != value,
            forall|k: int| 0 <= k < i && k != pos.0 ==> #[trigger] g[k][pos.1 as int] != value,
        decreases size - i,
    {
        if matrix[pos.0][i] == value && i != pos.1 {
            assert(sees(b, pos.0 as int, pos.1 as int, pos.0 as int, i as int));
            assert(g[pos.0 as int][i as int] == value);
            return false;
        }
        if matrix[i][pos.1] == value && i != pos.0 {
            assert(sees(b, pos.0 as int, pos.1 as int, i as int, pos.1 as int));
            assert(g[i as int][pos.1 as int] == value);
            return false;
        }
        i += 1;
    }

    proof {
        lemma_block_origin(pos.0 as int, b);
        lemma_block_origin(pos.1 as int, b);
    }
    let row_sub: usize = pos.0 - (pos.0 % sub_size);
    let col_sub: usize = pos.1 - (pos.1 % sub_size);

    let mut row: usize = 0;
    while row < sub_size
        invariant
            row <= sub_size,
            forall|r2: int, c2: int|
                row_sub <= r2 < row_sub + row && col_sub <= c2 < col_sub + sub_size && (r2 != pos.0
                    || c2 != pos.1) ==> #[trigger] g[r2][c2] != value,
        decreases sub_size - row,
    {
        let mut col: usize = 0;
        while col < sub_size
            invariant
                row < sub_size,
                col <= sub_size,
                forall|r2: int, c2: int|
                    row_sub <= r2 < row_sub + row && col_sub <= c2 < col_sub + sub_size && (r2
                        != pos.0 || c2 != pos.1) ==> #[trigger] g[r2][c2] != value,
                forall|c2: int|
                    col_sub <= c2 < col_sub + col && (row_sub + row != pos.0 || c2 != pos.1)
                        ==> #[trigger] g[row_sub + row][c2] != value,
            decreases sub_size - col,
        {
            let at_pos: bool = row + row_sub == pos.0 && col + col_sub == pos.1;
            if !at_pos && matrix[row + row_sub][col + col_sub] == value {
                proof {
                    let r2 = (row + row_sub) as int;
                    let c2 = (col + col_sub) as int;
                    lemma_block_member(pos.0 as int, r2, b);
                    lemma_block_member(pos.1 as int, c2, b);
                    assert(sees(b, pos.0 as int, pos.1 as int, r2, c2));
                    assert(g[r2][c2] == value);
                }
                return false;
            }
            col += 1;
        }
        row += 1;
    }

    proof {
        assert forall|r2: int, c2: int|
            in_grid(size as int, r2, c2) && sees(b, pos.0 as int, pos.1 as int, r2, c2)
            implies #[trigger] g[r2][c2] != value by {
            if r2 != pos.0 && c2 != pos.1 {
                lemma_block_origin(r2, b);
                lemma_block_origin(c2, b);
            }
        }
    }
    true
}

/// The cells whose value fails the check where it stands, read row by row.
/// Empty cells are among them.
#[verifier::loop_isolation(false)]
pub fn is_matrix_valid(matrix: &Vec<Vec<i8>>) -> (inv_pos: Vec<(usize, usize)>)
    requires
        is_grid(matrix.deep_view()),
    ensures
        lists_failing_cells(matrix.deep_view(), inv_pos@),
{
    let ghost g = matrix.deep_view();
    proof {
        lemma_grid_rows(matrix);
    }
    let size: usize = matrix.len();
    let mut inv_pos: Vec<(usize, usize)> = Vec::new();

    let mut row: usize = 0;
    while row < size
        invariant
            row <= size,
            forall|k: int|
                0 <= k < inv_pos.len() ==> (#[trigger] inv_pos[k]).0 < row && inv_pos[k].1 < size
                    && fails_check(g, inv_pos[k].0 as int, inv_pos[k].1 as int),
            forall|r: usize, c: usize|
                r < row && c < size && fails_check(g, r as int, c as int) ==> inv_pos@.contains(
                    (r, c),
                ),
            forall|i: int, j: int|
                0 <= i < j < inv_pos.len() ==> row_major_before(inv_pos[i], inv_pos[j]),
        decreases size - row,
    {
        let mut col: usize = 0;
        while col < size
            invariant
                row < size,
                col <= size,
                forall|k: int|
                    0 <= k < inv_pos.len() ==> row_major_before(#[trigger] inv_pos[k], (row, col))
                        && inv_pos[k].1 < size && fails_check(
                        g,
                        inv_pos[k].0 as int,
                        inv_pos[k].1 as int,
                    ),
                forall|r: usize, c: usize|
                    row_major_before((r, c), (row, col)) && c < size && fails_check(
                        g,
                        r as int,
                        c as int,
                    ) ==> inv_pos@.contains((r, c)),
                forall|i: int, j: int|
                    0 <= i < j < inv_pos.len() ==> row_major_before(inv_pos[i], inv_pos[j]),
            decreases size - col,
        {
            if !is_value_valid(matrix, matrix[row][col], (row, col)) {
                let ghost before = inv_pos@;
                inv_pos.push((row, col));
                proof {
                    assert(inv_pos@[before.len() as int] == (row, col));
                    assert forall|r: usize, c: usize|
                        row_major_before((r, c), (row, (col + 1) as usize)) && c < size
                            && fails_check(g, r as int, c as int) implies inv_pos@.contains(
                        (r, c),
                    ) by {
                        if r != row || c != col {
                            assert(before.contains((r, c)));
                            let k = choose|k: int| 0 <= k < before.len() && before[k] == (r, c);
                            assert(inv_pos@[k] == (r, c));
                        }
                    }
                }
            }
            col += 1;
        }
        row += 1;
    }
    inv_pos
}

} // verus!
