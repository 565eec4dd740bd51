//! The exhaustive search: the empty cells are filled in reading order, each
//! with the least digit that passes the check, and a cell that no digit fits
//! sends the search back to the cell before it.

use crate::constraints::{is_value_valid, row_major_before};
use crate::grid::{
    block_side, extends, in_grid, is_digit, is_grid, lemma_cell_written, lemma_grid_rows,
    lemma_same_shape_grid, lemma_with_cell, sees, valid_at, with_cell, Grid,
};
use crate::solved::{
    each_digit_once, givens_consistent, lemma_given_stays_valid, lemma_solved_each_digit_once,
    solvable, solves,
};
use vstd::prelude::*;

verus! {

/// `f` extends `g`, and every cell that `g` leaves empty holds in `f` a
/// digit that passes the check there. Nothing is said of the cells that `g`
/// has filled: they may contradict one another.
pub open spec fn fills(g: Grid, f: Grid) -> bool {
    &&& extends(g, f)
    &&& forall|r: int, c: int|
        in_grid(g.len() as int, r, c) && g[r][c] == 0 ==> is_digit(g.len() as int, #[trigger] f[r][c])
            && valid_at(f, f[r][c], r, c)
}

/// The empty cells of `g` can be filled so that each passes the check.
pub open spec fn can_be_filled(g: Grid) -> bool {
    exists|f: Grid| fills(g, f)
}

/// `a` comes before `b` when grids of one shape are compared cell by cell in
/// reading order: at the first cell where they differ, `a` holds less.
pub open spec fn comes_before(a: Grid, b: Grid) -> bool {
    exists|r: int, c: int|
        in_grid(a.len() as int, r, c) && #[trigger] a[r][c] < b[r][c] && forall|r2: int, c2: int|
            in_grid(a.len() as int, r2, c2) && (r2 < r || (r2 == r && c2 < c)) ==> #[trigger] a[r2][c2]
                == b[r2][c2]
}

/// `cells` lists, in reading order and each once, the empty cells of `g`.
pub open spec fn lists_empty_cells(g: Grid, cells: Seq<(usize, usize)>) -> bool {
    &&& forall|k: int|
        0 <= k < cells.len() ==> in_grid(g.len() as int, (#[trigger] cells[k]).0 as int, cells[k].1 as int)
            && g[cells[k].0 as int][cells[k].1 as int] == 0
    &&& forall|r: usize, c: usize|
        in_grid(g.len() as int, r as int, c as int) && g[r as int][c as int] == 0 ==> cells.contains(
            (r, c),
        )
    &&& forall|i: int, j: int| 0 <= i < j < cells.len() ==> row_major_before(cells[i], cells[j])
}

/// The empty cells of the grid, in reading order.
#[verifier::loop_isolation(false)]
fn empty_cells(matrix: &Vec<Vec<i8>>) -> (positions: Vec<(usize, usize)>)
    requires
        is_grid(matrix.deep_view()),
    ensures
        lists_empty_cells(matrix.deep_view(), positions@),
{
    let ghost g = matrix.deep_view();
    proof {
        lemma_grid_rows(matrix);
    }
    let size: usize = matrix.len();
    let mut positions: Vec<(usize, usize)> = Vec::new();
    let mut row: usize = 0;
    while row < size
        invariant
            row <= size,
            forall|k: int|
                0 <= k < positions.len() ==> (#[trigger] positions[k]).0 < row && positions[k].1 < size
                    && g[positions[k].0 as int][positions[k].1 as int] == 0,
            forall|r: usize, c: usize|
                r < row && c < size && g[r as int][c as int] == 0 ==> positions@.contains((r, c)),
            forall|i: int, j: int|
                0 <= i < j < positions.len() ==> row_major_before(positions[i], positions[j]),
        decreases size - row,
    {
        let mut col: usize = 0;
        while col < size
            invariant
                row < size,
                col <= size,
                forall|k: int|
                    0 <= k < positions.len() ==> row_major_before(
                        #[trigger] positions[k],
                        (row, col),
                    ) && positions[k].1 < size && g[positions[k].0 as int][positions[k].1 as int]
                        == 0,
                forall|r: usize, c: usize|
                    row_major_before((r, c), (row, col)) && c < size && g[r as int][c as int] == 0
                        ==> positions@.contains((r, c)),
                forall|i: int, j: int|
                    0 <= i < j < positions.len() ==> row_major_before(positions[i], positions[j]),
            decreases size - col,
        {
            if matrix[row][col] == 0 {
                let ghost before = positions@;
                positions.push((row, col));
                proof {
                    assert(positions@[before.len() as int] == (row, col));
                    assert forall|r: usize, c: usize|
                        row_major_before((r, c), (row, (col + 1) as usize)) && c < size && g[r as int][c as int]
                            == 0 implies positions@.contains((r, c)) by {
                        if r != row || c != col {
                            assert(before.contains((r, c)));
                            let k = choose|k: int| 0 <= k < before.len() && before[k] == (r, c);
                            assert(positions@[k] == (r, c));
                        }
                    }
                }
            }
            col += 1;
        }
        row += 1;
    }
    positions
}

/// The least digit above `from` that passes the check at `pos`, if there is one.
#[verifier::loop_isolation(false)]
fn next_candidate(matrix: &Vec<Vec<i8>>, pos: (usize, usize), from: i8) -> (found: Option<i8>)
    requires
        is_grid(matrix.deep_view()),
        in_grid(matrix.len() as int, pos.0 as int, pos.1 as int),
        0 <= from <= matrix.len(),
    ensures
        match found {
            Some(v) => from < v <= matrix.len() && valid_at(
                matrix.deep_view(),
                v,
                pos.0 as int,
                pos.1 as int,
            ) && forall|w: i8|
                from < w < v ==> !valid_at(matrix.deep_view(), w, pos.0 as int, pos.1 as int),
            None => forall|w: i8|
                from < w <= matrix.len() ==> !valid_at(
                    matrix.deep_view(),
                    w,
                    pos.0 as int,
                    pos.1 as int,
                ),
        },
{
    let top: i8 = matrix.len() as i8;
    let mut new_val: i8 = from;
    while new_val < top
        invariant
            from <= new_val <= top,
            forall|w: i8|
                from < w <= new_val ==> !valid_at(matrix.deep_view(), w, pos.0 as int, pos.1 as int),
        decreases top - new_val,
    {
        new_val += 1;
        if is_value_valid(matrix, new_val, pos) {
            return Some(new_val);
        }
    }
    None
}

/// What `g` holds in the cell `p`.
pub open spec fn cell_of(g: Grid, p: (usize, usize)) -> i8 {
    g[p.0 as int][p.1 as int]
}

/// The state of the search: the cursor stands at `cells[i]`; the filled
/// cells of the input `g0` are as they were; the cells before the cursor hold
/// digits that pass the check; the cells after it are empty.
pub open spec fn search_state(g0: Grid, g: Grid, cells: Seq<(usize, usize)>, i: int) -> bool {
    &&& is_grid(g0)
    &&& lists_empty_cells(g0, cells)
    &&& 0 <= i <= cells.len()
    &&& extends(g0, g)
    &&& forall|j: int| 0 <= j < cells.len() ==> 0 <= cell_of(g, #[trigger] cells[j]) <= g.len()
    &&& forall|j: int| i < j < cells.len() ==> cell_of(g, #[trigger] cells[j]) == 0
    &&& forall|j: int|
        0 <= j < i ==> cell_of(g, #[trigger] cells[j]) >= 1 && valid_at(
            g,
            cell_of(g, cells[j]),
            cells[j].0 as int,
            cells[j].1 as int,
        )
}

/// `f` and `g` hold the same in the first `j` of `cells`.
pub open spec fn agrees_before(f: Grid, g: Grid, cells: Seq<(usize, usize)>, j: int) -> bool {
    forall|m: int| 0 <= m < j ==> cell_of(f, #[trigger] cells[m]) == cell_of(g, cells[m])
}

/// The search in state `(g, i)` has not passed `f` by: where `f` first
/// leaves what `g` holds, at or before the cursor, it holds more; and at the
/// cursor it holds more than what was tried there.
pub open spec fn ahead(f: Grid, g: Grid, cells: Seq<(usize, usize)>, i: int) -> bool {
    forall|j: int|
        0 <= j < cells.len() && j <= i && #[trigger] agrees_before(f, g, cells, j) ==> if j < i {
            cell_of(f, cells[j]) >= cell_of(g, cells[j])
        } else {
            cell_of(f, cells[j]) > cell_of(g, cells[j])
        }
}

/// The most steps the search spends on `levels` cells from the moment it
/// reaches the first of them empty until it falls back behind it.
pub open spec fn search_budget(side: int, levels: nat) -> int
    decreases levels,
{
    if levels == 0 {
        0
    } else {
        side * (1 + search_budget(side, (levels - 1) as nat)) + 1
    }
}

/// A bound on the steps the search still takes, counted over the first
/// `upto` of `cells`: for each, the digits not yet tried there, each with
/// all that may follow it, and the step back.
pub open spec fn steps_left(g: Grid, cells: Seq<(usize, usize)>, upto: int) -> int
    decreases upto,
{
    if upto <= 0 {
        0
    } else {
        steps_left(g, cells, upto - 1) + (g.len() - cell_of(g, cells[upto - 1])) * (1
            + search_budget(g.len() as int, (cells.len() - upto) as nat)) + 1
    }
}

/// A budget is never negative.
proof fn lemma_search_budget_nonneg(side: int, levels: nat)
    requires
        0 <= side,
    ensures
        0 <= search_budget(side, levels),
    decreases levels,
{
    if levels > 0 {
        lemma_search_budget_nonneg(side, (levels - 1) as nat);
        let inner = search_budget(side, (levels - 1) as nat);
        assert(0 <= side * (1 + inner)) by (nonlinear_arith)
            requires
                0 <= side,
                0 <= inner,
        ;
    }
}

/// The steps left are never negative while no cell holds more than the side.
proof fn lemma_steps_left_nonneg(g: Grid, cells: Seq<(usize, usize)>, upto: int)
    requires
        upto <= cells.len(),
        forall|j: int| 0 <= j < cells.len() ==> 0 <= cell_of(g, #[trigger] cells[j]) <= g.len(),
    ensures
        0 <= steps_left(g, cells, upto),
    decreases upto,
{
    if upto > 0 {
        lemma_steps_left_nonneg(g, cells, upto - 1);
        let budget = search_budget(g.len() as int, (cells.len() - upto) as nat);
        lemma_search_budget_nonneg(g.len() as int, (cells.len() - upto) as nat);
        let open = g.len() - cell_of(g, cells[upto - 1]);
        assert(0 <= open * (1 + budget)) by (nonlinear_arith)
            requires
                0 <= open,
                0 <= budget,
        ;
    }
}

/// The steps left over the first `upto` cells depend on these cells alone.
proof fn lemma_steps_left_frame(g: Grid, h: Grid, cells: Seq<(usize, usize)>, upto: int)
    requires
        g.len() == h.len(),
        upto <= cells.len(),
        forall|j: int| 0 <= j < upto ==> cell_of(g, #[trigger] cells[j]) == cell_of(h, cells[j]),
    ensures
        steps_left(g, cells, upto) == steps_left(h, cells, upto),
    decreases upto,
{
    if upto > 0 {
        lemma_steps_left_frame(g, h, cells, upto - 1);
    }
}

/// The cells of a reading-order list are distinct.
proof fn lemma_cells_distinct(cells: Seq<(usize, usize)>, i: int, j: int)
    requires
        forall|i: int, j: int| 0 <= i < j < cells.len() ==> row_major_before(cells[i], cells[j]),
        0 <= i < cells.len(),
        0 <= j < cells.len(),
        i != j,
    ensures
        cells[i] != cells[j],
{
    if i < j {
        assert(row_major_before(cells[i], cells[j]));
    } else {
        assert(row_major_before(cells[j], cells[i]));
    }
}

/// A filling that agrees with the search up to the cursor holds at the
/// cursor a digit that passes the check in the search's own grid.
proof fn lemma_filling_fits(
    g0: Grid,
    f: Grid,
    g: Grid,
    cells: Seq<(usize, usize)>,
    i: int,
)
    requires
        search_state(g0, g, cells, i),
        i < cells.len(),
        fills(g0, f),
        agrees_before(f, g, cells, i),
    ensures
        is_digit(g.len() as int, cell_of(f, cells[i])),
        valid_at(g, cell_of(f, cells[i]), cells[i].0 as int, cells[i].1 as int),
{
    let p = cells[i];
    let w = cell_of(f, p);
    let side = g.len() as int;
    assert(g0[p.0 as int][p.1 as int] == 0);
    assert(is_digit(side, f[p.0 as int][p.1 as int]));
    assert(valid_at(f, w, p.0 as int, p.1 as int));
    assert forall|r2: int, c2: int|
        in_grid(side, r2, c2) && sees(
            block_side(side),
            p.0 as int,
            p.1 as int,
            r2,
            c2,
        ) implies #[trigger] g[r2][c2] != w by {
        assert(f[r2][c2] != w);
        if g0[r2][c2] != 0 {
            assert(f[r2][c2] == g0[r2][c2]);
            assert(g[r2][c2] == g0[r2][c2]);
        } else {
            let q = (r2 as usize, c2 as usize);
            assert(cells.contains(q));
            let m = choose|m: int| 0 <= m < cells.len() && cells[m] == q;
            if m < i {
                assert(cell_of(f, cells[m]) == cell_of(g, cells[m]));
            } else if m > i {
                assert(cell_of(g, cells[m]) == 0);
            }
        }
    }
}

/// Writing a digit that passes the check at the cursor and moving on keeps
/// the state of the search.
proof fn lemma_advance(g0: Grid, g: Grid, cells: Seq<(usize, usize)>, i: int, n: i8)
    requires
        search_state(g0, g, cells, i),
        i < cells.len(),
        1 <= n <= g.len(),
        valid_at(g, n, cells[i].0 as int, cells[i].1 as int),
    ensures
        search_state(g0, with_cell(g, cells[i].0 as int, cells[i].1 as int, n), cells, i + 1),
{
    let p = cells[i];
    let h = with_cell(g, p.0 as int, p.1 as int, n);
    let side = g.len() as int;
    lemma_with_cell(g, p.0 as int, p.1 as int, n);
    assert(g0[p.0 as int][p.1 as int] == 0);
    assert forall|j: int| 0 <= j < cells.len() implies 0 <= cell_of(h, #[trigger] cells[j])
        <= h.len() by {
        if j != i {
            lemma_cells_distinct(cells, i, j);
        }
        assert(0 <= cell_of(g, cells[j]) <= g.len());
    }
    assert forall|j: int| i + 1 < j < cells.len() implies cell_of(h, #[trigger] cells[j]) == 0 by {
        lemma_cells_distinct(cells, i, j);
        assert(cell_of(g, cells[j]) == 0);
    }
    assert forall|j: int| 0 <= j < i + 1 implies cell_of(h, #[trigger] cells[j]) >= 1 && valid_at(
        h,
        cell_of(h, cells[j]),
        cells[j].0 as int,
        cells[j].1 as int,
    ) by {
        let q = cells[j];
        let w = cell_of(h, q);
        if j != i {
            lemma_cells_distinct(cells, i, j);
            assert(cell_of(g, cells[j]) >= 1 && valid_at(g, w, q.0 as int, q.1 as int));
        }
        assert forall|r2: int, c2: int|
            in_grid(side, r2, c2) && sees(
                block_side(side),
                q.0 as int,
                q.1 as int,
                r2,
                c2,
            ) implies #[trigger] h[r2][c2] != w by {
            if r2 == p.0 && c2 == p.1 {
                // The cell just written: it sees `q`, and `n` passed the check against `q`.
                assert(g[q.0 as int][q.1 as int] != n);
            } else {
                assert(g[r2][c2] != w);
            }
        }
    }
    assert(extends(g0, h)) by {
        assert forall|r: int, c: int| in_grid(side, r, c) && g0[r][c] != 0 implies #[trigger] h[r][c]
            == g0[r][c] by {
            assert(g[r][c] == g0[r][c]);
        }
    }
}

/// Emptying the cell at the cursor and stepping back keeps the state of the
/// search; at the first cell it restores the input.
proof fn lemma_retreat(g0: Grid, g: Grid, cells: Seq<(usize, usize)>, i: int)
    requires
        search_state(g0, g, cells, i),
        i < cells.len(),
    ensures
        i > 0 ==> search_state(g0, with_cell(g, cells[i].0 as int, cells[i].1 as int, 0), cells, i - 1),
        i == 0 ==> with_cell(g, cells[i].0 as int, cells[i].1 as int, 0) == g0,
{
    let p = cells[i];
    let h = with_cell(g, p.0 as int, p.1 as int, 0);
    let side = g.len() as int;
    lemma_with_cell(g, p.0 as int, p.1 as int, 0);
    assert(g0[p.0 as int][p.1 as int] == 0);
    if i > 0 {
        assert forall|j: int| 0 <= j < cells.len() implies 0 <= cell_of(h, #[trigger] cells[j])
            <= h.len() by {
            if j != i {
                lemma_cells_distinct(cells, i, j);
            }
            assert(0 <= cell_of(g, cells[j]) <= g.len());
        }
        assert forall|j: int| i - 1 < j < cells.len() implies cell_of(h, #[trigger] cells[j])
            == 0 by {
            if j != i {
                lemma_cells_distinct(cells, i, j);
                assert(cell_of(g, cells[j]) == 0);
            }
        }
        assert forall|j: int| 0 <= j < i - 1 implies cell_of(h, #[trigger] cells[j]) >= 1
            && valid_at(h, cell_of(h, cells[j]), cells[j].0 as int, cells[j].1 as int) by {
            let q = cells[j];
            let w = cell_of(h, q);
            lemma_cells_distinct(cells, i, j);
            assert(cell_of(g, cells[j]) >= 1 && valid_at(g, w, q.0 as int, q.1 as int));
            assert forall|r2: int, c2: int|
                in_grid(side, r2, c2) && sees(
                    block_side(side),
                    q.0 as int,
                    q.1 as int,
                    r2,
                    c2,
                ) implies #[trigger] h[r2][c2] != w by {
                if r2 != p.0 || c2 != p.1 {
                    assert(g[r2][c2] != w);
                }
            }
        }
        assert(extends(g0, h)) by {
            assert forall|r: int, c: int|
                in_grid(side, r, c) && g0[r][c] != 0 implies #[trigger] h[r][c] == g0[r][c] by {
                assert(g[r][c] == g0[r][c]);
            }
        }
    } else {
        assert forall|r: int| 0 <= r < g0.len() implies #[trigger] h[r] == g0[r] by {
            assert(h[r].len() == g0[r].len());
            assert forall|c: int| 0 <= c < g0[r].len() implies #[trigger] h[r][c] == g0[r][c] by {
                if g0[r][c] != 0 {
                    assert(g[r][c] == g0[r][c]);
                } else {
                    let q = (r as usize, c as usize);
                    assert(in_grid(side, r, c));
                    assert(cells.contains(q));
                    let m = choose|m: int| 0 <= m < cells.len() && cells[m] == q;
                    if m > 0 {
                        assert(cell_of(g, cells[m]) == 0);
                    }
                }
            }
            assert(h[r] =~= g0[r]);
        }
        assert(h =~= g0);
    }
}

/// Moving on passes no filling by: every digit between what was tried at
/// the cursor and what is written there fails the check.
proof fn lemma_ahead_advance(
    g0: Grid,
    f: Grid,
    g: Grid,
    cells: Seq<(usize, usize)>,
    i: int,
    n: i8,
)
    requires
        search_state(g0, g, cells, i),
        i < cells.len(),
        fills(g0, f),
        ahead(f, g, cells, i),
        cell_of(g, cells[i]) < n,
        forall|w: i8|
            cell_of(g, cells[i]) < w < n ==> !valid_at(g, w, cells[i].0 as int, cells[i].1 as int),
    ensures
        ahead(f, with_cell(g, cells[i].0 as int, cells[i].1 as int, n), cells, i + 1),
{
    let p = cells[i];
    let h = with_cell(g, p.0 as int, p.1 as int, n);
    lemma_with_cell(g, p.0 as int, p.1 as int, n);
    assert forall|j: int|
        0 <= j < cells.len() && j <= i + 1 && #[trigger] agrees_before(f, h, cells, j) implies if j
        < i + 1 {
        cell_of(f, cells[j]) >= cell_of(h, cells[j])
    } else {
        cell_of(f, cells[j]) > cell_of(h, cells[j])
    } by {
        // Up to the cursor the two grids hold the same.
        assert forall|m: int| 0 <= m < j && m < i implies cell_of(f, #[trigger] cells[m])
            == cell_of(g, cells[m]) by {
            lemma_cells_distinct(cells, i, m);
            assert(cell_of(f, cells[m]) == cell_of(h, cells[m]));
        }
        if j < i {
            lemma_cells_distinct(cells, i, j);
            assert(agrees_before(f, g, cells, j));
        } else if j == i {
            assert(agrees_before(f, g, cells, i));
            lemma_filling_fits(g0, f, g, cells, i);
        } else {
            lemma_cells_distinct(cells, i, j);
            assert(cell_of(g, cells[j]) == 0);
            let q = cells[j];
            assert(g0[q.0 as int][q.1 as int] == 0);
            assert(is_digit(g0.len() as int, f[q.0 as int][q.1 as int]));
        }
    }
}

/// Stepping back passes no filling by: no digit above what was tried at the
/// cursor passes the check. At the first cell this leaves no filling at all.
proof fn lemma_ahead_retreat(g0: Grid, f: Grid, g: Grid, cells: Seq<(usize, usize)>, i: int)
    requires
        search_state(g0, g, cells, i),
        i < cells.len(),
        fills(g0, f),
        ahead(f, g, cells, i),
        forall|w: i8|
            cell_of(g, cells[i]) < w <= g.len() ==> !valid_at(
                g,
                w,
                cells[i].0 as int,
                cells[i].1 as int,
            ),
    ensures
        i > 0,
        ahead(f, with_cell(g, cells[i].0 as int, cells[i].1 as int, 0), cells, i - 1),
{
    let p = cells[i];
    let h = with_cell(g, p.0 as int, p.1 as int, 0);
    lemma_with_cell(g, p.0 as int, p.1 as int, 0);
    if agrees_before(f, g, cells, i) {
        lemma_filling_fits(g0, f, g, cells, i);
        assert(false);
    }
    assert forall|j: int|
        0 <= j < cells.len() && j <= i - 1 && #[trigger] agrees_before(f, h, cells, j) implies if j
        < i - 1 {
        cell_of(f, cells[j]) >= cell_of(h, cells[j])
    } else {
        cell_of(f, cells[j]) > cell_of(h, cells[j])
    } by {
        assert forall|m: int| 0 <= m < j implies cell_of(f, #[trigger] cells[m]) == cell_of(
            g,
            cells[m],
        ) by {
            lemma_cells_distinct(cells, i, m);
            assert(cell_of(f, cells[m]) == cell_of(h, cells[m]));
        }
        lemma_cells_distinct(cells, i, j);
        assert(agrees_before(f, g, cells, j));
        if j == i - 1 && cell_of(f, cells[j]) == cell_of(g, cells[j]) {
            assert forall|m: int| 0 <= m < i implies cell_of(f, #[trigger] cells[m]) == cell_of(
                g,
                cells[m],
            ) by {}
            assert(agrees_before(f, g, cells, i));
        }
    }
}

/// A search that has filled every cell has found the filling that comes
/// first among all fillings.
proof fn lemma_first_filling(g0: Grid, f: Grid, g: Grid, cells: Seq<(usize, usize)>)
    requires
        search_state(g0, g, cells, cells.len() as int),
        fills(g0, f),
        ahead(f, g, cells, cells.len() as int),
    ensures
        !comes_before(f, g),
{
    if comes_before(f, g) {
        let (r, c) = choose|r: int, c: int|
            in_grid(f.len() as int, r, c) && #[trigger] f[r][c] < g[r][c] && forall|r2: int, c2: int|
                in_grid(f.len() as int, r2, c2) && (r2 < r || (r2 == r && c2 < c))
                    ==> #[trigger] f[r2][c2] == g[r2][c2];
        if g0[r][c] != 0 {
            assert(f[r][c] == g0[r][c]);
            assert(g[r][c] == g0[r][c]);
        } else {
            let q = (r as usize, c as usize);
            assert(cells.contains(q));
            let j = choose|j: int| 0 <= j < cells.len() && cells[j] == q;
            assert forall|m: int| 0 <= m < j implies cell_of(f, #[trigger] cells[m]) == cell_of(
                g,
                cells[m],
            ) by {
                assert(row_major_before(cells[m], cells[j]));
                assert(f[cells[m].0 as int][cells[m].1 as int] == g[cells[m].0 as int][cells[m].1 as int]);
            }
            assert(agrees_before(f, g, cells, j));
        }
    }
}

/// Every step of the search lowers `steps_left`: writing a digit and moving on ...
proof fn lemma_steps_advance(g: Grid, cells: Seq<(usize, usize)>, i: int, n: i8)
    requires
        is_grid(g),
        0 <= i < cells.len(),
        forall|j: int|
            0 <= j < cells.len() ==> in_grid(g.len() as int, (#[trigger] cells[j]).0 as int, cells[j].1 as int)
                && 0 <= cell_of(g, cells[j]) <= g.len(),
        forall|a: int, b: int| 0 <= a < b < cells.len() ==> row_major_before(cells[a], cells[b]),
        forall|j: int| i < j < cells.len() ==> cell_of(g, #[trigger] cells[j]) == 0,
        cell_of(g, cells[i]) < n <= g.len(),
    ensures
        ({
            let h = with_cell(g, cells[i].0 as int, cells[i].1 as int, n);
            let upto = if i + 1 < cells.len() {
                i + 2
            } else {
                i + 1
            };
            0 <= steps_left(h, cells, upto) < steps_left(g, cells, i + 1)
        }),
{
    let p = cells[i];
    let side = g.len() as int;
    let h = with_cell(g, p.0 as int, p.1 as int, n);
    lemma_with_cell(g, p.0 as int, p.1 as int, n);
    let v = cell_of(g, p);
    let rest = (cells.len() - i - 1) as nat;
    let budget = search_budget(side, rest);
    lemma_search_budget_nonneg(side, rest);
    assert forall|j: int| 0 <= j < i implies cell_of(g, #[trigger] cells[j]) == cell_of(
        h,
        cells[j],
    ) by {
        lemma_cells_distinct(cells, i, j);
    }
    lemma_steps_left_frame(g, h, cells, i);
    assert forall|j: int| 0 <= j < cells.len() implies 0 <= cell_of(h, #[trigger] cells[j])
        <= h.len() by {
        if j != i {
            lemma_cells_distinct(cells, i, j);
        }
        assert(0 <= cell_of(g, cells[j]) <= g.len());
    }
    let before = steps_left(g, cells, i);
    assert(steps_left(g, cells, i + 1) == before + (side - v) * (1 + budget) + 1);
    assert(steps_left(h, cells, i + 1) == before + (side - n) * (1 + budget) + 1);
    assert((side - n) * (1 + budget) + (1 + budget) <= (side - v) * (1 + budget))
        by (nonlinear_arith)
        requires
            v < n,
            0 <= budget,
    ;
    if i + 1 < cells.len() {
        lemma_cells_distinct(cells, i, i + 1);
        assert(cell_of(g, cells[i + 1]) == 0);
        assert(cell_of(h, cells[i + 1]) == 0);
        assert(budget == side * (1 + search_budget(side, (rest - 1) as nat)) + 1);
        assert(steps_left(h, cells, i + 2) == steps_left(h, cells, i + 1) + (side - 0) * (1
            + search_budget(side, (rest - 1) as nat)) + 1);
        lemma_steps_left_nonneg(h, cells, i + 2);
    } else {
        lemma_steps_left_nonneg(h, cells, i + 1);
    }
}

/// ... and emptying a cell and stepping back.
proof fn lemma_steps_retreat(g: Grid, cells: Seq<(usize, usize)>, i: int)
    requires
        is_grid(g),
        0 < i < cells.len(),
        forall|j: int|
            0 <= j < cells.len() ==> in_grid(g.len() as int, (#[trigger] cells[j]).0 as int, cells[j].1 as int)
                && 0 <= cell_of(g, cells[j]) <= g.len(),
        forall|a: int, b: int| 0 <= a < b < cells.len() ==> row_major_before(cells[a], cells[b]),
    ensures
        0 <= steps_left(with_cell(g, cells[i].0 as int, cells[i].1 as int, 0), cells, i) < steps_left(
            g,
            cells,
            i + 1,
        ),
{
    let p = cells[i];
    let side = g.len() as int;
    let h = with_cell(g, p.0 as int, p.1 as int, 0);
    lemma_with_cell(g, p.0 as int, p.1 as int, 0);
    let v = cell_of(g, p);
    let rest = (cells.len() - i - 1) as nat;
    let budget = search_budget(side, rest);
    lemma_search_budget_nonneg(side, rest);
    assert forall|j: int| 0 <= j < i implies cell_of(g, #[trigger] cells[j]) == cell_of(
        h,
        cells[j],
    ) by {
        lemma_cells_distinct(cells, i, j);
    }
    lemma_steps_left_frame(g, h, cells, i);
    lemma_steps_left_nonneg(g, cells, i);
    assert(0 <= (side - v) * (1 + budget)) by (nonlinear_arith)
        requires
            0 <= side - v,
            0 <= budget,
    ;
}

/// Where the filled cells do not contradict one another, a filling is a
/// solved grid.
pub proof fn lemma_filling_solves(g: Grid, f: Grid)
    requires
        is_grid(g),
        givens_consistent(g),
        fills(g, f),
    ensures
        solves(g, f),
{
    assert forall|r: int, c: int| in_grid(f.len() as int, r, c) implies is_digit(
        f.len() as int,
        #[trigger] f[r][c],
    ) && valid_at(f, f[r][c], r, c) by {
        if g[r][c] != 0 {
            lemma_given_stays_valid(g, f, r, c);
        }
    }
}

/// A solved grid that keeps the filled cells is a filling, and the filled
/// cells do not contradict one another.
pub proof fn lemma_solution_fills(g: Grid, f: Grid)
    requires
        is_grid(g),
        solves(g, f),
    ensures
        fills(g, f),
        givens_consistent(g),
{
    let side = g.len() as int;
    let b = block_side(side);
    assert forall|r: int, c: int|
        in_grid(side, r, c) && #[trigger] g[r][c] != 0 implies is_digit(side, g[r][c]) && valid_at(
        g,
        g[r][c],
        r,
        c,
    ) by {
        let v = g[r][c];
        assert(f[r][c] == v);
        assert(valid_at(f, v, r, c));
        assert forall|r2: int, c2: int|
            in_grid(side, r2, c2) && sees(b, r, c, r2, c2) implies #[trigger] g[r2][c2] != v by {
            if g[r2][c2] != 0 {
                assert(f[r2][c2] == g[r2][c2]);
            }
        }
    }
    assert forall|r: int, c: int| in_grid(side, r, c) && g[r][c] == 0 implies is_digit(
        side,
        #[trigger] f[r][c],
    ) && valid_at(f, f[r][c], r, c) by {}
}

/// Fills the empty cells by exhaustive search.
///
/// Returns whether the empty cells can be filled so that each of them passes
/// the check. If so, the grid holds the filling that comes first in reading
/// order; if not, the grid is as it was. The cells that were filled on entry
/// are never changed, and never checked against one another: where they do
/// not contradict one another, the filling is a solved grid, and one is found
/// whenever there is one.
pub fn solve_backtracking(matrix: &mut Vec<Vec<i8>>) -> (ok: bool)
    requires
        is_grid(old(matrix).deep_view()),
    ensures
        is_grid(final(matrix).deep_view()),
        ok == can_be_filled(old(matrix).deep_view()),
        ok ==> fills(old(matrix).deep_view(), final(matrix).deep_view()),
        ok ==> forall|f: Grid|
            fills(old(matrix).deep_view(), f) ==> !comes_before(f, final(matrix).deep_view()),
        !ok ==> final(matrix).deep_view() == old(matrix).deep_view(),
        solvable(old(matrix).deep_view()) ==> ok,
        ok && givens_consistent(old(matrix).deep_view()) ==> solves(
            old(matrix).deep_view(),
            final(matrix).deep_view(),
        ) && each_digit_once(final(matrix).deep_view()),
{
    let ghost g0 = matrix.deep_view();
    proof {
        if solvable(g0) {
            let f = choose|f: Grid| solves(g0, f);
            lemma_solution_fills(g0, f);
        }
    }
    let positions: Vec<(usize, usize)> = empty_cells(matrix);
    let ghost cells = positions@;

    let mut i: usize = 0;
    proof {
        assert(search_state(g0, g0, cells, 0));
        assert forall|f: Grid| fills(g0, f) implies ahead(f, g0, cells, 0) by {
            if cells.len() > 0 {
                let q = cells[0];
                assert(g0[q.0 as int][q.1 as int] == 0);
                assert(is_digit(g0.len() as int, f[q.0 as int][q.1 as int]));
            }
        }
    }
    while i < positions.len()
        invariant
            g0 == old(matrix).deep_view(),
            solvable(g0) ==> can_be_filled(g0),
            cells == positions@,
            search_state(g0, matrix.deep_view(), cells, i as int),
            forall|f: Grid| fills(g0, f) ==> ahead(f, matrix.deep_view(), cells, i as int),
        decreases
            steps_left(
                matrix.deep_view(),
                cells,
                if i < cells.len() {
                    i + 1
                } else {
                    i as int
                },
            ),
    {
        let ghost g = matrix.deep_view();
        proof {
            lemma_same_shape_grid(g0, g);
            lemma_grid_rows(matrix);
        }
        let pos: (usize, usize) = positions[i];
        let current: i8 = matrix[pos.0][pos.1];
        assert(current == cell_of(g, cells[i as int]));
        match next_candidate(matrix, pos, current) {
            Some(new_val) => {
                matrix[pos.0][pos.1] = new_val;
                proof {
                    lemma_cell_written(g, matrix, pos.0 as int, pos.1 as int, new_val);
                    lemma_advance(g0, g, cells, i as int, new_val);
                    assert forall|f: Grid| fills(g0, f) implies ahead(
                        f,
                        matrix.deep_view(),
                        cells,
                        i + 1,
                    ) by {
                        lemma_ahead_advance(g0, f, g, cells, i as int, new_val);
                    }
                    lemma_steps_advance(g, cells, i as int, new_val);
                }
                i += 1;
            },
            None => {
                matrix[pos.0][pos.1] = 0;
                proof {
                    lemma_cell_written(g, matrix, pos.0 as int, pos.1 as int, 0);
                    lemma_retreat(g0, g, cells, i as int);
                    assert forall|f: Grid| fills(g0, f) implies i > 0 && ahead(
                        f,
                        matrix.deep_view(),
                        cells,
                        i - 1,
                    ) by {
                        lemma_ahead_retreat(g0, f, g, cells, i as int);
                    }
                }
                if i == 0 {
                    return false;
                }
                proof {
                    lemma_steps_retreat(g, cells, i as int);
                }
                i -= 1;
            },
        }
    }
    proof {
        let g = matrix.deep_view();
        lemma_same_shape_grid(g0, g);
        assert(fills(g0, g)) by {
            assert forall|r: int, c: int|
                in_grid(g0.len() as int, r, c) && g0[r][c] == 0 implies is_digit(
                g0.len() as int,
                #[trigger] g[r][c],
            ) && valid_at(g, g[r][c], r, c) by {
                let q = (r as usize, c as usize);
                assert(cells.contains(q));
                let j = choose|j: int| 0 <= j < cells.len() && cells[j] == q;
                assert(cell_of(g, cells[j]) >= 1);
                assert(0 <= cell_of(g, cells[j]) <= g.len());
            }
        }
        assert forall|f: Grid| fills(g0, f) implies !comes_before(f, g) by {
            lemma_first_filling(g0, f, g, cells);
        }
        if givens_consistent(g0) {
            lemma_filling_solves(g0, g);
            lemma_same_shape_grid(g0, g);
            lemma_solved_each_digit_once(g);
        }
    }
    true
}

} // verus!
