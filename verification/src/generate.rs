//! The puzzle generator: random digits are placed in random empty cells,
//! each where it passes the check against what the grid holds by then.

use crate::constraints::is_value_valid;
use crate::grid::{
    block_side, extends, in_grid, is_digit, is_grid, lemma_cell_written, lemma_grid_rows,
    lemma_same_shape_grid, lemma_with_cell, sees, valid_at, with_cell, Grid,
};
use crate::random::random_in;
use crate::solved::{givens_consistent, lemma_given_stays_valid};
use vstd::prelude::*;

verus! {

/// The draws of a digit allowed for one cell, for each unit of the grid's
/// side: a grid of side 9 gets 576 draws for a cell before the cell is given up.
pub const DRAWS_PER_SIDE: usize = 64;

/// The number of filled cells in a row.
pub open spec fn filled_in_row(row: Seq<i8>) -> nat
    decreases row.len(),
{
    if row.len() == 0 {
        0
    } else {
        filled_in_row(row.drop_last()) + if row.last() != 0 {
            1nat
        } else {
            0nat
        }
    }
}

/// The number of filled cells in a grid.
pub open spec fn filled_cells(g: Grid) -> nat
    decreases g.len(),
{
    if g.len() == 0 {
        0
    } else {
        filled_cells(g.drop_last()) + filled_in_row(g.last())
    }
}

/// `g` is `g0` with digits placed in some of its empty cells, each of which
/// passes the check in `g`.
pub open spec fn placed_on(g0: Grid, g: Grid) -> bool {
    &&& extends(g0, g)
    &&& forall|r: int, c: int|
        in_grid(g0.len() as int, r, c) && g0[r][c] == 0 && #[trigger] g[r][c] != 0 ==> is_digit(
            g0.len() as int,
            g[r][c],
        ) && valid_at(g, g[r][c], r, c)
}

/// Filling one empty cell of a row adds one to its filled cells.
proof fn lemma_filled_in_row(row: Seq<i8>, c: int, v: i8)
    requires
        0 <= c < row.len(),
        row[c] == 0,
        v != 0,
    ensures
        filled_in_row(row.update(c, v)) == filled_in_row(row) + 1,
    decreases row.len(),
{
    let after = row.update(c, v);
    if c == row.len() - 1 {
        assert(after.drop_last() == row.drop_last());
    } else {
        assert(after.drop_last() == row.drop_last().update(c, v));
        lemma_filled_in_row(row.drop_last(), c, v);
    }
}

/// Filling one empty cell of a grid adds one to its filled cells.
proof fn lemma_filled_cells(g: Grid, r: int, c: int, v: i8)
    requires
        0 <= r < g.len(),
        0 <= c < g[r].len(),
        g[r][c] == 0,
        v != 0,
    ensures
        filled_cells(with_cell(g, r, c, v)) == filled_cells(g) + 1,
    decreases g.len(),
{
    let after = with_cell(g, r, c, v);
    if r == g.len() - 1 {
        assert(after.drop_last() == g.drop_last());
        lemma_filled_in_row(g[r], c, v);
    } else {
        assert(after.drop_last() == with_cell(g.drop_last(), r, c, v));
        lemma_filled_cells(g.drop_last(), r, c, v);
    }
}

/// A grid with a filled cell counts at least one filled cell.
proof fn lemma_filled_somewhere(g: Grid, r: int, c: int)
    requires
        0 <= r < g.len(),
        0 <= c < g[r].len(),
        g[r][c] != 0,
    ensures
        filled_cells(g) >= 1,
    decreases g.len(),
{
    if r == g.len() - 1 {
        lemma_filled_in_row_somewhere(g[r], c);
    } else {
        lemma_filled_somewhere(g.drop_last(), r, c);
    }
}

/// A row with a filled cell counts at least one filled cell.
proof fn lemma_filled_in_row_somewhere(row: Seq<i8>, c: int)
    requires
        0 <= c < row.len(),
        row[c] != 0,
    ensures
        filled_in_row(row) >= 1,
    decreases row.len(),
{
    if c < row.len() - 1 {
        lemma_filled_in_row_somewhere(row.drop_last(), c);
    }
}

/// Placing in an empty cell a digit that passes the check keeps all that
/// was placed before passing the check.
proof fn lemma_place(g0: Grid, g: Grid, r: int, c: int, v: i8)
    requires
        is_grid(g0),
        placed_on(g0, g),
        in_grid(g.len() as int, r, c),
        g[r][c] == 0,
        is_digit(g.len() as int, v),
        valid_at(g, v, r, c),
    ensures
        placed_on(g0, with_cell(g, r, c, v)),
{
    let h = with_cell(g, r, c, v);
    let side = g.len() as int;
    let b = block_side(side);
    lemma_same_shape_grid(g0, g);
    assert(h.len() == g.len());
    assert forall|r2: int| 0 <= r2 < g0.len() implies (#[trigger] g0[r2]).len() == h[r2].len() by {
        assert(g0[r2].len() == g[r2].len());
    }
    assert forall|r2: int, c2: int| in_grid(side, r2, c2) && g0[r2][c2] != 0 implies #[trigger] h[r2][c2]
        == g0[r2][c2] by {
        assert(g[r2][c2] == g0[r2][c2]);
    }
    assert forall|r2: int, c2: int|
        in_grid(side, r2, c2) && g0[r2][c2] == 0 && #[trigger] h[r2][c2] != 0 implies is_digit(
        side,
        h[r2][c2],
    ) && valid_at(h, h[r2][c2], r2, c2) by {
        let w = h[r2][c2];
        if r2 != r || c2 != c {
            assert(g[r2][c2] == w);
            assert(valid_at(g, w, r2, c2));
        }
        assert forall|r3: int, c3: int|
            in_grid(side, r3, c3) && sees(b, r2, c2, r3, c3) implies #[trigger] h[r3][c3] != w by {
            if r3 == r && c3 == c {
                assert(sees(b, r, c, r2, c2));
                assert(g[r2][c2] != v);
            } else {
                assert(g[r3][c3] != w);
            }
        }
    }
}

/// Places `digit` at `pos` if the cell is empty and the digit passes the
/// check there; tells whether it did.
pub fn place_digit(matrix: &mut Vec<Vec<i8>>, pos: (usize, usize), digit: i8) -> (placed: bool)
    requires
        is_grid(old(matrix).deep_view()),
        in_grid(old(matrix).len() as int, pos.0 as int, pos.1 as int),
    ensures
        placed == (old(matrix).deep_view()[pos.0 as int][pos.1 as int] == 0 && valid_at(
            old(matrix).deep_view(),
            digit,
            pos.0 as int,
            pos.1 as int,
        )),
        placed ==> final(matrix).deep_view() == with_cell(
            old(matrix).deep_view(),
            pos.0 as int,
            pos.1 as int,
            digit,
        ),
        !placed ==> final(matrix).deep_view() == old(matrix).deep_view(),
{
    let ghost g = matrix.deep_view();
    proof {
        lemma_grid_rows(matrix);
    }
    if matrix[pos.0][pos.1] == 0 && is_value_valid(matrix, digit, pos) {
        matrix[pos.0][pos.1] = digit;
        proof {
            lemma_cell_written(g, matrix, pos.0 as int, pos.1 as int, digit);
        }
        true
    } else {
        false
    }
}

/// Digits placed on a grid whose filled cells do not contradict one another
/// leave a grid whose filled cells do not contradict one another.
pub proof fn lemma_placed_consistent(g0: Grid, g: Grid)
    requires
        is_grid(g0),
        givens_consistent(g0),
        placed_on(g0, g),
    ensures
        givens_consistent(g),
{
    assert forall|r: int, c: int|
        in_grid(g.len() as int, r, c) && #[trigger] g[r][c] != 0 implies is_digit(
        g.len() as int,
        g[r][c],
    ) && valid_at(g, g[r][c], r, c) by {
        if g0[r][c] != 0 {
            lemma_given_stays_valid(g0, g, r, c);
        }
    }
}

/// Seeds the grid with random digits: `rnd_size` times a cell is drawn, and
/// if it is empty, digits are drawn for it (`DRAWS_PER_SIDE` times the side
/// at most) until one passes the check and is placed there.
///
/// Returns whether every time the drawn cell was left filled. Whatever is
/// drawn: filled cells stay, each attempt places at most one digit and one
/// that gives its cell up places none, every digit placed passes the check,
/// and a grid that is all empty gets a digit at the first attempt.
pub fn generate_random_matrix(matrix: &mut Vec<Vec<i8>>, rnd_size: usize) -> (complete: bool)
    requires
        is_grid(old(matrix).deep_view()),
    ensures
        is_grid(final(matrix).deep_view()),
        placed_on(old(matrix).deep_view(), final(matrix).deep_view()),
        filled_cells(final(matrix).deep_view()) + given_up(complete) <= filled_cells(
            old(matrix).deep_view(),
        ) + rnd_size,
        rnd_size == 0 || !has_empty_cell(old(matrix).deep_view()) ==> complete,
        rnd_size == 0 || !has_empty_cell(old(matrix).deep_view()) ==> final(matrix).deep_view()
            == old(matrix).deep_view(),
        rnd_size > 0 && (complete || is_empty_grid(old(matrix).deep_view())) ==> filled_cells(
            final(matrix).deep_view(),
        ) >= 1,
        givens_consistent(old(matrix).deep_view()) ==> givens_consistent(final(matrix).deep_view()),
{
    let ghost g0 = matrix.deep_view();
    let size: usize = matrix.len();
    let limit: usize = DRAWS_PER_SIDE * size;
    let mut complete: bool = true;
    let mut attempt: usize = 0;
    while attempt < rnd_size
        invariant
            is_grid(g0),
            size == g0.len(),
            limit == DRAWS_PER_SIDE * size,
            attempt <= rnd_size,
            placed_on(g0, matrix.deep_view()),
            filled_cells(matrix.deep_view()) + given_up(complete) <= filled_cells(g0) + attempt,
            attempt == 0 ==> complete && matrix.deep_view() == g0,
            !complete ==> has_empty_cell(g0),
            attempt > 0 && (complete || is_empty_grid(g0)) ==> filled_cells(matrix.deep_view())
                >= 1,
        decreases rnd_size - attempt,
    {
        let row: usize = random_in(0, size);
        let col: usize = random_in(0, size);
        proof {
            lemma_same_shape_grid(g0, matrix.deep_view());
            lemma_grid_rows(matrix);
        }
        let mut draws: usize = 0;
        while matrix[row][col] == 0 && draws < limit
            invariant
                is_grid(g0),
                size == g0.len(),
                row < size,
                col < size,
                draws <= limit,
                placed_on(g0, matrix.deep_view()),
                is_grid(matrix.deep_view()),
                forall|r: int| 0 <= r < size ==> (#[trigger] matrix@[r]).len() == size,
                matrix@[row as int]@[col as int] == matrix.deep_view()[row as int][col as int],
                filled_cells(matrix.deep_view()) + given_up(complete) <= filled_cells(g0) + attempt
                    + 1,
                matrix.deep_view()[row as int][col as int] == 0 ==> filled_cells(matrix.deep_view())
                    + given_up(complete) <= filled_cells(g0) + attempt,
                attempt == 0 && matrix.deep_view()[row as int][col as int] == 0
                    ==> matrix.deep_view() == g0,
                attempt == 0 && is_empty_grid(g0) && draws > 0 ==> matrix.deep_view()[row as int][col as int]
                    != 0,
                attempt > 0 && (complete || is_empty_grid(g0)) ==> filled_cells(matrix.deep_view())
                    >= 1,
            decreases limit - draws,
        {
            let ghost g = matrix.deep_view();
            let new_value: i8 = random_in(1, size + 1) as i8;
            proof {
                if attempt == 0 && is_empty_grid(g0) {
                    lemma_fits_empty_grid(g, new_value, row as int, col as int);
                }
            }
            let placed: bool = place_digit(matrix, (row, col), new_value);
            proof {
                if placed {
                    lemma_place(g0, g, row as int, col as int, new_value);
                    lemma_filled_cells(g, row as int, col as int, new_value);
                    lemma_with_cell(g, row as int, col as int, new_value);
                }
                lemma_same_shape_grid(g0, matrix.deep_view());
                lemma_grid_rows(matrix);
            }
            draws += 1;
        }
        if matrix[row][col] == 0 {
            proof {
                // The cell was empty from the start, for no filled cell changes.
                assert(g0[row as int][col as int] == 0);
                assert(in_grid(g0.len() as int, row as int, col as int));
            }
            complete = false;
        } else {
            proof {
                lemma_filled_somewhere(matrix.deep_view(), row as int, col as int);
            }
        }
        attempt += 1;
    }
    proof {
        lemma_same_shape_grid(g0, matrix.deep_view());
        if givens_consistent(g0) {
            lemma_placed_consistent(g0, matrix.deep_view());
        }
        if !has_empty_cell(g0) {
            lemma_full_grid_kept(g0, matrix.deep_view());
        }
    }
    complete
}

/// What an attempt that gave its cell up takes from the digits that can
/// have been placed: one, where the grid was not left complete.
pub open spec fn given_up(complete: bool) -> int {
    if complete {
        0
    } else {
        1
    }
}

/// Some cell of `g` is empty.
pub open spec fn has_empty_cell(g: Grid) -> bool {
    exists|r: int, c: int| in_grid(g.len() as int, r, c) && #[trigger] g[r][c] == 0
}

/// Every cell of `g` is empty.
pub open spec fn is_empty_grid(g: Grid) -> bool {
    forall|r: int, c: int| in_grid(g.len() as int, r, c) ==> #[trigger] g[r][c] == 0
}

/// In a grid that is all empty every value but the empty mark passes the
/// check at every cell.
pub proof fn lemma_fits_empty_grid(g: Grid, v: i8, r: int, c: int)
    requires
        is_empty_grid(g),
        v != 0,
    ensures
        valid_at(g, v, r, c),
{
}

/// Nothing can be placed on a grid without an empty cell.
pub proof fn lemma_full_grid_kept(g0: Grid, g: Grid)
    requires
        is_grid(g0),
        !has_empty_cell(g0),
        extends(g0, g),
    ensures
        g == g0,
{
    assert forall|r: int| 0 <= r < g0.len() implies #[trigger] g[r] == g0[r] by {
        assert(g0[r].len() == g[r].len());
        assert forall|c: int| 0 <= c < g0[r].len() implies g[r][c] == g0[r][c] by {
            assert(in_grid(g0.len() as int, r, c));
            assert(g0[r][c] != 0);
        }
        assert(g[r] =~= g0[r]);
    }
    assert(g =~= g0);
}

} // verus!
