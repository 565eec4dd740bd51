//! Laws that hold across the rule of the puzzle, the two solvers and the encoding.

use crate::backtracking::{can_be_filled, fills, lemma_solution_fills, lemma_filling_solves};
use crate::encoding::{cells_in_range, sudoku_clauses};
use crate::engine::{is_assignment, satisfiable, satisfies, Model};
use crate::grid::{
    block_origin, block_side, in_grid, is_digit, is_grid, lemma_same_shape_grid, same_shape, sees,
    valid_at, Grid,
};
use crate::semantics::{decodes_to, lemma_model_is_solution, lemma_solution_is_model};
use crate::solved::{
    each_digit_once, is_solved, lemma_all_digits_present, lemma_given_stays_valid,
    lemma_solved_each_digit_once, solvable, solves,
};
use vstd::prelude::*;

verus! {

/// `p` moves the lines `0`, ..., `side - 1` of a grid: no two to the same
/// place, and each within its band of `b` lines.
pub open spec fn is_band_permutation(p: Seq<int>, side: int, b: int) -> bool {
    &&& p.len() == side
    &&& forall|i: int|
        0 <= i < side ==> 0 <= #[trigger] p[i] < side && block_origin(p[i], b) == block_origin(i, b)
    &&& forall|i: int, j: int| 0 <= i < j < side ==> p[i] != p[j]
}

/// `h` is `g` with its rows moved by `rows` and its columns moved by `cols`.
pub open spec fn is_permuted(g: Grid, h: Grid, rows: Seq<int>, cols: Seq<int>) -> bool {
    &&& same_shape(g, h)
    &&& forall|r: int, c: int|
        in_grid(g.len() as int, r, c) ==> h[rows[r]][cols[c]] == #[trigger] g[r][c]
}

/// Lines that are moved one-to-one reach every place.
pub proof fn lemma_permutation_onto(p: Seq<int>, side: int, b: int, k: int)
    requires
        is_band_permutation(p, side, b),
        0 <= k < side,
    ensures
        exists|i: int| 0 <= i < side && p[i] == k,
{
    let line = Seq::new(side as nat, |i: int| p[i] + 1);
    assert forall|i: int, j: int|
        0 <= i < line.len() && 0 <= j < line.len() && i != j implies line[i] != line[j] by {
        if i < j {
            assert(p[i] != p[j]);
        } else {
            assert(p[j] != p[i]);
        }
    }
    lemma_all_digits_present(line, k + 1);
    let i = choose|i: int| 0 <= i < line.len() && line[i] == k + 1;
    assert(p[i] == k);
}

/// The empty mark passes the check nowhere, and whether a value passes the
/// check at a cell does not change when rows are moved within their bands
/// and columns within theirs, the cell moving with them.
pub proof fn lemma_valid_under_band_permutation(
    g: Grid,
    h: Grid,
    rows: Seq<int>,
    cols: Seq<int>,
    v: i8,
    r: int,
    c: int,
)
    requires
        is_grid(g),
        is_band_permutation(rows, g.len() as int, block_side(g.len() as int)),
        is_band_permutation(cols, g.len() as int, block_side(g.len() as int)),
        is_permuted(g, h, rows, cols),
        in_grid(g.len() as int, r, c),
    ensures
        valid_at(h, v, rows[r], cols[c]) == valid_at(g, v, r, c),
        !valid_at(g, 0, r, c),
{
    let s = g.len() as int;
    let b = block_side(s);
    if valid_at(g, v, r, c) {
        assert forall|r2: int, c2: int|
            in_grid(s, r2, c2) && sees(b, rows[r], cols[c], r2, c2) implies #[trigger] h[r2][c2]
            != v by {
            lemma_permutation_onto(rows, s, b, r2);
            lemma_permutation_onto(cols, s, b, c2);
            let a = choose|a: int| 0 <= a < s && rows[a] == r2;
            let e = choose|e: int| 0 <= e < s && cols[e] == c2;
            assert(h[rows[a]][cols[e]] == g[a][e]);
            assert(sees(b, r, c, a, e)) by {
                if a != r {
                    if a < r {
                        assert(rows[a] != rows[r]);
                    } else {
                        assert(rows[r] != rows[a]);
                    }
                }
                if e != c {
                    if e < c {
                        assert(cols[e] != cols[c]);
                    } else {
                        assert(cols[c] != cols[e]);
                    }
                }
            }
            assert(g[a][e] != v);
        }
    }
    if valid_at(h, v, rows[r], cols[c]) {
        assert forall|r2: int, c2: int| in_grid(s, r2, c2) && sees(b, r, c, r2, c2) implies #[trigger] g[r2][c2]
            != v by {
            assert(h[rows[r2]][cols[c2]] == g[r2][c2]);
            assert(sees(b, rows[r], cols[c], rows[r2], cols[c2])) by {
                if r2 != r {
                    if r2 < r {
                        assert(rows[r2] != rows[r]);
                    } else {
                        assert(rows[r] != rows[r2]);
                    }
                }
                if c2 != c {
                    if c2 < c {
                        assert(cols[c2] != cols[c]);
                    } else {
                        assert(cols[c] != cols[c2]);
                    }
                }
            }
            assert(in_grid(s, rows[r2], cols[c2]));
            assert(h[rows[r2]][cols[c2]] != v);
        }
    }
}

/// Encoding a solved grid and decoding any model of its formula gives the
/// grid back.
pub proof fn lemma_round_trip(g: Grid, m: Model, h: Grid)
    requires
        is_grid(g),
        is_solved(g),
        is_assignment(m),
        satisfies(m, sudoku_clauses(g)),
        same_shape(g, h),
        decodes_to(m, h),
    ensures
        h == g,
{
    assert(cells_in_range(g)) by {
        assert forall|r: int, c: int| 0 <= r < g.len() && 0 <= c < g.len() implies 0
            <= #[trigger] g[r][c] <= g.len() by {
            assert(is_digit(g.len() as int, g[r][c]));
        }
    }
    lemma_model_is_solution(m, g, h);
    assert forall|r: int| 0 <= r < g.len() implies #[trigger] h[r] == g[r] by {
        assert(g[r].len() == h[r].len());
        assert forall|c: int| 0 <= c < g[r].len() implies h[r][c] == g[r][c] by {
            assert(is_digit(g.len() as int, g[r][c]));
        }
        assert(h[r] =~= g[r]);
    }
    assert(h =~= g);
}

/// On a grid that can be solved, the search finds a filling and the formula
/// has a model; every filling is a solved grid that keeps what was filled,
/// and so is what any model decodes to; and in each of them every row,
/// column and block holds each digit once.
pub proof fn lemma_solvers_agree(g: Grid)
    requires
        is_grid(g),
        solvable(g),
    ensures
        cells_in_range(g),
        can_be_filled(g),
        satisfiable(sudoku_clauses(g)),
        forall|f: Grid| fills(g, f) ==> solves(g, f) && each_digit_once(f),
        forall|m: Model, h: Grid|
            is_assignment(m) && satisfies(m, sudoku_clauses(g)) && same_shape(g, h) && decodes_to(
                m,
                h,
            ) ==> solves(g, h) && each_digit_once(h),
{
    let f0 = choose|f: Grid| solves(g, f);
    lemma_solution_fills(g, f0);
    lemma_solution_is_model(g, f0);
    assert(cells_in_range(g)) by {
        assert forall|r: int, c: int| 0 <= r < g.len() && 0 <= c < g.len() implies 0
            <= #[trigger] g[r][c] <= g.len() by {
            if g[r][c] != 0 {
                assert(is_digit(g.len() as int, g[r][c]));
            }
        }
    }
    assert forall|f: Grid| fills(g, f) implies solves(g, f) && each_digit_once(f) by {
        lemma_filling_solves(g, f);
        lemma_same_shape_grid(g, f);
        lemma_solved_each_digit_once(f);
    }
    assert forall|m: Model, h: Grid|
        is_assignment(m) && satisfies(m, sudoku_clauses(g)) && same_shape(g, h) && decodes_to(
            m,
            h,
        ) implies solves(g, h) && each_digit_once(h) by {
        lemma_model_is_solution(m, g, h);
        lemma_same_shape_grid(g, h);
        lemma_solved_each_digit_once(h);
    }
}

/// `g` holds the same digit at `(r, c1)` and `(r, c2)`, two cells of one
/// row, and every other filled cell holds a digit that passes the check.
pub open spec fn has_row_duplicate(g: Grid, r: int, c1: int, c2: int) -> bool {
    &&& in_grid(g.len() as int, r, c1)
    &&& in_grid(g.len() as int, r, c2)
    &&& c1 != c2
    &&& g[r][c1] == g[r][c2]
    &&& is_digit(g.len() as int, g[r][c1])
    &&& forall|r2: int, c: int|
        in_grid(g.len() as int, r2, c) && #[trigger] g[r2][c] != 0 && !(r2 == r && (c == c1 || c
            == c2)) ==> is_digit(g.len() as int, g[r2][c]) && valid_at(g, g[r2][c], r2, c)
}

/// Row `r` holds `d` somewhere.
pub open spec fn row_holds(g: Grid, r: int, d: i8) -> bool {
    exists|c: int| 0 <= c < g.len() && #[trigger] g[r][c] == d
}

/// A grid with the same digit twice in one row, and nothing else amiss,
/// cannot be filled: the search reports failure on it.
pub proof fn lemma_row_duplicate_fails(g: Grid, r: int, c1: int, c2: int)
    requires
        is_grid(g),
        has_row_duplicate(g, r, c1, c2),
    ensures
        !can_be_filled(g),
{
    if can_be_filled(g) {
        let f = choose|f: Grid| fills(g, f);
        let s = g.len() as int;
        let b = block_side(s);
        let x = g[r][c1];
        assert(f[r][c1] == x && f[r][c2] == x);
        // Every cell but the two holds in `f` a digit that passes the check.
        assert forall|r2: int, c: int|
            in_grid(s, r2, c) && !(r2 == r && (c == c1 || c == c2)) implies is_digit(
            s,
            #[trigger] f[r2][c],
        ) && valid_at(f, f[r2][c], r2, c) by {
            if g[r2][c] != 0 {
                lemma_given_stays_valid(g, f, r2, c);
            }
        }
        // Every other row holds the digit somewhere.
        assert forall|r2: int| 0 <= r2 < s && r2 != r implies #[trigger] row_holds(f, r2, x) by {
            let row = Seq::new(s as nat, |c: int| f[r2][c] as int);
            assert forall|i: int, j: int|
                0 <= i < row.len() && 0 <= j < row.len() && i != j implies row[i] != row[j] by {
                assert(valid_at(f, f[r2][i], r2, i));
                assert(sees(b, r2, i, r2, j));
                assert(f[r2][j] != f[r2][i]);
            }
            assert forall|i: int| 0 <= i < row.len() implies 1 <= #[trigger] row[i] <= row.len() by {
                assert(is_digit(s, f[r2][i]));
            }
            lemma_all_digits_present(row, x as int);
            let c = choose|c: int| 0 <= c < row.len() && row[c] == x as int;
            assert(f[r2][c] == x);
        }
        // The columns where the rows hold the digit, counted from 1; the row
        // of the two cells is counted at the first of them.
        let places = Seq::new(
            s as nat,
            |r2: int|
                if r2 == r {
                    c1 + 1
                } else {
                    (choose|c: int| 0 <= c < s && #[trigger] f[r2][c] == x) + 1
                },
        );
        assert forall|i: int| 0 <= i < places.len() implies 1 <= #[trigger] places[i]
            <= places.len() && f[i][places[i] - 1] == x by {
            if i != r {
                assert(row_holds(f, i, x));
            }
        }
        assert forall|i: int, j: int|
            0 <= i < places.len() && 0 <= j < places.len() && i != j implies places[i]
            != places[j] by {
            if places[i] == places[j] {
                let c = places[i] - 1;
                assert(f[i][c] == x && f[j][c] == x);
                assert(sees(b, i, c, j, c) && sees(b, j, c, i, c));
                if i != r {
                    assert(valid_at(f, f[i][c], i, c));
                    assert(f[j][c] != x);
                } else {
                    assert(valid_at(f, f[j][c], j, c));
                    assert(f[i][c] != x);
                }
            }
        }
        lemma_all_digits_present(places, c2 + 1);
        let r2 = choose|r2: int| 0 <= r2 < places.len() && places[r2] == c2 + 1;
        assert(r2 != r);
        assert(f[r2][c2] == x);
        assert(valid_at(f, f[r2][c2], r2, c2));
        assert(sees(b, r2, c2, r, c2));
        assert(false);
    }
}

} // verus!
