//! What the formula of a grid says: a model of it is a solved grid that
//! keeps the filled cells, and every such grid is a model of it.

use crate::encoding::{
    at_most_one, block_exclusions, block_exclusions_in, block_exclusions_in_band, block_line,
    cell_clause, cell_clauses, cell_clauses_in_row, col_exclusions, col_exclusions_in, col_line,
    exclusion, exclusions_from, given_clause, given_clauses, given_clauses_in_row, join,
    row_exclusions, row_exclusions_in, row_line, sudoku_clauses, Clause,
};
use crate::encoding::{
    cells_in_range, lemma_lit_index_parts, lemma_lit_index_range, lemma_var_count_fits, lit_index,
    var_at, var_count,
};
use crate::engine::{
    clause_true, denies, holds, is_assignment, satisfiable, satisfies, Model,
};
use crate::grid::{
    block_side, in_grid, is_block_side, is_digit, is_grid, lemma_block_cells, lemma_block_side,
    lemma_cell_in_block, lemma_same_shape_grid, same_shape, sees, valid_at, Grid, MAX_SIDE,
};
use crate::solved::{is_solved, lemma_solved_each_digit_once, once_in_row, solvable, solves};
use vstd::prelude::*;

verus! {

/// A model satisfies two lists of clauses, one after the other, exactly when
/// it satisfies both.
pub proof fn lemma_satisfies_concat(m: Model, a: Seq<Clause>, b: Seq<Clause>)
    ensures
        satisfies(m, a + b) == (satisfies(m, a) && satisfies(m, b)),
{
    if satisfies(m, a + b) {
        assert forall|k: int| 0 <= k < a.len() implies clause_true(m, #[trigger] a[k]) by {
            assert((a + b)[k] == a[k]);
        }
        assert forall|k: int| 0 <= k < b.len() implies clause_true(m, #[trigger] b[k]) by {
            assert((a + b)[a.len() + k] == b[k]);
        }
    }
    if satisfies(m, a) && satisfies(m, b) {
        assert forall|k: int| 0 <= k < (a + b).len() implies clause_true(m, #[trigger] (a + b)[k]) by {
            if k < a.len() {
                assert((a + b)[k] == a[k]);
            } else {
                assert((a + b)[k] == b[k - a.len()]);
            }
        }
    }
}

/// A model satisfies joined parts exactly when it satisfies each part.
pub proof fn lemma_satisfies_join(m: Model, count: nat, part: spec_fn(int) -> Seq<Clause>)
    ensures
        satisfies(m, join(count, part)) == (forall|k: int|
            0 <= k < count ==> satisfies(m, #[trigger] part(k))),
    decreases count,
{
    if count > 0 {
        lemma_satisfies_join(m, (count - 1) as nat, part);
        lemma_satisfies_concat(m, join((count - 1) as nat, part), part(count - 1));
    }
}

/// In the model, at most one variable of the line holds, as far as denials
/// go: of any two, one is denied.
pub open spec fn one_denied(m: Model, line: Seq<usize>) -> bool {
    forall|i: int, j: int|
        0 <= i < j < line.len() ==> denies(m, #[trigger] line[i]) || denies(m, #[trigger] line[j])
}

/// An exclusion is true exactly when one of its two variables is denied.
pub proof fn lemma_exclusion_true(m: Model, a: usize, b: usize)
    ensures
        clause_true(m, exclusion(a, b)) == (denies(m, a) || denies(m, b)),
{
    let clause = exclusion(a, b);
    assert(clause[0] == (a, false) && clause[1] == (b, false));
    if denies(m, a) {
        assert(m.contains(clause[0]));
    }
    if denies(m, b) {
        assert(m.contains(clause[1]));
    }
}

/// The exclusions of a line are satisfied exactly when, of any two of its
/// variables, one is denied.
pub proof fn lemma_satisfies_at_most_one(m: Model, line: Seq<usize>)
    ensures
        satisfies(m, at_most_one(line, line.len())) == one_denied(m, line),
{
    let len = line.len() as int;
    let part = |i: int| exclusions_from(line, i, len);
    lemma_satisfies_join(m, line.len(), part);
    assert forall|i: int| 0 <= i < len implies (satisfies(m, #[trigger] part(i)) == (forall|j: int|
        i < j < len ==> denies(m, line[i]) || denies(m, #[trigger] line[j]))) by {
        let clauses = exclusions_from(line, i, len);
        if satisfies(m, clauses) {
            assert forall|j: int| i < j < len implies denies(m, line[i]) || denies(
                m,
                #[trigger] line[j],
            ) by {
                assert(clauses[j - i - 1] == exclusion(line[i], line[j]));
                assert(clause_true(m, clauses[j - i - 1]));
                lemma_exclusion_true(m, line[i], line[j]);
            }
        }
        if forall|j: int| i < j < len ==> denies(m, line[i]) || denies(m, #[trigger] line[j]) {
            assert forall|k: int| 0 <= k < clauses.len() implies clause_true(
                m,
                #[trigger] clauses[k],
            ) by {
                let j = i + 1 + k;
                assert(denies(m, line[i]) || denies(m, line[j]));
                lemma_exclusion_true(m, line[i], line[j]);
            }
        }
    }
    if satisfies(m, at_most_one(line, line.len())) {
        assert forall|i: int, j: int| 0 <= i < j < line.len() implies denies(m, #[trigger] line[i])
            || denies(m, #[trigger] line[j]) by {
            assert(satisfies(m, part(i)));
        }
    }
    if one_denied(m, line) {
        assert forall|i: int| 0 <= i < len implies satisfies(m, #[trigger] part(i)) by {
            assert forall|j: int| i < j < len implies denies(m, line[i]) || denies(
                m,
                #[trigger] line[j],
            ) by {}
        }
    }
}

/// What the formula of `g` says of a model, clause family by clause family:
/// every cell has a digit asserted; along every row, along every column and
/// over every block, of any two variables of one digit one is denied; and
/// the digit of every filled cell is asserted.
pub open spec fn says_rules(m: Model, g: Grid) -> bool {
    let s = g.len() as int;
    let b = block_side(s);
    &&& forall|r: int, c: int| in_grid(s, r, c) ==> clause_true(m, #[trigger] cell_clause(s, r, c))
    &&& forall|r: int, n: int|
        0 <= r < s && 0 <= n < s ==> one_denied(m, #[trigger] row_line(s, r, n))
    &&& forall|c: int, n: int|
        0 <= c < s && 0 <= n < s ==> one_denied(m, #[trigger] col_line(s, c, n))
    &&& forall|br: int, bc: int, n: int|
        0 <= br < b && 0 <= bc < b && 0 <= n < s ==> one_denied(
            m,
            #[trigger] block_line(s, b, br, bc, n),
        )
    &&& forall|r: int, c: int| in_grid(s, r, c) ==> satisfies(m, #[trigger] given_clause(g, r, c))
}

proof fn lemma_cells_meaning(m: Model, s: int)
    requires
        0 <= s,
    ensures
        satisfies(m, cell_clauses(s, s as nat)) == (forall|r: int, c: int|
            in_grid(s, r, c) ==> clause_true(m, #[trigger] cell_clause(s, r, c))),
{
    let outer = |r: int| cell_clauses_in_row(s, r, s as nat);
    lemma_satisfies_join(m, s as nat, outer);
    assert forall|r: int| 0 <= r < s implies (satisfies(m, #[trigger] outer(r)) == (forall|c: int|
        0 <= c < s ==> clause_true(m, #[trigger] cell_clause(s, r, c)))) by {
        let inner = |c: int| seq![cell_clause(s, r, c)];
        lemma_satisfies_join(m, s as nat, inner);
        assert forall|c: int| 0 <= c < s implies (satisfies(m, #[trigger] inner(c)) == clause_true(
            m,
            cell_clause(s, r, c),
        )) by {
            assert(inner(c)[0] == cell_clause(s, r, c));
        }
        if satisfies(m, outer(r)) {
            assert forall|c: int| 0 <= c < s implies clause_true(
                m,
                #[trigger] cell_clause(s, r, c),
            ) by {
                assert(satisfies(m, inner(c)));
            }
        }
    }
    if satisfies(m, cell_clauses(s, s as nat)) {
        assert forall|r: int, c: int| in_grid(s, r, c) implies clause_true(
            m,
            #[trigger] cell_clause(s, r, c),
        ) by {
            assert(satisfies(m, outer(r)));
        }
    }
}

proof fn lemma_rows_meaning(m: Model, s: int)
    requires
        0 <= s,
    ensures
        satisfies(m, row_exclusions(s, s as nat)) == (forall|r: int, n: int|
            0 <= r < s && 0 <= n < s ==> one_denied(m, #[trigger] row_line(s, r, n))),
{
    let outer = |r: int| row_exclusions_in(s, r, s as nat);
    lemma_satisfies_join(m, s as nat, outer);
    assert forall|r: int| 0 <= r < s implies (satisfies(m, #[trigger] outer(r)) == (forall|n: int|
        0 <= n < s ==> one_denied(m, #[trigger] row_line(s, r, n)))) by {
        let inner = |n: int| at_most_one(row_line(s, r, n), s as nat);
        lemma_satisfies_join(m, s as nat, inner);
        assert forall|n: int| 0 <= n < s implies (satisfies(m, #[trigger] inner(n)) == one_denied(
            m,
            row_line(s, r, n),
        )) by {
            lemma_satisfies_at_most_one(m, row_line(s, r, n));
        }
        if satisfies(m, outer(r)) {
            assert forall|n: int| 0 <= n < s implies one_denied(m, #[trigger] row_line(s, r, n)) by {
                assert(satisfies(m, inner(n)));
            }
        }
    }
    if satisfies(m, row_exclusions(s, s as nat)) {
        assert forall|r: int, n: int| 0 <= r < s && 0 <= n < s implies one_denied(
            m,
            #[trigger] row_line(s, r, n),
        ) by {
            assert(satisfies(m, outer(r)));
        }
    }
}

proof fn lemma_cols_meaning(m: Model, s: int)
    requires
        0 <= s,
    ensures
        satisfies(m, col_exclusions(s, s as nat)) == (forall|c: int, n: int|
            0 <= c < s && 0 <= n < s ==> one_denied(m, #[trigger] col_line(s, c, n))),
{
    let outer = |c: int| col_exclusions_in(s, c, s as nat);
    lemma_satisfies_join(m, s as nat, outer);
    assert forall|c: int| 0 <= c < s implies (satisfies(m, #[trigger] outer(c)) == (forall|n: int|
        0 <= n < s ==> one_denied(m, #[trigger] col_line(s, c, n)))) by {
        let inner = |n: int| at_most_one(col_line(s, c, n), s as nat);
        lemma_satisfies_join(m, s as nat, inner);
        assert forall|n: int| 0 <= n < s implies (satisfies(m, #[trigger] inner(n)) == one_denied(
            m,
            col_line(s, c, n),
        )) by {
            lemma_satisfies_at_most_one(m, col_line(s, c, n));
        }
        if satisfies(m, outer(c)) {
            assert forall|n: int| 0 <= n < s implies one_denied(m, #[trigger] col_line(s, c, n)) by {
                assert(satisfies(m, inner(n)));
            }
        }
    }
    if satisfies(m, col_exclusions(s, s as nat)) {
        assert forall|c: int, n: int| 0 <= c < s && 0 <= n < s implies one_denied(
            m,
            #[trigger] col_line(s, c, n),
        ) by {
            assert(satisfies(m, outer(c)));
        }
    }
}

proof fn lemma_blocks_meaning(m: Model, s: int, b: int)
    requires
        0 <= s,
        0 <= b,
    ensures
        satisfies(m, block_exclusions(s, b, b as nat)) == (forall|br: int, bc: int, n: int|
            0 <= br < b && 0 <= bc < b && 0 <= n < s ==> one_denied(
                m,
                #[trigger] block_line(s, b, br, bc, n),
            )),
{
    let outer = |br: int| block_exclusions_in_band(s, b, br, b as nat);
    lemma_satisfies_join(m, b as nat, outer);
    assert forall|br: int| 0 <= br < b implies (satisfies(m, #[trigger] outer(br)) == (forall|
        bc: int,
        n: int,
    |
        0 <= bc < b && 0 <= n < s ==> one_denied(m, #[trigger] block_line(s, b, br, bc, n)))) by {
        let middle = |bc: int| block_exclusions_in(s, b, br, bc, s as nat);
        lemma_satisfies_join(m, b as nat, middle);
        assert forall|bc: int| 0 <= bc < b implies (satisfies(m, #[trigger] middle(bc)) == (forall|
            n: int,
        | 0 <= n < s ==> one_denied(m, #[trigger] block_line(s, b, br, bc, n)))) by {
            let inner = |n: int| at_most_one(block_line(s, b, br, bc, n), s as nat);
            lemma_satisfies_join(m, s as nat, inner);
            assert forall|n: int| 0 <= n < s implies (satisfies(m, #[trigger] inner(n))
                == one_denied(m, block_line(s, b, br, bc, n))) by {
                lemma_satisfies_at_most_one(m, block_line(s, b, br, bc, n));
            }
            if satisfies(m, middle(bc)) {
                assert forall|n: int| 0 <= n < s implies one_denied(
                    m,
                    #[trigger] block_line(s, b, br, bc, n),
                ) by {
                    assert(satisfies(m, inner(n)));
                }
            }
        }
        if satisfies(m, outer(br)) {
            assert forall|bc: int, n: int| 0 <= bc < b && 0 <= n < s implies one_denied(
                m,
                #[trigger] block_line(s, b, br, bc, n),
            ) by {
                assert(satisfies(m, middle(bc)));
            }
        }
    }
    if satisfies(m, block_exclusions(s, b, b as nat)) {
        assert forall|br: int, bc: int, n: int|
            0 <= br < b && 0 <= bc < b && 0 <= n < s implies one_denied(
            m,
            #[trigger] block_line(s, b, br, bc, n),
        ) by {
            assert(satisfies(m, outer(br)));
        }
    }
}

proof fn lemma_givens_meaning(m: Model, g: Grid)
    ensures
        satisfies(m, given_clauses(g, g.len())) == (forall|r: int, c: int|
            in_grid(g.len() as int, r, c) ==> satisfies(m, #[trigger] given_clause(g, r, c))),
{
    let s = g.len() as int;
    let outer = |r: int| given_clauses_in_row(g, r, g.len());
    lemma_satisfies_join(m, g.len(), outer);
    assert forall|r: int| 0 <= r < s implies (satisfies(m, #[trigger] outer(r)) == (forall|c: int|
        0 <= c < s ==> satisfies(m, #[trigger] given_clause(g, r, c)))) by {
        let inner = |c: int| given_clause(g, r, c);
        lemma_satisfies_join(m, g.len(), inner);
        if satisfies(m, outer(r)) {
            assert forall|c: int| 0 <= c < s implies satisfies(m, #[trigger] given_clause(g, r, c)) by {
                assert(satisfies(m, inner(c)));
            }
        }
        if forall|c: int| 0 <= c < s ==> satisfies(m, #[trigger] given_clause(g, r, c)) {
            assert forall|c: int| 0 <= c < s implies satisfies(m, #[trigger] inner(c)) by {
                assert(satisfies(m, given_clause(g, r, c)));
            }
        }
    }
    if satisfies(m, given_clauses(g, g.len())) {
        assert forall|r: int, c: int| in_grid(s, r, c) implies satisfies(
            m,
            #[trigger] given_clause(g, r, c),
        ) by {
            assert(satisfies(m, outer(r)));
        }
    }
}

/// A model satisfies the formula of a grid exactly when it is as the
/// formula's clause families say.
pub proof fn lemma_formula_meaning(m: Model, g: Grid)
    requires
        exists|b: int| is_block_side(g.len() as int, b),
    ensures
        satisfies(m, sudoku_clauses(g)) == says_rules(m, g),
{
    let s = g.len() as int;
    let b = block_side(s);
    lemma_block_side(s);
    let cells = cell_clauses(s, g.len());
    let rows = row_exclusions(s, g.len());
    let cols = col_exclusions(s, g.len());
    let blocks = block_exclusions(s, b, b as nat);
    let givens = given_clauses(g, g.len());
    lemma_satisfies_concat(m, cells, rows);
    lemma_satisfies_concat(m, cells + rows, cols);
    lemma_satisfies_concat(m, cells + rows + cols, blocks);
    lemma_satisfies_concat(m, cells + rows + cols + blocks, givens);
    lemma_cells_meaning(m, s);
    lemma_rows_meaning(m, s);
    lemma_cols_meaning(m, s);
    lemma_blocks_meaning(m, s, b);
    lemma_givens_meaning(m, g);
}

/// `d` is what the model gives the cell at `(r, c)` of a grid of side
/// `size`: the least digit whose variable the model asserts, or the empty
/// mark where it asserts none.
pub open spec fn decoded_digit(m: Model, size: int, r: int, c: int, d: i8) -> bool {
    if d == 0 {
        forall|n: int| 0 <= n < size ==> !holds(m, #[trigger] var_at(r, c, n, size))
    } else {
        &&& is_digit(size, d)
        &&& holds(m, var_at(r, c, d - 1, size))
        &&& forall|n: int| 0 <= n < d - 1 ==> !holds(m, #[trigger] var_at(r, c, n, size))
    }
}

/// Every cell of `g` holds what the model gives it.
pub open spec fn decodes_to(m: Model, g: Grid) -> bool {
    forall|r: int, c: int|
        in_grid(g.len() as int, r, c) ==> decoded_digit(m, g.len() as int, r, c, #[trigger] g[r][c])
}

/// The model of a solved grid: for each cell and digit, the variable,
/// asserted where the cell holds the digit and denied where it does not.
pub open spec fn model_of(f: Grid) -> Model {
    let s = f.len() as int;
    Seq::new(var_count(s) as nat, |i: int| (i as usize, f[(i / s) / s][(i / s) % s] == i % s + 1))
}

/// What the model of a grid says of a variable: it asserts it where the
/// cell holds the digit, and denies it where the cell does not.
proof fn lemma_model_of(f: Grid, r: int, c: int, n: int)
    requires
        1 <= f.len() <= MAX_SIDE,
        in_grid(f.len() as int, r, c),
        0 <= n < f.len(),
    ensures
        holds(model_of(f), var_at(r, c, n, f.len() as int)) == (f[r][c] == n + 1),
        denies(model_of(f), var_at(r, c, n, f.len() as int)) == (f[r][c] != n + 1),
{
    let s = f.len() as int;
    let m = model_of(f);
    let i = lit_index(r, c, n, s);
    lemma_lit_index_range(r, c, n, s);
    lemma_lit_index_parts(r, c, n, s);
    lemma_var_count_fits(s);
    assert(m[i] == (i as usize, f[r][c] == n + 1));
    if holds(m, var_at(r, c, n, s)) {
        let k = choose|k: int| 0 <= k < m.len() && m[k] == (var_at(r, c, n, s), true);
        assert(k == i);
    }
    if denies(m, var_at(r, c, n, s)) {
        let k = choose|k: int| 0 <= k < m.len() && m[k] == (var_at(r, c, n, s), false);
        assert(k == i);
    }
}

/// The model of a grid names no variable twice.
proof fn lemma_model_of_is_assignment(f: Grid)
    requires
        1 <= f.len() <= MAX_SIDE,
    ensures
        is_assignment(model_of(f)),
{
    let m = model_of(f);
    lemma_var_count_fits(f.len() as int);
    assert forall|v: usize| !(#[trigger] holds(m, v) && denies(m, v)) by {
        if holds(m, v) && denies(m, v) {
            let k1 = choose|k: int| 0 <= k < m.len() && m[k] == (v, true);
            let k2 = choose|k: int| 0 <= k < m.len() && m[k] == (v, false);
            assert(k1 == v && k2 == v);
        }
    }
}

/// A model of the formula gives every cell a digit, and asserts the
/// variable of that digit.
proof fn lemma_model_cell(m: Model, g: Grid, h: Grid, r: int, c: int)
    requires
        says_rules(m, g),
        decodes_to(m, h),
        h.len() == g.len(),
        in_grid(g.len() as int, r, c),
    ensures
        is_digit(g.len() as int, h[r][c]),
        holds(m, var_at(r, c, h[r][c] - 1, g.len() as int)),
{
    let s = g.len() as int;
    let clause = cell_clause(s, r, c);
    assert(clause_true(m, clause));
    let j = choose|j: int| 0 <= j < clause.len() && m.contains(#[trigger] clause[j]);
    assert(clause[j] == (var_at(r, c, j, s), true));
    assert(holds(m, var_at(r, c, j, s)));
    assert(decoded_digit(m, s, r, c, h[r][c]));
}

/// A model of the formula asserts no digit for two cells that see one another.
proof fn lemma_model_distinct(m: Model, g: Grid, r1: int, c1: int, r2: int, c2: int, n: int)
    requires
        is_grid(g),
        is_assignment(m),
        says_rules(m, g),
        in_grid(g.len() as int, r1, c1),
        in_grid(g.len() as int, r2, c2),
        sees(block_side(g.len() as int), r1, c1, r2, c2),
        0 <= n < g.len(),
        holds(m, var_at(r1, c1, n, g.len() as int)),
    ensures
        !holds(m, var_at(r2, c2, n, g.len() as int)),
{
    let s = g.len() as int;
    let b = block_side(s);
    lemma_block_side(s);
    let v1 = var_at(r1, c1, n, s);
    let v2 = var_at(r2, c2, n, s);
    if holds(m, v2) {
        if r1 == r2 {
            let line = row_line(s, r1, n);
            assert(one_denied(m, line));
            assert(line[c1] == v1 && line[c2] == v2);
            if c1 < c2 {
                assert(denies(m, line[c1]) || denies(m, line[c2]));
            } else {
                assert(denies(m, line[c2]) || denies(m, line[c1]));
            }
        } else if c1 == c2 {
            let line = col_line(s, c1, n);
            assert(one_denied(m, line));
            assert(line[r1] == v1 && line[r2] == v2);
            if r1 < r2 {
                assert(denies(m, line[r1]) || denies(m, line[r2]));
            } else {
                assert(denies(m, line[r2]) || denies(m, line[r1]));
            }
        } else {
            lemma_cell_in_block(b, r1, c1);
            lemma_cell_in_block(b, r2, c2);
            let br = r1 / b;
            let bc = c1 / b;
            assert(r2 / b == br && c2 / b == bc) by (nonlinear_arith)
                requires
                    1 <= b,
                    (r2 / b) * b == br * b,
                    (c2 / b) * b == bc * b,
            ;
            let i1 = (r1 % b) * b + c1 % b;
            let i2 = (r2 % b) * b + c2 % b;
            let line = block_line(s, b, br, bc, n);
            assert(one_denied(m, line));
            assert(line[i1] == v1 && line[i2] == v2);
            if i1 < i2 {
                assert(denies(m, line[i1]) || denies(m, line[i2]));
            } else {
                assert(i1 != i2);
                assert(denies(m, line[i2]) || denies(m, line[i1]));
            }
        }
        assert(holds(m, v1) && denies(m, v1) || holds(m, v2) && denies(m, v2));
    }
}

/// What a model of the formula of `g` decodes to is a solved grid that
/// keeps what `g` has filled.
pub proof fn lemma_model_is_solution(m: Model, g: Grid, h: Grid)
    requires
        is_grid(g),
        cells_in_range(g),
        is_assignment(m),
        satisfies(m, sudoku_clauses(g)),
        same_shape(g, h),
        decodes_to(m, h),
    ensures
        solves(g, h),
{
    let s = g.len() as int;
    let b = block_side(s);
    lemma_formula_meaning(m, g);
    lemma_same_shape_grid(g, h);
    assert forall|r: int, c: int| in_grid(s, r, c) implies is_digit(s, #[trigger] h[r][c])
        && valid_at(h, h[r][c], r, c) by {
        lemma_model_cell(m, g, h, r, c);
        let d = h[r][c];
        assert forall|r2: int, c2: int| in_grid(s, r2, c2) && sees(b, r, c, r2, c2) implies #[trigger] h[r2][c2]
            != d by {
            lemma_model_cell(m, g, h, r2, c2);
            lemma_model_distinct(m, g, r, c, r2, c2, d - 1);
        }
    }
    assert(is_solved(h));
    lemma_solved_each_digit_once(h);
    assert forall|r: int, c: int| in_grid(s, r, c) && g[r][c] != 0 implies #[trigger] h[r][c]
        == g[r][c] by {
        let v = g[r][c];
        assert(0 <= g[r][c] <= g.len());
        assert(satisfies(m, given_clause(g, r, c)));
        let unit = given_clause(g, r, c)[0];
        assert(clause_true(m, unit));
        assert(unit[0] == (var_at(r, c, v - 1, s), true));
        assert(holds(m, var_at(r, c, v - 1, s)));
        if h[r][c] != v {
            // The digit `v` stands somewhere in the row, so two cells of the row claim it.
            assert(once_in_row(h, r, v));
            let c2 = choose|c2: int| 0 <= c2 < h.len() && #[trigger] h[r][c2] == v;
            lemma_model_cell(m, g, h, r, c2);
            assert(sees(b, r, c, r, c2));
            lemma_model_distinct(m, g, r, c, r, c2, v - 1);
        }
    }
}

/// A solved grid that keeps what `g` has filled gives a model of the
/// formula of `g`, and that model decodes to the grid.
pub proof fn lemma_solution_is_model(g: Grid, f: Grid)
    requires
        is_grid(g),
        solves(g, f),
    ensures
        is_assignment(model_of(f)),
        satisfies(model_of(f), sudoku_clauses(g)),
        decodes_to(model_of(f), f),
{
    let s = g.len() as int;
    let b = block_side(s);
    let m = model_of(f);
    lemma_block_side(s);
    lemma_same_shape_grid(g, f);
    lemma_model_of_is_assignment(f);
    assert forall|r: int, c: int| in_grid(s, r, c) implies clause_true(
        m,
        #[trigger] cell_clause(s, r, c),
    ) by {
        let n = f[r][c] - 1;
        assert(is_digit(s, f[r][c]));
        lemma_model_of(f, r, c, n);
        assert(cell_clause(s, r, c)[n] == (var_at(r, c, n, s), true));
    }
    assert forall|r: int, n: int| 0 <= r < s && 0 <= n < s implies one_denied(
        m,
        #[trigger] row_line(s, r, n),
    ) by {
        let line = row_line(s, r, n);
        assert forall|i: int, j: int| 0 <= i < j < line.len() implies denies(m, #[trigger] line[i])
            || denies(m, #[trigger] line[j]) by {
            lemma_model_of(f, r, i, n);
            lemma_model_of(f, r, j, n);
            assert(valid_at(f, f[r][i], r, i));
            assert(sees(b, r, i, r, j));
            assert(f[r][j] != f[r][i]);
        }
    }
    assert forall|c: int, n: int| 0 <= c < s && 0 <= n < s implies one_denied(
        m,
        #[trigger] col_line(s, c, n),
    ) by {
        let line = col_line(s, c, n);
        assert forall|i: int, j: int| 0 <= i < j < line.len() implies denies(m, #[trigger] line[i])
            || denies(m, #[trigger] line[j]) by {
            lemma_model_of(f, i, c, n);
            lemma_model_of(f, j, c, n);
            assert(valid_at(f, f[i][c], i, c));
            assert(sees(b, i, c, j, c));
            assert(f[j][c] != f[i][c]);
        }
    }
    assert forall|br: int, bc: int, n: int|
        0 <= br < b && 0 <= bc < b && 0 <= n < s implies one_denied(
        m,
        #[trigger] block_line(s, b, br, bc, n),
    ) by {
        let line = block_line(s, b, br, bc, n);
        assert forall|i: int, j: int| 0 <= i < j < line.len() implies denies(m, #[trigger] line[i])
            || denies(m, #[trigger] line[j]) by {
            lemma_block_cells(b, br, bc, i, j);
            lemma_block_cells(b, br, bc, j, i);
            let (r1, c1) = (br * b + i / b, bc * b + i % b);
            let (r2, c2) = (br * b + j / b, bc * b + j % b);
            lemma_model_of(f, r1, c1, n);
            lemma_model_of(f, r2, c2, n);
            assert(valid_at(f, f[r1][c1], r1, c1));
            assert(sees(b, r1, c1, r2, c2));
            assert(f[r2][c2] != f[r1][c1]);
        }
    }
    assert forall|r: int, c: int| in_grid(s, r, c) implies satisfies(
        m,
        #[trigger] given_clause(g, r, c),
    ) by {
        if g[r][c] != 0 {
            assert(f[r][c] == g[r][c]);
            assert(is_digit(s, f[r][c]));
            lemma_model_of(f, r, c, g[r][c] - 1);
            let unit = given_clause(g, r, c)[0];
            assert(unit[0] == (var_at(r, c, g[r][c] - 1, s), true));
            assert(clause_true(m, unit));
        }
    }
    assert(says_rules(m, g));
    lemma_formula_meaning(m, g);
    assert forall|r: int, c: int| in_grid(f.len() as int, r, c) implies decoded_digit(
        m,
        f.len() as int,
        r,
        c,
        #[trigger] f[r][c],
    ) by {
        let d = f[r][c];
        assert(is_digit(s, d));
        lemma_model_of(f, r, c, d - 1);
        assert forall|n: int| 0 <= n < d - 1 implies !holds(m, #[trigger] var_at(r, c, n, s)) by {
            lemma_model_of(f, r, c, n);
        }
    }
}

/// The formula of a grid can be satisfied exactly when the grid can be solved.
pub proof fn lemma_satisfiable_iff_solvable(g: Grid)
    requires
        is_grid(g),
        cells_in_range(g),
    ensures
        satisfiable(sudoku_clauses(g)) == solvable(g),
{
    if solvable(g) {
        let f = choose|f: Grid| solves(g, f);
        lemma_solution_is_model(g, f);
    }
    if satisfiable(sudoku_clauses(g)) {
        let m = choose|m: Model| is_assignment(m) && satisfies(m, sudoku_clauses(g));
        let h = decoding(m, g.len() as int);
        lemma_decoding(m, g.len() as int);
        lemma_model_is_solution(m, g, h);
    }
}

/// The grid of side `size` that a model decodes to.
pub open spec fn decoding(m: Model, size: int) -> Grid {
    Seq::new(
        size as nat,
        |r: int| Seq::new(size as nat, |c: int| choose|d: i8| decoded_digit(m, size, r, c, d)),
    )
}

/// Every model decodes to a grid: each cell has a least asserted digit or none.
pub proof fn lemma_decoding(m: Model, size: int)
    requires
        0 <= size <= MAX_SIDE,
    ensures
        decoding(m, size).len() == size,
        forall|r: int| 0 <= r < size ==> (#[trigger] decoding(m, size)[r]).len() == size,
        decodes_to(m, decoding(m, size)),
{
    let h = decoding(m, size);
    assert forall|r: int, c: int| in_grid(size, r, c) implies decoded_digit(
        m,
        size,
        r,
        c,
        #[trigger] h[r][c],
    ) by {
        lemma_least_held(m, size, r, c, size);
    }
}

/// Among the first `upto` digits of a cell there is a least one that the
/// model asserts, or none is asserted.
proof fn lemma_least_held(m: Model, size: int, r: int, c: int, upto: int)
    requires
        0 <= upto <= size <= MAX_SIDE,
    ensures
        (forall|n: int| 0 <= n < upto ==> !holds(m, #[trigger] var_at(r, c, n, size))) || exists|
            d: i8,
        | 1 <= d <= upto && decoded_digit(m, size, r, c, d),
        upto == size ==> exists|d: i8| decoded_digit(m, size, r, c, d),
    decreases upto,
{
    if upto > 0 {
        lemma_least_held(m, size, r, c, upto - 1);
        if forall|n: int| 0 <= n < upto - 1 ==> !holds(m, #[trigger] var_at(r, c, n, size)) {
            if holds(m, var_at(r, c, upto - 1, size)) {
                assert(decoded_digit(m, size, r, c, upto as i8));
            }
        }
    }
    if upto == size {
        if forall|n: int| 0 <= n < upto ==> !holds(m, #[trigger] var_at(r, c, n, size)) {
            assert(decoded_digit(m, size, r, c, 0i8));
        }
    }
}

} // verus!
