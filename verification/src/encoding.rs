//! The reduction to satisfiability: one variable for each cell and digit,
//! and the clauses that state the rules of the puzzle over these variables.

use crate::engine::{
    clause_var_bound, formula_add_clause, formula_clauses, formula_new, formula_var_count,
    Literal, MAX_VARIABLE,
};
use crate::grid::{
    block_side, block_side_of, is_block_side, is_grid, lemma_block_cells, lemma_grid_rows, Grid,
    MAX_SIDE,
};
use vstd::arithmetic::div_mod::{lemma_fundamental_div_mod, lemma_fundamental_div_mod_converse};
use varisat::CnfFormula;
use vstd::prelude::*;

verus! {

/// A clause: it holds when one of its literals does.
pub type Clause = Seq<Literal>;

/// The variable that stands for "the cell at `(row, col)` holds the digit
/// `n + 1`" in a grid of side `size`.
pub open spec fn lit_index(row: int, col: int, n: int, size: int) -> int {
    row * size * size + col * size + n
}

/// `lit_index` as a variable of the engine.
pub open spec fn var_at(row: int, col: int, n: int, size: int) -> usize {
    lit_index(row, col, n, size) as usize
}

/// The parts `part(0)`, ..., `part(count - 1)`, one after the other.
pub open spec fn join(count: nat, part: spec_fn(int) -> Seq<Clause>) -> Seq<Clause>
    decreases count,
{
    if count == 0 {
        Seq::empty()
    } else {
        join((count - 1) as nat, part) + part(count - 1)
    }
}

/// "The cell holds at least one digit": every variable of the cell, asserted.
pub open spec fn cell_clause(size: int, r: int, c: int) -> Clause {
    Seq::new(size as nat, |n: int| (var_at(r, c, n, size), true))
}

/// The cell clauses of the first `cols` cells of row `r`.
pub open spec fn cell_clauses_in_row(size: int, r: int, cols: nat) -> Seq<Clause> {
    join(cols, |c: int| seq![cell_clause(size, r, c)])
}

/// The cell clauses of the first `rows` rows.
pub open spec fn cell_clauses(size: int, rows: nat) -> Seq<Clause> {
    join(rows, |r: int| cell_clauses_in_row(size, r, size as nat))
}

/// "Not both": the two variables, denied.
pub open spec fn exclusion(a: usize, b: usize) -> Clause {
    seq![(a, false), (b, false)]
}

/// The exclusions of `line[i]` with each of `line[i + 1]`, ..., `line[upto - 1]`.
pub open spec fn exclusions_from(line: Seq<usize>, i: int, upto: int) -> Seq<Clause> {
    Seq::new(
        if upto > i + 1 {
            (upto - i - 1) as nat
        } else {
            0
        },
        |k: int| exclusion(line[i], line[i + 1 + k]),
    )
}

/// "At most one variable of the line holds", for the pairs whose first
/// member is among the first `firsts` of the line: each such pair, in order.
pub open spec fn at_most_one(line: Seq<usize>, firsts: nat) -> Seq<Clause> {
    join(firsts, |i: int| exclusions_from(line, i, line.len() as int))
}

/// The variables of digit `n + 1` along row `r`.
pub open spec fn row_line(size: int, r: int, n: int) -> Seq<usize> {
    Seq::new(size as nat, |c: int| var_at(r, c, n, size))
}

/// The variables of digit `n + 1` along column `c`.
pub open spec fn col_line(size: int, c: int, n: int) -> Seq<usize> {
    Seq::new(size as nat, |r: int| var_at(r, c, n, size))
}

/// The variables of digit `n + 1` over the block in band `br` of rows and
/// band `bc` of columns, its cells read row by row; `b` is the block's side.
pub open spec fn block_line(size: int, b: int, br: int, bc: int, n: int) -> Seq<usize> {
    Seq::new(size as nat, |i: int| var_at(br * b + i / b, bc * b + i % b, n, size))
}

/// Row `r`: at most one cell for each of the first `digits` digits.
pub open spec fn row_exclusions_in(size: int, r: int, digits: nat) -> Seq<Clause> {
    join(digits, |n: int| at_most_one(row_line(size, r, n), size as nat))
}

/// The first `rows` rows: at most one cell for each digit.
pub open spec fn row_exclusions(size: int, rows: nat) -> Seq<Clause> {
    join(rows, |r: int| row_exclusions_in(size, r, size as nat))
}

/// Column `c`: at most one cell for each of the first `digits` digits.
pub open spec fn col_exclusions_in(size: int, c: int, digits: nat) -> Seq<Clause> {
    join(digits, |n: int| at_most_one(col_line(size, c, n), size as nat))
}

/// The first `cols` columns: at most one cell for each digit.
pub open spec fn col_exclusions(size: int, cols: nat) -> Seq<Clause> {
    join(cols, |c: int| col_exclusions_in(size, c, size as nat))
}

/// One block: at most one cell for each of the first `digits` digits.
pub open spec fn block_exclusions_in(size: int, b: int, br: int, bc: int, digits: nat) -> Seq<
    Clause,
> {
    join(digits, |n: int| at_most_one(block_line(size, b, br, bc, n), size as nat))
}

/// The first `blocks` blocks of band `br`: at most one cell for each digit.
pub open spec fn block_exclusions_in_band(size: int, b: int, br: int, blocks: nat) -> Seq<Clause> {
    join(blocks, |bc: int| block_exclusions_in(size, b, br, bc, size as nat))
}

/// The blocks of the first `bands` bands: at most one cell for each digit.
pub open spec fn block_exclusions(size: int, b: int, bands: nat) -> Seq<Clause> {
    join(bands, |br: int| block_exclusions_in_band(size, b, br, b as nat))
}

/// "The cell holds what it was given": for a filled cell, the one clause
/// that asserts the variable of its digit; for an empty cell, nothing.
pub open spec fn given_clause(g: Grid, r: int, c: int) -> Seq<Clause> {
    if g[r][c] != 0 {
        seq![seq![(var_at(r, c, g[r][c] - 1, g.len() as int), true)]]
    } else {
        Seq::empty()
    }
}

/// The given clauses of the first `cols` cells of row `r`.
pub open spec fn given_clauses_in_row(g: Grid, r: int, cols: nat) -> Seq<Clause> {
    join(cols, |c: int| given_clause(g, r, c))
}

/// The given clauses of the first `rows` rows.
pub open spec fn given_clauses(g: Grid, rows: nat) -> Seq<Clause> {
    join(rows, |r: int| given_clauses_in_row(g, r, g.len()))
}

/// The formula of a grid: the cell clauses, then the exclusions along rows,
/// along columns and over blocks, then the given clauses.
pub open spec fn sudoku_clauses(g: Grid) -> Seq<Clause> {
    let size = g.len() as int;
    cell_clauses(size, g.len()) + row_exclusions(size, g.len()) + col_exclusions(size, g.len())
        + block_exclusions(size, block_side(size), block_side(size) as nat) + given_clauses(
        g,
        g.len(),
    )
}

/// Every cell holds the empty mark or a digit of the grid.
pub open spec fn cells_in_range(g: Grid) -> bool {
    forall|r: int, c: int|
        0 <= r < g.len() && 0 <= c < g.len() ==> 0 <= #[trigger] g[r][c] <= g.len()
}

/// Whether every cell holds the empty mark or a digit of the grid.
pub fn has_cells_in_range(matrix: &Vec<Vec<i8>>) -> (ok: bool)
    requires
        is_grid(matrix.deep_view()),
    ensures
        ok == cells_in_range(matrix.deep_view()),
{
    let ghost g = matrix.deep_view();
    proof {
        lemma_grid_rows(matrix);
    }
    let size: usize = matrix.len();
    let mut r: usize = 0;
    while r < size
        invariant
            g == matrix.deep_view(),
            size == matrix.len(),
            size <= MAX_SIDE,
            r <= size,
            forall|k: int| 0 <= k < size ==> (#[trigger] matrix@[k]).len() == size,
            forall|k: int, c: int| 0 <= k < r && 0 <= c < size ==> 0 <= #[trigger] g[k][c] <= size,
        decreases size - r,
    {
        let mut c: usize = 0;
        while c < size
            invariant
                g == matrix.deep_view(),
                size == matrix.len(),
                size <= MAX_SIDE,
                r < size,
                c <= size,
                forall|k: int| 0 <= k < size ==> (#[trigger] matrix@[k]).len() == size,
                forall|k: int, e: int|
                    0 <= k < r && 0 <= e < size ==> 0 <= #[trigger] g[k][e] <= size,
                forall|e: int| 0 <= e < c ==> 0 <= #[trigger] g[r as int][e] <= size,
            decreases size - c,
        {
            let v: i8 = matrix[r][c];
            assert(v == g[r as int][c as int]);
            if v < 0 || v > size as i8 {
                return false;
            }
            c += 1;
        }
        r += 1;
    }
    true
}

/// The variables are numbered densely: those of a grid of side `size` are
/// `0`, ..., `size * size * size - 1`.
pub proof fn lemma_lit_index_range(row: int, col: int, n: int, size: int)
    requires
        0 <= row < size,
        0 <= col < size,
        0 <= n < size,
    ensures
        0 <= lit_index(row, col, n, size) < size * size * size,
        lit_index(row, col, n, size) == n + size * (col + size * row),
{
    assert(0 <= row * size * size + col * size + n < size * size * size && row * size * size + col
        * size + n == n + size * (col + size * row)) by (nonlinear_arith)
        requires
            0 <= row < size,
            0 <= col < size,
            0 <= n < size,
    ;
}

/// The cell and the digit of a variable are read back from its number.
pub proof fn lemma_lit_index_parts(row: int, col: int, n: int, size: int)
    requires
        0 <= row < size,
        0 <= col < size,
        0 <= n < size,
    ensures
        (lit_index(row, col, n, size) / size) / size == row,
        (lit_index(row, col, n, size) / size) % size == col,
        lit_index(row, col, n, size) % size == n,
{
    let i = lit_index(row, col, n, size);
    let upper = row * size + col;
    assert(i == upper * size + n && upper * size == size * upper && row * size == size * row)
        by (nonlinear_arith)
        requires
            i == row * size * size + col * size + n,
            upper == row * size + col,
    ;
    lemma_fundamental_div_mod_converse(i, size, upper, n);
    lemma_fundamental_div_mod_converse(upper, size, row, col);
}

/// Two variables are the same only for the same cell and digit.
pub proof fn lemma_lit_index_injective(
    r1: int,
    c1: int,
    n1: int,
    r2: int,
    c2: int,
    n2: int,
    size: int,
)
    requires
        0 <= r1 < size,
        0 <= c1 < size,
        0 <= n1 < size,
        0 <= r2 < size,
        0 <= c2 < size,
        0 <= n2 < size,
        lit_index(r1, c1, n1, size) == lit_index(r2, c2, n2, size),
    ensures
        r1 == r2,
        c1 == c2,
        n1 == n2,
{
    lemma_lit_index_parts(r1, c1, n1, size);
    lemma_lit_index_parts(r2, c2, n2, size);
}

/// Every number below `size * size * size` is the variable of a cell and a digit.
pub proof fn lemma_lit_index_onto(i: int, size: int)
    requires
        1 <= size,
        0 <= i < size * size * size,
    ensures
        0 <= (i / size) / size < size,
        0 <= (i / size) % size < size,
        0 <= i % size < size,
        lit_index((i / size) / size, (i / size) % size, i % size, size) == i,
{
    let upper = i / size;
    lemma_fundamental_div_mod(i, size);
    lemma_fundamental_div_mod(upper, size);
    let row = upper / size;
    let col = upper % size;
    let n = i % size;
    assert(0 <= n < size && 0 <= col < size && 0 <= row < size && row * size * size + col * size + n
        == i) by (nonlinear_arith)
        requires
            1 <= size,
            0 <= i < size * size * size,
            i == size * upper + n,
            upper == size * row + col,
            n == i % size,
            col == upper % size,
    ;
}

/// The variable of a cell and a digit.
pub fn lit_from_indx(row: usize, col: usize, n: usize, size: usize) -> (index: usize)
    requires
        size <= MAX_SIDE,
        row < size,
        col < size,
        n < size,
    ensures
        index == lit_index(row as int, col as int, n as int, size as int),
        index == var_at(row as int, col as int, n as int, size as int),
        index < size * size * size,
        index <= MAX_VARIABLE,
{
    proof {
        lemma_lit_index_range(row as int, col as int, n as int, size as int);
        assert(size * size * size <= 2048383 && 0 <= size * row <= 16002 && 0 <= size * (col + size
            * row) <= 2048383) by (nonlinear_arith)
            requires
                size <= 127,
                row < size,
                col < size,
        ;
    }
    n + size * (col + size * row)
}

/// One more part: the parts up to `count`, then `part(count)`.
pub proof fn lemma_join_step(count: nat, part: spec_fn(int) -> Seq<Clause>)
    ensures
        join(count + 1, part) == join(count, part) + part(count as int),
{
}

/// The clause "the cell at `(r, c)` holds at least one digit".
fn cell_clause_of(r: usize, c: usize, size: usize) -> (clause: Vec<Literal>)
    requires
        size <= MAX_SIDE,
        r < size,
        c < size,
    ensures
        clause@ == cell_clause(size as int, r as int, c as int),
        forall|k: int| 0 <= k < clause.len() ==> (#[trigger] clause[k]).0 <= MAX_VARIABLE,
        clause_var_bound(clause@) == lit_index(r as int, c as int, 0, size as int) + size,
{
    let mut clause: Vec<Literal> = Vec::with_capacity(size);
    let mut n: usize = 0;
    while n < size
        invariant
            size <= MAX_SIDE,
            r < size,
            c < size,
            n <= size,
            clause@ == Seq::new(n as nat, |k: int| (var_at(r as int, c as int, k, size as int), true)),
            forall|k: int| 0 <= k < clause.len() ==> (#[trigger] clause[k]).0 <= MAX_VARIABLE,
            clause_var_bound(clause@) == if n == 0 {
                0
            } else {
                lit_index(r as int, c as int, 0, size as int) + n
            },
        decreases size - n,
    {
        let ghost before = clause@;
        let index: usize = lit_from_indx(r, c, n, size);
        clause.push((index, true));
        proof {
            lemma_lit_index_range(r as int, c as int, 0, size as int);
            assert(clause@.drop_last() == before);
            assert(clause@.last() == (index, true));
            assert(clause@ == Seq::new(
                (n + 1) as nat,
                |k: int| (var_at(r as int, c as int, k, size as int), true),
            ));
        }
        n += 1;
    }
    proof {
        if size == 0 {
            assert(lit_index(r as int, c as int, 0, size as int) + size == 0) by (nonlinear_arith)
                requires
                    size == 0,
            ;
        }
    }
    clause
}

/// Adds "at most one variable of `line` holds": one exclusion for each pair
/// of its variables.
fn add_exclusions(formula: &mut CnfFormula, line: &Vec<usize>)
    requires
        forall|k: int| 0 <= k < line.len() ==> #[trigger] line[k] < formula_var_count(*old(formula)),
        formula_var_count(*old(formula)) <= MAX_VARIABLE,
    ensures
        formula_clauses(*final(formula)) == formula_clauses(*old(formula)) + at_most_one(
            line@,
            line.len() as nat,
        ),
        formula_var_count(*final(formula)) == formula_var_count(*old(formula)),
{
    let ghost base = formula_clauses(*formula);
    let ghost vars = formula_var_count(*formula);
    let len: usize = line.len();
    let mut i: usize = 0;
    while i < len
        invariant
            len == line.len(),
            i <= len,
            vars <= MAX_VARIABLE,
            forall|k: int| 0 <= k < line.len() ==> #[trigger] line[k] < vars,
            formula_clauses(*formula) == base + at_most_one(line@, i as nat),
            formula_var_count(*formula) == vars,
        decreases len - i,
    {
        let ghost done = formula_clauses(*formula);
        let mut j: usize = i + 1;
        while j < len
            invariant
                len == line.len(),
                i < len,
                i + 1 <= j,
                j <= len || j == i + 1,
                vars <= MAX_VARIABLE,
                forall|k: int| 0 <= k < line.len() ==> #[trigger] line[k] < vars,
                formula_clauses(*formula) == done + exclusions_from(line@, i as int, j as int),
                formula_var_count(*formula) == vars,
            decreases len - j,
        {
            let ghost before = formula_clauses(*formula);
            let mut clause: Vec<Literal> = Vec::with_capacity(2);
            clause.push((line[i], false));
            clause.push((line[j], false));
            proof {
                assert(clause@ == exclusion(line@[i as int], line@[j as int]));
                reveal_with_fuel(clause_var_bound, 3);
                assert(clause@.drop_last() == seq![(line@[i as int], false)]);
                assert(clause@.drop_last().drop_last() == Seq::<Literal>::empty());
                assert(clause_var_bound(clause@) <= vars);
            }
            formula_add_clause(formula, &clause);
            proof {
                assert(before.push(clause@) == done + exclusions_from(
                    line@,
                    i as int,
                    j as int + 1,
                ));
            }
            j += 1;
        }
        proof {
            lemma_join_step(i as nat, |k: int| exclusions_from(line@, k, line@.len() as int));
            assert(exclusions_from(line@, i as int, j as int) == exclusions_from(
                line@,
                i as int,
                len as int,
            ));
            assert(formula_clauses(*formula) == base + at_most_one(line@, (i + 1) as nat));
        }
        i += 1;
    }
}

/// The variables of digit `n + 1` along row `r`.
fn row_line_of(r: usize, n: usize, size: usize) -> (line: Vec<usize>)
    requires
        size <= MAX_SIDE,
        r < size,
        n < size,
    ensures
        line@ == row_line(size as int, r as int, n as int),
        forall|k: int| 0 <= k < line.len() ==> #[trigger] line[k] < size * size * size,
{
    let mut line: Vec<usize> = Vec::with_capacity(size);
    let mut c: usize = 0;
    while c < size
        invariant
            size <= MAX_SIDE,
            r < size,
            n < size,
            c <= size,
            line@ == Seq::new(c as nat, |k: int| var_at(r as int, k, n as int, size as int)),
            forall|k: int| 0 <= k < line.len() ==> #[trigger] line[k] < size * size * size,
        decreases size - c,
    {
        let index: usize = lit_from_indx(r, c, n, size);
        line.push(index);
        assert(line@ == Seq::new(
            (c + 1) as nat,
            |k: int| var_at(r as int, k, n as int, size as int),
        ));
        c += 1;
    }
    line
}

/// The variables of digit `n + 1` along column `c`.
fn col_line_of(c: usize, n: usize, size: usize) -> (line: Vec<usize>)
    requires
        size <= MAX_SIDE,
        c < size,
        n < size,
    ensures
        line@ == col_line(size as int, c as int, n as int),
        forall|k: int| 0 <= k < line.len() ==> #[trigger] line[k] < size * size * size,
{
    let mut line: Vec<usize> = Vec::with_capacity(size);
    let mut r: usize = 0;
    while r < size
        invariant
            size <= MAX_SIDE,
            c < size,
            n < size,
            r <= size,
            line@ == Seq::new(r as nat, |k: int| var_at(k, c as int, n as int, size as int)),
            forall|k: int| 0 <= k < line.len() ==> #[trigger] line[k] < size * size * size,
        decreases size - r,
    {
        let index: usize = lit_from_indx(r, c, n, size);
        line.push(index);
        assert(line@ == Seq::new(
            (r + 1) as nat,
            |k: int| var_at(k, c as int, n as int, size as int),
        ));
        r += 1;
    }
    line
}

/// The variables of digit `n + 1` over one block, its cells read row by row.
fn block_line_of(br: usize, bc: usize, n: usize, size: usize, sub_size: usize) -> (line: Vec<usize>)
    requires
        size <= MAX_SIDE,
        is_block_side(size as int, sub_size as int),
        br < sub_size,
        bc < sub_size,
        n < size,
    ensures
        line@ == block_line(size as int, sub_size as int, br as int, bc as int, n as int),
        forall|k: int| 0 <= k < line.len() ==> #[trigger] line[k] < size * size * size,
{
    let mut line: Vec<usize> = Vec::with_capacity(size);
    let mut i: usize = 0;
    while i < size
        invariant
            size <= MAX_SIDE,
            is_block_side(size as int, sub_size as int),
            br < sub_size,
            bc < sub_size,
            n < size,
            i <= size,
            line@ == Seq::new(
                i as nat,
                |k: int|
                    var_at(
                        br * sub_size + k / (sub_size as int),
                        bc * sub_size + k % (sub_size as int),
                        n as int,
                        size as int,
                    ),
            ),
            forall|k: int| 0 <= k < line.len() ==> #[trigger] line[k] < size * size * size,
        decreases size - i,
    {
        proof {
            lemma_block_cells(sub_size as int, br as int, bc as int, i as int, i as int);
        }
        let r: usize = br * sub_size + (i / sub_size);
        let c: usize = bc * sub_size + (i % sub_size);
        let index: usize = lit_from_indx(r, c, n, size);
        line.push(index);
        assert(line@ == Seq::new(
            (i + 1) as nat,
            |k: int|
                var_at(
                    br * sub_size + k / (sub_size as int),
                    bc * sub_size + k % (sub_size as int),
                    n as int,
                    size as int,
                ),
        ));
        i += 1;
    }
    line
}

/// The number of variables of a grid of side `size`.
pub open spec fn var_count(size: int) -> int {
    size * size * size
}

/// Adds, for each cell, "the cell holds at least one digit".
fn add_cell_clauses(formula: &mut CnfFormula, size: usize)
    requires
        size <= MAX_SIDE,
        formula_var_count(*old(formula)) == 0,
    ensures
        formula_clauses(*final(formula)) == formula_clauses(*old(formula)) + cell_clauses(
            size as int,
            size as nat,
        ),
        formula_var_count(*final(formula)) == var_count(size as int),
{
    let ghost base = formula_clauses(*formula);
    let ghost s = size as int;
    let mut r: usize = 0;
    while r < size
        invariant
            size <= MAX_SIDE,
            s == size,
            r <= size,
            formula_clauses(*formula) == base + cell_clauses(s, r as nat),
            formula_var_count(*formula) == lit_index(r as int, 0, 0, s),
        decreases size - r,
    {
        let mut c: usize = 0;
        while c < size
            invariant
                size <= MAX_SIDE,
                s == size,
                r < size,
                c <= size,
                formula_clauses(*formula) == base + cell_clauses(s, r as nat) + cell_clauses_in_row(
                    s,
                    r as int,
                    c as nat,
                ),
                formula_var_count(*formula) == lit_index(r as int, c as int, 0, s),
            decreases size - c,
        {
            let ghost before = formula_clauses(*formula);
            let clause: Vec<Literal> = cell_clause_of(r, c, size);
            formula_add_clause(formula, &clause);
            proof {
                lemma_join_step(c as nat, |k: int| seq![cell_clause(s, r as int, k)]);
                assert(before.push(clause@) == base + cell_clauses(s, r as nat)
                    + cell_clauses_in_row(s, r as int, (c + 1) as nat));
                assert(lit_index(r as int, c as int, 0, s) + s == lit_index(
                    r as int,
                    c as int + 1,
                    0,
                    s,
                )) by (nonlinear_arith);
            }
            c += 1;
        }
        proof {
            lemma_join_step(r as nat, |k: int| cell_clauses_in_row(s, k, s as nat));
            assert(formula_clauses(*formula) == base + cell_clauses(s, (r + 1) as nat));
            assert(lit_index(r as int, s, 0, s) == lit_index(r as int + 1, 0, 0, s))
                by (nonlinear_arith);
        }
        r += 1;
    }
    proof {
        assert(lit_index(s, 0, 0, s) == var_count(s)) by (nonlinear_arith);
    }
}

/// The variables of a grid are among those the engine takes.
pub proof fn lemma_var_count_fits(size: int)
    requires
        0 <= size <= MAX_SIDE,
    ensures
        0 <= var_count(size) <= MAX_VARIABLE,
{
    assert(0 <= size * size * size <= 2048383) by (nonlinear_arith)
        requires
            0 <= size <= 127,
    ;
}

/// Adds, for each row and digit, "the digit stands in at most one cell of the row".
fn add_row_exclusions(formula: &mut CnfFormula, size: usize)
    requires
        size <= MAX_SIDE,
        formula_var_count(*old(formula)) == var_count(size as int),
    ensures
        formula_clauses(*final(formula)) == formula_clauses(*old(formula)) + row_exclusions(
            size as int,
            size as nat,
        ),
        formula_var_count(*final(formula)) == var_count(size as int),
{
    let ghost base = formula_clauses(*formula);
    let ghost s = size as int;
    proof {
        lemma_var_count_fits(s);
    }
    let mut r: usize = 0;
    while r < size
        invariant
            size <= MAX_SIDE,
            s == size,
            r <= size,
            var_count(s) <= MAX_VARIABLE,
            formula_clauses(*formula) == base + row_exclusions(s, r as nat),
            formula_var_count(*formula) == var_count(s),
        decreases size - r,
    {
        let mut n: usize = 0;
        while n < size
            invariant
                size <= MAX_SIDE,
                s == size,
                r < size,
                n <= size,
                var_count(s) <= MAX_VARIABLE,
                formula_clauses(*formula) == base + row_exclusions(s, r as nat) + row_exclusions_in(
                    s,
                    r as int,
                    n as nat,
                ),
                formula_var_count(*formula) == var_count(s),
            decreases size - n,
        {
            let line: Vec<usize> = row_line_of(r, n, size);
            add_exclusions(formula, &line);
            proof {
                lemma_join_step(n as nat, |k: int| at_most_one(row_line(s, r as int, k), s as nat));
                assert(formula_clauses(*formula) == base + row_exclusions(s, r as nat)
                    + row_exclusions_in(s, r as int, (n + 1) as nat));
            }
            n += 1;
        }
        proof {
            lemma_join_step(r as nat, |k: int| row_exclusions_in(s, k, s as nat));
            assert(formula_clauses(*formula) == base + row_exclusions(s, (r + 1) as nat));
        }
        r += 1;
    }
}

/// Adds, for each column and digit, "the digit stands in at most one cell of the column".
fn add_col_exclusions(formula: &mut CnfFormula, size: usize)
    requires
        size <= MAX_SIDE,
        formula_var_count(*old(formula)) == var_count(size as int),
    ensures
        formula_clauses(*final(formula)) == formula_clauses(*old(formula)) + col_exclusions(
            size as int,
            size as nat,
        ),
        formula_var_count(*final(formula)) == var_count(size as int),
{
    let ghost base = formula_clauses(*formula);
    let ghost s = size as int;
    proof {
        lemma_var_count_fits(s);
    }
    let mut c: usize = 0;
    while c < size
        invariant
            size <= MAX_SIDE,
            s == size,
            c <= size,
            var_count(s) <= MAX_VARIABLE,
            formula_clauses(*formula) == base + col_exclusions(s, c as nat),
            formula_var_count(*formula) == var_count(s),
        decreases size - c,
    {
        let mut n: usize = 0;
        while n < size
            invariant
                size <= MAX_SIDE,
                s == size,
                c < size,
                n <= size,
                var_count(s) <= MAX_VARIABLE,
                formula_clauses(*formula) == base + col_exclusions(s, c as nat) + col_exclusions_in(
                    s,
                    c as int,
                    n as nat,
                ),
                formula_var_count(*formula) == var_count(s),
            decreases size - n,
        {
            let line: Vec<usize> = col_line_of(c, n, size);
            add_exclusions(formula, &line);
            proof {
                lemma_join_step(n as nat, |k: int| at_most_one(col_line(s, c as int, k), s as nat));
                assert(formula_clauses(*formula) == base + col_exclusions(s, c as nat)
                    + col_exclusions_in(s, c as int, (n + 1) as nat));
            }
            n += 1;
        }
        proof {
            lemma_join_step(c as nat, |k: int| col_exclusions_in(s, k, s as nat));
            assert(formula_clauses(*formula) == base + col_exclusions(s, (c + 1) as nat));
        }
        c += 1;
    }
}

/// Adds, for each block and digit, "the digit stands in at most one cell of the block".
fn add_block_exclusions(formula: &mut CnfFormula, size: usize, sub_size: usize)
    requires
        size <= MAX_SIDE,
        is_block_side(size as int, sub_size as int),
        formula_var_count(*old(formula)) == var_count(size as int),
    ensures
        formula_clauses(*final(formula)) == formula_clauses(*old(formula)) + block_exclusions(
            size as int,
            sub_size as int,
            sub_size as nat,
        ),
        formula_var_count(*final(formula)) == var_count(size as int),
{
    let ghost base = formula_clauses(*formula);
    let ghost s = size as int;
    let ghost b = sub_size as int;
    proof {
        lemma_var_count_fits(s);
    }
    let mut br: usize = 0;
    while br < sub_size
        invariant
            size <= MAX_SIDE,
            s == size,
            b == sub_size,
            is_block_side(s, b),
            br <= sub_size,
            var_count(s) <= MAX_VARIABLE,
            formula_clauses(*formula) == base + block_exclusions(s, b, br as nat),
            formula_var_count(*formula) == var_count(s),
        decreases sub_size - br,
    {
        let mut bc: usize = 0;
        while bc < sub_size
            invariant
                size <= MAX_SIDE,
                s == size,
                b == sub_size,
                is_block_side(s, b),
                br < sub_size,
                bc <= sub_size,
                var_count(s) <= MAX_VARIABLE,
                formula_clauses(*formula) == base + block_exclusions(s, b, br as nat)
                    + block_exclusions_in_band(s, b, br as int, bc as nat),
                formula_var_count(*formula) == var_count(s),
            decreases sub_size - bc,
        {
            let mut n: usize = 0;
            while n < size
                invariant
                    size <= MAX_SIDE,
                    s == size,
                    b == sub_size,
                    is_block_side(s, b),
                    br < sub_size,
                    bc < sub_size,
                    n <= size,
                    var_count(s) <= MAX_VARIABLE,
                    formula_clauses(*formula) == base + block_exclusions(s, b, br as nat)
                        + block_exclusions_in_band(s, b, br as int, bc as nat)
                        + block_exclusions_in(s, b, br as int, bc as int, n as nat),
                    formula_var_count(*formula) == var_count(s),
                decreases size - n,
            {
                let line: Vec<usize> = block_line_of(br, bc, n, size, sub_size);
                add_exclusions(formula, &line);
                proof {
                    lemma_join_step(
                        n as nat,
                        |k: int| at_most_one(block_line(s, b, br as int, bc as int, k), s as nat),
                    );
                    assert(formula_clauses(*formula) == base + block_exclusions(s, b, br as nat)
                        + block_exclusions_in_band(s, b, br as int, bc as nat)
                        + block_exclusions_in(s, b, br as int, bc as int, (n + 1) as nat));
                }
                n += 1;
            }
            proof {
                lemma_join_step(
                    bc as nat,
                    |k: int| block_exclusions_in(s, b, br as int, k, s as nat),
                );
                assert(formula_clauses(*formula) == base + block_exclusions(s, b, br as nat)
                    + block_exclusions_in_band(s, b, br as int, (bc + 1) as nat));
            }
            bc += 1;
        }
        proof {
            lemma_join_step(br as nat, |k: int| block_exclusions_in_band(s, b, k, b as nat));
            assert(formula_clauses(*formula) == base + block_exclusions(s, b, (br + 1) as nat));
        }
        br += 1;
    }
}

/// Adds, for each filled cell, "the cell holds what it was given".
fn add_given_clauses(formula: &mut CnfFormula, matrix: &Vec<Vec<i8>>)
    requires
        is_grid(matrix.deep_view()),
        cells_in_range(matrix.deep_view()),
        formula_var_count(*old(formula)) == var_count(matrix.len() as int),
    ensures
        formula_clauses(*final(formula)) == formula_clauses(*old(formula)) + given_clauses(
            matrix.deep_view(),
            matrix.len() as nat,
        ),
        formula_var_count(*final(formula)) == var_count(matrix.len() as int),
{
    let ghost base = formula_clauses(*formula);
    let ghost g = matrix.deep_view();
    proof {
        lemma_grid_rows(matrix);
    }
    let size: usize = matrix.len();
    let ghost s = size as int;
    let mut r: usize = 0;
    while r < size
        invariant
            g == matrix.deep_view(),
            is_grid(g),
            cells_in_range(g),
            size == matrix.len(),
            s == size,
            forall|k: int| 0 <= k < size ==> (#[trigger] matrix@[k]).len() == size,
            r <= size,
            formula_clauses(*formula) == base + given_clauses(g, r as nat),
            formula_var_count(*formula) == var_count(s),
        decreases size - r,
    {
        let mut c: usize = 0;
        while c < size
            invariant
                g == matrix.deep_view(),
                is_grid(g),
                cells_in_range(g),
                size == matrix.len(),
                s == size,
                forall|k: int| 0 <= k < size ==> (#[trigger] matrix@[k]).len() == size,
                r < size,
                c <= size,
                formula_clauses(*formula) == base + given_clauses(g, r as nat)
                    + given_clauses_in_row(g, r as int, c as nat),
                formula_var_count(*formula) == var_count(s),
            decreases size - c,
        {
            let ghost before = formula_clauses(*formula);
            let val: i8 = matrix[r][c];
            assert(val == g[r as int][c as int]);
            if val != 0 {
                let n: usize = (val - 1) as usize;
                let index: usize = lit_from_indx(r, c, n, size);
                let mut clause: Vec<Literal> = Vec::with_capacity(1);
                clause.push((index, true));
                proof {
                    reveal_with_fuel(clause_var_bound, 2);
                    assert(clause@.drop_last() == Seq::<Literal>::empty());
                    assert(clause@ == seq![(var_at(r as int, c as int, val - 1, s), true)]);
                }
                formula_add_clause(formula, &clause);
                assert(formula_clauses(*formula) == before + given_clause(g, r as int, c as int));
            }
            proof {
                lemma_join_step(c as nat, |k: int| given_clause(g, r as int, k));
                assert(formula_clauses(*formula) == base + given_clauses(g, r as nat)
                    + given_clauses_in_row(g, r as int, (c + 1) as nat));
            }
            c += 1;
        }
        proof {
            lemma_join_step(r as nat, |k: int| given_clauses_in_row(g, k, g.len()));
            assert(formula_clauses(*formula) == base + given_clauses(g, (r + 1) as nat));
        }
        r += 1;
    }
}

/// The formula of a grid: it can be satisfied exactly when the empty cells
/// can be filled so that every row, column and block holds each digit once.
pub fn sudoku_to_sat(matrix: &Vec<Vec<i8>>) -> (formula: CnfFormula)
    requires
        is_grid(matrix.deep_view()),
        cells_in_range(matrix.deep_view()),
    ensures
        formula_clauses(formula) == sudoku_clauses(matrix.deep_view()),
        formula_var_count(formula) == var_count(matrix.len() as int),
{
    let size: usize = matrix.len();
    let sub_size: usize = block_side_of(size);
    let mut formula: CnfFormula = formula_new();
    add_cell_clauses(&mut formula, size);
    add_row_exclusions(&mut formula, size);
    add_col_exclusions(&mut formula, size);
    add_block_exclusions(&mut formula, size, sub_size);
    add_given_clauses(&mut formula, matrix);
    formula
}

} // verus!
