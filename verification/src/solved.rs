//! Solved grids: every cell holds a digit that passes the check, and so
//! every row, column and block holds each digit once.

use crate::grid::{
    block_side, extends, in_grid, is_digit, is_grid, lemma_block_cells, lemma_block_side, sees,
    valid_at, Grid,
};
use vstd::prelude::*;
use vstd::set_lib::{lemma_int_range, lemma_subset_equality, set_int_range};

verus! {

/// Every cell holds a digit, and no two cells that see one another hold the same.
pub open spec fn is_solved(g: Grid) -> bool {
    forall|r: int, c: int|
        in_grid(g.len() as int, r, c) ==> is_digit(g.len() as int, #[trigger] g[r][c]) && valid_at(
            g,
            g[r][c],
            r,
            c,
        )
}

/// Every filled cell holds a digit, and no two filled cells that see one
/// another hold the same.
pub open spec fn givens_consistent(g: Grid) -> bool {
    forall|r: int, c: int|
        in_grid(g.len() as int, r, c) && #[trigger] g[r][c] != 0 ==> is_digit(g.len() as int, g[r][c])
            && valid_at(g, g[r][c], r, c)
}

/// `f` is a solved grid that keeps what `g` has filled.
pub open spec fn solves(g: Grid, f: Grid) -> bool {
    extends(g, f) && is_solved(f)
}

/// Some solved grid keeps what `g` has filled.
pub open spec fn solvable(g: Grid) -> bool {
    exists|f: Grid| solves(g, f)
}

/// A filled cell that passes the check goes on passing it when empty cells
/// are filled with values that pass the check themselves.
pub proof fn lemma_given_stays_valid(g: Grid, f: Grid, r: int, c: int)
    requires
        extends(g, f),
        in_grid(g.len() as int, r, c),
        g[r][c] != 0,
        valid_at(g, g[r][c], r, c),
        forall|r2: int, c2: int|
            in_grid(g.len() as int, r2, c2) && g[r2][c2] == 0 && #[trigger] f[r2][c2] != 0
                ==> valid_at(f, f[r2][c2], r2, c2),
    ensures
        f[r][c] == g[r][c],
        valid_at(f, f[r][c], r, c),
{
    let side = g.len() as int;
    let b = block_side(side);
    let v = g[r][c];
    assert(f[r][c] == v);
    assert forall|r2: int, c2: int|
        in_grid(side, r2, c2) && sees(b, r, c, r2, c2) implies #[trigger] f[r2][c2] != v by {
        if g[r2][c2] != 0 {
            // Another given: the two did not clash before.
            assert(f[r2][c2] == g[r2][c2]);
        } else if f[r2][c2] == v {
            // A cell filled since: it passes the check, and it sees this one.
            assert(valid_at(f, f[r2][c2], r2, c2));
            assert(sees(b, r2, c2, r, c));
        }
    }
}

/// Row `r` holds `d` in exactly one cell.
pub open spec fn once_in_row(g: Grid, r: int, d: i8) -> bool {
    exists|c: int|
        0 <= c < g.len() && #[trigger] g[r][c] == d && forall|c2: int|
            0 <= c2 < g.len() && c2 != c ==> #[trigger] g[r][c2] != d
}

/// Column `c` holds `d` in exactly one cell.
pub open spec fn once_in_col(g: Grid, c: int, d: i8) -> bool {
    exists|r: int|
        0 <= r < g.len() && #[trigger] g[r][c] == d && forall|r2: int|
            0 <= r2 < g.len() && r2 != r ==> #[trigger] g[r2][c] != d
}

/// What the `i`-th cell of a block holds, the cells of the block read row by
/// row; the block is the one in band `br` of rows and band `bc` of columns.
pub open spec fn in_block(g: Grid, br: int, bc: int, i: int) -> i8 {
    let b = block_side(g.len() as int);
    g[br * b + i / b][bc * b + i % b]
}

/// The block in band `br` of rows and band `bc` of columns holds `d` in
/// exactly one cell.
pub open spec fn once_in_block(g: Grid, br: int, bc: int, d: i8) -> bool {
    exists|i: int|
        0 <= i < g.len() && #[trigger] in_block(g, br, bc, i) == d && forall|i2: int|
            0 <= i2 < g.len() && i2 != i ==> #[trigger] in_block(g, br, bc, i2) != d
}

/// Every row, every column and every block holds each digit exactly once.
pub open spec fn each_digit_once(g: Grid) -> bool {
    let s = g.len() as int;
    let b = block_side(s);
    &&& forall|r: int, d: i8| 0 <= r < s && is_digit(s, d) ==> #[trigger] once_in_row(g, r, d)
    &&& forall|c: int, d: i8| 0 <= c < s && is_digit(s, d) ==> #[trigger] once_in_col(g, c, d)
    &&& forall|br: int, bc: int, d: i8|
        0 <= br < b && 0 <= bc < b && is_digit(s, d) ==> #[trigger] once_in_block(g, br, bc, d)
}

/// As many distinct digits as there are digits: each digit is among them.
pub proof fn lemma_all_digits_present(line: Seq<int>, d: int)
    requires
        forall|i: int| 0 <= i < line.len() ==> 1 <= #[trigger] line[i] <= line.len(),
        line.no_duplicates(),
        1 <= d <= line.len(),
    ensures
        line.contains(d),
{
    let digits = set_int_range(1, line.len() as int + 1);
    line.unique_seq_to_set();
    lemma_int_range(1, line.len() as int + 1);
    assert(line.to_set().subset_of(digits)) by {
        assert forall|x: int| line.to_set().contains(x) implies digits.contains(x) by {
            let i = choose|i: int| 0 <= i < line.len() && line[i] == x;
            assert(1 <= line[i] <= line.len());
        }
    }
    vstd::set_lib::lemma_set_subset_finite(digits, line.to_set());
    lemma_subset_equality(line.to_set(), digits);
    assert(digits.contains(d));
    assert(line.to_set().contains(d));
}

/// In a solved grid every row, every column and every block holds each digit
/// exactly once.
pub proof fn lemma_solved_each_digit_once(g: Grid)
    requires
        is_grid(g),
        is_solved(g),
    ensures
        each_digit_once(g),
{
    let s = g.len() as int;
    let b = block_side(s);
    lemma_block_side(s);
    assert forall|r: int, d: i8| 0 <= r < s && is_digit(s, d) implies #[trigger] once_in_row(
        g,
        r,
        d,
    ) by {
        let line = Seq::new(s as nat, |c: int| g[r][c] as int);
        assert forall|i: int, j: int|
            0 <= i < line.len() && 0 <= j < line.len() && i != j implies line[i] != line[j] by {
            assert(valid_at(g, g[r][i], r, i));
            assert(sees(b, r, i, r, j));
            assert(g[r][j] != g[r][i]);
        }
        assert forall|i: int| 0 <= i < line.len() implies 1 <= #[trigger] line[i] <= line.len() by {
            assert(is_digit(s, g[r][i]));
        }
        lemma_all_digits_present(line, d as int);
        let c = choose|c: int| 0 <= c < line.len() && line[c] == d as int;
        assert(g[r][c] == d);
        assert forall|c2: int| 0 <= c2 < g.len() && c2 != c implies #[trigger] g[r][c2] != d by {
            assert(line[c2] != line[c]);
        }
    }
    assert forall|c: int, d: i8| 0 <= c < s && is_digit(s, d) implies #[trigger] once_in_col(
        g,
        c,
        d,
    ) by {
        let line = Seq::new(s as nat, |r: int| g[r][c] as int);
        assert forall|i: int, j: int|
            0 <= i < line.len() && 0 <= j < line.len() && i != j implies line[i] != line[j] by {
            assert(valid_at(g, g[i][c], i, c));
            assert(sees(b, i, c, j, c));
            assert(g[j][c] != g[i][c]);
        }
        assert forall|i: int| 0 <= i < line.len() implies 1 <= #[trigger] line[i] <= line.len() by {
            assert(is_digit(s, g[i][c]));
        }
        lemma_all_digits_present(line, d as int);
        let r = choose|r: int| 0 <= r < line.len() && line[r] == d as int;
        assert(g[r][c] == d);
        assert forall|r2: int| 0 <= r2 < g.len() && r2 != r implies #[trigger] g[r2][c] != d by {
            assert(line[r2] != line[r]);
        }
    }
    assert forall|br: int, bc: int, d: i8|
        0 <= br < b && 0 <= bc < b && is_digit(s, d) implies #[trigger] once_in_block(
        g,
        br,
        bc,
        d,
    ) by {
        let line = Seq::new(s as nat, |i: int| in_block(g, br, bc, i) as int);
        assert forall|i: int, j: int|
            0 <= i < line.len() && 0 <= j < line.len() && i != j implies line[i] != line[j] by {
            lemma_block_cells(b, br, bc, i, j);
            lemma_block_cells(b, br, bc, j, i);
            let (r1, c1) = (br * b + i / b, bc * b + i % b);
            let (r2, c2) = (br * b + j / b, bc * b + j % b);
            assert(valid_at(g, g[r1][c1], r1, c1));
            assert(sees(b, r1, c1, r2, c2));
            assert(g[r2][c2] != g[r1][c1]);
        }
        assert forall|i: int| 0 <= i < line.len() implies 1 <= #[trigger] line[i] <= line.len() by {
            lemma_block_cells(b, br, bc, i, i);
            assert(is_digit(s, g[br * b + i / b][bc * b + i % b]));
        }
        lemma_all_digits_present(line, d as int);
        let i = choose|i: int| 0 <= i < line.len() && line[i] == d as int;
        assert(in_block(g, br, bc, i) == d);
        assert forall|i2: int| 0 <= i2 < g.len() && i2 != i implies #[trigger] in_block(
            g,
            br,
            bc,
            i2,
        ) != d by {
            assert(line[i2] != line[i]);
        }
    }
}

} // verus!
