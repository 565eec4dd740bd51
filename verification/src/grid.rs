//! The grid model: shape, blocks, and which cells exclude one another.

use vstd::arithmetic::div_mod::{lemma_fundamental_div_mod, lemma_fundamental_div_mod_converse};
use vstd::prelude::*;

verus! {

/// A grid as the contracts see it: rows of cells, `0` marking an empty cell.
pub type Grid = Seq<Seq<i8>>;

/// The largest side a grid may have: every digit must fit in a cell.
pub const MAX_SIDE: usize = 127;

/// `b` is the side of the blocks of a grid of side `side`.
pub open spec fn is_block_side(side: int, b: int) -> bool {
    1 <= b && b * b == side
}

/// The side of the blocks of a grid of side `side`, where `side` is a
/// perfect square.
pub open spec fn block_side(side: int) -> int {
    choose|b: int| is_block_side(side, b)
}

/// A square grid whose side is a positive perfect square that fits a cell.
/// Nothing is asked of what the cells hold.
pub open spec fn is_grid(g: Grid) -> bool {
    &&& 1 <= g.len() <= MAX_SIDE
    &&& exists|b: int| is_block_side(g.len() as int, b)
    &&& forall|r: int| 0 <= r < g.len() ==> (#[trigger] g[r]).len() == g.len()
}

/// Two grids of one shape.
pub open spec fn same_shape(g: Grid, h: Grid) -> bool {
    &&& g.len() == h.len()
    &&& forall|r: int| 0 <= r < g.len() ==> (#[trigger] g[r]).len() == h[r].len()
}

/// `(r, c)` addresses a cell of a grid of side `side`.
pub open spec fn in_grid(side: int, r: int, c: int) -> bool {
    0 <= r < side && 0 <= c < side
}

/// The first row (or column) of the band of `b` rows (or columns) that holds `x`.
pub open spec fn block_origin(x: int, b: int) -> int {
    x - x % b
}

/// The two cells lie in one block of side `b`.
pub open spec fn same_block(b: int, r1: int, c1: int, r2: int, c2: int) -> bool {
    block_origin(r1, b) == block_origin(r2, b) && block_origin(c1, b) == block_origin(c2, b)
}

/// The two cells are distinct and share a row, a column or a block, so they
/// may not hold the same digit.
pub open spec fn sees(b: int, r1: int, c1: int, r2: int, c2: int) -> bool {
    (r1 != r2 || c1 != c2) && (r1 == r2 || c1 == c2 || same_block(b, r1, c1, r2, c2))
}

/// `v` is not the empty mark, and no cell that `(r, c)` sees holds `v`.
/// The cell at `(r, c)` itself is not looked at.
pub open spec fn valid_at(g: Grid, v: i8, r: int, c: int) -> bool {
    v != 0 && forall|r2: int, c2: int|
        in_grid(g.len() as int, r2, c2) && sees(block_side(g.len() as int), r, c, r2, c2)
            ==> #[trigger] g[r2][c2] != v
}

/// `v` is a digit of a grid of side `side`.
pub open spec fn is_digit(side: int, v: i8) -> bool {
    1 <= v <= side
}

/// `f` has the shape of `g` and holds, in every cell that `g` has filled,
/// what `g` holds there.
pub open spec fn extends(g: Grid, f: Grid) -> bool {
    &&& same_shape(g, f)
    &&& forall|r: int, c: int|
        in_grid(g.len() as int, r, c) && g[r][c] != 0 ==> #[trigger] f[r][c] == g[r][c]
}

/// `g` with the cell at `(r, c)` set to `v`.
pub open spec fn with_cell(g: Grid, r: int, c: int, v: i8) -> Grid {
    g.update(r, g[r].update(c, v))
}

/// How the rows of an executable grid relate to its view: each row is as
/// long as the grid is high, and the view's rows are the rows' contents.
pub proof fn lemma_grid_rows(m: &Vec<Vec<i8>>)
    requires
        is_grid(m.deep_view()),
    ensures
        m.len() == m.deep_view().len(),
        forall|r: int|
            0 <= r < m.len() ==> (#[trigger] m@[r]).len() == m.len() && m@[r]@ == m.deep_view()[r],
{
    let g = m.deep_view();
    assert forall|r: int| 0 <= r < m.len() implies (#[trigger] m@[r]).len() == m.len() && m@[r]@
        == g[r] by {
        assert(g[r].len() == g.len());
    }
}

/// What setting one cell changes: that cell, and no other.
pub proof fn lemma_with_cell(g: Grid, r: int, c: int, v: i8)
    requires
        0 <= r < g.len(),
        0 <= c < g[r].len(),
    ensures
        same_shape(g, with_cell(g, r, c, v)),
        with_cell(g, r, c, v)[r][c] == v,
        forall|r2: int, c2: int|
            0 <= r2 < g.len() && 0 <= c2 < g[r2].len() && (r2 != r || c2 != c) ==> #[trigger] with_cell(
                g,
                r,
                c,
                v,
            )[r2][c2] == g[r2][c2],
{
}

/// What an executable grid holds after one cell was written.
pub proof fn lemma_cell_written(before: Grid, after: &Vec<Vec<i8>>, r: int, c: int, v: i8)
    requires
        0 <= r < before.len(),
        0 <= c < before[r].len(),
        after.len() == before.len(),
        after@[r]@ == before[r].update(c, v),
        forall|k: int| 0 <= k < before.len() && k != r ==> (#[trigger] after@[k])@ == before[k],
    ensures
        after.deep_view() == with_cell(before, r, c, v),
{
    let h = with_cell(before, r, c, v);
    let a = after.deep_view();
    assert(a.len() == h.len());
    assert forall|k: int| 0 <= k < a.len() implies #[trigger] a[k] == h[k] by {
        assert(a[k] =~= after@[k]@);
        if k == r {
            assert(h[k] == before[r].update(c, v));
        } else {
            assert(h[k] == before[k]);
        }
    }
    assert(a =~= h);
}

/// A grid's shape is all that makes it a grid.
pub proof fn lemma_same_shape_grid(g: Grid, h: Grid)
    requires
        is_grid(g),
        same_shape(g, h),
    ensures
        is_grid(h),
{
    assert forall|r: int| 0 <= r < h.len() implies (#[trigger] h[r]).len() == h.len() by {
        assert(g[r].len() == h[r].len());
    }
}

/// `block_side` is the root of a perfect square, and it is no larger than the square.
pub proof fn lemma_block_side(side: int)
    requires
        exists|b: int| is_block_side(side, b),
    ensures
        is_block_side(side, block_side(side)),
        1 <= block_side(side) <= side,
{
    let b = block_side(side);
    assert(b <= b * b) by (nonlinear_arith)
        requires
            1 <= b,
    ;
}

/// Where a band starts and ends: it holds `x`, spans `b` lines, starts at a
/// multiple of `b`, and lies inside a grid of side `b * b`.
pub proof fn lemma_block_origin(x: int, b: int)
    requires
        1 <= b,
        0 <= x < b * b,
    ensures
        0 <= block_origin(x, b) <= x < block_origin(x, b) + b,
        block_origin(x, b) + b <= b * b,
        block_origin(x, b) == b * (x / b),
{
    lemma_fundamental_div_mod(x, b);
    let q = x / b;
    assert(0 <= x % b < b && 0 <= q < b && b * q + b <= b * b) by (nonlinear_arith)
        requires
            1 <= b,
            0 <= x < b * b,
            q == x / b,
            x == b * q + x % b,
    ;
}

/// Every line of a band has the band's first line as its origin.
pub proof fn lemma_block_member(x: int, y: int, b: int)
    requires
        1 <= b,
        0 <= x,
        block_origin(x, b) <= y < block_origin(x, b) + b,
    ensures
        block_origin(y, b) == block_origin(x, b),
{
    lemma_fundamental_div_mod(x, b);
    let q = x / b;
    let d = y - block_origin(x, b);
    assert(q * b == b * q) by (nonlinear_arith);
    lemma_fundamental_div_mod_converse(y, b, q, d);
}

/// The `i`-th cell of a block lies in the grid, in that block, and two cells
/// of a block with different numbers are different cells.
pub proof fn lemma_block_cells(b: int, br: int, bc: int, i: int, j: int)
    requires
        1 <= b,
        0 <= br < b,
        0 <= bc < b,
        0 <= i < b * b,
        0 <= j < b * b,
    ensures
        in_grid(b * b, br * b + i / b, bc * b + i % b),
        block_origin(br * b + i / b, b) == br * b,
        block_origin(bc * b + i % b, b) == bc * b,
        i != j ==> (i / b != j / b || i % b != j % b),
{
    lemma_fundamental_div_mod(i, b);
    lemma_fundamental_div_mod(j, b);
    let q = i / b;
    let m = i % b;
    assert(0 <= m < b && 0 <= q < b && 0 <= br * b + q < b * b && 0 <= bc * b + m < b * b && br * b
        == b * br && bc * b == b * bc) by (nonlinear_arith)
        requires
            1 <= b,
            0 <= br < b,
            0 <= bc < b,
            0 <= i < b * b,
            i == b * q + m,
            m == i % b,
    ;
    lemma_fundamental_div_mod_converse(br * b + q, b, br, q);
    lemma_fundamental_div_mod_converse(bc * b + m, b, bc, m);
}

/// A cell of the grid is the `i`-th cell of its block, for the `i` that
/// counts the cells of the block row by row.
pub proof fn lemma_cell_in_block(b: int, r: int, c: int)
    requires
        1 <= b,
        0 <= r < b * b,
        0 <= c < b * b,
    ensures
        ({
            let br = r / b;
            let bc = c / b;
            let i = (r % b) * b + c % b;
            &&& 0 <= br < b
            &&& 0 <= bc < b
            &&& 0 <= i < b * b
            &&& br * b + i / b == r
            &&& bc * b + i % b == c
            &&& block_origin(r, b) == br * b
            &&& block_origin(c, b) == bc * b
        }),
{
    lemma_block_origin(r, b);
    lemma_block_origin(c, b);
    let qr = r % b;
    let qc = c % b;
    let i = qr * b + qc;
    assert(0 <= r / b < b && 0 <= c / b < b && 0 <= i < b * b && (r / b) * b == b * (r / b) && (c
        / b) * b == b * (c / b) && qr * b == b * qr) by (nonlinear_arith)
        requires
            1 <= b,
            0 <= r < b * b,
            0 <= c < b * b,
            0 <= qr < b,
            0 <= qc < b,
            i == qr * b + qc,
            r == b * (r / b) + qr,
            c == b * (c / b) + qc,
    ;
    lemma_fundamental_div_mod_converse(i, b, qr, qc);
}

/// The floor of the square root of `n`.
fn integer_sqrt(n: usize) -> (b: usize)
    requires
        n <= MAX_SIDE,
    ensures
        b * b <= n < (b + 1) * (b + 1),
{
    let mut b: usize = 0;
    let mut next_square: usize = 1;
    while next_square <= n
        invariant
            b * b <= n <= MAX_SIDE,
            next_square == (b + 1) * (b + 1),
        decreases n - b * b,
    {
        assert(b + 1 <= 11 && (b + 2) * (b + 2) <= 144 && b * b < (b + 1) * (b + 1))
            by (nonlinear_arith)
            requires
                (b + 1) * (b + 1) <= 127,
        ;
        b += 1;
        next_square = (b + 1) * (b + 1);
    }
    b
}

/// The side of the blocks of a grid of side `side`.
pub fn block_side_of(side: usize) -> (b: usize)
    requires
        1 <= side <= MAX_SIDE,
        exists|b: int| is_block_side(side as int, b),
    ensures
        b == block_side(side as int),
        is_block_side(side as int, b as int),
{
    let b: usize = integer_sqrt(side);
    proof {
        let w = block_side(side as int);
        assert(w == b) by (nonlinear_arith)
            requires
                1 <= w,
                w * w == side,
                b * b <= side < (b + 1) * (b + 1),
        ;
    }
    b
}

/// Whether `matrix` is a grid this library works on: square, with a side
/// that is a perfect square between 1 and `MAX_SIDE`.
pub fn is_well_formed(matrix: &Vec<Vec<i8>>) -> (ok: bool)
    ensures
        ok == is_grid(matrix.deep_view()),
{
    let side: usize = matrix.len();
    if side < 1 || side > MAX_SIDE {
        return false;
    }
    let b: usize = integer_sqrt(side);
    if b * b != side {
        proof {
            if exists|w: int| is_block_side(side as int, w) {
                let w = choose|w: int| is_block_side(side as int, w);
                assert(w == b) by (nonlinear_arith)
                    requires
                        1 <= w,
                        w * w == side,
                        b * b <= side < (b + 1) * (b + 1),
                ;
            }
        }
        return false;
    }
    assert(is_block_side(side as int, b as int)) by {
        if b == 0 {
            assert(b * b == 0);
        }
    }
    let mut r: usize = 0;
    while r < side
        invariant
            side == matrix.len(),
            r <= side,
            forall|k: int| 0 <= k < r ==> (#[trigger] matrix.deep_view()[k]).len() == side,
        decreases side - r,
    {
        if matrix[r].len() != side {
            assert(matrix.deep_view()[r as int].len() != side);
            return false;
        }
        r += 1;
    }
    true
}

} // verus!
