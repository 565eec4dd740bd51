//! Solving through the satisfiability engine: the grid is encoded, the
//! engine is asked, and its model is decoded into the grid.

use crate::encoding::{cells_in_range, lit_from_indx, sudoku_to_sat, var_at};
use crate::engine::{engine_solve, holds, Literal};
use crate::grid::{in_grid, is_grid, lemma_same_shape_grid, same_shape, MAX_SIDE};
use crate::semantics::{
    decoded_digit, decodes_to, decoding, lemma_decoding, lemma_model_is_solution,
    lemma_satisfiable_iff_solvable,
};
use crate::solved::{each_digit_once, lemma_solved_each_digit_once, solvable, solves};
use varisat::solver::SolverError;
use varisat::CnfFormula;
use vstd::prelude::*;

verus! {

/// An engine broke off without an answer. The engine that `solve_sat` asks
/// does not; `apply_answer` hands on what any engine reports.
#[derive(Debug)]
pub struct EngineFailure {
    /// What the engine reported.
    pub cause: SolverError,
}

/// Whether `literal` is among the literals of `model`.
pub fn model_contains(model: &Vec<Literal>, literal: Literal) -> (found: bool)
    ensures
        found == model@.contains(literal),
{
    let mut k: usize = 0;
    while k < model.len()
        invariant
            k <= model.len(),
            forall|j: int| 0 <= j < k ==> model@[j] != literal,
        decreases model.len() - k,
    {
        let entry: Literal = model[k];
        if entry.0 == literal.0 && entry.1 == literal.1 {
            return true;
        }
        k += 1;
    }
    false
}

/// A cell has one decoded digit.
pub proof fn lemma_decoded_digit_unique(m: Seq<Literal>, size: int, r: int, c: int, d1: i8, d2: i8)
    requires
        decoded_digit(m, size, r, c, d1),
        decoded_digit(m, size, r, c, d2),
    ensures
        d1 == d2,
{
    if d1 != 0 {
        assert(holds(m, var_at(r, c, d1 - 1, size)));
    }
    if d2 != 0 {
        assert(holds(m, var_at(r, c, d2 - 1, size)));
    }
}

/// Decodes a model into a grid of side `size`: each cell gets the least
/// digit whose variable the model asserts, and stays empty where the model
/// asserts none.
pub fn formula_to_grid(model: &Vec<Literal>, size: usize) -> (grid: Vec<Vec<i8>>)
    requires
        size <= MAX_SIDE,
    ensures
        grid.deep_view().len() == size,
        forall|r: int| 0 <= r < size ==> (#[trigger] grid.deep_view()[r]).len() == size,
        decodes_to(model@, grid.deep_view()),
        grid.deep_view() == decoding(model@, size as int),
{
    let ghost m = model@;
    let ghost s = size as int;
    let mut grid: Vec<Vec<i8>> = Vec::with_capacity(size);
    let mut r: usize = 0;
    while r < size
        invariant
            m == model@,
            s == size,
            size <= MAX_SIDE,
            r <= size,
            grid.len() == r,
            forall|k: int| 0 <= k < r ==> (#[trigger] grid@[k]).len() == size,
            forall|k: int, c: int|
                0 <= k < r && 0 <= c < size ==> decoded_digit(m, s, k, c, #[trigger] grid@[k]@[c]),
        decreases size - r,
    {
        let mut row: Vec<i8> = Vec::with_capacity(size);
        let mut c: usize = 0;
        while c < size
            invariant
                m == model@,
                s == size,
                size <= MAX_SIDE,
                r < size,
                c <= size,
                row.len() == c,
                forall|k: int| 0 <= k < c ==> decoded_digit(m, s, r as int, k, #[trigger] row@[k]),
            decreases size - c,
        {
            let mut picked: i8 = 0;
            let mut n: usize = 0;
            while n < size
                invariant_except_break
                    n <= size,
                    picked == 0,
                    forall|k: int|
                        0 <= k < n ==> !holds(m, #[trigger] var_at(r as int, c as int, k, s)),
                invariant
                    m == model@,
                    s == size,
                    size <= MAX_SIDE,
                    r < size,
                    c < size,
                ensures
                    decoded_digit(m, s, r as int, c as int, picked),
                decreases size - n,
            {
                let lit: usize = lit_from_indx(r, c, n, size);
                if model_contains(model, (lit, true)) {
                    picked = (n as i8) + 1;
                    break ;
                }
                n += 1;
            }
            row.push(picked);
            c += 1;
        }
        grid.push(row);
        r += 1;
    }
    proof {
        let g = grid.deep_view();
        let h = decoding(m, s);
        lemma_decoding(m, s);
        assert forall|k: int| 0 <= k < size implies (#[trigger] g[k]).len() == size by {
            assert(g[k] =~= grid@[k]@);
        }
        assert forall|k: int, c: int| in_grid(s, k, c) implies decoded_digit(
            m,
            s,
            k,
            c,
            #[trigger] g[k][c],
        ) by {
            assert(g[k][c] == grid@[k]@[c]);
        }
        assert forall|k: int| 0 <= k < size implies #[trigger] g[k] == h[k] by {
            assert forall|c: int| 0 <= c < size implies g[k][c] == h[k][c] by {
                lemma_decoded_digit_unique(m, s, k, c, g[k][c], h[k][c]);
            }
            assert(g[k] =~= h[k]);
        }
        assert(g =~= h);
    }
    grid
}

/// Acts on what the engine answered for the formula of the grid.
///
/// A model is decoded into the grid, whatever the model holds, and `Ok(true)`
/// is returned. On "unsatisfiable" (`None`) the grid is left as it is and
/// `Ok(false)` is returned. Where the engine broke off the grid is left as it
/// is and the failure is handed on.
pub fn apply_answer(
    matrix: &mut Vec<Vec<i8>>,
    answer: Result<Option<Vec<Literal>>, SolverError>,
) -> (outcome: Result<bool, EngineFailure>)
    requires
        old(matrix).len() <= MAX_SIDE,
    ensures
        match answer {
            Ok(Some(model)) => {
                &&& outcome == Ok::<bool, EngineFailure>(true)
                &&& final(matrix).deep_view() == decoding(model@, old(matrix).len() as int)
            },
            Ok(None) => {
                &&& outcome == Ok::<bool, EngineFailure>(false)
                &&& *final(matrix) == *old(matrix)
            },
            Err(cause) => {
                &&& outcome == Err::<bool, EngineFailure>(EngineFailure { cause })
                &&& *final(matrix) == *old(matrix)
            },
        },
{
    match answer {
        Err(cause) => Err(EngineFailure { cause }),
        Ok(None) => Ok(false),
        Ok(Some(model)) => {
            let grid: Vec<Vec<i8>> = formula_to_grid(&model, matrix.len());
            *matrix = grid;
            Ok(true)
        },
    }
}

/// Solves the grid through the satisfiability engine.
///
/// The answer is `Ok`, and it tells whether the grid can be solved. If it
/// can, the grid holds a solved grid that keeps what was filled, so that
/// every row, column and block holds each digit once; if it cannot, the grid
/// is as it was.
pub fn solve_sat(matrix: &mut Vec<Vec<i8>>) -> (answer: Result<bool, EngineFailure>)
    requires
        is_grid(old(matrix).deep_view()),
        cells_in_range(old(matrix).deep_view()),
    ensures
        answer matches Ok(b) && b == solvable(old(matrix).deep_view()),
        answer matches Ok(true) ==> is_grid(final(matrix).deep_view()),
        answer matches Ok(true) ==> solves(old(matrix).deep_view(), final(matrix).deep_view()),
        answer matches Ok(true) ==> each_digit_once(final(matrix).deep_view()),
        answer matches Ok(false) ==> *final(matrix) == *old(matrix),
{
    let ghost g0 = matrix.deep_view();
    let formula: CnfFormula = sudoku_to_sat(matrix);
    let answer: Result<Option<Vec<Literal>>, SolverError> = engine_solve(&formula);
    let ghost found = answer;
    proof {
        match found {
            Ok(Some(model)) => {
                let h = decoding(model@, g0.len() as int);
                lemma_decoding(model@, g0.len() as int);
                assert(same_shape(g0, h));
                lemma_model_is_solution(model@, g0, h);
                lemma_same_shape_grid(g0, h);
                lemma_solved_each_digit_once(h);
            },
            Ok(None) => {
                lemma_satisfiable_iff_solvable(g0);
            },
            Err(_) => {},
        }
    }
    apply_answer(matrix, answer)
}

} // verus!
