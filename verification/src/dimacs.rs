//! The formula of a grid as text, in the DIMACS CNF form: a header line
//! `p cnf <variables> <clauses>`, then one line for each clause, its
//! literals as signed numbers counted from 1, each followed by a blank, and a
//! closing `0`.

use crate::encoding::{cells_in_range, sudoku_clauses, sudoku_to_sat, var_count};
use crate::engine::{formula_text, Literal};
use crate::grid::is_grid;
use varisat::CnfFormula;
use vstd::prelude::*;

verus! {

/// The character of one decimal digit.
pub open spec fn digit_char(d: nat) -> char {
    (('0' as u8) + d) as u8 as char
}

/// A number in decimal, without leading zeros.
pub open spec fn decimal(n: nat) -> Seq<char>
    decreases n,
{
    if n < 10 {
        seq![digit_char(n)]
    } else {
        decimal(n / 10).push(digit_char(n % 10))
    }
}

/// A literal as text: its variable counted from 1, with a minus sign where
/// the variable is denied, and a blank after it.
pub open spec fn literal_text(l: Literal) -> Seq<char> {
    (if l.1 {
        Seq::<char>::empty()
    } else {
        seq!['-']
    }) + decimal((l.0 + 1) as nat) + seq![' ']
}

/// A clause as text: its literals, then `0` and the end of the line.
pub open spec fn clause_text(clause: Seq<Literal>) -> Seq<char>
    decreases clause.len(),
{
    if clause.len() == 0 {
        seq!['0', '\n']
    } else {
        literal_text(clause.first()) + clause_text(clause.drop_first())
    }
}

/// Clauses as text, one line each.
pub open spec fn clauses_text(clauses: Seq<Seq<Literal>>) -> Seq<char>
    decreases clauses.len(),
{
    if clauses.len() == 0 {
        Seq::<char>::empty()
    } else {
        clause_text(clauses.first()) + clauses_text(clauses.drop_first())
    }
}

/// A formula as text: the header with the number of variables and the
/// number of clauses, then the clauses.
pub open spec fn dimacs_text(variables: nat, clauses: Seq<Seq<Literal>>) -> Seq<char> {
    seq!['p', ' ', 'c', 'n', 'f', ' '] + decimal(variables) + seq![' '] + decimal(clauses.len())
        + seq!['\n'] + clauses_text(clauses)
}

/// The formula of the grid as DIMACS CNF text, always `Some`. The grid is
/// left as it is.
pub fn get_sat_decode(matrix: &mut Vec<Vec<i8>>) -> (text: Option<String>)
    requires
        is_grid(old(matrix).deep_view()),
        cells_in_range(old(matrix).deep_view()),
    ensures
        *final(matrix) == *old(matrix),
        text matches Some(t) && t@ == dimacs_text(
            var_count(old(matrix).len() as int) as nat,
            sudoku_clauses(old(matrix).deep_view()),
        ),
{
    let formula: CnfFormula = sudoku_to_sat(matrix);
    formula_text(&formula)
}

} // verus!
