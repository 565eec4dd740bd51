//! The satisfiability engine and its formula type, as far as this library
//! relies on them. Nothing in this file is proved: each contract restates
//! what the engine's own documentation and source promise.

use vstd::prelude::*;

verus! {

/// A literal: the index of a variable, and whether the variable is asserted
/// (`true`) or denied (`false`).
pub type Literal = (usize, bool);

/// The largest variable index the engine takes.
pub const MAX_VARIABLE: usize = 0x0fff_ffff;

/// `varisat::CnfFormula`, taken as it is. The contracts speak of what it
/// holds through `formula_clauses` and `formula_var_count`.
#[verifier::external_type_specification]
#[verifier::external_body]
pub struct ExCnfFormula(varisat::CnfFormula);

/// `varisat::solver::SolverError`, taken as it is and only handed on.
#[verifier::external_type_specification]
#[verifier::external_body]
pub struct ExSolverError(varisat::solver::SolverError);

/// The clauses of a formula, in the order in which they were added.
pub uninterp spec fn formula_clauses(f: varisat::CnfFormula) -> Seq<Seq<Literal>>;

/// The number of variables a formula declares.
pub uninterp spec fn formula_var_count(f: varisat::CnfFormula) -> nat;

/// What an engine found: literals, each of them true.
pub type Model = Seq<Literal>;

/// The model asserts the variable `v`.
pub open spec fn holds(m: Model, v: usize) -> bool {
    m.contains((v, true))
}

/// The model denies the variable `v`.
pub open spec fn denies(m: Model, v: usize) -> bool {
    m.contains((v, false))
}

/// No variable is both asserted and denied.
pub open spec fn is_assignment(m: Model) -> bool {
    forall|v: usize| !(#[trigger] holds(m, v) && denies(m, v))
}

/// One of the clause's literals is in the model.
pub open spec fn clause_true(m: Model, clause: Seq<Literal>) -> bool {
    exists|j: int| 0 <= j < clause.len() && m.contains(#[trigger] clause[j])
}

/// Every clause is true in the model.
pub open spec fn satisfies(m: Model, clauses: Seq<Seq<Literal>>) -> bool {
    forall|k: int| 0 <= k < clauses.len() ==> clause_true(m, #[trigger] clauses[k])
}

/// Some assignment makes every clause true.
pub open spec fn satisfiable(clauses: Seq<Seq<Literal>>) -> bool {
    exists|m: Model| is_assignment(m) && satisfies(m, clauses)
}

/// One more than the largest variable index in `clause`, or 0 for the empty clause.
pub open spec fn clause_var_bound(clause: Seq<Literal>) -> nat
    decreases clause.len(),
{
    if clause.len() == 0 {
        0
    } else {
        let rest = clause_var_bound(clause.drop_last());
        if clause.last().0 + 1 > rest {
            (clause.last().0 + 1) as nat
        } else {
            rest
        }
    }
}

/// `varisat::CnfFormula::new`: a formula without clauses or variables.
#[verifier::external_body]
pub(crate) fn formula_new() -> (f: varisat::CnfFormula)
    ensures
        formula_clauses(f) == Seq::<Seq<Literal>>::empty(),
        formula_var_count(f) == 0,
{
    varisat::CnfFormula::new()
}

/// `varisat::ExtendFormula::add_clause` on a `CnfFormula`, each literal made
/// by `varisat::Lit::from_index`: the clause is appended after those already
/// there, and the variable count grows to cover every variable in it.
#[verifier::external_body]
pub(crate) fn formula_add_clause(f: &mut varisat::CnfFormula, clause: &Vec<Literal>)
    requires
        forall|k: int| 0 <= k < clause.len() ==> (#[trigger] clause[k]).0 <= MAX_VARIABLE,
    ensures
        formula_clauses(*final(f)) == formula_clauses(*old(f)).push(clause@),
        formula_var_count(*final(f)) == if clause_var_bound(clause@) > formula_var_count(*old(f)) {
            clause_var_bound(clause@)
        } else {
            formula_var_count(*old(f))
        },
{
    let lits: Vec<varisat::Lit> = clause.iter().map(|l| varisat::Lit::from_index(l.0, l.1)).collect();
    varisat::ExtendFormula::add_clause(f, &lits);
}

/// `varisat::Solver::solve` on a new `varisat::Solver` that was given the
/// formula by `add_formula`, and then `varisat::Solver::model`, each literal
/// of the model taken apart by `index` and `is_positive`.
///
/// The engine answers, with a model or with "unsatisfiable" (`None`): a new
/// solver has no proof writer and no proof processor, and only these make
/// `solve` fail. A model names no variable twice and holds a literal of every
/// clause; on "unsatisfiable" no assignment makes every clause true.
#[verifier::external_body]
pub(crate) fn engine_solve(formula: &varisat::CnfFormula) -> (answer: Result<
    Option<Vec<Literal>>,
    varisat::solver::SolverError,
>)
    ensures
        answer is Ok,
        answer matches Ok(Some(model)) ==> is_assignment(model@) && satisfies(
            model@,
            formula_clauses(*formula),
        ),
        answer matches Ok(None) ==> !satisfiable(formula_clauses(*formula)),
{
    let mut solver = varisat::Solver::new();
    solver.add_formula(formula);
    match solver.solve() {
        Ok(_) => Ok(
            solver.model().map(|lits| lits.iter().map(|l| (l.index(), l.is_positive())).collect()),
        ),
        Err(e) => Err(e),
    }
}

/// `varisat::dimacs::write_dimacs` into a buffer of bytes, and the bytes as a
/// `String`: the formula in DIMACS CNF form. The writer fails only where its
/// target does, and it writes digits, signs, blanks and line ends only.
#[verifier::external_body]
pub(crate) fn formula_text(formula: &varisat::CnfFormula) -> (text: Option<String>)
    ensures
        text is Some,
        text matches Some(t) ==> t@ == crate::dimacs::dimacs_text(
            formula_var_count(*formula),
            formula_clauses(*formula),
        ),
{
    let mut buffer: Vec<u8> = Vec::new();
    match varisat::dimacs::write_dimacs(&mut buffer, formula) {
        Ok(()) => String::from_utf8(buffer).ok(),
        Err(_) => None,
    }
}

} // verus!
