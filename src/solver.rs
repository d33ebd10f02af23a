//! The linear constraint solver the grid layout hands its system to:
//! cassowary's `Solver`, reached through the items below. Values cross this
//! boundary as whole numbers.
use vstd::prelude::*;
use cassowary::{AddConstraintError, AddEditVariableError, RelationalOperator, Solver, SuggestValueError, Variable};

verus! {

#[verifier::external_type_specification]
#[verifier::external_body]
pub struct ExSolver(cassowary::Solver);

#[verifier::external_type_specification]
#[verifier::external_body]
pub struct ExVariable(cassowary::Variable);

#[verifier::external_type_specification]
pub struct ExRelationalOperator(cassowary::RelationalOperator);

#[verifier::external_type_specification]
#[verifier::external_body]
pub struct ExAddConstraintError(cassowary::AddConstraintError);

#[verifier::external_type_specification]
#[verifier::external_body]
pub struct ExAddEditVariableError(cassowary::AddEditVariableError);

#[verifier::external_type_specification]
#[verifier::external_body]
pub struct ExSuggestValueError(cassowary::SuggestValueError);

/// Relies on cassowary's `Solver::new`: an empty solver.
pub assume_specification[ cassowary::Solver::new ]() -> Solver;

/// Relies on cassowary's `Variable::new`: a fresh variable.
pub assume_specification[ cassowary::Variable::new ]() -> Variable;

/// Relies on cassowary's `Solver::add_edit_variable`: `v` becomes a variable
/// whose value can be suggested, held to it at `strength` (on the solver's
/// scale, where 1 is weak and 1_001_001_000 required). An edit variable
/// cannot be required: such a strength (or more) is refused.
#[verifier::external_body]
pub(crate) fn add_edit_variable(solver: &mut Solver, v: Variable, strength: u32) -> (r: Result<(), AddEditVariableError>)
    ensures
        strength >= 1_001_001_000 ==> r is Err,
{
    solver.add_edit_variable(v, strength.into())
}

/// Relies on cassowary's `Solver::suggest_value`: the edit variable `v` is
/// steered toward `value`.
#[verifier::external_body]
pub(crate) fn suggest_value(solver: &mut Solver, v: Variable, value: u32) -> Result<(), SuggestValueError> {
    solver.suggest_value(v, value.into())
}

/// Relies on cassowary's `Solver::add_constraint`, with the constraint built
/// by `Term`, `Expression::new` and `Constraint::new`: adds
/// `sum(k * v for (v, k) in terms) + constant  op  0` at `strength`.
#[verifier::external_body]
pub(crate) fn add_constraint(
    solver: &mut Solver,
    terms: &Vec<(Variable, i32)>,
    constant: i32,
    op: RelationalOperator,
    strength: u32,
) -> Result<(), AddConstraintError> {
    let terms = terms.iter().map(|&(variable, k)| cassowary::Term { variable, coefficient: k.into() }).collect();
    let e = cassowary::Expression::new(terms, constant.into());
    solver.add_constraint(cassowary::Constraint::new(e, op, strength.into()))
}

/// Relies on cassowary's `Solver::get_value`: the value the solver holds for
/// `v`, converted with `as u32` (truncated toward zero, saturating at 0 and
/// `u32::MAX`).
#[verifier::external_body]
pub(crate) fn get_value(solver: &Solver, v: Variable) -> u32 {
    solver.get_value(v) as u32
}

} // verus!
