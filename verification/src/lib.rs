//! A DPLL-based satisfiability solver for propositional formulas in
//! conjunctive normal form.
//!
//! A formula is a [`cnf_system::CNFSystem`]: a set of clauses, each clause a
//! set of nonzero signed integer literals.  The solver in [`dpll`] decides
//! whether such a formula is satisfiable, returning a verdict together with a
//! satisfying interpretation when one exists.

pub mod cnf_system;
pub mod dpll;
pub mod semantics;
