//! Conversion of propositional formulas to disjunctive normal form, and the
//! satisfying partial assignments of a formula.
use vstd::prelude::*;

pub mod formula;
pub mod parallel;
pub mod dnf;
pub mod valuation;
pub mod line;
pub mod cnf;
pub mod nary;
pub mod nary_stack;

verus! {
} // verus!
