//! Propositional formulas over numbered variables, built from binary
//! connectives, and the vocabulary used to speak about them: evaluation
//! under an assignment, literals, clauses and disjunctive normal form.
use vstd::prelude::*;

verus! {

/// A propositional formula whose connectives are binary.
#[derive(Debug, PartialEq, Eq, Hash)]
pub enum Formula {
    FVar(u32),
    FNeg(Box<Formula>),
    FDisj(Box<Formula>, Box<Formula>),
    FConj(Box<Formula>, Box<Formula>),
}

impl Clone for Formula {
    fn clone(&self) -> (r: Self)
        ensures
            r == *self,
        decreases self,
    {
        match self {
            Formula::FVar(x) => Formula::FVar(*x),
            Formula::FNeg(g) => Formula::FNeg(Box::new((**g).clone())),
            Formula::FDisj(a, b) => Formula::FDisj(Box::new((**a).clone()), Box::new((**b).clone())),
            Formula::FConj(a, b) => Formula::FConj(Box::new((**a).clone()), Box::new((**b).clone())),
        }
    }
}

/// `¬f`
pub open spec fn neg(f: Formula) -> Formula {
    Formula::FNeg(Box::new(f))
}

/// `a ∨ b`
pub open spec fn disj(a: Formula, b: Formula) -> Formula {
    Formula::FDisj(Box::new(a), Box::new(b))
}

/// `a ∧ b`
pub open spec fn conj(a: Formula, b: Formula) -> Formula {
    Formula::FConj(Box::new(a), Box::new(b))
}

/// Number of nodes of the formula tree.
pub open spec fn size(f: Formula) -> nat
    decreases f,
{
    match f {
        Formula::FVar(_) => 1,
        Formula::FNeg(g) => 1 + size(*g),
        Formula::FDisj(a, b) => 1 + size(*a) + size(*b),
        Formula::FConj(a, b) => 1 + size(*a) + size(*b),
    }
}

/// Truth value of `f` when each variable `x` has the value `env(x)`.
pub open spec fn eval(f: Formula, env: spec_fn(u32) -> bool) -> bool
    decreases f,
{
    match f {
        Formula::FVar(x) => env(x),
        Formula::FNeg(g) => !eval(*g, env),
        Formula::FDisj(a, b) => eval(*a, env) || eval(*b, env),
        Formula::FConj(a, b) => eval(*a, env) && eval(*b, env),
    }
}

/// Two formulas are equivalent when they agree under every assignment.
pub open spec fn equivalent(f: Formula, g: Formula) -> bool {
    forall|env: spec_fn(u32) -> bool| #[trigger] eval(f, env) == eval(g, env)
}

/// A variable or a negated variable.
pub open spec fn is_literal(f: Formula) -> bool {
    match f {
        Formula::FVar(_) => true,
        Formula::FNeg(g) => (*g) is FVar,
        _ => false,
    }
}

/// A conjunction tree whose leaves are literals.
pub open spec fn is_clause(f: Formula) -> bool
    decreases f,
{
    match f {
        Formula::FConj(a, b) => is_clause(*a) && is_clause(*b),
        _ => is_literal(f),
    }
}

/// Disjunctive normal form: a disjunction tree whose leaves are clauses.
pub open spec fn is_dnf(f: Formula) -> bool
    decreases f,
{
    match f {
        Formula::FDisj(a, b) => is_dnf(*a) && is_dnf(*b),
        _ => is_clause(f),
    }
}

} // verus!
