//! Conversion of a binary formula to disjunctive normal form.
//!
//! The conversion pushes negations inward with De Morgan's laws, drops
//! double negations and distributes conjunction over disjunction.  Its
//! recursion is not structural (it recurses on results of earlier
//! conversions), so its meaning is given by `dnf_fuel`, the same steps run
//! with a bound on the recursion depth, and `dnf_of`, its value once the
//! bound is large enough; `lemma_terminates` shows that a large enough
//! bound always exists.
use vstd::prelude::*;
use crate::formula::{Formula, neg, disj, conj, eval, is_dnf, is_clause, is_literal, size, equivalent};

verus! {

/// The conversion run with recursion depth at most `n`; `None` when the
/// depth does not suffice.
pub open spec fn dnf_fuel(f: Formula, n: nat) -> Option<Formula>
    decreases n,
{
    if n == 0 {
        None
    } else {
        let m = (n - 1) as nat;
        match f {
            Formula::FVar(_) => Some(f),
            Formula::FDisj(a, b) => match (dnf_fuel(*a, m), dnf_fuel(*b, m)) {
                (Some(x), Some(y)) => Some(disj(x, y)),
                _ => None,
            },
            Formula::FNeg(g) => match *g {
                Formula::FVar(_) => Some(f),
                Formula::FNeg(h) => dnf_fuel(*h, m),
                Formula::FConj(a, b) => match (dnf_fuel(*a, m), dnf_fuel(*b, m)) {
                    (Some(x), Some(y)) => match (dnf_fuel(neg(x), m), dnf_fuel(neg(y), m)) {
                        (Some(p), Some(q)) => Some(disj(p, q)),
                        _ => None,
                    },
                    _ => None,
                },
                Formula::FDisj(a, b) => match (dnf_fuel(*a, m), dnf_fuel(*b, m)) {
                    (Some(x), Some(y)) => dnf_fuel(conj(neg(x), neg(y)), m),
                    _ => None,
                },
            },
            Formula::FConj(a, b) => match (dnf_fuel(*a, m), dnf_fuel(*b, m)) {
                (Some(x), Some(y)) => match (x, y) {
                    (Formula::FDisj(x1, x2), Formula::FDisj(y1, y2)) => match (
                        dnf_fuel(conj(*x1, *y1), m),
                        dnf_fuel(conj(*x1, *y2), m),
                        dnf_fuel(conj(*x2, *y1), m),
                        dnf_fuel(conj(*x2, *y2), m),
                    ) {
                        (Some(r11), Some(r12), Some(r21), Some(r22)) => Some(
                            disj(disj(r11, r12), disj(r21, r22)),
                        ),
                        _ => None,
                    },
                    (Formula::FDisj(x1, x2), _) => match (
                        dnf_fuel(conj(*x1, y), m),
                        dnf_fuel(conj(*x2, y), m),
                    ) {
                        (Some(r1), Some(r2)) => Some(disj(r1, r2)),
                        _ => None,
                    },
                    (_, Formula::FDisj(y1, y2)) => match (
                        dnf_fuel(conj(x, *y1), m),
                        dnf_fuel(conj(x, *y2), m),
                    ) {
                        (Some(r1), Some(r2)) => Some(disj(r1, r2)),
                        _ => None,
                    },
                    _ => Some(conj(x, y)),
                },
                _ => None,
            },
        }
    }
}

/// The disjunctive normal form that the conversion produces for `f`.
pub open spec fn dnf_of(f: Formula) -> Formula {
    dnf_fuel(f, choose|n: nat| dnf_fuel(f, n) is Some)->0
}

/// A larger depth bound gives the same result.
pub proof fn lemma_fuel_mono(f: Formula, n: nat, k: nat)
    requires
        dnf_fuel(f, n) is Some,
        n <= k,
    ensures
        dnf_fuel(f, k) == dnf_fuel(f, n),
    decreases n,
{
    let m = (n - 1) as nat;
    let j = (k - 1) as nat;
    match f {
        Formula::FVar(_) => {},
        Formula::FDisj(a, b) => {
            lemma_fuel_mono(*a, m, j);
            lemma_fuel_mono(*b, m, j);
        },
        Formula::FNeg(g) => match *g {
            Formula::FVar(_) => {},
            Formula::FNeg(h) => {
                lemma_fuel_mono(*h, m, j);
            },
            Formula::FConj(a, b) => {
                lemma_fuel_mono(*a, m, j);
                lemma_fuel_mono(*b, m, j);
                let x = dnf_fuel(*a, m)->0;
                let y = dnf_fuel(*b, m)->0;
                lemma_fuel_mono(neg(x), m, j);
                lemma_fuel_mono(neg(y), m, j);
            },
            Formula::FDisj(a, b) => {
                lemma_fuel_mono(*a, m, j);
                lemma_fuel_mono(*b, m, j);
                let x = dnf_fuel(*a, m)->0;
                let y = dnf_fuel(*b, m)->0;
                lemma_fuel_mono(conj(neg(x), neg(y)), m, j);
            },
        },
        Formula::FConj(a, b) => {
            lemma_fuel_mono(*a, m, j);
            lemma_fuel_mono(*b, m, j);
            let x = dnf_fuel(*a, m)->0;
            let y = dnf_fuel(*b, m)->0;
            match (x, y) {
                (Formula::FDisj(x1, x2), Formula::FDisj(y1, y2)) => {
                    lemma_fuel_mono(conj(*x1, *y1), m, j);
                    lemma_fuel_mono(conj(*x1, *y2), m, j);
                    lemma_fuel_mono(conj(*x2, *y1), m, j);
                    lemma_fuel_mono(conj(*x2, *y2), m, j);
                },
                (Formula::FDisj(x1, x2), _) => {
                    lemma_fuel_mono(conj(*x1, y), m, j);
                    lemma_fuel_mono(conj(*x2, y), m, j);
                },
                (_, Formula::FDisj(y1, y2)) => {
                    lemma_fuel_mono(conj(x, *y1), m, j);
                    lemma_fuel_mono(conj(x, *y2), m, j);
                },
                _ => {},
            }
        },
    }
}

/// Every result of the conversion is in disjunctive normal form and is
/// equivalent to its input under the assignment `env`.
pub proof fn lemma_fuel_sound(f: Formula, n: nat, env: spec_fn(u32) -> bool)
    requires
        dnf_fuel(f, n) is Some,
    ensures
        is_dnf(dnf_fuel(f, n)->0),
        eval(dnf_fuel(f, n)->0, env) == eval(f, env),
    decreases n,
{
    let m = (n - 1) as nat;
    match f {
        Formula::FVar(_) => {
            assert(is_clause(f));
        },
        Formula::FDisj(a, b) => {
            lemma_fuel_sound(*a, m, env);
            lemma_fuel_sound(*b, m, env);
        },
        Formula::FNeg(g) => match *g {
            Formula::FVar(_) => {
                assert(is_clause(f));
            },
            Formula::FNeg(h) => {
                lemma_fuel_sound(*h, m, env);
                assert(eval(*g, env) == !eval(*h, env));
            },
            Formula::FConj(a, b) => {
                lemma_fuel_sound(*a, m, env);
                lemma_fuel_sound(*b, m, env);
                let x = dnf_fuel(*a, m)->0;
                let y = dnf_fuel(*b, m)->0;
                lemma_fuel_sound(neg(x), m, env);
                lemma_fuel_sound(neg(y), m, env);
                assert(eval(*g, env) == (eval(*a, env) && eval(*b, env)));
            },
            Formula::FDisj(a, b) => {
                lemma_fuel_sound(*a, m, env);
                lemma_fuel_sound(*b, m, env);
                let x = dnf_fuel(*a, m)->0;
                let y = dnf_fuel(*b, m)->0;
                lemma_fuel_sound(conj(neg(x), neg(y)), m, env);
                assert(eval(*g, env) == (eval(*a, env) || eval(*b, env)));
                assert(eval(neg(x), env) == !eval(x, env));
                assert(eval(neg(y), env) == !eval(y, env));
                assert(eval(conj(neg(x), neg(y)), env) == (eval(neg(x), env) && eval(neg(y), env)));
            },
        },
        Formula::FConj(a, b) => {
            lemma_fuel_sound(*a, m, env);
            lemma_fuel_sound(*b, m, env);
            let x = dnf_fuel(*a, m)->0;
            let y = dnf_fuel(*b, m)->0;
            match (x, y) {
                (Formula::FDisj(x1, x2), Formula::FDisj(y1, y2)) => {
                    lemma_fuel_sound(conj(*x1, *y1), m, env);
                    lemma_fuel_sound(conj(*x1, *y2), m, env);
                    lemma_fuel_sound(conj(*x2, *y1), m, env);
                    lemma_fuel_sound(conj(*x2, *y2), m, env);
                    assert(eval(x, env) == (eval(*x1, env) || eval(*x2, env)));
                    assert(eval(y, env) == (eval(*y1, env) || eval(*y2, env)));
                    let r11 = dnf_fuel(conj(*x1, *y1), m)->0;
                    let r12 = dnf_fuel(conj(*x1, *y2), m)->0;
                    let r21 = dnf_fuel(conj(*x2, *y1), m)->0;
                    let r22 = dnf_fuel(conj(*x2, *y2), m)->0;
                    assert(is_dnf(disj(r11, r12)));
                    assert(is_dnf(disj(r21, r22)));
                    assert(eval(disj(r11, r12), env) == (eval(r11, env) || eval(r12, env)));
                    assert(eval(disj(r21, r22), env) == (eval(r21, env) || eval(r22, env)));
                },
                (Formula::FDisj(x1, x2), _) => {
                    lemma_fuel_sound(conj(*x1, y), m, env);
                    lemma_fuel_sound(conj(*x2, y), m, env);
                },
                (_, Formula::FDisj(y1, y2)) => {
                    lemma_fuel_sound(conj(x, *y1), m, env);
                    lemma_fuel_sound(conj(x, *y2), m, env);
                },
                _ => {
                    assert(is_clause(x));
                    assert(is_clause(y));
                    assert(is_clause(conj(x, y)));
                },
            }
        },
    }
}

/// The larger of two depth bounds.
pub open spec fn max_nat(a: nat, b: nat) -> nat {
    if a < b { b } else { a }
}

/// A formula already in disjunctive normal form is its own conversion,
/// with any depth bound of at least its size.
pub proof fn lemma_dnf_fixed(d: Formula, n: nat)
    requires
        is_dnf(d),
        n >= size(d),
    ensures
        dnf_fuel(d, n) == Some(d),
    decreases d,
{
    let m = (n - 1) as nat;
    match d {
        Formula::FVar(_) => {},
        Formula::FNeg(g) => {
            assert(is_literal(d));
        },
        Formula::FDisj(a, b) => {
            lemma_dnf_fixed(*a, m);
            lemma_dnf_fixed(*b, m);
        },
        Formula::FConj(a, b) => {
            assert(is_clause(d));
            assert(is_clause(*a) && is_clause(*b));
            assert(!(*a is FDisj) && !(*b is FDisj));
            lemma_dnf_fixed(*a, m);
            lemma_dnf_fixed(*b, m);
        },
    }
}

/// The conjunction of two formulas in disjunctive normal form converts
/// within a finite depth.
proof fn lemma_conj_of_dnf_terminates(x: Formula, y: Formula) -> (n: nat)
    requires
        is_dnf(x),
        is_dnf(y),
    ensures
        dnf_fuel(conj(x, y), n) is Some,
    decreases size(x) + size(y),
{
    let base = size(x) + size(y) + 1;
    match (x, y) {
        (Formula::FDisj(x1, x2), Formula::FDisj(y1, y2)) => {
            let k1 = lemma_conj_of_dnf_terminates(*x1, *y1);
            let k2 = lemma_conj_of_dnf_terminates(*x1, *y2);
            let k3 = lemma_conj_of_dnf_terminates(*x2, *y1);
            let k4 = lemma_conj_of_dnf_terminates(*x2, *y2);
            let k = max_nat(max_nat(base, max_nat(k1, k2)), max_nat(k3, k4));
            lemma_dnf_fixed(x, k);
            lemma_dnf_fixed(y, k);
            lemma_fuel_mono(conj(*x1, *y1), k1, k);
            lemma_fuel_mono(conj(*x1, *y2), k2, k);
            lemma_fuel_mono(conj(*x2, *y1), k3, k);
            lemma_fuel_mono(conj(*x2, *y2), k4, k);
            k + 1
        },
        (Formula::FDisj(x1, x2), _) => {
            let k1 = lemma_conj_of_dnf_terminates(*x1, y);
            let k2 = lemma_conj_of_dnf_terminates(*x2, y);
            let k = max_nat(base, max_nat(k1, k2));
            lemma_dnf_fixed(x, k);
            lemma_dnf_fixed(y, k);
            lemma_fuel_mono(conj(*x1, y), k1, k);
            lemma_fuel_mono(conj(*x2, y), k2, k);
            k + 1
        },
        (_, Formula::FDisj(y1, y2)) => {
            let k1 = lemma_conj_of_dnf_terminates(x, *y1);
            let k2 = lemma_conj_of_dnf_terminates(x, *y2);
            let k = max_nat(base, max_nat(k1, k2));
            lemma_dnf_fixed(x, k);
            lemma_dnf_fixed(y, k);
            lemma_fuel_mono(conj(x, *y1), k1, k);
            lemma_fuel_mono(conj(x, *y2), k2, k);
            k + 1
        },
        _ => {
            lemma_dnf_fixed(x, base);
            lemma_dnf_fixed(y, base);
            base + 1
        },
    }
}

/// The conjunction of two formulas that convert converts as well.
proof fn lemma_conj_terminates(p: Formula, q: Formula, np: nat, nq: nat) -> (n: nat)
    requires
        dnf_fuel(p, np) is Some,
        dnf_fuel(q, nq) is Some,
    ensures
        dnf_fuel(conj(p, q), n) is Some,
{
    let env = |v: u32| true;
    lemma_fuel_sound(p, np, env);
    lemma_fuel_sound(q, nq, env);
    let x = dnf_fuel(p, np)->0;
    let y = dnf_fuel(q, nq)->0;
    let base = max_nat(np, nq);
    lemma_fuel_mono(p, np, base);
    lemma_fuel_mono(q, nq, base);
    match (x, y) {
        (Formula::FDisj(x1, x2), Formula::FDisj(y1, y2)) => {
            let k1 = lemma_conj_of_dnf_terminates(*x1, *y1);
            let k2 = lemma_conj_of_dnf_terminates(*x1, *y2);
            let k3 = lemma_conj_of_dnf_terminates(*x2, *y1);
            let k4 = lemma_conj_of_dnf_terminates(*x2, *y2);
            let k = max_nat(max_nat(base, max_nat(k1, k2)), max_nat(k3, k4));
            lemma_fuel_mono(p, np, k);
            lemma_fuel_mono(q, nq, k);
            lemma_fuel_mono(conj(*x1, *y1), k1, k);
            lemma_fuel_mono(conj(*x1, *y2), k2, k);
            lemma_fuel_mono(conj(*x2, *y1), k3, k);
            lemma_fuel_mono(conj(*x2, *y2), k4, k);
            k + 1
        },
        (Formula::FDisj(x1, x2), _) => {
            let k1 = lemma_conj_of_dnf_terminates(*x1, y);
            let k2 = lemma_conj_of_dnf_terminates(*x2, y);
            let k = max_nat(base, max_nat(k1, k2));
            lemma_fuel_mono(p, np, k);
            lemma_fuel_mono(q, nq, k);
            lemma_fuel_mono(conj(*x1, y), k1, k);
            lemma_fuel_mono(conj(*x2, y), k2, k);
            k + 1
        },
        (_, Formula::FDisj(y1, y2)) => {
            let k1 = lemma_conj_of_dnf_terminates(x, *y1);
            let k2 = lemma_conj_of_dnf_terminates(x, *y2);
            let k = max_nat(base, max_nat(k1, k2));
            lemma_fuel_mono(p, np, k);
            lemma_fuel_mono(q, nq, k);
            lemma_fuel_mono(conj(x, *y1), k1, k);
            lemma_fuel_mono(conj(x, *y2), k2, k);
            k + 1
        },
        _ => base + 1,
    }
}

/// The negation of a formula in disjunctive normal form converts within a
/// finite depth.
proof fn lemma_neg_of_dnf_terminates(d: Formula) -> (n: nat)
    requires
        is_dnf(d),
    ensures
        dnf_fuel(neg(d), n) is Some,
    decreases d,
{
    match d {
        Formula::FVar(_) => 1,
        Formula::FNeg(h) => {
            assert(is_literal(d));
            assert(dnf_fuel(*h, 1) == Some(*h));
            2
        },
        Formula::FConj(c1, c2) => {
            assert(is_clause(d));
            assert(is_clause(*c1) && is_clause(*c2));
            let k1 = lemma_neg_of_dnf_terminates(*c1);
            let k2 = lemma_neg_of_dnf_terminates(*c2);
            let k = max_nat(size(d), max_nat(k1, k2));
            lemma_dnf_fixed(*c1, k);
            lemma_dnf_fixed(*c2, k);
            lemma_fuel_mono(neg(*c1), k1, k);
            lemma_fuel_mono(neg(*c2), k2, k);
            k + 1
        },
        Formula::FDisj(d1, d2) => {
            let k1 = lemma_neg_of_dnf_terminates(*d1);
            let k2 = lemma_neg_of_dnf_terminates(*d2);
            let k3 = lemma_conj_terminates(neg(*d1), neg(*d2), k1, k2);
            let k = max_nat(size(d), k3);
            lemma_dnf_fixed(*d1, k);
            lemma_dnf_fixed(*d2, k);
            lemma_fuel_mono(conj(neg(*d1), neg(*d2)), k3, k);
            k + 1
        },
    }
}

/// Every formula converts within a finite depth.
pub proof fn lemma_terminates(f: Formula) -> (n: nat)
    ensures
        dnf_fuel(f, n) is Some,
    decreases f,
{
    let env = |v: u32| true;
    match f {
        Formula::FVar(_) => 1,
        Formula::FDisj(a, b) => {
            let ka = lemma_terminates(*a);
            let kb = lemma_terminates(*b);
            let k = max_nat(ka, kb);
            lemma_fuel_mono(*a, ka, k);
            lemma_fuel_mono(*b, kb, k);
            k + 1
        },
        Formula::FNeg(g) => match *g {
            Formula::FVar(_) => 1,
            Formula::FNeg(h) => lemma_terminates(*h) + 1,
            Formula::FConj(a, b) => {
                let ka = lemma_terminates(*a);
                let kb = lemma_terminates(*b);
                lemma_fuel_sound(*a, ka, env);
                lemma_fuel_sound(*b, kb, env);
                let x = dnf_fuel(*a, ka)->0;
                let y = dnf_fuel(*b, kb)->0;
                let k1 = lemma_neg_of_dnf_terminates(x);
                let k2 = lemma_neg_of_dnf_terminates(y);
                let k = max_nat(max_nat(ka, kb), max_nat(k1, k2));
                lemma_fuel_mono(*a, ka, k);
                lemma_fuel_mono(*b, kb, k);
                lemma_fuel_mono(neg(x), k1, k);
                lemma_fuel_mono(neg(y), k2, k);
                k + 1
            },
            Formula::FDisj(a, b) => {
                let ka = lemma_terminates(*a);
                let kb = lemma_terminates(*b);
                lemma_fuel_sound(*a, ka, env);
                lemma_fuel_sound(*b, kb, env);
                let x = dnf_fuel(*a, ka)->0;
                let y = dnf_fuel(*b, kb)->0;
                let k1 = lemma_neg_of_dnf_terminates(x);
                let k2 = lemma_neg_of_dnf_terminates(y);
                let k3 = lemma_conj_terminates(neg(x), neg(y), k1, k2);
                let k = max_nat(max_nat(ka, kb), k3);
                lemma_fuel_mono(*a, ka, k);
                lemma_fuel_mono(*b, kb, k);
                lemma_fuel_mono(conj(neg(x), neg(y)), k3, k);
                k + 1
            },
        },
        Formula::FConj(a, b) => {
            let ka = lemma_terminates(*a);
            let kb = lemma_terminates(*b);
            lemma_conj_terminates(*a, *b, ka, kb)
        },
    }
}

/// Whatever depth bound suffices, the conversion gives `dnf_of(f)`.
pub proof fn lemma_dnf_of(f: Formula, n: nat)
    requires
        dnf_fuel(f, n) is Some,
    ensures
        dnf_of(f) == dnf_fuel(f, n)->0,
{
    let k0 = lemma_terminates(f);
    let c = choose|k: nat| dnf_fuel(f, k) is Some;
    let k = max_nat(n, c);
    lemma_fuel_mono(f, n, k);
    lemma_fuel_mono(f, c, k);
}

/// A formula already in disjunctive normal form converts to itself; so
/// converting twice gives what converting once gives.
pub proof fn law_dnf_of_fixed(f: Formula)
    ensures
        is_dnf(f) ==> dnf_of(f) == f,
        dnf_of(dnf_of(f)) == dnf_of(f),
{
    if is_dnf(f) {
        lemma_dnf_fixed(f, size(f));
        lemma_dnf_of(f, size(f));
    }
    let n = lemma_terminates(f);
    lemma_dnf_of(f, n);
    lemma_fuel_sound(f, n, |v: u32| true);
    let d = dnf_of(f);
    lemma_dnf_fixed(d, size(d));
    lemma_dnf_of(d, size(d));
}

/// The conversion with an explicit bound on its recursion depth, which
/// the bound is known to suffice for.
fn to_dnf_within(f: Box<Formula>, Ghost(n): Ghost<nat>) -> (r: Box<Formula>)
    requires
        dnf_fuel(*f, n) is Some,
    ensures
        dnf_fuel(*f, n) == Some(*r),
    decreases n,
{
    let ghost m: nat = (n - 1) as nat;
    match *f {
        Formula::FVar(_) => f,
        Formula::FDisj(f1, f2) => {
            let (f1, f2) = rayon::join(
                move || -> (r: Box<Formula>)
                    requires
                        dnf_fuel(*f1, m) is Some,
                    ensures
                        dnf_fuel(*f1, m) == Some(*r)
                    { to_dnf_within(f1, Ghost(m)) },
                move || -> (r: Box<Formula>)
                    requires
                        dnf_fuel(*f2, m) is Some,
                    ensures
                        dnf_fuel(*f2, m) == Some(*r)
                    { to_dnf_within(f2, Ghost(m)) },
            );
            Box::new(Formula::FDisj(f1, f2))
        },
        Formula::FNeg(v) => match *v {
            Formula::FVar(_) => Box::new(Formula::FNeg(v)),
            Formula::FNeg(frr) => to_dnf_within(frr, Ghost(m)),
            Formula::FConj(f1, f2) => {
                let (f1, f2) = rayon::join(
                    move || -> (r: Box<Formula>)
                        requires
                            dnf_fuel(*f1, m) is Some,
                        ensures
                            dnf_fuel(*f1, m) == Some(*r)
                        { to_dnf_within(f1, Ghost(m)) },
                    move || -> (r: Box<Formula>)
                        requires
                            dnf_fuel(*f2, m) is Some,
                        ensures
                            dnf_fuel(*f2, m) == Some(*r)
                        { to_dnf_within(f2, Ghost(m)) },
                );
                Box::new(
                    Formula::FDisj(
                        to_dnf_within(Box::new(Formula::FNeg(f1)), Ghost(m)),
                        to_dnf_within(Box::new(Formula::FNeg(f2)), Ghost(m)),
                    ),
                )
            },
            Formula::FDisj(f1, f2) => {
                let (f1, f2) = rayon::join(
                    move || -> (r: Box<Formula>)
                        requires
                            dnf_fuel(*f1, m) is Some,
                        ensures
                            dnf_fuel(*f1, m) == Some(*r)
                        { to_dnf_within(f1, Ghost(m)) },
                    move || -> (r: Box<Formula>)
                        requires
                            dnf_fuel(*f2, m) is Some,
                        ensures
                            dnf_fuel(*f2, m) == Some(*r)
                        { to_dnf_within(f2, Ghost(m)) },
                );
                to_dnf_within(
                    Box::new(
                        Formula::FConj(
                            Box::new(Formula::FNeg(f1)),
                            Box::new(Formula::FNeg(f2)),
                        ),
                    ),
                    Ghost(m),
                )
            },
        },
        Formula::FConj(f1, f2) => match *to_dnf_within(f1, Ghost(m)) {
            Formula::FDisj(f11, f12) => match *to_dnf_within(f2, Ghost(m)) {
                Formula::FDisj(f21, f22) => {
                    let f11_c = f11.clone();
                    let f12_c = f12.clone();
                    let f21_c = f21.clone();
                    let f22_c = f22.clone();
                    let (f11r, f12r) = rayon::join(
                        move || -> (r: Box<Formula>)
                            requires
                                dnf_fuel(conj(*f11, *f21), m) is Some,
                            ensures
                                dnf_fuel(conj(*f11, *f21), m) == Some(*r)
                            { to_dnf_within(Box::new(Formula::FConj(f11, f21)), Ghost(m)) },
                        move || -> (r: Box<Formula>)
                            requires
                                dnf_fuel(conj(*f11_c, *f22), m) is Some,
                            ensures
                                dnf_fuel(conj(*f11_c, *f22), m) == Some(*r)
                            { to_dnf_within(Box::new(Formula::FConj(f11_c, f22)), Ghost(m)) },
                    );
                    let (f21r, f22r) = rayon::join(
                        move || -> (r: Box<Formula>)
                            requires
                                dnf_fuel(conj(*f12, *f21_c), m) is Some,
                            ensures
                                dnf_fuel(conj(*f12, *f21_c), m) == Some(*r)
                            { to_dnf_within(Box::new(Formula::FConj(f12, f21_c)), Ghost(m)) },
                        move || -> (r: Box<Formula>)
                            requires
                                dnf_fuel(conj(*f12_c, *f22_c), m) is Some,
                            ensures
                                dnf_fuel(conj(*f12_c, *f22_c), m) == Some(*r)
                            { to_dnf_within(Box::new(Formula::FConj(f12_c, f22_c)), Ghost(m)) },
                    );
                    Box::new(
                        Formula::FDisj(
                            Box::new(Formula::FDisj(f11r, f12r)),
                            Box::new(Formula::FDisj(f21r, f22r)),
                        ),
                    )
                },
                v2 => {
                    let v2_box = Box::new(v2);
                    let v2_box_c = v2_box.clone();
                    let (f11r, f12r) = rayon::join(
                        move || -> (r: Box<Formula>)
                            requires
                                dnf_fuel(conj(*f11, *v2_box), m) is Some,
                            ensures
                                dnf_fuel(conj(*f11, *v2_box), m) == Some(*r)
                            { to_dnf_within(Box::new(Formula::FConj(f11, v2_box)), Ghost(m)) },
                        move || -> (r: Box<Formula>)
                            requires
                                dnf_fuel(conj(*f12, *v2_box_c), m) is Some,
                            ensures
                                dnf_fuel(conj(*f12, *v2_box_c), m) == Some(*r)
                            { to_dnf_within(Box::new(Formula::FConj(f12, v2_box_c)), Ghost(m)) },
                    );
                    Box::new(Formula::FDisj(f11r, f12r))
                },
            },
            v1 => match *to_dnf_within(f2, Ghost(m)) {
                Formula::FDisj(f21, f22) => {
                    let v1_box = Box::new(v1);
                    let v1_box_c = v1_box.clone();
                    let (f11r, f12r) = rayon::join(
                        move || -> (r: Box<Formula>)
                            requires
                                dnf_fuel(conj(*v1_box, *f21), m) is Some,
                            ensures
                                dnf_fuel(conj(*v1_box, *f21), m) == Some(*r)
                            { to_dnf_within(Box::new(Formula::FConj(v1_box, f21)), Ghost(m)) },
                        move || -> (r: Box<Formula>)
                            requires
                                dnf_fuel(conj(*v1_box_c, *f22), m) is Some,
                            ensures
                                dnf_fuel(conj(*v1_box_c, *f22), m) == Some(*r)
                            { to_dnf_within(Box::new(Formula::FConj(v1_box_c, f22)), Ghost(m)) },
                    );
                    Box::new(Formula::FDisj(f11r, f12r))
                },
                v2 => Box::new(Formula::FConj(Box::new(v1), Box::new(v2))),
            },
        },
    }
}

/// Converts `f` to disjunctive normal form: negations are pushed down to
/// the variables by De Morgan's laws, double negations vanish, and
/// conjunction is distributed over disjunction.  Independent
/// sub-conversions may run in parallel.
pub fn to_dnf(f: Box<Formula>) -> (r: Box<Formula>)
    ensures
        *r == dnf_of(*f),
        is_dnf(*r),
        equivalent(*r, *f),
{
    let ghost n = lemma_terminates(*f);
    let r = to_dnf_within(f, Ghost(n));
    proof {
        lemma_dnf_of(*f, n);
        assert forall|env: spec_fn(u32) -> bool| #[trigger] eval(*r, env) == eval(*f, env) by {
            lemma_fuel_sound(*f, n, env);
        }
        lemma_fuel_sound(*f, n, |v: u32| true);
    }
    r
}

} // verus!
