use dnf_converter::formula::Formula;
use dnf_converter::formula::Formula::{FConj, FDisj, FNeg, FVar};
use dnf_converter::valuation::{
    dnf_sat, val_in, val_insertion, val_key_in, val_set_cross, val_set_union, val_union,
    valuation_eq, valuation_key_eq, Valuation,
};

fn var(x: u32) -> Box<Formula> {
    Box::new(FVar(x))
}

fn not(f: Box<Formula>) -> Box<Formula> {
    Box::new(FNeg(f))
}

fn or(a: Box<Formula>, b: Box<Formula>) -> Box<Formula> {
    Box::new(FDisj(a, b))
}

fn and(a: Box<Formula>, b: Box<Formula>) -> Box<Formula> {
    Box::new(FConj(a, b))
}

fn eval(f: &Formula, env: u32) -> bool {
    match f {
        FVar(x) => (env >> x) & 1 == 1,
        FNeg(g) => !eval(g, env),
        FDisj(a, b) => eval(a, env) || eval(b, env),
        FConj(a, b) => eval(a, env) && eval(b, env),
    }
}

fn agrees(env: u32, v: &Valuation) -> bool {
    v.iter().all(|(k, b)| ((env >> k) & 1 == 1) == *b)
}

fn satisfied(env: u32, s: &[Valuation]) -> bool {
    s.iter().any(|v| agrees(env, v))
}

#[test]
fn val_key_in_finds_keys() {
    let l: Valuation = vec![(1, true), (2, false)];
    assert!(val_key_in(&l, &1));
    assert!(val_key_in(&l, &2));
    assert!(!val_key_in(&l, &3));
    assert!(!val_key_in(&vec![], &0));
}

#[test]
fn val_in_uses_the_first_pair() {
    let l: Valuation = vec![(1, true), (2, false), (1, false)];
    assert!(val_in(&l, &(1, true)));
    assert!(!val_in(&l, &(1, false)));
    assert!(val_in(&l, &(2, false)));
    assert!(!val_in(&l, &(3, true)));
}

#[test]
fn val_insertion_cases() {
    let mut l: Valuation = vec![(1, true)];
    assert!(val_insertion(&mut l, (2, false)));
    assert_eq!(l, vec![(1, true), (2, false)]);
    assert!(val_insertion(&mut l, (1, true)));
    assert_eq!(l, vec![(1, true), (2, false)]);
    assert!(!val_insertion(&mut l, (2, true)));
    assert_eq!(l, vec![(1, true), (2, false)]);
}

#[test]
fn valuation_key_eq_compares_variables() {
    let a: Valuation = vec![(1, true), (2, false)];
    let b: Valuation = vec![(2, true), (1, true)];
    let c: Valuation = vec![(1, true)];
    assert!(valuation_key_eq(&a, &b));
    assert!(!valuation_key_eq(&a, &c));
    assert!(!valuation_key_eq(&c, &a));
    assert!(valuation_key_eq(&vec![], &vec![]));
}

#[test]
fn valuation_eq_compares_pairs() {
    let a: Valuation = vec![(1, true), (2, false)];
    let b: Valuation = vec![(2, false), (1, true)];
    let c: Valuation = vec![(2, true), (1, true)];
    let d: Valuation = vec![(1, true), (2, false), (1, true)];
    assert!(valuation_eq(&a, &b));
    assert!(!valuation_eq(&a, &c));
    assert!(valuation_eq(&a, &d));
    assert!(!valuation_eq(&a, &vec![(1, true)]));
}

#[test]
fn val_union_merges_consistent_valuations() {
    let a: Valuation = vec![(1, true), (2, false)];
    let b: Valuation = vec![(2, false), (3, true), (3, true)];
    assert_eq!(val_union(&a, &b), Some(vec![(1, true), (2, false), (3, true)]));
    assert_eq!(val_union(&vec![], &vec![(4, false)]), Some(vec![(4, false)]));
}

#[test]
fn val_union_fails_on_conflict() {
    let a: Valuation = vec![(1, true)];
    assert_eq!(val_union(&a, &vec![(1, false)]), None);
    assert_eq!(val_union(&vec![], &vec![(5, true), (5, false)]), None);
}

#[test]
fn val_set_union_drops_equal_valuations() {
    let l: Vec<Valuation> = vec![vec![(1, true)], vec![(2, false), (3, true)]];
    let r: Vec<Valuation> = vec![vec![(3, true), (2, false)], vec![(4, true)], vec![(4, true)]];
    assert_eq!(
        val_set_union(l, r),
        vec![vec![(1, true)], vec![(2, false), (3, true)], vec![(4, true)]]
    );
}

#[test]
fn val_set_cross_keeps_consistent_unions() {
    let l: Vec<Valuation> = vec![vec![(1, true)], vec![(1, false)]];
    let r: Vec<Valuation> = vec![vec![(1, true), (2, true)], vec![(3, false)]];
    assert_eq!(
        val_set_cross(l, r),
        vec![vec![(1, true), (2, true)], vec![(1, true), (3, false)], vec![(1, false), (3, false)]]
    );
    assert_eq!(val_set_cross(vec![], vec![vec![(1, true)]]), Vec::<Valuation>::new());
}

#[test]
fn dnf_sat_example() {
    // -1 /\ (2 \/ 3)
    let f = FConj(not(var(1)), or(var(2), var(3)));
    assert_eq!(dnf_sat(f, false), vec![vec![(1, false), (2, true)], vec![(1, false), (3, true)]]);
}

#[test]
fn dnf_sat_variable_and_negation() {
    assert_eq!(dnf_sat(FVar(4), false), vec![vec![(4, true)]]);
    assert_eq!(dnf_sat(FVar(4), true), vec![vec![(4, false)]]);
    assert_eq!(dnf_sat(FNeg(var(4)), false), vec![vec![(4, false)]]);
}

#[test]
fn dnf_sat_unsatisfiable() {
    assert_eq!(dnf_sat(FConj(var(1), not(var(1))), false), Vec::<Valuation>::new());
}

#[test]
fn dnf_sat_negated_mode_uses_de_morgan() {
    // not (1 \/ 2)  ->  -1 /\ -2 ; not (1 /\ 2) -> -1 \/ -2
    assert_eq!(dnf_sat(FDisj(var(1), var(2)), true), vec![vec![(1, false), (2, false)]]);
    assert_eq!(dnf_sat(FConj(var(1), var(2)), true), vec![vec![(1, false)], vec![(2, false)]]);
}

#[test]
fn dnf_sat_describes_exactly_the_models() {
    let formulas = vec![
        and(not(var(1)), or(var(2), var(3))),
        or(and(var(0), var(1)), not(and(var(2), or(var(0), not(var(3)))))),
        not(or(and(var(1), not(var(1))), var(4))),
        and(or(var(1), var(2)), or(not(var(1)), var(2))),
    ];
    for f in formulas {
        for neg_mode in [false, true] {
            let vals = dnf_sat((*f).clone(), neg_mode);
            for env in 0..32u32 {
                assert_eq!(satisfied(env, &vals), eval(&f, env) != neg_mode, "{f:?} {env:b}");
            }
        }
    }
}

#[test]
fn val_union_agrees_with_both_operands() {
    let pairs: Vec<(Valuation, Valuation)> = vec![
        (vec![(0, true), (1, false)], vec![(1, false), (2, true)]),
        (vec![(0, true)], vec![(0, false)]),
        (vec![(3, true), (3, false)], vec![]),
        (vec![], vec![(1, true), (2, true), (1, false)]),
    ];
    for (a, b) in pairs {
        let u = val_union(&a, &b);
        for env in 0..16u32 {
            match &u {
                Some(u) => assert_eq!(agrees(env, u), agrees(env, &a) && agrees(env, &b)),
                None => assert!(!(agrees(env, &a) && agrees(env, &b))),
            }
        }
    }
}

#[test]
fn set_union_and_cross_laws() {
    let l: Vec<Valuation> = vec![vec![(0, true)], vec![(1, false), (2, true)]];
    let r: Vec<Valuation> = vec![vec![(0, false)], vec![(2, true), (1, false)], vec![(3, true)]];
    let union = val_set_union(l.clone(), r.clone());
    let cross = val_set_cross(l.clone(), r.clone());
    for env in 0..16u32 {
        assert_eq!(satisfied(env, &union), satisfied(env, &l) || satisfied(env, &r));
        assert_eq!(satisfied(env, &cross), satisfied(env, &l) && satisfied(env, &r));
    }
}
