use dnf_converter::nary::Formula::{FConj, FDisj, FNeg, FVar};
use dnf_converter::nary::{
    disj_below_conj, disj_below_neg, flatten, formula_cross, is_convertible, is_neg_convertible,
    proc_line, to_dnf, Formula,
};

fn not(f: Formula) -> Formula {
    FNeg(Box::new(f))
}

#[test]
fn flatten_splices_nested_operands() {
    let f = FDisj(vec![FVar(1), FDisj(vec![FVar(2), not(FVar(3))]), FConj(vec![FVar(4), FVar(5)])]);
    assert_eq!(flatten(f), FDisj(vec![FVar(1), FVar(2), not(FVar(3)), FVar(4), FVar(5)]));
    let g = FConj(vec![FConj(vec![FVar(1), FVar(2)]), not(FVar(3))]);
    assert_eq!(flatten(g), FConj(vec![FVar(1), FVar(2), not(FVar(3))]));
}

#[test]
fn flatten_removes_double_negation() {
    assert_eq!(flatten(not(not(FVar(2)))), FVar(2));
    assert_eq!(flatten(not(FVar(2))), not(FVar(2)));
    assert_eq!(flatten(FVar(2)), FVar(2));
}

#[test]
fn flatten_is_one_level_deep() {
    let inner = FDisj(vec![FVar(1), FDisj(vec![FVar(2)])]);
    let f = FDisj(vec![inner]);
    assert_eq!(flatten(f), FDisj(vec![FVar(1), FDisj(vec![FVar(2)])]));
}

#[test]
fn formula_cross_joins_one_clause() {
    let f = formula_cross(vec![
        FVar(1),
        FDisj(vec![FConj(vec![FVar(2)]), FVar(3)]),
        FConj(vec![FVar(4), not(FVar(5))]),
    ]);
    assert_eq!(
        f,
        FDisj(vec![FConj(vec![FVar(1), FConj(vec![FVar(2)]), FVar(3), FVar(4), not(FVar(5))])])
    );
    assert_eq!(formula_cross(vec![]), FDisj(vec![FConj(vec![])]));
}

#[test]
fn to_dnf_on_clause_lines() {
    let f = FConj(vec![
        FDisj(vec![FVar(1), not(FVar(2))]),
        FDisj(vec![FVar(3)]),
    ]);
    let r = to_dnf(f);
    assert_eq!(r, FDisj(vec![FConj(vec![FVar(1), not(FVar(2)), FVar(3)])]));
    assert!(!disj_below_neg(r.clone(), false));
    assert!(!disj_below_conj(r, false));
}

#[test]
fn to_dnf_handles_negations() {
    assert_eq!(to_dnf(not(FVar(1))), not(FVar(1)));
    assert_eq!(to_dnf(not(not(FVar(1)))), FVar(1));
    assert_eq!(
        to_dnf(not(FConj(vec![FVar(1), FVar(2)]))),
        FDisj(vec![not(FVar(1)), not(FVar(2))])
    );
    assert_eq!(
        to_dnf(not(FDisj(vec![FVar(1), not(FVar(2))]))),
        FDisj(vec![FConj(vec![not(FVar(1)), FVar(2)])])
    );
}

#[test]
fn to_dnf_flattens_disjunctions() {
    let f = FDisj(vec![FVar(1), FDisj(vec![FVar(2), FDisj(vec![FVar(3)])])]);
    assert_eq!(to_dnf(f), FDisj(vec![FVar(1), FVar(2), FVar(3)]));
}

#[test]
fn to_dnf_results_pass_both_checks() {
    let formulas = vec![
        FConj(vec![FDisj(vec![FVar(1), FVar(2)]), FDisj(vec![not(FVar(1)), FVar(2)])]),
        not(FConj(vec![FDisj(vec![FVar(1)]), not(FVar(2))])),
        FDisj(vec![FConj(vec![FVar(1), FConj(vec![FVar(2)])]), not(not(FVar(3)))]),
        not(FDisj(vec![not(not(FVar(4))), FVar(5)])),
    ];
    for f in formulas {
        assert!(is_convertible(&f));
        let r = to_dnf(f);
        assert!(!disj_below_neg(r.clone(), false), "{r:?}");
        assert!(!disj_below_conj(r, false));
    }
}

#[test]
fn convertibility_check() {
    assert!(is_convertible(&FVar(1)));
    assert!(is_convertible(&not(FDisj(vec![FVar(1), not(not(FVar(2)))]))));
    assert!(!is_convertible(&not(FDisj(vec![FConj(vec![FVar(1)])]))));
    assert!(!is_convertible(&FConj(vec![not(FDisj(vec![FDisj(vec![])]))])));
    assert!(is_neg_convertible(&FConj(vec![FVar(1), FDisj(vec![FVar(2)])])));
    assert!(!is_neg_convertible(&FDisj(vec![FVar(1), FDisj(vec![FVar(2)])])));
}

#[test]
fn disj_below_neg_cases() {
    assert!(!disj_below_neg(FVar(1), false));
    assert!(disj_below_neg(not(FDisj(vec![FVar(1)])), false));
    assert!(disj_below_neg(FDisj(vec![]), true));
    assert!(!disj_below_neg(FDisj(vec![FVar(1), not(FVar(2))]), false));
    assert!(disj_below_neg(FConj(vec![FVar(1), not(FConj(vec![FDisj(vec![])]))]), false));
}

#[test]
fn disj_below_conj_cases() {
    assert!(!disj_below_conj(FVar(1), false));
    assert!(disj_below_conj(FDisj(vec![FVar(1)]), true));
    assert!(!disj_below_conj(FDisj(vec![FConj(vec![FVar(1)])]), false));
    assert!(disj_below_conj(FConj(vec![FDisj(vec![FVar(1)])]), false));
    assert!(!disj_below_conj(FConj(vec![FVar(1), FVar(2)]), false));
    // below the root the check looks for a disjunction under a negation
    assert!(!disj_below_conj(FDisj(vec![FDisj(vec![FVar(1)])]), false));
    assert!(disj_below_conj(not(FDisj(vec![])), true));
}

#[test]
fn proc_line_makes_a_disjunction_in_order() {
    assert_eq!(
        proc_line(" 1 -2  3 ".to_string()),
        FDisj(vec![FVar(1), not(FVar(2)), FVar(3)])
    );
}

#[test]
fn clone_keeps_the_formula() {
    let f = FConj(vec![FDisj(vec![FVar(1), not(FVar(2))]), not(not(FVar(3)))]);
    assert_eq!(f.clone(), f);
}
