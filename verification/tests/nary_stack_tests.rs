use dnf_converter::nary::Formula;
use dnf_converter::nary::Formula::{FConj, FDisj, FNeg, FVar};
use dnf_converter::nary_stack::{is_stack_convertible, proc_line, to_dnf};

fn not(f: Formula) -> Formula {
    FNeg(Box::new(f))
}

#[test]
fn stack_to_dnf_flattens_and_drops_negations_of_variables() {
    assert_eq!(to_dnf(FVar(1)), FVar(1));
    assert_eq!(to_dnf(not(FVar(1))), FVar(1));
    assert_eq!(to_dnf(not(not(FVar(1)))), FVar(1));
    assert_eq!(
        to_dnf(FDisj(vec![FVar(1), not(FVar(2)), FDisj(vec![FVar(3), FDisj(vec![])])])),
        FDisj(vec![FVar(1), FVar(2), FVar(3)])
    );
}

#[test]
fn stack_to_dnf_negated_conjunction() {
    assert_eq!(
        to_dnf(not(FConj(vec![FVar(1), not(FVar(2)), not(not(not(FVar(3))))]))),
        FDisj(vec![FVar(1), FVar(2), FVar(3)])
    );
}

#[test]
fn stack_to_dnf_many_operands_in_parallel() {
    let ops: Vec<Formula> = (0..200u32).map(|i| if i % 2 == 0 { FVar(i) } else { not(FVar(i)) }).collect();
    let expected: Vec<Formula> = (0..200u32).map(FVar).collect();
    assert_eq!(to_dnf(FDisj(ops)), FDisj(expected));
}

#[test]
fn stack_convertibility_check() {
    assert!(is_stack_convertible(&FDisj(vec![FVar(1), not(FConj(vec![FVar(2)]))])));
    assert!(!is_stack_convertible(&FConj(vec![FVar(1)])));
    assert!(!is_stack_convertible(&FDisj(vec![FConj(vec![])])));
    assert!(!is_stack_convertible(&not(FDisj(vec![FVar(1)]))));
    assert!(!is_stack_convertible(&not(FConj(vec![FDisj(vec![FVar(1)])]))));
    assert!(is_stack_convertible(&not(not(FDisj(vec![])))));
}

#[test]
fn stack_proc_line_makes_a_conjunction() {
    assert_eq!(proc_line("4 -5".to_string()), FConj(vec![FVar(4), not(FVar(5))]));
}
