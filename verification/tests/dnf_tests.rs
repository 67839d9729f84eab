use dnf_converter::cnf::{form_vec_to_formula, line_vec_to_formula, proc_line};
use dnf_converter::dnf::to_dnf;
use dnf_converter::formula::Formula;
use dnf_converter::formula::Formula::{FConj, FDisj, FNeg, FVar};

fn var(x: u32) -> Box<Formula> {
    Box::new(FVar(x))
}

fn not(f: Box<Formula>) -> Box<Formula> {
    Box::new(FNeg(f))
}

fn or(a: Box<Formula>, b: Box<Formula>) -> Box<Formula> {
    Box::new(FDisj(a, b))
}

fn and(a: Box<Formula>, b: Box<Formula>) -> Box<Formula> {
    Box::new(FConj(a, b))
}

fn eval(f: &Formula, env: u32) -> bool {
    match f {
        FVar(x) => (env >> x) & 1 == 1,
        FNeg(g) => !eval(g, env),
        FDisj(a, b) => eval(a, env) || eval(b, env),
        FConj(a, b) => eval(a, env) && eval(b, env),
    }
}

fn is_literal(f: &Formula) -> bool {
    match f {
        FVar(_) => true,
        FNeg(g) => matches!(**g, FVar(_)),
        _ => false,
    }
}

fn is_clause(f: &Formula) -> bool {
    match f {
        FConj(a, b) => is_clause(a) && is_clause(b),
        _ => is_literal(f),
    }
}

fn is_dnf(f: &Formula) -> bool {
    match f {
        FDisj(a, b) => is_dnf(a) && is_dnf(b),
        _ => is_clause(f),
    }
}

fn assert_equivalent(a: &Formula, b: &Formula) {
    for env in 0..64u32 {
        assert_eq!(eval(a, env), eval(b, env), "assignment {env:b}");
    }
}

#[test]
fn to_dnf_distributes_two_disjunctions() {
    // (1 \/ 2) /\ (-1 \/ 2)
    let f = and(or(var(1), var(2)), or(not(var(1)), var(2)));
    let expected = or(
        or(and(var(1), not(var(1))), and(var(1), var(2))),
        or(and(var(2), not(var(1))), and(var(2), var(2))),
    );
    assert_eq!(to_dnf(f), expected);
}

#[test]
fn to_dnf_distributes_left_disjunction() {
    let f = and(or(var(1), var(2)), var(3));
    assert_eq!(to_dnf(f), or(and(var(1), var(3)), and(var(2), var(3))));
}

#[test]
fn to_dnf_distributes_right_disjunction() {
    let f = and(var(3), or(var(1), var(2)));
    assert_eq!(to_dnf(f), or(and(var(3), var(1)), and(var(3), var(2))));
}

#[test]
fn to_dnf_negated_conjunction() {
    let f = not(and(var(1), var(2)));
    assert_eq!(to_dnf(f), or(not(var(1)), not(var(2))));
}

#[test]
fn to_dnf_negated_disjunction() {
    let f = not(or(var(1), var(2)));
    assert_eq!(to_dnf(f), and(not(var(1)), not(var(2))));
}

#[test]
fn to_dnf_double_negation() {
    assert_eq!(to_dnf(not(not(var(3)))), var(3));
    assert_eq!(to_dnf(not(not(not(var(3))))), not(var(3)));
}

#[test]
fn to_dnf_keeps_literals_and_clauses() {
    assert_eq!(to_dnf(var(0)), var(0));
    assert_eq!(to_dnf(not(var(0))), not(var(0)));
    assert_eq!(to_dnf(and(var(1), not(var(2)))), and(var(1), not(var(2))));
}

#[test]
fn to_dnf_of_dnf_is_unchanged() {
    let d = or(and(var(1), not(var(2))), or(var(3), and(var(4), var(5))));
    assert_eq!(to_dnf(d.clone()), d);
    let f = and(or(var(1), var(2)), not(and(var(3), or(var(4), var(5)))));
    let once = to_dnf(f);
    assert_eq!(to_dnf(once.clone()), once);
}

#[test]
fn to_dnf_nested_negation_of_disjunction_of_conjunctions() {
    // -((1 /\ 2) \/ 3) = (-1 /\ -3) \/ (-2 /\ -3)
    let f = not(or(and(var(1), var(2)), var(3)));
    assert_eq!(to_dnf(f), or(and(not(var(1)), not(var(3))), and(not(var(2)), not(var(3)))));
}

#[test]
fn to_dnf_results_are_equivalent_dnf() {
    let formulas = vec![
        and(or(var(1), var(2)), or(not(var(1)), var(2))),
        not(and(or(var(1), not(var(2))), or(var(3), var(4)))),
        not(or(and(var(1), var(2)), not(and(var(3), or(var(4), var(5)))))),
        and(and(or(var(0), var(1)), or(var(2), var(3))), or(not(var(4)), var(5))),
        not(not(and(not(or(var(1), var(2))), or(var(3), not(var(1)))))),
    ];
    for f in formulas {
        let r = to_dnf(f.clone());
        assert!(is_dnf(&r), "{r:?}");
        assert_equivalent(&r, &f);
    }
}

#[test]
fn form_vec_to_formula_builds_balanced_disjunction() {
    assert_eq!(form_vec_to_formula(&[var(7)]), var(7));
    assert_eq!(form_vec_to_formula(&[var(1), var(2)]), or(var(1), var(2)));
    assert_eq!(form_vec_to_formula(&[var(1), var(2), var(3)]), or(var(1), or(var(2), var(3))));
    assert_eq!(
        form_vec_to_formula(&[var(1), var(2), var(3), var(4)]),
        or(or(var(1), var(2)), or(var(3), var(4)))
    );
}

#[test]
fn proc_line_reverses_literals_into_a_disjunction() {
    assert_eq!(proc_line(&"1 -2 3".to_string()), or(var(3), or(not(var(2)), var(1))));
    assert_eq!(proc_line(&"5".to_string()), var(5));
    assert_eq!(proc_line(&"-4".to_string()), not(var(4)));
    assert_eq!(proc_line(&"0 -0".to_string()), or(var(0), var(0)));
}

#[test]
fn proc_line_trims_and_collapses_double_spaces() {
    assert_eq!(proc_line(&"  1  2\n".to_string()), or(var(2), var(1)));
    assert_eq!(proc_line(&"\t+7 -8 ".to_string()), or(not(var(8)), var(7)));
}

#[test]
fn line_vec_to_formula_builds_balanced_conjunction() {
    let lines = vec!["1 2".to_string(), "-1 2".to_string(), "3".to_string()];
    assert_eq!(
        line_vec_to_formula(&lines),
        and(or(var(2), var(1)), and(or(var(2), not(var(1))), var(3)))
    );
    assert_eq!(line_vec_to_formula(&lines[..1]), or(var(2), var(1)));
}

#[test]
fn line_vec_to_formula_many_lines_in_parallel() {
    let lines: Vec<String> = (1..=40u32).map(|i| format!("{} -{}", i, i + 100)).collect();
    let f = line_vec_to_formula(&lines);
    fn clauses(f: &Formula, out: &mut Vec<Formula>) {
        match f {
            FConj(a, b) => {
                clauses(a, out);
                clauses(b, out);
            }
            other => out.push(other.clone()),
        }
    }
    let mut got = Vec::new();
    clauses(&f, &mut got);
    assert_eq!(got.len(), 40);
    for (i, c) in got.iter().enumerate() {
        let i = i as u32 + 1;
        assert_eq!(*c, FDisj(not(var(i + 100)), var(i)));
    }
}

#[test]
fn converter_pipeline_on_a_small_file() {
    // (1 \/ 2) /\ (-1 \/ 2), as the clause lines of an input file
    let lines = vec!["1 2".to_string(), "-1 2".to_string()];
    let f = line_vec_to_formula(&lines);
    let r = to_dnf(f.clone());
    assert!(is_dnf(&r));
    assert_equivalent(&r, &f);
    assert_eq!(
        r,
        or(
            or(and(var(2), var(2)), and(var(2), not(var(1)))),
            or(and(var(1), var(2)), and(var(1), not(var(1))))
        )
    );
}

#[test]
fn clause_line_holds_when_one_literal_holds() {
    let line = "1 -2 3 -4".to_string();
    let f = proc_line(&line);
    for env in 0..32u32 {
        let expected = [(1u32, true), (2, false), (3, true), (4, false)]
            .iter()
            .any(|(x, b)| ((env >> x) & 1 == 1) == *b);
        assert_eq!(eval(&f, env), expected);
    }
}

#[test]
fn clause_lines_hold_when_every_clause_holds() {
    let lines = vec!["1 2".to_string(), "-1".to_string(), "3 -2".to_string(), "4".to_string()];
    let f = line_vec_to_formula(&lines);
    for env in 0..32u32 {
        let bit = |x: u32| (env >> x) & 1 == 1;
        let expected = (bit(1) || bit(2)) && !bit(1) && (bit(3) || !bit(2)) && bit(4);
        assert_eq!(eval(&f, env), expected);
    }
}
