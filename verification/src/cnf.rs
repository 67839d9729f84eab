//! Reading clause lines into a binary formula: each line is a disjunction
//! of literals, and the lines together are their conjunction.  Both are
//! built as balanced trees: a list is split in the middle (the first half
//! holding `len / 2` items) until single items remain.
use vstd::prelude::*;
use crate::formula::{Formula, neg, disj, conj, eval};
use crate::line::{line_values, parse_line, lemma_line_values_nonempty};
use crate::nary::value_variable;

verus! {

/// The formulas that a list of boxes holds.
pub open spec fn unboxed(v: Seq<Box<Formula>>) -> Seq<Formula> {
    v.map_values(|b: Box<Formula>| *b)
}

/// The balanced disjunction tree over a non-empty list.
pub open spec fn balanced_disj(s: Seq<Formula>) -> Formula
    decreases s.len(),
{
    if s.len() <= 1 {
        s[0]
    } else {
        let h = s.len() / 2;
        disj(balanced_disj(s.take(h as int)), balanced_disj(s.skip(h as int)))
    }
}

/// The balanced conjunction tree over a non-empty list.
pub open spec fn balanced_conj(s: Seq<Formula>) -> Formula
    decreases s.len(),
{
    if s.len() <= 1 {
        s[0]
    } else {
        let h = s.len() / 2;
        conj(balanced_conj(s.take(h as int)), balanced_conj(s.skip(h as int)))
    }
}

/// The literal that a value stands for: `v` for a non-negative value, the
/// negation of variable `-v` for a negative one.
pub open spec fn literal(v: i32) -> Formula {
    if v >= 0 {
        Formula::FVar(v as u32)
    } else {
        neg(Formula::FVar((-v) as u32))
    }
}

/// The literals of a line, last value first.
pub open spec fn reversed_literals(vals: Seq<i32>) -> Seq<Formula> {
    Seq::new(vals.len(), |i: int| literal(vals[vals.len() - 1 - i]))
}

/// The clause that a line's values stand for.
pub open spec fn clause_formula(vals: Seq<i32>) -> Formula {
    balanced_disj(reversed_literals(vals))
}

/// A line that reads as a clause: well formed, and with no value whose
/// negation leaves `i32`.
pub open spec fn line_ok(s: Seq<char>) -> bool {
    &&& line_values(s) is Some
    &&& forall|i: int| 0 <= i < line_values(s)->0.len() ==> #[trigger] line_values(s)->0[i] != i32::MIN
}

/// The clauses of a list of lines.
pub open spec fn clauses(v: Seq<String>) -> Seq<Formula> {
    v.map_values(|l: String| clause_formula(line_values(l@)->0))
}

/// The value that `env` gives a literal.
pub open spec fn literal_holds(v: i32, env: spec_fn(u32) -> bool) -> bool {
    eval(literal(v), env)
}

/// The disjunction of the formulas of `v`.
pub fn form_vec_to_formula(v: &[Box<Formula>]) -> (r: Box<Formula>)
    requires
        v@.len() >= 1,
    ensures
        *r == balanced_disj(unboxed(v@)),
    decreases v@.len(),
{
    let v_len = v.len();
    if v_len == 1 {
        let v_0 = &v[0];
        return v_0.clone();
    }
    let (vf, vb) = v.split_at(v_len / 2);
    assert(unboxed(vf@) =~= unboxed(v@).take((v_len / 2) as int));
    assert(unboxed(vb@) =~= unboxed(v@).skip((v_len / 2) as int));
    return Box::new(Formula::FDisj(form_vec_to_formula(vf), form_vec_to_formula(vb)));
}

/// The clause that a line stands for: the disjunction of its literals.
pub fn proc_line(line: &String) -> (r: Box<Formula>)
    requires
        line_ok(line@),
    ensures
        *r == clause_formula(line_values(line@)->0),
{
    let vals = parse_line(line.as_str()).unwrap();
    proof {
        lemma_line_values_nonempty(line@);
    }
    let mut ret_val: Vec<Box<Formula>> = Vec::new();
    let mut i: usize = 0;
    assert(unboxed(ret_val@) =~= reversed_literals(vals@.take(0)));
    while i < vals.len()
        invariant
            i <= vals.len(),
            vals@ == line_values(line@)->0,
            forall|j: int| 0 <= j < vals@.len() ==> #[trigger] vals@[j] != i32::MIN,
            unboxed(ret_val@) == reversed_literals(vals@.take(i as int)),
        decreases vals.len() - i,
    {
        let val = vals[i];
        let lit = if val >= 0 {
            let val_good = val as u32;
            Box::new(Formula::FVar(val_good))
        } else {
            let val_good = (-val) as u32;
            Box::new(Formula::FNeg(Box::new(Formula::FVar(val_good))))
        };
        assert(*lit == literal(val));
        let ghost prev = unboxed(ret_val@);
        ret_val.insert(0, lit);
        i += 1;
        proof {
            let cur = reversed_literals(vals@.take(i as int));
            assert(prev == reversed_literals(vals@.take(i - 1)));
            assert forall|k: int| 0 <= k < cur.len() implies unboxed(ret_val@)[k] == cur[k] by {
                if k > 0 {
                    assert(unboxed(ret_val@)[k] == prev[k - 1]);
                    assert(vals@.take(i as int)[i - 1 - k] == vals@.take(i - 1)[i - 2 - (k - 1)]);
                }
            }
            assert(unboxed(ret_val@) =~= cur);
        }
    }
    assert(vals@.take(i as int) =~= vals@);
    form_vec_to_formula(ret_val.as_slice())
}

/// The conjunction of the clauses of `v`; the two halves may be read in
/// parallel.
pub fn line_vec_to_formula(v: &[String]) -> (r: Box<Formula>)
    requires
        v@.len() >= 1,
        forall|i: int| 0 <= i < v@.len() ==> line_ok(#[trigger] v@[i]@),
    ensures
        *r == balanced_conj(clauses(v@)),
    decreases v@.len(),
{
    let v_len = v.len();
    if v_len == 1 {
        let v_line = &v[0];
        return proc_line(v_line);
    }
    let (v1, v2) = v.split_at(v_len / 2);
    assert(clauses(v1@) =~= clauses(v@).take((v_len / 2) as int));
    assert(clauses(v2@) =~= clauses(v@).skip((v_len / 2) as int));
    assert(forall|i: int| 0 <= i < v1@.len() ==> #[trigger] v1@[i] == v@[i]);
    assert(forall|i: int| 0 <= i < v2@.len() ==> #[trigger] v2@[i] == v@[i + v_len / 2]);
    let (v1_r, v2_r) = rayon::join(
        || -> (r: Box<Formula>)
            requires
                v1@.len() >= 1,
                forall|i: int| 0 <= i < v1@.len() ==> line_ok(#[trigger] v1@[i]@),
            ensures
                *r == balanced_conj(clauses(v1@))
            { line_vec_to_formula(v1) },
        || -> (r: Box<Formula>)
            requires
                v2@.len() >= 1,
                forall|i: int| 0 <= i < v2@.len() ==> line_ok(#[trigger] v2@[i]@),
            ensures
                *r == balanced_conj(clauses(v2@))
            { line_vec_to_formula(v2) },
    );
    Box::new(Formula::FConj(v1_r, v2_r))
}

/// A balanced disjunction holds exactly when one of its formulas holds.
pub proof fn law_balanced_disj_eval(s: Seq<Formula>, env: spec_fn(u32) -> bool)
    requires
        s.len() >= 1,
    ensures
        eval(balanced_disj(s), env) == exists|i: int| 0 <= i < s.len() && eval(#[trigger] s[i], env),
    decreases s.len(),
{
    if s.len() > 1 {
        let h = s.len() / 2;
        let a = s.take(h as int);
        let b = s.skip(h as int);
        law_balanced_disj_eval(a, env);
        law_balanced_disj_eval(b, env);
        if exists|i: int| 0 <= i < s.len() && eval(#[trigger] s[i], env) {
            let i = choose|i: int| 0 <= i < s.len() && eval(#[trigger] s[i], env);
            if i < h {
                assert(a[i] == s[i]);
            } else {
                assert(b[i - h] == s[i]);
            }
        }
        if exists|i: int| 0 <= i < a.len() && eval(#[trigger] a[i], env) {
            let i = choose|i: int| 0 <= i < a.len() && eval(#[trigger] a[i], env);
            assert(a[i] == s[i]);
        }
        if exists|i: int| 0 <= i < b.len() && eval(#[trigger] b[i], env) {
            let i = choose|i: int| 0 <= i < b.len() && eval(#[trigger] b[i], env);
            assert(b[i] == s[i + h]);
        }
    } else {
        assert(eval(s[0], env) ==> exists|i: int| 0 <= i < s.len() && eval(#[trigger] s[i], env));
    }
}

/// A balanced conjunction holds exactly when all of its formulas hold.
pub proof fn law_balanced_conj_eval(s: Seq<Formula>, env: spec_fn(u32) -> bool)
    requires
        s.len() >= 1,
    ensures
        eval(balanced_conj(s), env) == forall|i: int| 0 <= i < s.len() ==> eval(#[trigger] s[i], env),
    decreases s.len(),
{
    if s.len() > 1 {
        let h = s.len() / 2;
        let a = s.take(h as int);
        let b = s.skip(h as int);
        law_balanced_conj_eval(a, env);
        law_balanced_conj_eval(b, env);
        if !(forall|i: int| 0 <= i < s.len() ==> eval(#[trigger] s[i], env)) {
            let i = choose|i: int| 0 <= i < s.len() && !eval(#[trigger] s[i], env);
            if i < h {
                assert(a[i] == s[i]);
            } else {
                assert(b[i - h] == s[i]);
            }
        }
        if forall|i: int| 0 <= i < s.len() ==> eval(#[trigger] s[i], env) {
            assert forall|i: int| 0 <= i < a.len() implies eval(#[trigger] a[i], env) by {
                assert(a[i] == s[i]);
            }
            assert forall|i: int| 0 <= i < b.len() implies eval(#[trigger] b[i], env) by {
                assert(b[i] == s[i + h]);
            }
        }
    }
}

/// A line's clause holds exactly when one of its literals holds.
pub proof fn law_clause_eval(vals: Seq<i32>, env: spec_fn(u32) -> bool)
    requires
        vals.len() >= 1,
    ensures
        eval(clause_formula(vals), env) == exists|i: int| 0 <= i < vals.len() && literal_holds(
            #[trigger] vals[i],
            env,
        ),
{
    let s = reversed_literals(vals);
    law_balanced_disj_eval(s, env);
    if exists|i: int| 0 <= i < vals.len() && literal_holds(#[trigger] vals[i], env) {
        let i = choose|i: int| 0 <= i < vals.len() && literal_holds(#[trigger] vals[i], env);
        assert(s[vals.len() - 1 - i] == literal(vals[i]));
    }
    if exists|i: int| 0 <= i < s.len() && eval(#[trigger] s[i], env) {
        let i = choose|i: int| 0 <= i < s.len() && eval(#[trigger] s[i], env);
        assert(literal_holds(vals[vals.len() - 1 - i], env));
    }
}

/// A value stands for variable `|v|` itself, whatever its size: a
/// non-negative value is that variable, a negative one its negation.  So a
/// line's clause holds under `env` exactly when some value `v` of the line
/// has `env(|v|) == (v >= 0)`.
pub proof fn law_line_clause_meaning(vals: Seq<i32>, env: spec_fn(u32) -> bool)
    requires
        vals.len() >= 1,
    ensures
        forall|i: int|
            0 <= i < vals.len() ==> #[trigger] literal(vals[i]) == (if vals[i] >= 0 {
                Formula::FVar(value_variable(vals[i]))
            } else {
                neg(Formula::FVar(value_variable(vals[i])))
            }),
        eval(clause_formula(vals), env) == exists|i: int|
            0 <= i < vals.len() && env(value_variable(#[trigger] vals[i])) == (vals[i] >= 0),
{
    law_clause_eval(vals, env);
    assert forall|i: int| 0 <= i < vals.len() implies literal_holds(#[trigger] vals[i], env) == (env(
        value_variable(vals[i]),
    ) == (vals[i] >= 0)) by {
        let v = vals[i];
        if v < 0 {
            assert(eval(Formula::FVar((-v) as u32), env) == env((-v) as u32));
        }
    }
    if exists|i: int| 0 <= i < vals.len() && literal_holds(#[trigger] vals[i], env) {
        let i = choose|i: int| 0 <= i < vals.len() && literal_holds(#[trigger] vals[i], env);
        assert(env(value_variable(vals[i])) == (vals[i] >= 0));
    }
    if exists|i: int| 0 <= i < vals.len() && env(value_variable(#[trigger] vals[i])) == (vals[i] >= 0) {
        let i = choose|i: int| 0 <= i < vals.len() && env(value_variable(#[trigger] vals[i])) == (vals[i]
            >= 0);
        assert(literal_holds(vals[i], env));
    }
}

/// Some value `v` of the line has `env(|v|) == (v >= 0)`.
pub open spec fn line_met(line: Seq<char>, env: spec_fn(u32) -> bool) -> bool {
    exists|j: int|
        0 <= j < line_values(line)->0.len() && env(value_variable(#[trigger] line_values(line)->0[j]))
            == (line_values(line)->0[j] >= 0)
}

/// The formula read from clause lines holds under `env` exactly when every
/// line has a value `v` with `env(|v|) == (v >= 0)`.
pub proof fn law_lines_meaning(lines: Seq<String>, env: spec_fn(u32) -> bool)
    requires
        lines.len() >= 1,
        forall|i: int| 0 <= i < lines.len() ==> line_ok(#[trigger] lines[i]@),
    ensures
        eval(balanced_conj(clauses(lines)), env) == forall|i: int|
            0 <= i < lines.len() ==> line_met(#[trigger] lines[i]@, env),
{
    let cs = clauses(lines);
    law_balanced_conj_eval(cs, env);
    assert forall|i: int| 0 <= i < lines.len() implies eval(#[trigger] cs[i], env) == line_met(
        lines[i]@,
        env,
    ) by {
        let vals = line_values(lines[i]@)->0;
        assert(line_ok(lines[i]@));
        lemma_line_values_nonempty(lines[i]@);
        assert(cs[i] == clause_formula(vals));
        law_line_clause_meaning(vals, env);
    }
    if forall|i: int| 0 <= i < lines.len() ==> line_met(#[trigger] lines[i]@, env) {
        assert forall|i: int| 0 <= i < cs.len() implies eval(#[trigger] cs[i], env) by {
            assert(line_met(lines[i]@, env));
        }
    }
    if forall|i: int| 0 <= i < cs.len() ==> eval(#[trigger] cs[i], env) {
        assert forall|i: int| 0 <= i < lines.len() implies line_met(#[trigger] lines[i]@, env) by {
            assert(eval(cs[i], env));
        }
    }
}

/// The operands of a disjunction tree, left to right.
pub open spec fn disj_leaves(f: Formula) -> Seq<Formula>
    decreases f,
{
    match f {
        Formula::FDisj(a, b) => disj_leaves(*a) + disj_leaves(*b),
        _ => seq![f],
    }
}

/// The operands of a conjunction tree, left to right.
pub open spec fn conj_leaves(f: Formula) -> Seq<Formula>
    decreases f,
{
    match f {
        Formula::FConj(a, b) => conj_leaves(*a) + conj_leaves(*b),
        _ => seq![f],
    }
}

proof fn lemma_disj_leaves(s: Seq<Formula>)
    requires
        s.len() >= 1,
        forall|i: int| 0 <= i < s.len() ==> !(#[trigger] s[i] is FDisj),
    ensures
        disj_leaves(balanced_disj(s)) == s,
    decreases s.len(),
{
    if s.len() <= 1 {
        assert(!(s[0] is FDisj));
        assert(seq![s[0]] =~= s);
    } else {
        let h = s.len() / 2;
        let a = s.take(h as int);
        let b = s.skip(h as int);
        assert forall|i: int| 0 <= i < a.len() implies !(#[trigger] a[i] is FDisj) by {
            assert(a[i] == s[i]);
        }
        assert forall|i: int| 0 <= i < b.len() implies !(#[trigger] b[i] is FDisj) by {
            assert(b[i] == s[i + h]);
        }
        lemma_disj_leaves(a);
        lemma_disj_leaves(b);
        assert(a + b =~= s);
    }
}

proof fn lemma_conj_leaves(s: Seq<Formula>)
    requires
        s.len() >= 1,
        forall|i: int| 0 <= i < s.len() ==> !(#[trigger] s[i] is FConj),
    ensures
        conj_leaves(balanced_conj(s)) == s,
    decreases s.len(),
{
    if s.len() <= 1 {
        assert(!(s[0] is FConj));
        assert(seq![s[0]] =~= s);
    } else {
        let h = s.len() / 2;
        let a = s.take(h as int);
        let b = s.skip(h as int);
        assert forall|i: int| 0 <= i < a.len() implies !(#[trigger] a[i] is FConj) by {
            assert(a[i] == s[i]);
        }
        assert forall|i: int| 0 <= i < b.len() implies !(#[trigger] b[i] is FConj) by {
            assert(b[i] == s[i + h]);
        }
        lemma_conj_leaves(a);
        lemma_conj_leaves(b);
        assert(a + b =~= s);
    }
}

/// A line's clause is a disjunction tree whose operands, left to right,
/// are the literals of the line's values, last value first.
pub proof fn law_clause_leaves(vals: Seq<i32>)
    requires
        vals.len() >= 1,
    ensures
        disj_leaves(clause_formula(vals)).len() == vals.len(),
        forall|i: int|
            0 <= i < vals.len() ==> #[trigger] disj_leaves(clause_formula(vals))[i] == literal(
                vals[vals.len() - 1 - i],
            ),
        !(clause_formula(vals) is FConj),
{
    let s = reversed_literals(vals);
    assert forall|i: int| 0 <= i < s.len() implies !(#[trigger] s[i] is FDisj) && !(s[i] is FConj) by {
        assert(s[i] == literal(vals[vals.len() - 1 - i]));
    }
    lemma_disj_leaves(s);
    if s.len() <= 1 {
        assert(!(s[0] is FConj));
    }
}

/// The formula read from clause lines is a conjunction tree whose
/// operands, left to right, are the clauses of the lines, in order.
pub proof fn law_lines_leaves(lines: Seq<String>)
    requires
        lines.len() >= 1,
        forall|i: int| 0 <= i < lines.len() ==> line_ok(#[trigger] lines[i]@),
    ensures
        conj_leaves(balanced_conj(clauses(lines))) == clauses(lines),
{
    let cs = clauses(lines);
    assert forall|i: int| 0 <= i < cs.len() implies !(#[trigger] cs[i] is FConj) by {
        assert(line_ok(lines[i]@));
        lemma_line_values_nonempty(lines[i]@);
        law_clause_leaves(line_values(lines[i]@)->0);
    }
    lemma_conj_leaves(cs);
}

} // verus!
