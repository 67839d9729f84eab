//! A second conversion of n-ary formulas, which converts the operands of a
//! disjunction in parallel and turns every conjunction into a negated
//! disjunction of negations.
//!
//! Its recursion only ends on part of its inputs: a conjunction anywhere
//! the conversion reaches, or a negated disjunction, makes it recurse
//! without end, and so does a negated conjunction with an operand that does
//! not convert to a variable.  A negated variable converts to the variable
//! itself.  Its accepted inputs are the formulas of `stack_convertible`.
use vstd::prelude::*;
use crate::nary::{Formula, Form, form_of, forms_of, node_count, neg_on_vars, is_neg_chain, pieces,
    spread, flatten, lemma_forms_of, is_var_under_negations, lemma_node_count_item, line_literals,
    literal_forms, literal_seq, literal_seq_all, lemma_lits_concat, lemma_lits_spread};
use crate::parallel::par_map;
use crate::line::line_values;
use crate::cnf::line_ok;

verus! {

/// The formulas on which the conversion ends.
pub open spec fn stack_convertible(f: Form) -> bool
    decreases f,
{
    match f {
        Form::Var(_) => true,
        Form::Neg(g) => stack_neg_convertible(*g),
        Form::Disj(v) => forall|i: int| 0 <= i < v.len() ==> stack_convertible(#[trigger] v[i]),
        Form::Conj(_) => false,
    }
}

/// The formulas whose negation the conversion ends on.
pub open spec fn stack_neg_convertible(g: Form) -> bool
    decreases g,
{
    match g {
        Form::Var(_) => true,
        Form::Neg(h) => stack_convertible(*h),
        Form::Conj(v) => forall|i: int| 0 <= i < v.len() ==> is_neg_chain(#[trigger] v[i]),
        Form::Disj(_) => false,
    }
}

/// The result of the conversion.
pub open spec fn stack_converted(f: Form) -> Form
    decreases f,
{
    match f {
        Form::Neg(g) => stack_converted_neg(*g),
        Form::Disj(v) => Form::Disj(spread(stack_converted_all(v))),
        _ => f,
    }
}

/// The result of the conversion on the negation of `g`.
pub open spec fn stack_converted_neg(g: Form) -> Form
    decreases g,
{
    match g {
        Form::Neg(h) => stack_converted(*h),
        Form::Conj(v) => Form::Disj(stack_converted_all(v)),
        _ => g,
    }
}

/// `stack_converted` of each formula of a list.
pub open spec fn stack_converted_all(s: Seq<Form>) -> Seq<Form>
    decreases s,
{
    if s.len() == 0 {
        Seq::empty()
    } else {
        stack_converted_all(s.drop_last()).push(stack_converted(s.last()))
    }
}

proof fn lemma_stack_items(v: Seq<Form>)
    ensures
        stack_convertible(Form::Disj(v)) == (forall|i: int| 0 <= i < v.len() ==> stack_convertible(#[trigger] v[i])),
        stack_neg_convertible(Form::Conj(v)) == (forall|i: int| 0 <= i < v.len() ==> is_neg_chain(#[trigger] v[i])),
        neg_on_vars(Form::Disj(v)) == (forall|i: int| 0 <= i < v.len() ==> neg_on_vars(#[trigger] v[i])),
{
    let d = Form::Disj(v);
    let c = Form::Conj(v);
    assert(d->Disj_0 == v);
    assert(c->Conj_0 == v);
    assert(stack_convertible(d) == (forall|i: int| 0 <= i < v.len() ==> stack_convertible(#[trigger] v[i])));
    assert(stack_neg_convertible(c) == (forall|i: int| 0 <= i < v.len() ==> is_neg_chain(#[trigger] v[i])));
    assert(neg_on_vars(d) == (forall|i: int| 0 <= i < v.len() ==> neg_on_vars(#[trigger] v[i])));
}

proof fn lemma_stack_converted_all(s: Seq<Form>)
    ensures
        stack_converted_all(s).len() == s.len(),
        forall|i: int| 0 <= i < s.len() ==> #[trigger] stack_converted_all(s)[i] == stack_converted(s[i]),
    decreases s.len(),
{
    if s.len() > 0 {
        lemma_stack_converted_all(s.drop_last());
    }
}

/// A variable under negations converts, negated or not, to a variable.
proof fn lemma_stack_chain(c: Form)
    requires
        is_neg_chain(c),
    ensures
        stack_convertible(c),
        stack_neg_convertible(c),
        stack_converted(c) is Var,
        stack_converted_neg(c) is Var,
    decreases c,
{
    match c {
        Form::Neg(h) => {
            lemma_stack_chain(*h);
        },
        _ => {},
    }
}

/// Spreading a list of variables leaves it unchanged.
proof fn lemma_spread_vars(s: Seq<Form>)
    requires
        forall|i: int| 0 <= i < s.len() ==> #[trigger] s[i] is Var,
    ensures
        spread(s) == s,
    decreases s.len(),
{
    if s.len() > 0 {
        lemma_spread_vars(s.drop_last());
        assert(pieces(s.last()) == seq![s.last()]);
        assert(s.drop_last() + seq![s.last()] =~= s);
    }
}

/// Converts `f`: the operands of a disjunction are converted in parallel
/// and the disjunction is flattened; double negations vanish; a negated
/// variable becomes the variable; a negated conjunction becomes the
/// conversion of the disjunction of the negated, converted operands.
#[verifier::rlimit(60)]
pub fn to_dnf(f: Formula) -> (r: Formula)
    requires
        stack_convertible(f@),
    ensures
        r@ == stack_converted(f@),
    decreases (if neg_on_vars(f@) {
        0nat
    } else {
        1nat
    }), node_count(f@),
{
    let ghost f0 = f@;
    proof {
        reveal_with_fuel(form_of, 2);
    }
    match f {
        Formula::FVar(_) => f,
        Formula::FDisj(fvec) => {
            let ghost fv = forms_of(fvec@);
            let ghost fvec_view = fvec@;
            proof {
                lemma_stack_items(fv);
                lemma_forms_of(fvec@);
            }
            assert forall|i: int| 0 <= i < fvec_view.len() implies exists|k: int| 0 <= k < fv.len() && #[trigger] fv[k] == (#[trigger] fvec_view[i])@ by {
                assert(fv[i] == fvec_view[i]@);
            }
            let ret_vec = par_map(
                fvec,
                |ele: Formula| -> (r: Formula)
                    requires
                        exists|k: int| 0 <= k < fv.len() && #[trigger] fv[k] == ele@,
                    ensures
                        r@ == stack_converted(ele@)
                    {
                        proof {
                            let k = choose|k: int| 0 <= k < fv.len() && #[trigger] fv[k] == ele@;
                            lemma_node_count_item(fv, k);
                        }
                        to_dnf(ele)
                    },
            );
            proof {
                lemma_forms_of(ret_vec@);
                lemma_stack_converted_all(fv);
                assert(forms_of(ret_vec@) =~= stack_converted_all(fv));
            }
            let r = flatten(Formula::FDisj(ret_vec));
            assert(r@ == stack_converted(f0));
            r
        },
        Formula::FNeg(v) => match *v {
            Formula::FVar(x) => {
                assert(stack_converted_neg(Form::Var(x)) == Form::Var(x));
                *v
            },
            Formula::FNeg(frr) => {
                assert(node_count(f0) == 2 + node_count(form_of(*frr))) by {
                    reveal_with_fuel(node_count, 2);
                }
                assert(stack_neg_convertible(Form::Neg(Box::new(form_of(*frr)))));
                to_dnf(*frr)
            },
            Formula::FConj(fvec) => {
                let ghost fv = forms_of(fvec@);
                let ghost fvec_view = fvec@;
                proof {
                    lemma_stack_items(fv);
                    lemma_forms_of(fvec@);
                    reveal_with_fuel(node_count, 2);
                }
                assert forall|i: int| 0 <= i < fvec_view.len() implies exists|k: int| 0 <= k < fv.len() && #[trigger] fv[k] == (#[trigger] fvec_view[i])@ by {
                    assert(fv[i] == fvec_view[i]@);
                }
                let ret_vec = par_map(
                    fvec,
                    |ele: Formula| -> (r: Formula)
                        requires
                            exists|k: int| 0 <= k < fv.len() && #[trigger] fv[k] == ele@,
                        ensures
                            r@ == Form::Neg(Box::new(stack_converted(ele@)))
                        {
                            proof {
                                let k = choose|k: int| 0 <= k < fv.len() && #[trigger] fv[k] == ele@;
                                lemma_node_count_item(fv, k);
                                lemma_stack_chain(ele@);
                            }
                            Formula::FNeg(Box::new(to_dnf(ele)))
                        },
                );
                let ghost nv = forms_of(ret_vec@);
                proof {
                    lemma_forms_of(ret_vec@);
                    lemma_stack_converted_all(fv);
                    lemma_stack_converted_all(nv);
                    assert forall|i: int| 0 <= i < fv.len() implies stack_converted(#[trigger] fv[i]) is Var by {
                        lemma_stack_chain(fv[i]);
                    }
                    assert forall|i: int| 0 <= i < nv.len() implies stack_convertible(#[trigger] nv[i])
                        && neg_on_vars(nv[i]) && stack_converted(nv[i]) == stack_converted(fv[i]) by {
                        lemma_stack_chain(fv[i]);
                        assert(fv[i] == fvec_view[i]@);
                        assert(nv[i] == ret_vec@[i]@);
                        let x = stack_converted(fv[i]);
                        assert(nv[i] == Form::Neg(Box::new(x)));
                        assert(stack_neg_convertible(x));
                        assert(stack_converted_neg(x) == x);
                    }
                    lemma_stack_items(nv);
                    assert(stack_converted_all(nv) =~= stack_converted_all(fv));
                    lemma_spread_vars(stack_converted_all(fv));
                }
                let disj_f = Formula::FDisj(ret_vec);
                assert(disj_f@ == Form::Disj(nv));
                let r = to_dnf(disj_f);
                assert(r@ == stack_converted(f0)) by {
                    assert(stack_converted(Form::Disj(nv)) == Form::Disj(spread(stack_converted_all(nv))));
                    assert(stack_converted(f0) == stack_converted_neg(Form::Conj(fv)));
                }
                r
            },
            Formula::FDisj(w) => {
                assert(f0 == Form::Neg(Box::new(Form::Disj(forms_of(w@)))));
                assert(!stack_neg_convertible(Form::Disj(forms_of(w@))));
                unreached()
            },
        },
        Formula::FConj(_) => unreached(),
    }
}

/// The conjunction of a line's literals.
pub fn proc_line(line: String) -> (r: Formula)
    requires
        line_ok(line@),
    ensures
        r@ == Form::Conj(literal_forms(line_values(line@)->0)),
{
    Formula::FConj(line_literals(&line))
}

/// Whether the conversion ends on `f`.
pub fn is_stack_convertible(f: &Formula) -> (b: bool)
    ensures
        b == stack_convertible(f@),
    decreases node_count(f@),
{
    proof {
        reveal_with_fuel(form_of, 2);
    }
    match f {
        Formula::FVar(_) => true,
        Formula::FConj(_) => false,
        Formula::FDisj(v) => {
            let ghost fv = forms_of(v@);
            proof {
                lemma_stack_items(fv);
                lemma_forms_of(v@);
            }
            let mut i: usize = 0;
            while i < v.len()
                invariant
                    i <= v.len(),
                    fv == forms_of(v@),
                    fv.len() == v@.len(),
                    forall|j: int| 0 <= j < v@.len() ==> #[trigger] fv[j] == v@[j]@,
                    f@ == Form::Disj(fv),
                    forall|j: int| 0 <= j < i ==> stack_convertible(#[trigger] fv[j]),
                decreases v.len() - i,
            {
                proof {
                    lemma_node_count_item(fv, i as int);
                }
                if !is_stack_convertible(&v[i]) {
                    proof {
                        lemma_stack_items(fv);
                    }
                    return false;
                }
                i += 1;
            }
            proof {
                lemma_stack_items(fv);
            }
            true
        },
        Formula::FNeg(g) => match &**g {
            Formula::FVar(x) => {
                assert(stack_neg_convertible(Form::Var(*x)));
                true
            },
            Formula::FDisj(w) => {
                assert(!stack_neg_convertible(Form::Disj(forms_of(w@))));
                false
            },
            Formula::FNeg(h) => {
                assert(node_count(f@) == 2 + node_count(h@)) by {
                    reveal_with_fuel(node_count, 2);
                }
                assert(stack_neg_convertible(Form::Neg(Box::new(h@))) == stack_convertible(h@));
                is_stack_convertible(h)
            },
            Formula::FConj(v) => {
                let ghost fv = forms_of(v@);
                proof {
                    lemma_stack_items(fv);
                    lemma_forms_of(v@);
                }
                let mut i: usize = 0;
                while i < v.len()
                    invariant
                        i <= v.len(),
                        fv == forms_of(v@),
                        fv.len() == v@.len(),
                        forall|j: int| 0 <= j < v@.len() ==> #[trigger] fv[j] == v@[j]@,
                        f@ == Form::Neg(Box::new(Form::Conj(fv))),
                        forall|j: int| 0 <= j < i ==> is_neg_chain(#[trigger] fv[j]),
                    decreases v.len() - i,
                {
                    if !is_var_under_negations(&v[i]) {
                        proof {
                            lemma_stack_items(fv);
                            assert(stack_convertible(f@) == stack_neg_convertible(Form::Conj(fv)));
                            assert(!is_neg_chain(fv[i as int]));
                        }
                        return false;
                    }
                    i += 1;
                }
                proof {
                    lemma_stack_items(fv);
                    assert(stack_convertible(f@) == stack_neg_convertible(Form::Conj(fv)));
                }
                true
            },
        },
    }
}

/// The literals `s` with every sign made positive.
pub open spec fn positive(s: Seq<(u32, bool)>) -> Seq<(u32, bool)> {
    s.map_values(|p: (u32, bool)| (p.0, true))
}

proof fn lemma_positive_concat(a: Seq<(u32, bool)>, c: Seq<(u32, bool)>)
    ensures
        positive(a + c) == positive(a) + positive(c),
{
    assert(positive(a + c) =~= positive(a) + positive(c));
}

proof fn lemma_positive_any(f: Form, b: bool)
    ensures
        positive(literal_seq(f, b)) == positive(literal_seq(f, false)),
    decreases f,
{
    match f {
        Form::Var(x) => {
            assert(positive(literal_seq(f, b)) =~= seq![(x, true)]);
            assert(positive(literal_seq(f, false)) =~= seq![(x, true)]);
        },
        Form::Neg(g) => {
            lemma_positive_any(*g, !b);
            lemma_positive_any(*g, true);
        },
        Form::Disj(v) => {
            lemma_positive_any_all(v, b);
        },
        Form::Conj(v) => {
            lemma_positive_any_all(v, b);
        },
    }
}

proof fn lemma_positive_any_all(s: Seq<Form>, b: bool)
    ensures
        positive(literal_seq_all(s, b)) == positive(literal_seq_all(s, false)),
    decreases s,
{
    if s.len() > 0 {
        lemma_positive_any_all(s.drop_last(), b);
        lemma_positive_any(s.last(), b);
        lemma_positive_concat(literal_seq_all(s.drop_last(), b), literal_seq(s.last(), b));
        lemma_positive_concat(literal_seq_all(s.drop_last(), false), literal_seq(s.last(), false));
    } else {
        assert(positive(literal_seq_all(s, b)) =~= positive(literal_seq_all(s, false)));
    }
}

/// A list of variables and of disjunctions of variables spreads into a
/// list of variables.
proof fn lemma_spread_var_items(s: Seq<Form>)
    requires
        forall|i: int|
            0 <= i < s.len() ==> (#[trigger] s[i] is Var) || (s[i] is Disj && forall|j: int|
                0 <= j < s[i]->Disj_0.len() ==> #[trigger] s[i]->Disj_0[j] is Var),
    ensures
        forall|j: int| 0 <= j < spread(s).len() ==> #[trigger] spread(s)[j] is Var,
    decreases s.len(),
{
    if s.len() > 0 {
        let d = s.drop_last();
        assert forall|i: int|
            0 <= i < d.len() implies (#[trigger] d[i] is Var) || (d[i] is Disj && forall|j: int|
            0 <= j < d[i]->Disj_0.len() ==> #[trigger] d[i]->Disj_0[j] is Var) by {
            assert(d[i] == s[i]);
        }
        lemma_spread_var_items(d);
        let x = s.last();
        assert((s[s.len() - 1] is Var) || (s[s.len() - 1] is Disj && forall|j: int|
            0 <= j < s[s.len() - 1]->Disj_0.len() ==> #[trigger] s[s.len() - 1]->Disj_0[j] is Var));
        assert forall|j: int| 0 <= j < spread(s).len() implies #[trigger] spread(s)[j] is Var by {
            if j < spread(d).len() {
                assert(spread(s)[j] == spread(d)[j]);
            } else {
                let k = j - spread(d).len();
                assert(spread(s)[j] == pieces(x)[k]);
                if x is Var {
                    assert(pieces(x) == seq![x]);
                } else {
                    assert(pieces(x) == x->Disj_0);
                    assert(x->Disj_0[k] is Var);
                }
            }
        }
    }
}

proof fn lemma_stack_literals(f: Form)
    requires
        stack_convertible(f),
    ensures
        is_neg_chain(f) ==> stack_converted(f) is Var,
        !is_neg_chain(f) ==> stack_converted(f) is Disj && forall|j: int|
            0 <= j < stack_converted(f)->Disj_0.len() ==> #[trigger] stack_converted(f)->Disj_0[j] is Var,
        literal_seq(stack_converted(f), false) == positive(literal_seq(f, false)),
    decreases f,
{
    match f {
        Form::Var(x) => {
            assert(positive(literal_seq(f, false)) =~= seq![(x, true)]);
        },
        Form::Neg(g) => {
            lemma_stack_neg_literals(*g);
            lemma_positive_any(*g, true);
        },
        Form::Disj(v) => {
            lemma_stack_items(v);
            lemma_stack_converted_all(v);
            lemma_stack_literals_all(v);
            let cs = stack_converted_all(v);
            assert forall|i: int|
                0 <= i < cs.len() implies (#[trigger] cs[i] is Var) || (cs[i] is Disj && forall|j: int|
                0 <= j < cs[i]->Disj_0.len() ==> #[trigger] cs[i]->Disj_0[j] is Var) by {
                lemma_stack_literals(v[i]);
            }
            lemma_spread_var_items(cs);
            lemma_lits_spread(cs, false);
        },
        Form::Conj(_) => {},
    }
}

proof fn lemma_stack_neg_literals(g: Form)
    requires
        stack_neg_convertible(g),
    ensures
        is_neg_chain(g) ==> stack_converted_neg(g) is Var,
        !is_neg_chain(g) ==> stack_converted_neg(g) is Disj && forall|j: int|
            0 <= j < stack_converted_neg(g)->Disj_0.len() ==> #[trigger] stack_converted_neg(g)->Disj_0[j]
                is Var,
        literal_seq(stack_converted_neg(g), false) == positive(literal_seq(g, false)),
    decreases g,
{
    match g {
        Form::Var(x) => {
            assert(positive(literal_seq(g, false)) =~= seq![(x, true)]);
        },
        Form::Neg(h) => {
            lemma_stack_literals(*h);
            lemma_positive_any(*h, true);
        },
        Form::Conj(v) => {
            lemma_stack_items(v);
            lemma_stack_converted_all(v);
            assert forall|i: int| 0 <= i < v.len() implies stack_convertible(#[trigger] v[i]) by {
                lemma_stack_chain(v[i]);
            }
            assert forall|j: int| 0 <= j < stack_converted_all(v).len() implies #[trigger] stack_converted_all(
                v,
            )[j] is Var by {
                lemma_stack_chain(v[j]);
            }
            lemma_stack_literals_all(v);
        },
        Form::Disj(_) => {},
    }
}

proof fn lemma_stack_literals_all(s: Seq<Form>)
    requires
        forall|i: int| 0 <= i < s.len() ==> stack_convertible(#[trigger] s[i]),
    ensures
        literal_seq_all(stack_converted_all(s), false) == positive(literal_seq_all(s, false)),
    decreases s,
{
    if s.len() > 0 {
        let d = s.drop_last();
        assert forall|i: int| 0 <= i < d.len() implies stack_convertible(#[trigger] d[i]) by {
            assert(d[i] == s[i]);
        }
        lemma_stack_literals_all(d);
        lemma_stack_literals(s.last());
        assert(stack_converted_all(s).drop_last() =~= stack_converted_all(d));
        lemma_positive_concat(literal_seq_all(d, false), literal_seq(s.last(), false));
    } else {
        assert(positive(literal_seq_all(s, false)) =~= Seq::<(u32, bool)>::empty());
    }
}

/// The stack conversion drops every negation and conjunction and keeps the
/// variables of its input, in order: a variable under negations becomes
/// that variable, any other accepted input a disjunction of variables, one
/// for each literal of the input.
pub proof fn law_stack_to_dnf_literals(f: Form)
    requires
        stack_convertible(f),
    ensures
        is_neg_chain(f) ==> stack_converted(f) is Var,
        !is_neg_chain(f) ==> stack_converted(f) is Disj && forall|j: int|
            0 <= j < stack_converted(f)->Disj_0.len() ==> #[trigger] stack_converted(f)->Disj_0[j] is Var,
        literal_seq(stack_converted(f), false) == positive(literal_seq(f, false)),
{
    lemma_stack_literals(f);
}

} // verus!
