//! Propositional formulas whose conjunctions and disjunctions take any
//! number of operands, and their conversion towards disjunctive normal form
//! by flattening nested connectives.
use vstd::prelude::*;
use crate::line::{line_values, parse_line, lemma_line_values_nonempty};
use crate::cnf::line_ok;

verus! {

/// A propositional formula with n-ary conjunction and disjunction.
#[derive(Debug, PartialEq, Eq, Hash)]
pub enum Formula {
    FVar(u32),
    FNeg(Box<Formula>),
    FDisj(Vec<Formula>),
    FConj(Vec<Formula>),
}

/// The mathematical value of a `Formula`: the same tree, with sequences
/// for the operand lists.
pub enum Form {
    Var(u32),
    Neg(Box<Form>),
    Disj(Seq<Form>),
    Conj(Seq<Form>),
}

/// The value of a formula.
pub open spec fn form_of(f: Formula) -> Form
    decreases f,
{
    match f {
        Formula::FVar(x) => Form::Var(x),
        Formula::FNeg(g) => Form::Neg(Box::new(form_of(*g))),
        Formula::FDisj(v) => Form::Disj(forms_of(v@)),
        Formula::FConj(v) => Form::Conj(forms_of(v@)),
    }
}

/// The values of a list of formulas.
pub open spec fn forms_of(s: Seq<Formula>) -> Seq<Form>
    decreases s,
{
    if s.len() == 0 {
        Seq::empty()
    } else {
        forms_of(s.drop_last()).push(form_of(s.last()))
    }
}

impl View for Formula {
    type V = Form;

    open spec fn view(&self) -> Form {
        form_of(*self)
    }
}

impl Clone for Formula {
    fn clone(&self) -> (r: Self)
        ensures
            r@ == self@,
        decreases self,
    {
        proof {
            reveal_with_fuel(form_of, 2);
        }
        match self {
            Formula::FVar(x) => Formula::FVar(*x),
            Formula::FNeg(g) => Formula::FNeg(Box::new((**g).clone())),
            Formula::FDisj(v) => Formula::FDisj(clone_all(v)),
            Formula::FConj(v) => Formula::FConj(clone_all(v)),
        }
    }
}

/// A copy of each formula of a list.
fn clone_all(v: &Vec<Formula>) -> (r: Vec<Formula>)
    ensures
        forms_of(r@) == forms_of(v@),
    decreases v,
{
    let mut r: Vec<Formula> = Vec::new();
    let mut i: usize = 0;
    proof {
        lemma_forms_of(v@);
    }
    while i < v.len()
        invariant
            i <= v.len(),
            forms_of(v@).len() == v@.len(),
            forall|j: int| 0 <= j < v@.len() ==> #[trigger] forms_of(v@)[j] == v@[j]@,
            forms_of(r@) == forms_of(v@).take(i as int),
        decreases v.len() - i,
    {
        let c = v[i].clone();
        proof {
            lemma_forms_of_push(r@, c);
        }
        r.push(c);
        i += 1;
        assert(forms_of(r@) =~= forms_of(v@).take(i as int));
    }
    assert(forms_of(v@).take(i as int) =~= forms_of(v@));
    r
}

/// Number of nodes.
pub open spec fn node_count(f: Form) -> nat
    decreases f,
{
    match f {
        Form::Var(_) => 1,
        Form::Neg(g) => 1 + node_count(*g),
        Form::Disj(v) => 1 + node_count_all(v),
        Form::Conj(v) => 1 + node_count_all(v),
    }
}

/// Number of nodes of a list of formulas.
pub open spec fn node_count_all(s: Seq<Form>) -> nat
    decreases s,
{
    if s.len() == 0 {
        0
    } else {
        node_count_all(s.drop_last()) + node_count(s.last())
    }
}

/// Negation is applied to variables only.
pub open spec fn neg_on_vars(f: Form) -> bool
    decreases f,
{
    match f {
        Form::Var(_) => true,
        Form::Neg(g) => *g is Var,
        Form::Disj(v) => forall|i: int| 0 <= i < v.len() ==> neg_on_vars(#[trigger] v[i]),
        Form::Conj(v) => forall|i: int| 0 <= i < v.len() ==> neg_on_vars(#[trigger] v[i]),
    }
}

/// A variable, possibly under any number of negations.
pub open spec fn is_neg_chain(f: Form) -> bool
    decreases f,
{
    match f {
        Form::Var(_) => true,
        Form::Neg(g) => is_neg_chain(*g),
        _ => false,
    }
}

/// The operands that a formula contributes when it is spliced into an
/// enclosing operand list: the operands of a conjunction or disjunction,
/// the formula itself otherwise.
pub open spec fn pieces(f: Form) -> Seq<Form> {
    match f {
        Form::Disj(v) => v,
        Form::Conj(v) => v,
        _ => seq![f],
    }
}

/// The operand list with every conjunction and disjunction among its
/// items spliced in, one level deep.
pub open spec fn spread(s: Seq<Form>) -> Seq<Form>
    decreases s.len(),
{
    if s.len() == 0 {
        Seq::empty()
    } else {
        spread(s.drop_last()) + pieces(s.last())
    }
}

/// The inputs `flatten` accepts: a negation must be of a variable or of a
/// negation, and a conjunction must have no disjunction among its operands.
pub open spec fn flatten_ok(f: Form) -> bool {
    match f {
        Form::Neg(g) => (*g is Var) || (*g is Neg),
        Form::Conj(v) => forall|i: int| 0 <= i < v.len() ==> !(#[trigger] v[i] is Disj),
        _ => true,
    }
}

/// One level of flattening: a double negation is removed, and the
/// operands of a conjunction or disjunction are spread.
pub open spec fn flattened(f: Form) -> Form {
    match f {
        Form::Neg(g) => match *g {
            Form::Neg(h) => *h,
            _ => f,
        },
        Form::Disj(v) => Form::Disj(spread(v)),
        Form::Conj(v) => Form::Conj(spread(v)),
        _ => f,
    }
}

/// What `formula_cross` makes of an operand list: a disjunction of one
/// conjunction, whose operands are the spread operands.
pub open spec fn crossed(s: Seq<Form>) -> Form {
    Form::Disj(seq![Form::Conj(spread(s))])
}

/// The inputs `to_dnf` converts without a panic.
pub open spec fn convertible(f: Form) -> bool
    decreases f,
{
    match f {
        Form::Var(_) => true,
        Form::Neg(g) => neg_convertible(*g),
        Form::Disj(v) => forall|i: int| 0 <= i < v.len() ==> convertible(#[trigger] v[i]),
        Form::Conj(v) => forall|i: int| 0 <= i < v.len() ==> convertible(#[trigger] v[i]),
    }
}

/// The formulas whose negation `to_dnf` converts without a panic: a
/// negated disjunction must have only variables under negations as operands.
pub open spec fn neg_convertible(g: Form) -> bool
    decreases g,
{
    match g {
        Form::Var(_) => true,
        Form::Neg(h) => convertible(*h),
        Form::Conj(v) => forall|i: int| 0 <= i < v.len() ==> neg_convertible(#[trigger] v[i]),
        Form::Disj(v) => forall|i: int| 0 <= i < v.len() ==> is_neg_chain(#[trigger] v[i]),
    }
}

/// The result of `to_dnf` on a formula whose negations are on variables only.
pub open spec fn convert_plain(f: Form) -> Form
    decreases f,
{
    match f {
        Form::Disj(v) => Form::Disj(spread(convert_plain_all(v))),
        Form::Conj(v) => crossed(convert_plain_all(v)),
        _ => f,
    }
}

/// `convert_plain` of each formula of a list.
pub open spec fn convert_plain_all(s: Seq<Form>) -> Seq<Form>
    decreases s,
{
    if s.len() == 0 {
        Seq::empty()
    } else {
        convert_plain_all(s.drop_last()).push(convert_plain(s.last()))
    }
}

/// The result of `to_dnf`.
pub open spec fn converted(f: Form) -> Form
    decreases f,
{
    match f {
        Form::Var(_) => f,
        Form::Neg(g) => converted_neg(*g),
        Form::Disj(v) => Form::Disj(spread(converted_all(v))),
        Form::Conj(v) => crossed(converted_all(v)),
    }
}

/// The result of `to_dnf` on the negation of `g`.
pub open spec fn converted_neg(g: Form) -> Form
    decreases g,
{
    match g {
        Form::Var(x) => Form::Neg(Box::new(Form::Var(x))),
        Form::Neg(h) => converted(*h),
        Form::Conj(v) => convert_plain(Form::Disj(spread(converted_neg_all(v)))),
        Form::Disj(v) => convert_plain(Form::Conj(spread(converted_neg_all(v)))),
    }
}

/// `converted` of each formula of a list.
pub open spec fn converted_all(s: Seq<Form>) -> Seq<Form>
    decreases s,
{
    if s.len() == 0 {
        Seq::empty()
    } else {
        converted_all(s.drop_last()).push(converted(s.last()))
    }
}

/// `converted_neg` of each formula of a list.
pub open spec fn converted_neg_all(s: Seq<Form>) -> Seq<Form>
    decreases s,
{
    if s.len() == 0 {
        Seq::empty()
    } else {
        converted_neg_all(s.drop_last()).push(converted_neg(s.last()))
    }
}

/// No disjunction anywhere.
pub open spec fn disj_free(f: Form) -> bool
    decreases f,
{
    match f {
        Form::Var(_) => true,
        Form::Neg(g) => disj_free(*g),
        Form::Disj(_) => false,
        Form::Conj(v) => forall|i: int| 0 <= i < v.len() ==> disj_free(#[trigger] v[i]),
    }
}

/// The shape of `to_dnf`'s results: negations on variables only, and a
/// disjunction, if any, only at the root.
pub open spec fn flat_dnf(f: Form) -> bool {
    &&& neg_on_vars(f)
    &&& match f {
        Form::Disj(v) => forall|i: int| 0 <= i < v.len() ==> disj_free(#[trigger] v[i]),
        _ => disj_free(f),
    }
}

/// What `disj_below_neg` answers.
pub open spec fn has_disj_below_neg(f: Form, in_neg: bool) -> bool
    decreases f,
{
    match f {
        Form::Var(_) => false,
        Form::Neg(g) => has_disj_below_neg(*g, true),
        Form::Disj(v) => in_neg || exists|i: int| 0 <= i < v.len() && has_disj_below_neg(#[trigger] v[i], in_neg),
        Form::Conj(v) => exists|i: int| 0 <= i < v.len() && has_disj_below_neg(#[trigger] v[i], in_neg),
    }
}

/// What `disj_below_conj` answers; below the root it checks with
/// `has_disj_below_neg`.
pub open spec fn has_disj_below_conj(f: Form, in_conj: bool) -> bool {
    match f {
        Form::Var(_) => false,
        Form::Neg(g) => has_disj_below_neg(*g, in_conj),
        Form::Disj(v) => in_conj || exists|i: int| 0 <= i < v.len() && has_disj_below_neg(#[trigger] v[i], in_conj),
        Form::Conj(v) => exists|i: int| 0 <= i < v.len() && has_disj_below_neg(#[trigger] v[i], true),
    }
}

pub(crate) proof fn lemma_forms_of(s: Seq<Formula>)
    ensures
        forms_of(s).len() == s.len(),
        forall|i: int| 0 <= i < s.len() ==> #[trigger] forms_of(s)[i] == form_of(s[i]),
    decreases s.len(),
{
    if s.len() > 0 {
        lemma_forms_of(s.drop_last());
    }
}

pub(crate) proof fn lemma_forms_of_push(s: Seq<Formula>, x: Formula)
    ensures
        forms_of(s.push(x)) == forms_of(s).push(form_of(x)),
{
    assert(s.push(x).drop_last() =~= s);
}

pub(crate) proof fn lemma_forms_of_concat(a: Seq<Formula>, b: Seq<Formula>)
    ensures
        forms_of(a + b) == forms_of(a) + forms_of(b),
{
    lemma_forms_of(a);
    lemma_forms_of(b);
    lemma_forms_of(a + b);
    assert(forms_of(a + b) =~= forms_of(a) + forms_of(b));
}

pub(crate) proof fn lemma_spread_push(s: Seq<Form>, x: Form)
    ensures
        spread(s.push(x)) == spread(s) + pieces(x),
{
    assert(s.push(x).drop_last() =~= s);
}

pub(crate) proof fn lemma_take_push<T>(s: Seq<T>, k: int)
    requires
        0 <= k < s.len(),
    ensures
        s.take(k + 1) == s.take(k).push(s[k]),
{
    assert(s.take(k + 1) =~= s.take(k).push(s[k]));
}

/// A list's node count bounds that of each of its formulas.
pub(crate) proof fn lemma_node_count_item(s: Seq<Form>, i: int)
    requires
        0 <= i < s.len(),
    ensures
        node_count(s[i]) <= node_count_all(s),
    decreases s.len(),
{
    if i < s.len() - 1 {
        lemma_node_count_item(s.drop_last(), i);
    }
}

/// One level of flattening: a double negation is removed, and the operands
/// that are conjunctions or disjunctions are replaced by their own operands.
pub fn flatten(f: Formula) -> (r: Formula)
    requires
        flatten_ok(f@),
    ensures
        r@ == flattened(f@),
{
    let ghost f0 = f@;
    proof {
        reveal_with_fuel(form_of, 2);
    }
    match f {
        Formula::FVar(_) => f,
        Formula::FNeg(fr) => match *fr {
            Formula::FVar(x) => Formula::FNeg(Box::new(Formula::FVar(x))),
            Formula::FNeg(f_bot) => *f_bot,
            Formula::FConj(v) => {
                proof {
                    reveal_with_fuel(form_of, 2);
                }
                assert(f0 == Form::Neg(Box::new(Form::Conj(forms_of(v@)))));
                unreached()
            },
            Formula::FDisj(v) => {
                proof {
                    reveal_with_fuel(form_of, 2);
                }
                assert(f0 == Form::Neg(Box::new(Form::Disj(forms_of(v@)))));
                unreached()
            },
        },
        Formula::FDisj(fvec) => {
            let ghost fv = forms_of(fvec@);
            let mut ret_vec: Vec<Formula> = Vec::new();
            for fv_item in it: fvec
                invariant
                    fv == forms_of(it.seq()),
                    forms_of(ret_vec@) == spread(fv.take(it.index() as int)),
            {
                proof {
                    lemma_forms_of(it.seq());
                    lemma_take_push(fv, it.index() as int);
                    lemma_spread_push(fv.take(it.index() as int), fv[it.index() as int]);
                }
                match fv_item {
                    Formula::FVar(_) => {
                        proof { lemma_forms_of_push(ret_vec@, fv_item); }
                        ret_vec.push(fv_item);
                    },
                    Formula::FNeg(_) => {
                        proof { lemma_forms_of_push(ret_vec@, fv_item); }
                        ret_vec.push(fv_item);
                    },
                    Formula::FDisj(mut fvec_nested) => {
                        proof { lemma_forms_of_concat(ret_vec@, fvec_nested@); }
                        ret_vec.append(&mut fvec_nested);
                    },
                    Formula::FConj(mut fvec_nested) => {
                        proof { lemma_forms_of_concat(ret_vec@, fvec_nested@); }
                        ret_vec.append(&mut fvec_nested);
                    },
                }
            }
            proof {
                lemma_forms_of(fvec@);
            }
            assert(fv.take(fv.len() as int) =~= fv);
            Formula::FDisj(ret_vec)
        },
        Formula::FConj(fvec) => {
            let ghost fv = forms_of(fvec@);
            let mut ret_vec: Vec<Formula> = Vec::new();
            for fv_item in it: fvec
                invariant
                    fv == forms_of(it.seq()),
                    forall|i: int| 0 <= i < fv.len() ==> !(#[trigger] fv[i] is Disj),
                    forms_of(ret_vec@) == spread(fv.take(it.index() as int)),
            {
                proof {
                    lemma_forms_of(it.seq());
                    lemma_take_push(fv, it.index() as int);
                    lemma_spread_push(fv.take(it.index() as int), fv[it.index() as int]);
                }
                match fv_item {
                    Formula::FVar(_) => {
                        proof { lemma_forms_of_push(ret_vec@, fv_item); }
                        ret_vec.push(fv_item);
                    },
                    Formula::FNeg(_) => {
                        proof { lemma_forms_of_push(ret_vec@, fv_item); }
                        ret_vec.push(fv_item);
                    },
                    Formula::FDisj(_) => {
                        assert(fv[it.index() as int] is Disj);
                        unreached()
                    },
                    Formula::FConj(mut fvec_nested) => {
                        proof { lemma_forms_of_concat(ret_vec@, fvec_nested@); }
                        ret_vec.append(&mut fvec_nested);
                    },
                }
            }
            proof {
                lemma_forms_of(fvec@);
            }
            assert(fv.take(fv.len() as int) =~= fv);
            Formula::FConj(ret_vec)
        },
    }
}

/// Joins the operands into one clause: literals are kept, and the operands
/// of conjunctions and disjunctions among them are spliced in; the result
/// is a disjunction of that single clause.  (The clause list starts with
/// one empty clause and every step extends clauses already present, so it
/// always holds exactly one clause.)
pub fn formula_cross(fvec: Vec<Formula>) -> (r: Formula)
    ensures
        r@ == crossed(forms_of(fvec@)),
{
    let ghost fv = forms_of(fvec@);
    let mut clause: Vec<Formula> = Vec::new();
    for f in it: fvec
        invariant
            fv == forms_of(it.seq()),
            forms_of(clause@) == spread(fv.take(it.index() as int)),
    {
        proof {
            lemma_forms_of(it.seq());
            lemma_take_push(fv, it.index() as int);
            lemma_spread_push(fv.take(it.index() as int), fv[it.index() as int]);
        }
        match f {
            Formula::FVar(_) => {
                proof { lemma_forms_of_push(clause@, f); }
                clause.push(f);
            },
            Formula::FNeg(_) => {
                proof { lemma_forms_of_push(clause@, f); }
                clause.push(f);
            },
            Formula::FDisj(fvec_rec) => {
                let ghost before = clause@;
                let ghost rec = fvec_rec@;
                for form in it2: fvec_rec
                    invariant
                        rec == it2.seq(),
                        clause@ == before + rec.take(it2.index() as int),
                {
                    assert(rec.take(it2.index() + 1) =~= rec.take(it2.index() as int).push(form));
                    clause.push(form);
                    assert(clause@ =~= before + rec.take(it2.index() + 1));
                }
                assert(rec.take(rec.len() as int) =~= rec);
                proof { lemma_forms_of_concat(before, rec); }
            },
            Formula::FConj(mut fvec_rec) => {
                proof { lemma_forms_of_concat(clause@, fvec_rec@); }
                clause.append(&mut fvec_rec);
            },
        }
    }
    proof {
        lemma_forms_of(fvec@);
    }
    assert(fv.take(fv.len() as int) =~= fv);
    let ghost cv = forms_of(clause@);
    let item = Formula::FConj(clause);
    assert(form_of(item) == Form::Conj(cv));
    let final_vec: Vec<Formula> = vec![item];
    proof {
        assert(final_vec@ =~= seq![item]);
        lemma_forms_of(final_vec@);
        assert(forms_of(final_vec@) =~= seq![Form::Conj(cv)]);
    }
    Formula::FDisj(final_vec)
}

/// The operand conditions that the predicates on conjunctions and
/// disjunctions stand for.
pub(crate) proof fn lemma_items(v: Seq<Form>)
    ensures
        convertible(Form::Disj(v)) == (forall|i: int| 0 <= i < v.len() ==> convertible(#[trigger] v[i])),
        convertible(Form::Conj(v)) == (forall|i: int| 0 <= i < v.len() ==> convertible(#[trigger] v[i])),
        neg_convertible(Form::Conj(v)) == (forall|i: int| 0 <= i < v.len() ==> neg_convertible(#[trigger] v[i])),
        neg_convertible(Form::Disj(v)) == (forall|i: int| 0 <= i < v.len() ==> is_neg_chain(#[trigger] v[i])),
        neg_on_vars(Form::Disj(v)) == (forall|i: int| 0 <= i < v.len() ==> neg_on_vars(#[trigger] v[i])),
        neg_on_vars(Form::Conj(v)) == (forall|i: int| 0 <= i < v.len() ==> neg_on_vars(#[trigger] v[i])),
        disj_free(Form::Conj(v)) == (forall|i: int| 0 <= i < v.len() ==> disj_free(#[trigger] v[i])),
{
    let d = Form::Disj(v);
    let c = Form::Conj(v);
    assert(d->Disj_0 == v);
    assert(c->Conj_0 == v);
    assert(convertible(d) == (forall|i: int| 0 <= i < v.len() ==> convertible(#[trigger] v[i])));
    assert(convertible(c) == (forall|i: int| 0 <= i < v.len() ==> convertible(#[trigger] v[i])));
    assert(neg_convertible(c) == (forall|i: int| 0 <= i < v.len() ==> neg_convertible(#[trigger] v[i])));
    assert(neg_convertible(d) == (forall|i: int| 0 <= i < v.len() ==> is_neg_chain(#[trigger] v[i])));
    assert(neg_on_vars(d) == (forall|i: int| 0 <= i < v.len() ==> neg_on_vars(#[trigger] v[i])));
    assert(neg_on_vars(c) == (forall|i: int| 0 <= i < v.len() ==> neg_on_vars(#[trigger] v[i])));
    assert(disj_free(c) == (forall|i: int| 0 <= i < v.len() ==> disj_free(#[trigger] v[i])));
}

proof fn lemma_converted_all_push(s: Seq<Form>, x: Form)
    ensures
        converted_all(s.push(x)) == converted_all(s).push(converted(x)),
        converted_neg_all(s.push(x)) == converted_neg_all(s).push(converted_neg(x)),
        convert_plain_all(s.push(x)) == convert_plain_all(s).push(convert_plain(x)),
{
    assert(s.push(x).drop_last() =~= s);
}

proof fn lemma_converted_all_index(s: Seq<Form>)
    ensures
        converted_all(s).len() == s.len(),
        converted_neg_all(s).len() == s.len(),
        convert_plain_all(s).len() == s.len(),
        forall|i: int| 0 <= i < s.len() ==> #[trigger] converted_all(s)[i] == converted(s[i]),
        forall|i: int| 0 <= i < s.len() ==> #[trigger] converted_neg_all(s)[i] == converted_neg(s[i]),
        forall|i: int| 0 <= i < s.len() ==> #[trigger] convert_plain_all(s)[i] == convert_plain(s[i]),
    decreases s.len(),
{
    if s.len() > 0 {
        lemma_converted_all_index(s.drop_last());
    }
}

/// On formulas with negations on variables only, the conversion needs no
/// negation handling and never panics.
proof fn lemma_plain(f: Form)
    requires
        neg_on_vars(f),
    ensures
        converted(f) == convert_plain(f),
        convertible(f),
    decreases f,
{
    match f {
        Form::Var(_) => {},
        Form::Neg(g) => {
            assert(neg_convertible(*g));
        },
        Form::Disj(v) => {
            lemma_plain_all(v);
        },
        Form::Conj(v) => {
            lemma_plain_all(v);
        },
    }
}

proof fn lemma_plain_all(s: Seq<Form>)
    requires
        forall|i: int| 0 <= i < s.len() ==> neg_on_vars(#[trigger] s[i]),
    ensures
        converted_all(s) == convert_plain_all(s),
        forall|i: int| 0 <= i < s.len() ==> convertible(#[trigger] s[i]),
    decreases s,
{
    if s.len() > 0 {
        lemma_plain_all(s.drop_last());
        lemma_plain(s.last());
        assert forall|i: int| 0 <= i < s.len() implies convertible(#[trigger] s[i]) by {
            if i < s.len() - 1 {
                assert(s[i] == s.drop_last()[i]);
            }
        }
    }
}

/// Spreading results of the conversion gives operands without
/// disjunctions and with negations on variables only.
proof fn lemma_spread_flat(s: Seq<Form>)
    requires
        forall|i: int| 0 <= i < s.len() ==> flat_dnf(#[trigger] s[i]),
    ensures
        forall|j: int| 0 <= j < spread(s).len() ==> disj_free(#[trigger] spread(s)[j]) && neg_on_vars(
            spread(s)[j],
        ),
    decreases s.len(),
{
    if s.len() > 0 {
        let d = s.drop_last();
        assert forall|i: int| 0 <= i < d.len() implies flat_dnf(#[trigger] d[i]) by {
            assert(d[i] == s[i]);
        }
        lemma_spread_flat(d);
        let x = s.last();
        assert(flat_dnf(x));
        assert forall|j: int| 0 <= j < spread(s).len() implies disj_free(#[trigger] spread(s)[j])
            && neg_on_vars(spread(s)[j]) by {
            if j < spread(d).len() {
                assert(spread(s)[j] == spread(d)[j]);
            } else {
                let k = j - spread(d).len();
                assert(spread(s)[j] == pieces(x)[k]);
                match x {
                    Form::Disj(v) => {
                        assert(disj_free(v[k]));
                        assert(neg_on_vars(v[k]));
                    },
                    Form::Conj(v) => {
                        assert(disj_free(v[k]));
                        assert(neg_on_vars(v[k]));
                    },
                    _ => {},
                }
            }
        }
    }
}

proof fn lemma_plain_shape(f: Form)
    requires
        neg_on_vars(f),
    ensures
        flat_dnf(convert_plain(f)),
    decreases f,
{
    match f {
        Form::Var(_) => {},
        Form::Neg(g) => {
            assert(disj_free(*g));
        },
        Form::Disj(v) => {
            lemma_plain_shape_all(v);
            lemma_converted_all_index(v);
            lemma_spread_flat(convert_plain_all(v));
        },
        Form::Conj(v) => {
            lemma_plain_shape_all(v);
            let sp = spread(convert_plain_all(v));
            lemma_converted_all_index(v);
            lemma_spread_flat(convert_plain_all(v));
            assert(disj_free(Form::Conj(sp)));
            assert(neg_on_vars(Form::Conj(sp)));
            assert(seq![Form::Conj(sp)][0] == Form::Conj(sp));
        },
    }
}

proof fn lemma_plain_shape_all(s: Seq<Form>)
    requires
        forall|i: int| 0 <= i < s.len() ==> neg_on_vars(#[trigger] s[i]),
    ensures
        forall|i: int| 0 <= i < s.len() ==> flat_dnf(#[trigger] convert_plain_all(s)[i]),
    decreases s,
{
    if s.len() > 0 {
        lemma_plain_shape_all(s.drop_last());
        lemma_plain_shape(s.last());
        lemma_converted_all_index(s);
        lemma_converted_all_index(s.drop_last());
        assert forall|i: int| 0 <= i < s.len() implies flat_dnf(#[trigger] convert_plain_all(s)[i]) by {
            if i < s.len() - 1 {
                assert(s[i] == s.drop_last()[i]);
            }
        }
    }
}

/// A variable under any number of negations converts, negated or not, to
/// a literal.
proof fn lemma_chain(c: Form)
    requires
        is_neg_chain(c),
    ensures
        convertible(c),
        neg_convertible(c),
        converted(c) is Var || (converted(c) is Neg && *(converted(c)->Neg_0) is Var),
        converted_neg(c) is Var || (converted_neg(c) is Neg && *(converted_neg(c)->Neg_0) is Var),
    decreases c,
{
    match c {
        Form::Var(_) => {},
        Form::Neg(h) => {
            lemma_chain(*h);
        },
        _ => {},
    }
}

/// The conversion of a convertible formula has the shape `flat_dnf`.
proof fn lemma_shape(f: Form)
    requires
        convertible(f),
    ensures
        flat_dnf(converted(f)),
    decreases f,
{
    match f {
        Form::Var(_) => {},
        Form::Neg(g) => {
            lemma_shape_neg(*g);
        },
        Form::Disj(v) => {
            lemma_shape_all(v);
            lemma_converted_all_index(v);
            lemma_spread_flat(converted_all(v));
        },
        Form::Conj(v) => {
            lemma_shape_all(v);
            let sp = spread(converted_all(v));
            lemma_converted_all_index(v);
            lemma_spread_flat(converted_all(v));
            assert(disj_free(Form::Conj(sp)));
            assert(neg_on_vars(Form::Conj(sp)));
            assert(seq![Form::Conj(sp)][0] == Form::Conj(sp));
        },
    }
}

proof fn lemma_shape_neg(g: Form)
    requires
        neg_convertible(g),
    ensures
        flat_dnf(converted_neg(g)),
    decreases g,
{
    match g {
        Form::Var(x) => {
            assert(disj_free(Form::Var(x)));
        },
        Form::Neg(h) => {
            lemma_shape(*h);
        },
        Form::Conj(v) => {
            lemma_shape_neg_all(v);
            let sp = spread(converted_neg_all(v));
            lemma_converted_all_index(v);
            lemma_spread_flat(converted_neg_all(v));
            assert(neg_on_vars(Form::Disj(sp)));
            lemma_plain_shape(Form::Disj(sp));
        },
        Form::Disj(v) => {
            assert forall|i: int| 0 <= i < v.len() implies neg_convertible(#[trigger] v[i]) by {
                lemma_chain(v[i]);
            }
            lemma_shape_neg_all(v);
            let sp = spread(converted_neg_all(v));
            lemma_converted_all_index(v);
            lemma_spread_flat(converted_neg_all(v));
            assert(neg_on_vars(Form::Conj(sp)));
            lemma_plain_shape(Form::Conj(sp));
        },
    }
}

proof fn lemma_shape_all(s: Seq<Form>)
    requires
        forall|i: int| 0 <= i < s.len() ==> convertible(#[trigger] s[i]),
    ensures
        forall|i: int| 0 <= i < s.len() ==> flat_dnf(#[trigger] converted_all(s)[i]),
    decreases s,
{
    if s.len() > 0 {
        lemma_shape_all(s.drop_last());
        lemma_shape(s.last());
        lemma_converted_all_index(s);
        lemma_converted_all_index(s.drop_last());
        assert forall|i: int| 0 <= i < s.len() implies flat_dnf(#[trigger] converted_all(s)[i]) by {
            if i < s.len() - 1 {
                assert(s[i] == s.drop_last()[i]);
            }
        }
    }
}

proof fn lemma_shape_neg_all(s: Seq<Form>)
    requires
        forall|i: int| 0 <= i < s.len() ==> neg_convertible(#[trigger] s[i]),
    ensures
        forall|i: int| 0 <= i < s.len() ==> flat_dnf(#[trigger] converted_neg_all(s)[i]),
    decreases s,
{
    if s.len() > 0 {
        lemma_shape_neg_all(s.drop_last());
        lemma_shape_neg(s.last());
        lemma_converted_all_index(s);
        lemma_converted_all_index(s.drop_last());
        assert forall|i: int| 0 <= i < s.len() implies flat_dnf(#[trigger] converted_neg_all(s)[i]) by {
            if i < s.len() - 1 {
                assert(s[i] == s.drop_last()[i]);
            }
        }
    }
}

/// Converts `f` towards disjunctive normal form: operands are converted,
/// disjunctions are flattened, conjunctions are joined by
/// `formula_cross`, double negations vanish, and a negated conjunction or
/// disjunction becomes the disjunction or conjunction of the negated
/// operands.
pub fn to_dnf(f: Formula) -> (r: Formula)
    requires
        convertible(f@),
    ensures
        r@ == converted(f@),
        flat_dnf(r@),
    decreases (if neg_on_vars(f@) {
        0nat
    } else {
        1nat
    }), node_count(f@),
{
    let ghost f0 = f@;
    proof {
        reveal_with_fuel(form_of, 2);
        lemma_shape(f0);
    }
    match f {
        Formula::FVar(_) => f,
        Formula::FDisj(fvec) => {
            let ghost fv = forms_of(fvec@);
            let mut ret_vec: Vec<Formula> = Vec::new();
            assert(fv.take(0) =~= Seq::<Form>::empty());
            for ele in it: fvec.into_iter()
                invariant
                    fv == forms_of(it.seq()),
                    f0 == f@,
                    f0 == Form::Disj(fv),
                    convertible(f0),
                    forms_of(ret_vec@) == converted_all(fv.take(it.index() as int)),
            {
                proof {
                    lemma_items(fv);
                    lemma_forms_of(it.seq());
                    lemma_node_count_item(fv, it.index() as int);
                    lemma_take_push(fv, it.index() as int);
                    lemma_converted_all_push(fv.take(it.index() as int), fv[it.index() as int]);
                    assert(ele@ == fv[it.index() as int]);
                    assert(convertible(f0));
                    assert(convertible(Form::Disj(fv)) || convertible(Form::Conj(fv)));
                    assert(forall|i: int| 0 <= i < fv.len() ==> convertible(#[trigger] fv[i]));
                    assert(convertible(ele@));
                    assert(node_count(f0) == 1 + node_count_all(fv));
                    assert(neg_on_vars(f0) ==> neg_on_vars(ele@));
                }
                let rec_call = to_dnf(ele);
                proof {
                    lemma_forms_of_push(ret_vec@, rec_call);
                }
                ret_vec.push(rec_call)
            }
            proof {
                lemma_forms_of(fvec@);
            }
            assert(fv.take(fv.len() as int) =~= fv);
            flatten(Formula::FDisj(ret_vec))
        },
        Formula::FNeg(v) => match *v {
            Formula::FVar(x) => Formula::FNeg(Box::new(Formula::FVar(x))),
            Formula::FNeg(frr) => {
                assert(f0 == Form::Neg(Box::new(Form::Neg(Box::new(form_of(*frr))))));
                assert(node_count(f0) == 2 + node_count(form_of(*frr))) by {
                    reveal_with_fuel(node_count, 2);
                }
                assert(!neg_on_vars(f0));
                assert(neg_convertible(Form::Neg(Box::new(form_of(*frr)))));
                to_dnf(*frr)
            },
            Formula::FConj(fvec) => {
                let ghost fv = forms_of(fvec@);
                let mut ret_vec: Vec<Formula> = Vec::new();
                assert(fv.take(0) =~= Seq::<Form>::empty());
                for ele in it: fvec.into_iter()
                    invariant
                        fv == forms_of(it.seq()),
                        f0 == f@,
                    f0 == f@,
                        f0 == Form::Neg(Box::new(Form::Conj(fv))),
                        convertible(f0),
                        forms_of(ret_vec@) == converted_neg_all(fv.take(it.index() as int)),
                {
                    proof {
                        lemma_items(fv);
                        lemma_forms_of(it.seq());
                        lemma_node_count_item(fv, it.index() as int);
                        lemma_take_push(fv, it.index() as int);
                        lemma_converted_all_push(fv.take(it.index() as int), fv[it.index() as int]);
                        assert(ele@ == fv[it.index() as int]);
                        assert(convertible(f0));
                        assert(neg_convertible(Form::Conj(fv)));
                        assert(forall|i: int| 0 <= i < fv.len() ==> neg_convertible(#[trigger] fv[i]));
                        assert(neg_convertible(ele@));
                        reveal_with_fuel(node_count, 2);
                        assert(node_count(f0) == 2 + node_count_all(fv));
                        assert(!neg_on_vars(f0));
                    }
                    let rec_call = to_dnf(Formula::FNeg(Box::new(ele)));
                    proof {
                        lemma_forms_of_push(ret_vec@, rec_call);
                    }
                    ret_vec.push(rec_call)
                }
                proof {
                    lemma_forms_of(fvec@);
                }
                proof {
                lemma_forms_of(fvec@);
            }
            assert(fv.take(fv.len() as int) =~= fv);
                proof {
                    lemma_items(fv);
                    assert(neg_convertible(Form::Conj(fv)));
                    assert(forall|i: int| 0 <= i < fv.len() ==> neg_convertible(#[trigger] fv[i]));
                    lemma_shape_neg_all(fv);
                    lemma_converted_all_index(fv);
                    lemma_spread_flat(converted_neg_all(fv));
                }
                let ghost rv = forms_of(ret_vec@);
                let disj_f = Formula::FDisj(ret_vec);
                assert(disj_f@ == Form::Disj(rv));
                assert(rv == converted_neg_all(fv));
                let flat = flatten(disj_f);
                assert(flat@ == Form::Disj(spread(converted_neg_all(fv))));
                proof {
                    lemma_items(spread(converted_neg_all(fv)));
                    lemma_plain(flat@);
                }
                to_dnf(flat)
            },
            Formula::FDisj(fvec) => {
                let ghost fv = forms_of(fvec@);
                let mut ret_vec: Vec<Formula> = Vec::new();
                assert(fv.take(0) =~= Seq::<Form>::empty());
                for ele in it: fvec.into_iter()
                    invariant
                        fv == forms_of(it.seq()),
                        f0 == f@,
                    f0 == f@,
                        f0 == Form::Neg(Box::new(Form::Disj(fv))),
                        convertible(f0),
                        forms_of(ret_vec@) == converted_neg_all(fv.take(it.index() as int)),
                {
                    proof {
                        lemma_items(fv);
                        lemma_forms_of(it.seq());
                        lemma_node_count_item(fv, it.index() as int);
                        lemma_take_push(fv, it.index() as int);
                        lemma_converted_all_push(fv.take(it.index() as int), fv[it.index() as int]);
                        assert(ele@ == fv[it.index() as int]);
                        assert(convertible(f0));
                        assert(neg_convertible(Form::Disj(fv)));
                        assert(forall|i: int| 0 <= i < fv.len() ==> is_neg_chain(#[trigger] fv[i]));
                        lemma_chain(fv[it.index() as int]);
                        reveal_with_fuel(node_count, 2);
                        assert(node_count(f0) == 2 + node_count_all(fv));
                        assert(!neg_on_vars(f0));
                    }
                    let rec_call = to_dnf(Formula::FNeg(Box::new(ele)));
                    proof {
                        lemma_forms_of_push(ret_vec@, rec_call);
                    }
                    ret_vec.push(rec_call)
                }
                proof {
                    lemma_forms_of(fvec@);
                }
                proof {
                lemma_forms_of(fvec@);
            }
            assert(fv.take(fv.len() as int) =~= fv);
                proof {
                    lemma_items(fv);
                    lemma_converted_all_index(fv);
                    assert forall|i: int| 0 <= i < fv.len() implies !(#[trigger] converted_neg_all(fv)[i] is Disj) by {
                        lemma_chain(fv[i]);
                    }
                    assert forall|i: int| 0 <= i < fv.len() implies neg_convertible(#[trigger] fv[i]) by {
                        lemma_chain(fv[i]);
                    }
                    lemma_shape_neg_all(fv);
                    lemma_spread_flat(converted_neg_all(fv));
                }
                let ghost rv = forms_of(ret_vec@);
                let conj_f = Formula::FConj(ret_vec);
                assert(conj_f@ == Form::Conj(rv));
                assert(flatten_ok(conj_f@));
                let flat = flatten(conj_f);
                proof {
                    lemma_items(spread(converted_neg_all(fv)));
                    lemma_plain(flat@);
                }
                to_dnf(flat)
            },
        },
        Formula::FConj(fvec) => {
            let ghost fv = forms_of(fvec@);
            let mut ret_vec: Vec<Formula> = Vec::new();
            assert(fv.take(0) =~= Seq::<Form>::empty());
            for ele in it: fvec.into_iter()
                invariant
                    fv == forms_of(it.seq()),
                    f0 == f@,
                    f0 == Form::Conj(fv),
                    convertible(f0),
                    forms_of(ret_vec@) == converted_all(fv.take(it.index() as int)),
            {
                proof {
                    lemma_items(fv);
                    lemma_forms_of(it.seq());
                    lemma_node_count_item(fv, it.index() as int);
                    lemma_take_push(fv, it.index() as int);
                    lemma_converted_all_push(fv.take(it.index() as int), fv[it.index() as int]);
                    assert(ele@ == fv[it.index() as int]);
                    assert(convertible(f0));
                    assert(convertible(Form::Disj(fv)) || convertible(Form::Conj(fv)));
                    assert(forall|i: int| 0 <= i < fv.len() ==> convertible(#[trigger] fv[i]));
                    assert(convertible(ele@));
                    assert(node_count(f0) == 1 + node_count_all(fv));
                    assert(neg_on_vars(f0) ==> neg_on_vars(ele@));
                }
                let rec_call = to_dnf(ele);
                proof {
                    lemma_forms_of_push(ret_vec@, rec_call);
                }
                ret_vec.push(rec_call);
            }
            proof {
                lemma_forms_of(fvec@);
            }
            assert(fv.take(fv.len() as int) =~= fv);
            formula_cross(ret_vec)
        },
    }
}

proof fn lemma_has_items(v: Seq<Form>, b: bool)
    ensures
        has_disj_below_neg(Form::Disj(v), b) == (b || exists|i: int| 0 <= i < v.len() && has_disj_below_neg(#[trigger] v[i], b)),
        has_disj_below_neg(Form::Conj(v), b) == (exists|i: int| 0 <= i < v.len() && has_disj_below_neg(#[trigger] v[i], b)),
{
    let d = Form::Disj(v);
    let c = Form::Conj(v);
    assert(d->Disj_0 == v);
    assert(c->Conj_0 == v);
    assert(has_disj_below_neg(d, b) == (b || exists|i: int| 0 <= i < v.len() && has_disj_below_neg(#[trigger] v[i], b)));
    assert(has_disj_below_neg(c, b) == (exists|i: int| 0 <= i < v.len() && has_disj_below_neg(#[trigger] v[i], b)));
}

proof fn lemma_conj_check_items(v: Seq<Form>, b: bool)
    ensures
        has_disj_below_conj(Form::Disj(v), b) == (b || exists|i: int| 0 <= i < v.len() && has_disj_below_neg(#[trigger] v[i], b)),
        has_disj_below_conj(Form::Conj(v), b) == (exists|i: int| 0 <= i < v.len() && has_disj_below_neg(#[trigger] v[i], true)),
{
    let d = Form::Disj(v);
    let c = Form::Conj(v);
    assert(d->Disj_0 == v);
    assert(c->Conj_0 == v);
}

/// Whether a disjunction occurs below a negation (or anywhere, when
/// `in_neg` holds).
pub fn disj_below_neg(f: Formula, in_neg: bool) -> (r: bool)
    ensures
        r == has_disj_below_neg(f@, in_neg),
    decreases node_count(f@),
{
    let ghost f0 = f@;
    proof {
        reveal_with_fuel(form_of, 2);
    }
    match f {
        Formula::FVar(_) => false,
        Formula::FNeg(frr) => disj_below_neg(*frr, true),
        Formula::FDisj(rec_vec) => {
            let ghost fv = forms_of(rec_vec@);
            proof {
                lemma_has_items(fv, in_neg);
            }
            if in_neg {
                return true;
            }
            for val in it: rec_vec
                invariant
                    fv == forms_of(it.seq()),
                    f0 == f@,
                    f0 == Form::Disj(fv),
                    !in_neg,
                    forall|k: int| 0 <= k < it.index() ==> !has_disj_below_neg(#[trigger] fv[k], in_neg),
            {
                proof {
                    lemma_forms_of(it.seq());
                    lemma_node_count_item(fv, it.index() as int);
                    assert(val@ == fv[it.index() as int]);
                }
                if disj_below_neg(val, in_neg) {
                    return true;
                }
            }
            proof {
                lemma_forms_of(rec_vec@);
            }
            false
        },
        Formula::FConj(rec_vec) => {
            let ghost fv = forms_of(rec_vec@);
            proof {
                lemma_has_items(fv, in_neg);
            }
            for val in it: rec_vec
                invariant
                    fv == forms_of(it.seq()),
                    f0 == f@,
                    f0 == Form::Conj(fv),
                    forall|k: int| 0 <= k < it.index() ==> !has_disj_below_neg(#[trigger] fv[k], in_neg),
            {
                proof {
                    lemma_forms_of(it.seq());
                    lemma_node_count_item(fv, it.index() as int);
                    assert(val@ == fv[it.index() as int]);
                }
                if disj_below_neg(val, in_neg) {
                    return true;
                }
            }
            proof {
                lemma_forms_of(rec_vec@);
            }
            false
        },
    }
}

/// Whether a disjunction occurs below a conjunction (or anywhere, when
/// `in_conj` holds); below the root it answers with `disj_below_neg`.
pub fn disj_below_conj(f: Formula, in_conj: bool) -> (r: bool)
    ensures
        r == has_disj_below_conj(f@, in_conj),
{
    let ghost f0 = f@;
    proof {
        reveal_with_fuel(form_of, 2);
    }
    match f {
        Formula::FVar(_) => false,
        Formula::FNeg(frr) => disj_below_neg(*frr, in_conj),
        Formula::FDisj(rec_vec) => {
            let ghost fv = forms_of(rec_vec@);
            proof {
                lemma_conj_check_items(fv, in_conj);
            }
            if in_conj {
                return true;
            }
            for val in it: rec_vec
                invariant
                    fv == forms_of(it.seq()),
                    f0 == f@,
                    f0 == Form::Disj(fv),
                    !in_conj,
                    forall|k: int| 0 <= k < it.index() ==> !has_disj_below_neg(#[trigger] fv[k], in_conj),
            {
                proof {
                    lemma_conj_check_items(fv, in_conj);
                    lemma_forms_of(it.seq());
                    assert(val@ == fv[it.index() as int]);
                }
                if disj_below_neg(val, in_conj) {
                    return true;
                }
            }
            proof {
                lemma_forms_of(rec_vec@);
            }
            false
        },
        Formula::FConj(rec_vec) => {
            let ghost fv = forms_of(rec_vec@);
            proof {
                lemma_conj_check_items(fv, in_conj);
            }
            for val in it: rec_vec
                invariant
                    fv == forms_of(it.seq()),
                    f0 == f@,
                    f0 == Form::Conj(fv),
                    forall|k: int| 0 <= k < it.index() ==> !has_disj_below_neg(#[trigger] fv[k], true),
            {
                proof {
                    lemma_conj_check_items(fv, in_conj);
                    lemma_forms_of(it.seq());
                    assert(val@ == fv[it.index() as int]);
                }
                if disj_below_neg(val, true) {
                    return true;
                }
            }
            proof {
                lemma_forms_of(rec_vec@);
            }
            false
        },
    }
}

/// The literal a value stands for.
pub open spec fn literal_form(v: i32) -> Form {
    if v >= 0 {
        Form::Var(v as u32)
    } else {
        Form::Neg(Box::new(Form::Var((-v) as u32)))
    }
}

/// The literals of a line, in order.
pub open spec fn literal_forms(vals: Seq<i32>) -> Seq<Form> {
    Seq::new(vals.len(), |i: int| literal_form(vals[i]))
}

/// The literals of a line, as a list of formulas.
pub fn line_literals(line: &String) -> (r: Vec<Formula>)
    requires
        line_ok(line@),
    ensures
        forms_of(r@) == literal_forms(line_values(line@)->0),
        r@.len() >= 1,
{
    let vals = parse_line(line.as_str()).unwrap();
    proof {
        lemma_line_values_nonempty(line@);
    }
    let mut ret_val: Vec<Formula> = Vec::new();
    let mut i: usize = 0;
    assert(literal_forms(vals@.take(0)) =~= Seq::<Form>::empty());
    while i < vals.len()
        invariant
            i <= vals.len(),
            vals@ == line_values(line@)->0,
            forall|j: int| 0 <= j < vals@.len() ==> #[trigger] vals@[j] != i32::MIN,
            forms_of(ret_val@) == literal_forms(vals@.take(i as int)),
        decreases vals.len() - i,
    {
        let val = vals[i];
        let lit = if val >= 0 {
            let val_good = val as u32;
            Formula::FVar(val_good)
        } else {
            let val_good = (-val) as u32;
            Formula::FNeg(Box::new(Formula::FVar(val_good)))
        };
        proof {
            reveal_with_fuel(form_of, 2);
            assert(lit@ == literal_form(val));
            lemma_forms_of_push(ret_val@, lit);
        }
        ret_val.push(lit);
        i += 1;
        assert(literal_forms(vals@.take(i as int)) =~= literal_forms(vals@.take(i - 1)).push(
            literal_form(val),
        ));
    }
    assert(vals@.take(i as int) =~= vals@);
    proof {
        lemma_forms_of(ret_val@);
    }
    ret_val
}

/// The clause that a line stands for: the disjunction of its literals.
pub fn proc_line(line: String) -> (r: Formula)
    requires
        line_ok(line@),
    ensures
        r@ == Form::Disj(literal_forms(line_values(line@)->0)),
{
    Formula::FDisj(line_literals(&line))
}

proof fn lemma_disj_free_checks(x: Form, b: bool)
    requires
        disj_free(x),
    ensures
        !has_disj_below_neg(x, b),
    decreases x,
{
    match x {
        Form::Var(_) => {},
        Form::Neg(g) => {
            lemma_disj_free_checks(*g, true);
        },
        Form::Disj(v) => {},
        Form::Conj(v) => {
            lemma_items(v);
            lemma_has_items(v, b);
            assert forall|i: int| 0 <= i < v.len() implies !has_disj_below_neg(#[trigger] v[i], b) by {
                lemma_disj_free_checks(v[i], b);
            }
        },
    }
}

/// What `to_dnf` produces from a formula it accepts has negations on
/// variables only and a disjunction at most at its root, so neither
/// `disj_below_neg` nor `disj_below_conj` finds a disjunction below a
/// negation or a conjunction in it.
pub proof fn law_to_dnf_flat(f: Form)
    requires
        convertible(f),
    ensures
        flat_dnf(converted(f)),
        !has_disj_below_neg(converted(f), false),
        !has_disj_below_conj(converted(f), false),
{
    lemma_shape(f);
    let g = converted(f);
    match g {
        Form::Disj(v) => {
            lemma_has_items(v, false);
            assert forall|i: int| 0 <= i < v.len() implies !has_disj_below_neg(#[trigger] v[i], false) by {
                lemma_disj_free_checks(v[i], false);
            }
            lemma_conj_check_items(v, false);
        },
        Form::Neg(h) => {
            lemma_disj_free_checks(g, false);
            lemma_disj_free_checks(*h, false);
        },
        Form::Conj(v) => {
            lemma_disj_free_checks(g, false);
            lemma_items(v);
            lemma_conj_check_items(v, false);
            assert forall|i: int| 0 <= i < v.len() implies !has_disj_below_neg(#[trigger] v[i], true) by {
                lemma_disj_free_checks(v[i], true);
            }
        },
        Form::Var(_) => {
            lemma_disj_free_checks(g, false);
        },
    }
}

/// Whether `f` is a variable under any number of negations.
pub(crate) fn is_var_under_negations(f: &Formula) -> (b: bool)
    ensures
        b == is_neg_chain(f@),
    decreases f,
{
    match f {
        Formula::FVar(_) => true,
        Formula::FNeg(g) => is_var_under_negations(g),
        _ => false,
    }
}

/// Whether `to_dnf` accepts `f` (converts it without a panic).
pub fn is_convertible(f: &Formula) -> (b: bool)
    ensures
        b == convertible(f@),
    decreases node_count(f@),
{
    proof {
        reveal_with_fuel(form_of, 2);
    }
    match f {
        Formula::FVar(_) => true,
        Formula::FNeg(g) => is_neg_convertible(g),
        Formula::FDisj(v) => {
            let ghost fv = forms_of(v@);
            proof {
                lemma_items(fv);
                lemma_forms_of(v@);
            }
            let mut i: usize = 0;
            while i < v.len()
                invariant
                    i <= v.len(),
                    fv == forms_of(v@),
                    fv.len() == v@.len(),
                    forall|j: int| 0 <= j < v@.len() ==> #[trigger] fv[j] == v@[j]@,
                    f@ == Form::Disj(fv),
                    convertible(f@) == (forall|j: int| 0 <= j < fv.len() ==> convertible(#[trigger] fv[j])),
                    forall|j: int| 0 <= j < i ==> convertible(#[trigger] fv[j]),
                decreases v.len() - i,
            {
                proof {
                    lemma_node_count_item(fv, i as int);
                }
                if !is_convertible(&v[i]) {
                    return false;
                }
                i += 1;
            }
            true
        },
        Formula::FConj(v) => {
            let ghost fv = forms_of(v@);
            proof {
                lemma_items(fv);
                lemma_forms_of(v@);
            }
            let mut i: usize = 0;
            while i < v.len()
                invariant
                    i <= v.len(),
                    fv == forms_of(v@),
                    fv.len() == v@.len(),
                    forall|j: int| 0 <= j < v@.len() ==> #[trigger] fv[j] == v@[j]@,
                    f@ == Form::Conj(fv),
                    convertible(f@) == (forall|j: int| 0 <= j < fv.len() ==> convertible(#[trigger] fv[j])),
                    forall|j: int| 0 <= j < i ==> convertible(#[trigger] fv[j]),
                decreases v.len() - i,
            {
                proof {
                    lemma_node_count_item(fv, i as int);
                }
                if !is_convertible(&v[i]) {
                    return false;
                }
                i += 1;
            }
            true
        },
    }
}

/// Whether `to_dnf` accepts the negation of `g`.
pub fn is_neg_convertible(g: &Formula) -> (b: bool)
    ensures
        b == neg_convertible(g@),
    decreases node_count(g@),
{
    proof {
        reveal_with_fuel(form_of, 2);
    }
    match g {
        Formula::FVar(_) => true,
        Formula::FNeg(h) => is_convertible(h),
        Formula::FConj(v) => {
            let ghost fv = forms_of(v@);
            proof {
                lemma_items(fv);
                lemma_forms_of(v@);
            }
            let mut i: usize = 0;
            while i < v.len()
                invariant
                    i <= v.len(),
                    fv == forms_of(v@),
                    fv.len() == v@.len(),
                    forall|j: int| 0 <= j < v@.len() ==> #[trigger] fv[j] == v@[j]@,
                    g@ == Form::Conj(fv),
                    neg_convertible(g@) == (forall|j: int| 0 <= j < fv.len() ==> neg_convertible(#[trigger] fv[j])),
                    forall|j: int| 0 <= j < i ==> neg_convertible(#[trigger] fv[j]),
                decreases v.len() - i,
            {
                proof {
                    lemma_node_count_item(fv, i as int);
                }
                if !is_neg_convertible(&v[i]) {
                    return false;
                }
                i += 1;
            }
            true
        },
        Formula::FDisj(v) => {
            let ghost fv = forms_of(v@);
            proof {
                lemma_items(fv);
                lemma_forms_of(v@);
            }
            let mut i: usize = 0;
            while i < v.len()
                invariant
                    i <= v.len(),
                    fv == forms_of(v@),
                    fv.len() == v@.len(),
                    forall|j: int| 0 <= j < v@.len() ==> #[trigger] fv[j] == v@[j]@,
                    g@ == Form::Disj(fv),
                    neg_convertible(g@) == (forall|j: int| 0 <= j < fv.len() ==> is_neg_chain(#[trigger] fv[j])),
                    forall|j: int| 0 <= j < i ==> is_neg_chain(#[trigger] fv[j]),
                decreases v.len() - i,
            {
                if !is_var_under_negations(&v[i]) {
                    assert(!is_neg_chain(fv[i as int]));
                    return false;
                }
                i += 1;
            }
            true
        },
    }
}

/// A variable or a negated variable.
pub open spec fn is_literal_form(f: Form) -> bool {
    (f is Var) || (f is Neg && *(f->Neg_0) is Var)
}

/// A literal, or a conjunction whose operands are all literals.
pub open spec fn is_clause_form(f: Form) -> bool {
    is_literal_form(f) || (f is Conj && forall|i: int| 0 <= i < f->Conj_0.len() ==> is_literal_form(
        #[trigger] f->Conj_0[i],
    ))
}

proof fn lemma_literals_fixed(s: Seq<Form>)
    requires
        forall|i: int| 0 <= i < s.len() ==> is_literal_form(#[trigger] s[i]),
    ensures
        converted_all(s) == s,
        spread(s) == s,
    decreases s.len(),
{
    if s.len() > 0 {
        let d = s.drop_last();
        assert forall|i: int| 0 <= i < d.len() implies is_literal_form(#[trigger] d[i]) by {
            assert(d[i] == s[i]);
        }
        lemma_literals_fixed(d);
        let x = s.last();
        assert(is_literal_form(s[s.len() - 1]));
        assert(converted(x) == x);
        assert(pieces(x) == seq![x]);
        assert(d.push(x) =~= s);
        assert(d + seq![x] =~= s);
    }
}

proof fn lemma_clauses_fixed(v: Seq<Form>)
    requires
        forall|i: int| 0 <= i < v.len() ==> is_clause_form(#[trigger] v[i]),
    ensures
        spread(converted_all(v)) == v,
    decreases v.len(),
{
    if v.len() > 0 {
        let d = v.drop_last();
        assert forall|i: int| 0 <= i < d.len() implies is_clause_form(#[trigger] d[i]) by {
            assert(d[i] == v[i]);
        }
        lemma_clauses_fixed(d);
        let c = v.last();
        assert(is_clause_form(v[v.len() - 1]));
        assert(v.drop_last().push(c) =~= v);
        lemma_converted_all_push(d, c);
        lemma_spread_push(converted_all(d), converted(c));
        if is_literal_form(c) {
            assert(converted(c) == c);
            assert(pieces(c) == seq![c]);
        } else {
            let lits = c->Conj_0;
            assert(c == Form::Conj(lits));
            lemma_literals_fixed(lits);
            assert(converted(c) == crossed(converted_all(lits)));
            assert(pieces(converted(c)) == seq![Form::Conj(lits)]);
        }
        assert(d + seq![c] =~= v);
    }
}

/// A disjunction of literals and conjunctions of literals, a formula
/// already in disjunctive normal form, is left as it is by `to_dnf`: every
/// disjunct is kept whole, and no conjunction is dissolved into the
/// disjunction.
pub proof fn law_to_dnf_keeps_dnf(v: Seq<Form>)
    requires
        forall|i: int| 0 <= i < v.len() ==> is_clause_form(#[trigger] v[i]),
    ensures
        converted(Form::Disj(v)) == Form::Disj(v),
{
    let d = Form::Disj(v);
    assert(d->Disj_0 == v);
    assert(converted(d) == Form::Disj(spread(converted_all(v))));
    lemma_clauses_fixed(v);
}

/// No conjunction anywhere.
pub open spec fn conj_free(f: Form) -> bool
    decreases f,
{
    match f {
        Form::Var(_) => true,
        Form::Neg(g) => conj_free(*g),
        Form::Disj(v) => forall|i: int| 0 <= i < v.len() ==> conj_free(#[trigger] v[i]),
        Form::Conj(_) => false,
    }
}

proof fn lemma_no_disj_below_neg(g: Form)
    requires
        conj_free(g),
        neg_on_vars(g),
    ensures
        !has_disj_below_neg(g, false),
    decreases g,
{
    match g {
        Form::Var(_) => {},
        Form::Neg(h) => {
            assert(*h is Var);
            assert(!has_disj_below_neg(*h, true));
        },
        Form::Disj(v) => {
            lemma_items(v);
            lemma_has_items(v, false);
            let d = Form::Disj(v);
            assert(d->Disj_0 == v);
            assert(conj_free(d) == (forall|i: int| 0 <= i < v.len() ==> conj_free(#[trigger] v[i])));
            assert forall|i: int| 0 <= i < v.len() implies !has_disj_below_neg(#[trigger] v[i], false) by {
                lemma_no_disj_below_neg(v[i]);
            }
        },
        Form::Conj(_) => {},
    }
}

/// A formula without conjunctions, whose negations are on variables only
/// or at its root, has no disjunction below a conjunction: neither for
/// `disj_below_conj` on the formula nor on its negation.
pub proof fn law_disj_below_conj_without_conj(g: Form)
    requires
        conj_free(g),
        neg_on_vars(g),
    ensures
        !has_disj_below_conj(g, false),
        !has_disj_below_conj(Form::Neg(Box::new(g)), false),
{
    lemma_no_disj_below_neg(g);
    match g {
        Form::Disj(v) => {
            lemma_conj_check_items(v, false);
            lemma_has_items(v, false);
        },
        Form::Neg(h) => {
            assert(*h is Var);
            assert(!has_disj_below_neg(*h, false));
        },
        _ => {},
    }
}

/// The truth value of an n-ary formula under `env`: a disjunction holds
/// when some operand holds, a conjunction when every operand holds.
pub open spec fn eval_form(f: Form, env: spec_fn(u32) -> bool) -> bool
    decreases f,
{
    match f {
        Form::Var(x) => env(x),
        Form::Neg(g) => !eval_form(*g, env),
        Form::Disj(v) => exists|i: int| 0 <= i < v.len() && eval_form(#[trigger] v[i], env),
        Form::Conj(v) => forall|i: int| 0 <= i < v.len() ==> eval_form(#[trigger] v[i], env),
    }
}

/// The variable that a line value names: its magnitude.
pub open spec fn value_variable(v: i32) -> u32 {
    (if v >= 0 {
        v as int
    } else {
        -(v as int)
    }) as u32
}

/// The literals of a line mean what the line's values say: value `v`
/// asserts that variable `|v|` is true when `v >= 0` (so `0` names variable
/// 0, positively) and false when `v < 0`.  Their disjunction holds when one
/// value is met, their conjunction when every value is.
pub proof fn law_literal_forms_meaning(vals: Seq<i32>, env: spec_fn(u32) -> bool)
    ensures
        eval_form(Form::Disj(literal_forms(vals)), env) == exists|i: int| 0 <= i < vals.len() && env(
            value_variable(#[trigger] vals[i]),
        ) == (vals[i] >= 0),
        eval_form(Form::Conj(literal_forms(vals)), env) == forall|i: int| 0 <= i < vals.len() ==> env(
            value_variable(#[trigger] vals[i]),
        ) == (vals[i] >= 0),
{
    let lits = literal_forms(vals);
    let d = Form::Disj(lits);
    let c = Form::Conj(lits);
    assert(d->Disj_0 == lits);
    assert(c->Conj_0 == lits);
    assert(eval_form(d, env) == exists|i: int| 0 <= i < lits.len() && eval_form(#[trigger] lits[i], env));
    assert(eval_form(c, env) == forall|i: int| 0 <= i < lits.len() ==> eval_form(#[trigger] lits[i], env));
    assert forall|i: int| 0 <= i < vals.len() implies eval_form(#[trigger] lits[i], env) == (env(
        value_variable(vals[i]),
    ) == (vals[i] >= 0)) by {
        let v = vals[i];
        if v >= 0 {
            assert(lits[i] == Form::Var(v as u32));
        } else {
            assert(lits[i] == Form::Neg(Box::new(Form::Var((-v) as u32))));
            assert(eval_form(Form::Var((-v) as u32), env) == env((-v) as u32));
        }
    }
    if exists|i: int| 0 <= i < vals.len() && env(value_variable(#[trigger] vals[i])) == (vals[i] >= 0) {
        let i = choose|i: int| 0 <= i < vals.len() && env(value_variable(#[trigger] vals[i])) == (vals[i] >= 0);
        assert(eval_form(lits[i], env));
    }
    if exists|i: int| 0 <= i < lits.len() && eval_form(#[trigger] lits[i], env) {
        let i = choose|i: int| 0 <= i < lits.len() && eval_form(#[trigger] lits[i], env);
        assert(env(value_variable(vals[i])) == (vals[i] >= 0));
    }
    if forall|i: int| 0 <= i < vals.len() ==> env(value_variable(#[trigger] vals[i])) == (vals[i] >= 0) {
        assert forall|i: int| 0 <= i < lits.len() implies eval_form(#[trigger] lits[i], env) by {
            assert(env(value_variable(vals[i])) == (vals[i] >= 0));
        }
    }
    if forall|i: int| 0 <= i < lits.len() ==> eval_form(#[trigger] lits[i], env) {
        assert forall|i: int| 0 <= i < vals.len() implies env(value_variable(#[trigger] vals[i])) == (
        vals[i] >= 0) by {
            assert(eval_form(lits[i], env));
        }
    }
}

/// The literals of a formula, left to right, each as its variable and the
/// value that makes it true once the negations above it are counted
/// (`negated` says whether an odd number of them lies above `f`).
pub open spec fn literal_seq(f: Form, negated: bool) -> Seq<(u32, bool)>
    decreases f,
{
    match f {
        Form::Var(x) => seq![(x, !negated)],
        Form::Neg(g) => literal_seq(*g, !negated),
        Form::Disj(v) => literal_seq_all(v, negated),
        Form::Conj(v) => literal_seq_all(v, negated),
    }
}

/// The literals of a list of formulas, one formula after the other.
pub open spec fn literal_seq_all(s: Seq<Form>, negated: bool) -> Seq<(u32, bool)>
    decreases s,
{
    if s.len() == 0 {
        Seq::empty()
    } else {
        literal_seq_all(s.drop_last(), negated) + literal_seq(s.last(), negated)
    }
}

pub(crate) proof fn lemma_lits_concat(a: Seq<Form>, c: Seq<Form>, b: bool)
    ensures
        literal_seq_all(a + c, b) == literal_seq_all(a, b) + literal_seq_all(c, b),
    decreases c.len(),
{
    if c.len() == 0 {
        assert(a + c =~= a);
        assert(literal_seq_all(a, b) + Seq::<(u32, bool)>::empty() =~= literal_seq_all(a, b));
    } else {
        lemma_lits_concat(a, c.drop_last(), b);
        assert((a + c).drop_last() =~= a + c.drop_last());
        assert((a + c).last() == c.last());
        assert(literal_seq_all(a, b) + literal_seq_all(c.drop_last(), b) + literal_seq(c.last(), b)
            =~= literal_seq_all(a, b) + (literal_seq_all(c.drop_last(), b) + literal_seq(c.last(), b)));
    }
}

proof fn lemma_lits_single(x: Form, b: bool)
    ensures
        literal_seq_all(seq![x], b) == literal_seq(x, b),
{
    let s = seq![x];
    assert(s.drop_last() =~= Seq::<Form>::empty());
    assert(s.last() == x);
    assert(literal_seq_all(s.drop_last(), b) =~= Seq::<(u32, bool)>::empty());
    assert(literal_seq_all(s, b) == literal_seq_all(s.drop_last(), b) + literal_seq(s.last(), b));
    assert(Seq::<(u32, bool)>::empty() + literal_seq(x, b) =~= literal_seq(x, b));
}

proof fn lemma_lits_pieces(x: Form, b: bool)
    ensures
        literal_seq_all(pieces(x), b) == literal_seq(x, b),
{
    match x {
        Form::Disj(v) => {},
        Form::Conj(v) => {},
        _ => {
            lemma_lits_single(x, b);
        },
    }
}

pub(crate) proof fn lemma_lits_spread(s: Seq<Form>, b: bool)
    ensures
        literal_seq_all(spread(s), b) == literal_seq_all(s, b),
    decreases s.len(),
{
    if s.len() > 0 {
        let d = s.drop_last();
        lemma_lits_spread(d, b);
        lemma_lits_concat(spread(d), pieces(s.last()), b);
        lemma_lits_pieces(s.last(), b);
    }
}

proof fn lemma_lits_crossed(s: Seq<Form>, b: bool)
    ensures
        literal_seq(crossed(s), b) == literal_seq_all(s, b),
{
    lemma_lits_single(Form::Conj(spread(s)), b);
    lemma_lits_spread(s, b);
}

proof fn lemma_lits_plain(f: Form, b: bool)
    ensures
        literal_seq(convert_plain(f), b) == literal_seq(f, b),
    decreases f,
{
    match f {
        Form::Disj(v) => {
            lemma_lits_plain_all(v, b);
            lemma_lits_spread(convert_plain_all(v), b);
        },
        Form::Conj(v) => {
            lemma_lits_plain_all(v, b);
            lemma_lits_crossed(convert_plain_all(v), b);
        },
        _ => {},
    }
}

proof fn lemma_lits_plain_all(s: Seq<Form>, b: bool)
    ensures
        literal_seq_all(convert_plain_all(s), b) == literal_seq_all(s, b),
    decreases s,
{
    if s.len() > 0 {
        lemma_lits_plain_all(s.drop_last(), b);
        lemma_lits_plain(s.last(), b);
        lemma_converted_all_index(s);
        assert(convert_plain_all(s).drop_last() =~= convert_plain_all(s.drop_last()));
    }
}

proof fn lemma_lits_converted(f: Form, b: bool)
    requires
        convertible(f),
    ensures
        literal_seq(converted(f), b) == literal_seq(f, b),
    decreases f,
{
    match f {
        Form::Var(_) => {},
        Form::Neg(g) => {
            lemma_lits_converted_neg(*g, !b);
        },
        Form::Disj(v) => {
            lemma_items(v);
            lemma_lits_converted_all(v, b);
            lemma_lits_spread(converted_all(v), b);
        },
        Form::Conj(v) => {
            lemma_items(v);
            lemma_lits_converted_all(v, b);
            lemma_lits_crossed(converted_all(v), b);
        },
    }
}

proof fn lemma_lits_converted_neg(g: Form, b: bool)
    requires
        neg_convertible(g),
    ensures
        literal_seq(converted_neg(g), !b) == literal_seq(g, b),
    decreases g,
{
    match g {
        Form::Var(x) => {
            let n = Form::Neg(Box::new(Form::Var(x)));
            assert(n->Neg_0 == Box::new(Form::Var(x)));
            assert(literal_seq(n, !b) == literal_seq(Form::Var(x), !!b));
        },
        Form::Neg(h) => {
            lemma_lits_converted(*h, !b);
        },
        Form::Conj(v) => {
            lemma_items(v);
            lemma_lits_converted_neg_all(v, b);
            lemma_lits_spread(converted_neg_all(v), !b);
            lemma_lits_plain(Form::Disj(spread(converted_neg_all(v))), !b);
        },
        Form::Disj(v) => {
            lemma_items(v);
            assert forall|i: int| 0 <= i < v.len() implies neg_convertible(#[trigger] v[i]) by {
                lemma_chain(v[i]);
            }
            lemma_lits_converted_neg_all(v, b);
            lemma_lits_spread(converted_neg_all(v), !b);
            lemma_lits_plain(Form::Conj(spread(converted_neg_all(v))), !b);
        },
    }
}

proof fn lemma_lits_converted_all(s: Seq<Form>, b: bool)
    requires
        forall|i: int| 0 <= i < s.len() ==> convertible(#[trigger] s[i]),
    ensures
        literal_seq_all(converted_all(s), b) == literal_seq_all(s, b),
    decreases s,
{
    if s.len() > 0 {
        let d = s.drop_last();
        assert forall|i: int| 0 <= i < d.len() implies convertible(#[trigger] d[i]) by {
            assert(d[i] == s[i]);
        }
        lemma_lits_converted_all(d, b);
        lemma_lits_converted(s.last(), b);
        lemma_converted_all_index(s);
        assert(converted_all(s).drop_last() =~= converted_all(d));
    }
}

proof fn lemma_lits_converted_neg_all(s: Seq<Form>, b: bool)
    requires
        forall|i: int| 0 <= i < s.len() ==> neg_convertible(#[trigger] s[i]),
    ensures
        literal_seq_all(converted_neg_all(s), !b) == literal_seq_all(s, b),
    decreases s,
{
    if s.len() > 0 {
        let d = s.drop_last();
        assert forall|i: int| 0 <= i < d.len() implies neg_convertible(#[trigger] d[i]) by {
            assert(d[i] == s[i]);
        }
        lemma_lits_converted_neg_all(d, b);
        lemma_lits_converted_neg(s.last(), b);
        lemma_converted_all_index(s);
        assert(converted_neg_all(s).drop_last() =~= converted_neg_all(d));
    }
}

/// `to_dnf` keeps every literal of its input, in order, each with the sign
/// it has once negations are pushed down to the variables: nothing is
/// dropped, repeated, reordered or flipped.
pub proof fn law_to_dnf_literals(f: Form)
    requires
        convertible(f),
    ensures
        literal_seq(converted(f), false) == literal_seq(f, false),
{
    lemma_lits_converted(f, false);
}

/// `flatten` keeps the literals of its input, in order and with their signs.
pub proof fn law_flatten_literals(f: Form)
    ensures
        literal_seq(flattened(f), false) == literal_seq(f, false),
{
    match f {
        Form::Neg(g) => match *g {
            Form::Neg(h) => {
                let n = Form::Neg(Box::new(*h));
                assert(literal_seq(n, true) == literal_seq(*h, false));
            },
            _ => {},
        },
        Form::Disj(v) => {
            lemma_lits_spread(v, false);
        },
        Form::Conj(v) => {
            lemma_lits_spread(v, false);
        },
        _ => {},
    }
}

/// `formula_cross` keeps the literals of its operands, in order and with
/// their signs.
pub proof fn law_formula_cross_literals(s: Seq<Form>)
    ensures
        literal_seq(crossed(s), false) == literal_seq_all(s, false),
{
    lemma_lits_crossed(s, false);
}

/// No negation anywhere.
pub open spec fn neg_free(f: Form) -> bool
    decreases f,
{
    match f {
        Form::Var(_) => true,
        Form::Neg(_) => false,
        Form::Disj(v) => forall|i: int| 0 <= i < v.len() ==> neg_free(#[trigger] v[i]),
        Form::Conj(v) => forall|i: int| 0 <= i < v.len() ==> neg_free(#[trigger] v[i]),
    }
}

proof fn lemma_disj_below_neg_meaning(f: Form)
    ensures
        has_disj_below_neg(f, true) == !disj_free(f),
        has_disj_below_neg(f, false) ==> !disj_free(f),
        neg_free(f) ==> !has_disj_below_neg(f, false),
    decreases f,
{
    match f {
        Form::Var(_) => {},
        Form::Neg(g) => {
            lemma_disj_below_neg_meaning(*g);
        },
        Form::Disj(v) => {
            lemma_has_items(v, true);
            lemma_has_items(v, false);
            let d = Form::Disj(v);
            assert(d->Disj_0 == v);
            assert(neg_free(d) == (forall|i: int| 0 <= i < v.len() ==> neg_free(#[trigger] v[i])));
            assert forall|i: int| 0 <= i < v.len() implies (neg_free(#[trigger] v[i])
                ==> !has_disj_below_neg(v[i], false)) by {
                lemma_disj_below_neg_meaning(v[i]);
            }
        },
        Form::Conj(v) => {
            lemma_has_items(v, true);
            lemma_has_items(v, false);
            lemma_items(v);
            let c = Form::Conj(v);
            assert(c->Conj_0 == v);
            assert(neg_free(c) == (forall|i: int| 0 <= i < v.len() ==> neg_free(#[trigger] v[i])));
            assert forall|i: int| 0 <= i < v.len() implies (has_disj_below_neg(#[trigger] v[i], true)
                == !disj_free(v[i])) && (has_disj_below_neg(v[i], false) ==> !disj_free(v[i])) && (
            neg_free(v[i]) ==> !has_disj_below_neg(v[i], false)) by {
                lemma_disj_below_neg_meaning(v[i]);
            }
        },
    }
}

/// What the two shape checks find: below a negation or a conjunction (or
/// anywhere, when the flag is set) any disjunction counts; a formula
/// without negations has no disjunction below a negation; and what is found
/// below a negation is a disjunction of the formula.
pub proof fn law_disj_checks_meaning(f: Form)
    ensures
        has_disj_below_neg(f, true) == !disj_free(f),
        has_disj_below_conj(f, true) == !disj_free(f),
        has_disj_below_neg(f, false) ==> !disj_free(f),
        has_disj_below_conj(f, false) ==> !disj_free(f),
        neg_free(f) ==> !has_disj_below_neg(f, false),
{
    lemma_disj_below_neg_meaning(f);
    match f {
        Form::Neg(g) => {
            lemma_disj_below_neg_meaning(*g);
        },
        Form::Disj(v) => {
            lemma_conj_check_items(v, true);
            lemma_conj_check_items(v, false);
            lemma_has_items(v, false);
        },
        Form::Conj(v) => {
            lemma_conj_check_items(v, true);
            lemma_conj_check_items(v, false);
            lemma_has_items(v, true);
        },
        _ => {},
    }
}

} // verus!
