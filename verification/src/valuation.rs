//! Partial assignments ("valuations") and the sets of partial assignments
//! under which a formula holds.
//!
//! A valuation is a list of `(variable, value)` pairs.  When a variable is
//! listed more than once, the first pair is the one that lookups see.  An
//! assignment `env` agrees with a valuation when it gives every listed
//! variable its listed value.
use vstd::prelude::*;
use crate::formula::{Formula, eval};

verus! {

/// A partial assignment of truth values to variables.
pub type Valuation = Vec<(u32, bool)>;

/// The value of the first pair for `k` in `l`, if there is one.
pub open spec fn lookup(l: Seq<(u32, bool)>, k: u32) -> Option<bool>
    decreases l.len(),
{
    if l.len() == 0 {
        None
    } else if l[0].0 == k {
        Some(l[0].1)
    } else {
        lookup(l.drop_first(), k)
    }
}

/// `env` gives every pair of `l` its listed value.
pub open spec fn agrees(env: spec_fn(u32) -> bool, l: Seq<(u32, bool)>) -> bool {
    forall|i: int| 0 <= i < l.len() ==> env(#[trigger] l[i].0) == l[i].1
}

/// Every variable of `l` is looked up in `r` with `l`'s value, and the
/// other way round.
pub open spec fn same_valuation(l: Seq<(u32, bool)>, r: Seq<(u32, bool)>) -> bool {
    &&& forall|i: int| 0 <= i < l.len() ==> lookup(r, #[trigger] l[i].0) == Some(l[i].1)
    &&& forall|j: int| 0 <= j < r.len() ==> lookup(l, #[trigger] r[j].0) == Some(r[j].1)
}

/// Every variable of `l` occurs in `r`, and the other way round.
pub open spec fn same_keys(l: Seq<(u32, bool)>, r: Seq<(u32, bool)>) -> bool {
    &&& forall|i: int| 0 <= i < l.len() ==> lookup(r, #[trigger] l[i].0) is Some
    &&& forall|j: int| 0 <= j < r.len() ==> lookup(l, #[trigger] r[j].0) is Some
}

/// Inserting the pairs of `r`, in order, into `acc`: a pair whose variable
/// is already present with the same value is skipped, a new variable is
/// appended, and a variable present with the other value makes the whole
/// union fail.
pub open spec fn union_into(acc: Seq<(u32, bool)>, r: Seq<(u32, bool)>) -> Option<Seq<(u32, bool)>>
    decreases r.len(),
{
    if r.len() == 0 {
        Some(acc)
    } else {
        let e = r[0];
        match lookup(acc, e.0) {
            Some(b) => if b == e.1 {
                union_into(acc, r.drop_first())
            } else {
                None
            },
            None => union_into(acc.push(e), r.drop_first()),
        }
    }
}

/// The contents of a list of valuations.
pub open spec fn views(v: Seq<Valuation>) -> Seq<Seq<(u32, bool)>> {
    v.map_values(|x: Valuation| x@)
}

/// Some valuation of `s` agrees with `env`.
pub open spec fn satisfied_by(env: spec_fn(u32) -> bool, s: Seq<Seq<(u32, bool)>>) -> bool {
    exists|i: int| 0 <= i < s.len() && agrees(env, #[trigger] s[i])
}

/// `acc` followed by those valuations of `r` (in order) that are not the
/// same valuation as one already collected.
pub open spec fn set_union_into(acc: Seq<Seq<(u32, bool)>>, r: Seq<Seq<(u32, bool)>>) -> Seq<
    Seq<(u32, bool)>,
>
    decreases r.len(),
{
    if r.len() == 0 {
        acc
    } else {
        let e = r[0];
        if exists|j: int| 0 <= j < acc.len() && same_valuation(e, #[trigger] acc[j]) {
            set_union_into(acc, r.drop_first())
        } else {
            set_union_into(acc.push(e), r.drop_first())
        }
    }
}

/// The unions of `e` with each valuation of `r`, in order, leaving out
/// those that fail.
pub open spec fn cross_row(e: Seq<(u32, bool)>, r: Seq<Seq<(u32, bool)>>) -> Seq<Seq<(u32, bool)>>
    decreases r.len(),
{
    if r.len() == 0 {
        Seq::empty()
    } else {
        let rest = cross_row(e, r.drop_last());
        match union_into(e, r.last()) {
            Some(u) => rest.push(u),
            None => rest,
        }
    }
}

/// The successful unions of each valuation of `l` with each valuation of
/// `r`, row by row.
pub open spec fn cross(l: Seq<Seq<(u32, bool)>>, r: Seq<Seq<(u32, bool)>>) -> Seq<Seq<(u32, bool)>>
    decreases l.len(),
{
    if l.len() == 0 {
        Seq::empty()
    } else {
        cross(l.drop_last(), r) + cross_row(l.last(), r)
    }
}

/// The valuations that `dnf_sat` computes for `f` (for its negation when
/// `neg_mode` holds).
pub open spec fn sat_valuations(f: Formula, neg_mode: bool) -> Seq<Seq<(u32, bool)>>
    decreases f,
{
    match f {
        Formula::FVar(v) => seq![seq![(v, !neg_mode)]],
        Formula::FNeg(g) => sat_valuations(*g, !neg_mode),
        Formula::FDisj(a, b) => if neg_mode {
            cross(sat_valuations(*a, neg_mode), sat_valuations(*b, neg_mode))
        } else {
            set_union_into(sat_valuations(*a, neg_mode), sat_valuations(*b, neg_mode))
        },
        Formula::FConj(a, b) => if neg_mode {
            set_union_into(sat_valuations(*a, neg_mode), sat_valuations(*b, neg_mode))
        } else {
            cross(sat_valuations(*a, neg_mode), sat_valuations(*b, neg_mode))
        },
    }
}

proof fn lemma_views_push(s: Seq<Valuation>, x: Valuation)
    ensures
        views(s.push(x)) == views(s).push(x@),
{
    assert(views(s.push(x)) =~= views(s).push(x@));
}

proof fn lemma_skip_step<T>(s: Seq<T>, i: int)
    requires
        0 <= i < s.len(),
    ensures
        s.skip(i).len() > 0,
        s.skip(i)[0] == s[i],
        s.skip(i).drop_first() == s.skip(i + 1),
{
    assert(s.skip(i).drop_first() =~= s.skip(i + 1));
}

/// Checks if a valuation has a key already assigned.
pub fn val_key_in(l: &Valuation, k: &u32) -> (r: bool)
    ensures
        r == lookup(l@, *k) is Some,
{
    let mut i: usize = 0;
    assert(l@.skip(0) =~= l@);
    while i < l.len()
        invariant
            i <= l.len(),
            lookup(l@, *k) == lookup(l@.skip(i as int), *k),
        decreases l.len() - i,
    {
        proof {
            lemma_skip_step(l@, i as int);
        }
        if l[i].0 == *k {
            return true;
        }
        i += 1;
    }
    assert(l@.skip(i as int).len() == 0);
    false
}

/// Checks if the first pair for `kv.0` in `l` has the value `kv.1`.
pub fn val_in(l: &Valuation, kv: &(u32, bool)) -> (r: bool)
    ensures
        r == (lookup(l@, kv.0) == Some(kv.1)),
{
    let mut i: usize = 0;
    assert(l@.skip(0) =~= l@);
    while i < l.len()
        invariant
            i <= l.len(),
            lookup(l@, kv.0) == lookup(l@.skip(i as int), kv.0),
        decreases l.len() - i,
    {
        proof {
            lemma_skip_step(l@, i as int);
        }
        if l[i].0 == kv.0 {
            return l[i].1 == kv.1;
        }
        i += 1;
    }
    assert(l@.skip(i as int).len() == 0);
    false
}

/// Inserts `v` into `l` unless its variable is already there; returns
/// false exactly when the variable is there with the other value.
pub fn val_insertion(l: &mut Valuation, v: (u32, bool)) -> (r: bool)
    ensures
        lookup(old(l)@, v.0) is Some ==> r == (lookup(old(l)@, v.0) == Some(v.1)) && final(l)@
            == old(l)@,
        lookup(old(l)@, v.0) is None ==> r && final(l)@ == old(l)@.push(v),
{
    if val_key_in(l, &v.0) {
        return val_in(l, &v);
    }
    l.push(v);
    true
}

/// Checks that `l` and `r` list the same variables.
pub fn valuation_key_eq(l: &Valuation, r: &Valuation) -> (b: bool)
    ensures
        b == same_keys(l@, r@),
{
    let mut i: usize = 0;
    while i < l.len()
        invariant
            i <= l.len(),
            forall|j: int| 0 <= j < i ==> lookup(r@, #[trigger] l@[j].0) is Some,
        decreases l.len() - i,
    {
        if !val_key_in(r, &l[i].0) {
            return false;
        }
        i += 1;
    }
    let mut i: usize = 0;
    while i < r.len()
        invariant
            i <= r.len(),
            forall|j: int| 0 <= j < l.len() ==> lookup(r@, #[trigger] l@[j].0) is Some,
            forall|j: int| 0 <= j < i ==> lookup(l@, #[trigger] r@[j].0) is Some,
        decreases r.len() - i,
    {
        if !val_key_in(l, &r[i].0) {
            return false;
        }
        i += 1;
    }
    true
}

/// Checks that every pair of each valuation is the one the other looks up.
pub fn valuation_eq(l: &Valuation, r: &Valuation) -> (b: bool)
    ensures
        b == same_valuation(l@, r@),
{
    let mut i: usize = 0;
    while i < l.len()
        invariant
            i <= l.len(),
            forall|j: int| 0 <= j < i ==> lookup(r@, #[trigger] l@[j].0) == Some(l@[j].1),
        decreases l.len() - i,
    {
        if !val_in(r, &l[i]) {
            return false;
        }
        i += 1;
    }
    let mut i: usize = 0;
    while i < r.len()
        invariant
            i <= r.len(),
            forall|j: int| 0 <= j < l.len() ==> lookup(r@, #[trigger] l@[j].0) == Some(l@[j].1),
            forall|j: int| 0 <= j < i ==> lookup(l@, #[trigger] r@[j].0) == Some(r@[j].1),
        decreases r.len() - i,
    {
        if !val_in(l, &r[i]) {
            return false;
        }
        i += 1;
    }
    true
}

/// The union of two valuations, unless they give a variable different values.
pub fn val_union(l: &Valuation, r: &Valuation) -> (res: Option<Valuation>)
    ensures
        match res {
            Some(u) => union_into(l@, r@) == Some(u@),
            None => union_into(l@, r@) is None,
        },
{
    let mut ret_val: Valuation = Vec::new();
    let mut i: usize = 0;
    while i < l.len()
        invariant
            i <= l.len(),
            ret_val@ == l@.take(i as int),
        decreases l.len() - i,
    {
        ret_val.push(l[i]);
        i += 1;
        assert(ret_val@ =~= l@.take(i as int));
    }
    assert(l@.take(l.len() as int) =~= l@);
    assert(r@.skip(0) =~= r@);
    let mut i: usize = 0;
    while i < r.len()
        invariant
            i <= r.len(),
            union_into(l@, r@) == union_into(ret_val@, r@.skip(i as int)),
        decreases r.len() - i,
    {
        proof {
            lemma_skip_step(r@, i as int);
        }
        if !val_insertion(&mut ret_val, r[i]) {
            return None;
        }
        i += 1;
    }
    assert(r@.skip(i as int).len() == 0);
    Some(ret_val)
}

/// The valuations of `l`, followed by those of `r` that are not the same
/// valuation as one already collected.
pub fn val_set_union(l: Vec<Valuation>, r: Vec<Valuation>) -> (res: Vec<Valuation>)
    ensures
        views(res@) == set_union_into(views(l@), views(r@)),
        union_listing(views(l@), views(r@), views(res@)),
{
    let ghost l0 = views(l@);
    let ghost r0 = views(r@);
    let mut ret_vec: Vec<Valuation> = Vec::new();
    for ele in it: l
        invariant
            l0 == views(it.seq()),
            views(ret_vec@) == views(it.seq()).take(it.index() as int),
    {
        proof {
            lemma_views_push(ret_vec@, ele);
            assert(views(it.seq()).take(it.index() + 1) =~= views(it.seq()).take(
                it.index() as int,
            ).push(ele@));
        }
        ret_vec.push(ele);
    }
    assert(views(ret_vec@) =~= l0);
    assert(r0.skip(0) =~= r0);
    for ele1 in it: r
        invariant
            r0 == views(it.seq()),
            set_union_into(l0, r0) == set_union_into(views(ret_vec@), r0.skip(it.index() as int)),
    {
        proof {
            lemma_skip_step(r0, it.index() as int);
        }
        let ghost idx = it.index() as int;
        let ghost acc = views(ret_vec@);
        assert(ele1@ == r0[idx]);
        let mut ele1_in_ret_vec = false;
        let mut j: usize = 0;
        while j < ret_vec.len()
            invariant
                j <= ret_vec.len(),
                acc == views(ret_vec@),
                ele1_in_ret_vec == exists|k: int| 0 <= k < j && same_valuation(ele1@, #[trigger] acc[k]),
            decreases ret_vec.len() - j,
        {
            let same = valuation_eq(&ele1, &ret_vec[j]);
            assert(acc[j as int] == ret_vec@[j as int]@);
            ele1_in_ret_vec = ele1_in_ret_vec || same;
            j += 1;
        }
        assert(ele1_in_ret_vec == exists|k: int| 0 <= k < acc.len() && same_valuation(r0[idx], #[trigger] acc[k]));
        if !ele1_in_ret_vec {
            proof {
                lemma_views_push(ret_vec@, ele1);
            }
            ret_vec.push(ele1);
        }
    }
    proof {
        law_set_union_listing(l0, r0);
    }
    ret_vec
}

/// Every successful union of a valuation of `l` with a valuation of `r`,
/// row by row: `{ u ∪ w | u ∈ l, w ∈ r }` without the inconsistent pairs.
pub fn val_set_cross(l: Vec<Valuation>, r: Vec<Valuation>) -> (res: Vec<Valuation>)
    ensures
        views(res@) == cross(views(l@), views(r@)),
{
    let ghost lv = views(l@);
    let ghost rv = views(r@);
    let mut ret_vec: Vec<Valuation> = Vec::new();
    let mut i: usize = 0;
    assert(lv.take(0) =~= Seq::<Seq<(u32, bool)>>::empty());
    while i < l.len()
        invariant
            i <= l.len(),
            lv == views(l@),
            rv == views(r@),
            views(ret_vec@) == cross(lv.take(i as int), rv),
        decreases l.len() - i,
    {
        let ghost before = views(ret_vec@);
        let mut j: usize = 0;
        assert(rv.take(0) =~= Seq::<Seq<(u32, bool)>>::empty());
        assert(before + cross_row(lv[i as int], rv.take(0)) =~= before);
        while j < r.len()
            invariant
                i < l.len(),
                j <= r.len(),
                lv == views(l@),
                rv == views(r@),
                views(ret_vec@) == before + cross_row(lv[i as int], rv.take(j as int)),
            decreases r.len() - j,
        {
            assert(rv.take(j + 1).drop_last() =~= rv.take(j as int));
            assert(lv[i as int] == l@[i as int]@ && rv[j as int] == r@[j as int]@);
            match val_union(&l[i], &r[j]) {
                None => {},
                Some(v) => {
                    proof {
                        lemma_views_push(ret_vec@, v);
                    }
                    ret_vec.push(v);
                },
            }
            j += 1;
        }
        assert(rv.take(r.len() as int) =~= rv);
        assert(lv.take(i + 1).drop_last() =~= lv.take(i as int));
        i += 1;
    }
    assert(lv.take(l.len() as int) =~= lv);
    ret_vec
}

/// The partial assignments under which `f` holds (under which `f` fails,
/// when `neg_mode` holds), as `sat_valuations` describes them.
pub fn dnf_sat(f: Formula, neg_mode: bool) -> (res: Vec<Valuation>)
    ensures
        views(res@) == sat_valuations(f, neg_mode),
        forall|env: spec_fn(u32) -> bool|
            #[trigger] satisfied_by(env, views(res@)) == (eval(f, env) != neg_mode),
    decreases f,
{
    let res = match f {
        Formula::FVar(v) => {
            let inner: Valuation = vec![(v, !neg_mode)];
            assert(inner@ =~= seq![(v, !neg_mode)]);
            let res: Vec<Valuation> = vec![inner];
            assert(res@.len() == 1 && res@[0] == inner);
            assert(views(res@) =~= seq![seq![(v, !neg_mode)]]);
            res
        },
        Formula::FNeg(f) => dnf_sat(*f, !neg_mode),
        Formula::FDisj(f1, f2) => {
            let l = dnf_sat(*f1, neg_mode);
            let r = dnf_sat(*f2, neg_mode);
            if neg_mode {
                val_set_cross(l, r)
            } else {
                val_set_union(l, r)
            }
        },
        Formula::FConj(f1, f2) => {
            let l = dnf_sat(*f1, neg_mode);
            let r = dnf_sat(*f2, neg_mode);
            if neg_mode {
                val_set_union(l, r)
            } else {
                val_set_cross(l, r)
            }
        },
    };
    proof {
        assert forall|env: spec_fn(u32) -> bool|
            #[trigger] satisfied_by(env, views(res@)) == (eval(f, env) != neg_mode) by {
            law_dnf_sat(env, f, neg_mode);
        }
    }
    res
}

proof fn lemma_lookup_some(l: Seq<(u32, bool)>, k: u32)
    requires
        lookup(l, k) is Some,
    ensures
        exists|i: int| 0 <= i < l.len() && l[i].0 == k && #[trigger] l[i].1 == lookup(l, k)->0,
    decreases l.len(),
{
    if l[0].0 != k {
        lemma_lookup_some(l.drop_first(), k);
        let i = choose|i: int| 0 <= i < l.drop_first().len() && l.drop_first()[i].0 == k
            && #[trigger] l.drop_first()[i].1 == lookup(l.drop_first(), k)->0;
        assert(l[i + 1].1 == lookup(l, k)->0);
    } else {
        assert(l[0].1 == lookup(l, k)->0);
    }
}

/// An assignment that agrees with a valuation gives each variable the
/// value that a lookup finds.
pub proof fn law_lookup_agrees(env: spec_fn(u32) -> bool, l: Seq<(u32, bool)>, k: u32)
    requires
        agrees(env, l),
        lookup(l, k) is Some,
    ensures
        env(k) == lookup(l, k)->0,
{
    lemma_lookup_some(l, k);
    let i = choose|i: int| 0 <= i < l.len() && l[i].0 == k && #[trigger] l[i].1 == lookup(l, k)->0;
    assert(env(l[i].0) == l[i].1);
}

/// What inserting one pair does: a new variable extends the valuation; a
/// variable already present with the other value is a contradiction.
pub proof fn law_insertion(env: spec_fn(u32) -> bool, l: Seq<(u32, bool)>, v: (u32, bool))
    ensures
        lookup(l, v.0) is None ==> agrees(env, l.push(v)) == (agrees(env, l) && env(v.0) == v.1),
        lookup(l, v.0) == Some(!v.1) ==> !(agrees(env, l) && env(v.0) == v.1),
        lookup(l, v.0) == Some(v.1) ==> (agrees(env, l) ==> env(v.0) == v.1),
{
    if lookup(l, v.0) is Some && agrees(env, l) {
        law_lookup_agrees(env, l, v.0);
    }
    if agrees(env, l.push(v)) {
        assert forall|i: int| 0 <= i < l.len() implies env(#[trigger] l[i].0) == l[i].1 by {
            assert(l.push(v)[i] == l[i]);
        }
        assert(l.push(v)[l.len() as int] == v);
    }
}

/// Two valuations that are the same valuation agree with the same assignments.
pub proof fn law_same_valuation_agrees(
    env: spec_fn(u32) -> bool,
    a: Seq<(u32, bool)>,
    b: Seq<(u32, bool)>,
)
    requires
        same_valuation(a, b),
    ensures
        agrees(env, a) == agrees(env, b),
{
    if agrees(env, a) {
        assert forall|j: int| 0 <= j < b.len() implies env(#[trigger] b[j].0) == b[j].1 by {
            law_lookup_agrees(env, a, b[j].0);
        }
    }
    if agrees(env, b) {
        assert forall|i: int| 0 <= i < a.len() implies env(#[trigger] a[i].0) == a[i].1 by {
            law_lookup_agrees(env, b, a[i].0);
        }
    }
}

/// The union of two valuations, when it succeeds, agrees with exactly the
/// assignments that agree with both; when it fails, no assignment agrees
/// with both.
pub proof fn law_union(env: spec_fn(u32) -> bool, acc: Seq<(u32, bool)>, r: Seq<(u32, bool)>)
    ensures
        union_into(acc, r) matches Some(u) ==> agrees(env, u) == (agrees(env, acc) && agrees(
            env,
            r,
        )),
        union_into(acc, r) is None ==> !(agrees(env, acc) && agrees(env, r)),
    decreases r.len(),
{
    if r.len() > 0 {
        let e = r[0];
        let rest = r.drop_first();
        assert(agrees(env, r) == (env(e.0) == e.1 && agrees(env, rest))) by {
            if agrees(env, rest) && env(e.0) == e.1 {
                assert forall|i: int| 0 <= i < r.len() implies env(#[trigger] r[i].0) == r[i].1 by {
                    if i > 0 {
                        assert(r[i] == rest[i - 1]);
                    }
                }
            }
            if agrees(env, r) {
                assert forall|i: int| 0 <= i < rest.len() implies env(#[trigger] rest[i].0)
                    == rest[i].1 by {
                    assert(r[i + 1] == rest[i]);
                }
                assert(env(r[0].0) == r[0].1);
            }
        }
        law_insertion(env, acc, e);
        match lookup(acc, e.0) {
            Some(b) => {
                law_union(env, acc, rest);
            },
            None => {
                law_union(env, acc.push(e), rest);
            },
        }
    }
}

proof fn lemma_satisfied_push(env: spec_fn(u32) -> bool, s: Seq<Seq<(u32, bool)>>, x: Seq<(u32, bool)>)
    ensures
        satisfied_by(env, s.push(x)) == (satisfied_by(env, s) || agrees(env, x)),
{
    if satisfied_by(env, s) {
        let i = choose|i: int| 0 <= i < s.len() && agrees(env, #[trigger] s[i]);
        assert(s.push(x)[i] == s[i]);
    }
    if agrees(env, x) {
        assert(s.push(x)[s.len() as int] == x);
    }
    if satisfied_by(env, s.push(x)) {
        let i = choose|i: int| 0 <= i < s.push(x).len() && agrees(env, #[trigger] s.push(x)[i]);
        if i < s.len() {
            assert(s.push(x)[i] == s[i]);
        }
    }
}

proof fn lemma_satisfied_drop_first(env: spec_fn(u32) -> bool, s: Seq<Seq<(u32, bool)>>)
    requires
        s.len() > 0,
    ensures
        satisfied_by(env, s) == (agrees(env, s[0]) || satisfied_by(env, s.drop_first())),
{
    if satisfied_by(env, s) {
        let i = choose|i: int| 0 <= i < s.len() && agrees(env, #[trigger] s[i]);
        if i > 0 {
            assert(s.drop_first()[i - 1] == s[i]);
        }
    }
    if satisfied_by(env, s.drop_first()) {
        let i = choose|i: int| 0 <= i < s.drop_first().len() && agrees(env, #[trigger] s.drop_first()[i]);
        assert(s[i + 1] == s.drop_first()[i]);
    }
}

proof fn lemma_satisfied_concat(env: spec_fn(u32) -> bool, a: Seq<Seq<(u32, bool)>>, b: Seq<Seq<(u32, bool)>>)
    ensures
        satisfied_by(env, a + b) == (satisfied_by(env, a) || satisfied_by(env, b)),
{
    if satisfied_by(env, a) {
        let i = choose|i: int| 0 <= i < a.len() && agrees(env, #[trigger] a[i]);
        assert((a + b)[i] == a[i]);
    }
    if satisfied_by(env, b) {
        let i = choose|i: int| 0 <= i < b.len() && agrees(env, #[trigger] b[i]);
        assert((a + b)[a.len() + i] == b[i]);
    }
    if satisfied_by(env, a + b) {
        let i = choose|i: int| 0 <= i < (a + b).len() && agrees(env, #[trigger] (a + b)[i]);
        if i < a.len() {
            assert((a + b)[i] == a[i]);
        } else {
            assert((a + b)[i] == b[i - a.len()]);
        }
    }
}

/// The set union of two lists of valuations is satisfied by exactly the
/// assignments that satisfy one of them.
pub proof fn law_set_union(
    env: spec_fn(u32) -> bool,
    acc: Seq<Seq<(u32, bool)>>,
    r: Seq<Seq<(u32, bool)>>,
)
    ensures
        satisfied_by(env, set_union_into(acc, r)) == (satisfied_by(env, acc) || satisfied_by(env, r)),
    decreases r.len(),
{
    if r.len() > 0 {
        let e = r[0];
        lemma_satisfied_drop_first(env, r);
        if exists|j: int| 0 <= j < acc.len() && same_valuation(e, #[trigger] acc[j]) {
            let j = choose|j: int| 0 <= j < acc.len() && same_valuation(e, #[trigger] acc[j]);
            law_same_valuation_agrees(env, e, acc[j]);
            law_set_union(env, acc, r.drop_first());
        } else {
            lemma_satisfied_push(env, acc, e);
            law_set_union(env, acc.push(e), r.drop_first());
        }
    }
}

proof fn lemma_cross_row(env: spec_fn(u32) -> bool, e: Seq<(u32, bool)>, r: Seq<Seq<(u32, bool)>>)
    ensures
        satisfied_by(env, cross_row(e, r)) == (agrees(env, e) && satisfied_by(env, r)),
    decreases r.len(),
{
    if r.len() > 0 {
        let rest = r.drop_last();
        lemma_cross_row(env, e, rest);
        lemma_satisfied_push(env, rest, r.last());
        assert(rest.push(r.last()) =~= r);
        law_union(env, e, r.last());
        match union_into(e, r.last()) {
            Some(u) => {
                lemma_satisfied_push(env, cross_row(e, rest), u);
            },
            None => {},
        }
    }
}

/// The cross product of two lists of valuations is satisfied by exactly
/// the assignments that satisfy both.
pub proof fn law_cross(env: spec_fn(u32) -> bool, l: Seq<Seq<(u32, bool)>>, r: Seq<Seq<(u32, bool)>>)
    ensures
        satisfied_by(env, cross(l, r)) == (satisfied_by(env, l) && satisfied_by(env, r)),
    decreases l.len(),
{
    if l.len() > 0 {
        let rest = l.drop_last();
        law_cross(env, rest, r);
        lemma_cross_row(env, l.last(), r);
        lemma_satisfied_concat(env, cross(rest, r), cross_row(l.last(), r));
        lemma_satisfied_push(env, rest, l.last());
        assert(rest.push(l.last()) =~= l);
    }
}

/// The valuations computed for `f` are satisfied by exactly the
/// assignments under which `f` holds (fails, in `neg_mode`).
pub proof fn law_dnf_sat(env: spec_fn(u32) -> bool, f: Formula, neg_mode: bool)
    ensures
        satisfied_by(env, sat_valuations(f, neg_mode)) == (eval(f, env) != neg_mode),
    decreases f,
{
    match f {
        Formula::FVar(v) => {
            let s = seq![seq![(v, !neg_mode)]];
            if env(v) == !neg_mode {
                assert(agrees(env, s[0]));
            }
            if satisfied_by(env, s) {
                assert(agrees(env, s[0]));
                assert(env(s[0][0].0) == s[0][0].1);
            }
        },
        Formula::FNeg(g) => {
            law_dnf_sat(env, *g, !neg_mode);
        },
        Formula::FDisj(a, b) => {
            law_dnf_sat(env, *a, neg_mode);
            law_dnf_sat(env, *b, neg_mode);
            law_cross(env, sat_valuations(*a, neg_mode), sat_valuations(*b, neg_mode));
            law_set_union(env, sat_valuations(*a, neg_mode), sat_valuations(*b, neg_mode));
        },
        Formula::FConj(a, b) => {
            law_dnf_sat(env, *a, neg_mode);
            law_dnf_sat(env, *b, neg_mode);
            law_cross(env, sat_valuations(*a, neg_mode), sat_valuations(*b, neg_mode));
            law_set_union(env, sat_valuations(*a, neg_mode), sat_valuations(*b, neg_mode));
        },
    }
}

/// `u` lists the valuations of `l`, in order, followed by valuations taken
/// from `r`, none of which is the same valuation as one listed before it;
/// and every valuation of `r` is listed, or is the same valuation as one
/// that is.
pub open spec fn union_listing(
    l: Seq<Seq<(u32, bool)>>,
    r: Seq<Seq<(u32, bool)>>,
    u: Seq<Seq<(u32, bool)>>,
) -> bool {
    &&& u.len() >= l.len()
    &&& u.take(l.len() as int) == l
    &&& forall|j: int| l.len() <= j < u.len() ==> exists|k: int| 0 <= k < r.len() && r[k] == #[trigger] u[j]
    &&& forall|i: int, j: int|
        0 <= i < j < u.len() && l.len() <= j ==> !same_valuation(#[trigger] u[j], #[trigger] u[i])
    &&& forall|k: int|
        0 <= k < r.len() ==> exists|j: int|
            0 <= j < u.len() && (u[j] == #[trigger] r[k] || same_valuation(r[k], #[trigger] u[j]))
}

proof fn lemma_set_union_listing(n: int, acc: Seq<Seq<(u32, bool)>>, r: Seq<Seq<(u32, bool)>>)
    requires
        0 <= n <= acc.len(),
        forall|i: int, j: int|
            0 <= i < j < acc.len() && n <= j ==> !same_valuation(#[trigger] acc[j], #[trigger] acc[i]),
    ensures
        ({
            let u = set_union_into(acc, r);
            &&& u.len() >= acc.len()
            &&& u.take(acc.len() as int) == acc
            &&& forall|j: int|
                acc.len() <= j < u.len() ==> exists|k: int| 0 <= k < r.len() && r[k] == #[trigger] u[j]
            &&& forall|i: int, j: int|
                0 <= i < j < u.len() && n <= j ==> !same_valuation(#[trigger] u[j], #[trigger] u[i])
            &&& forall|k: int|
                0 <= k < r.len() ==> exists|j: int|
                    0 <= j < u.len() && (u[j] == #[trigger] r[k] || same_valuation(r[k], #[trigger] u[j]))
        }),
    decreases r.len(),
{
    let u = set_union_into(acc, r);
    if r.len() == 0 {
        assert(acc.take(acc.len() as int) =~= acc);
    } else {
        let e = r[0];
        let rest = r.drop_first();
        if exists|j: int| 0 <= j < acc.len() && same_valuation(e, #[trigger] acc[j]) {
            let w = choose|j: int| 0 <= j < acc.len() && same_valuation(e, #[trigger] acc[j]);
            lemma_set_union_listing(n, acc, rest);
            assert(u == set_union_into(acc, rest));
            assert forall|j: int| acc.len() <= j < u.len() implies exists|k: int|
                0 <= k < r.len() && r[k] == #[trigger] u[j] by {
                let k = choose|k: int| 0 <= k < rest.len() && rest[k] == #[trigger] u[j];
                assert(r[k + 1] == rest[k]);
            }
            assert forall|k: int| 0 <= k < r.len() implies exists|j: int|
                0 <= j < u.len() && (u[j] == #[trigger] r[k] || same_valuation(r[k], #[trigger] u[j])) by {
                if k == 0 {
                    assert(u.take(acc.len() as int)[w] == u[w]);
                    assert(same_valuation(r[k], u[w]));
                } else {
                    assert(rest[k - 1] == r[k]);
                    let j = choose|j: int|
                        0 <= j < u.len() && (u[j] == #[trigger] rest[k - 1] || same_valuation(
                            rest[k - 1],
                            #[trigger] u[j],
                        ));
                    assert(u[j] == r[k] || same_valuation(r[k], u[j]));
                }
            }
        } else {
            let acc2 = acc.push(e);
            assert forall|i: int, j: int|
                0 <= i < j < acc2.len() && n <= j implies !same_valuation(
                #[trigger] acc2[j],
                #[trigger] acc2[i],
            ) by {
                assert(acc2[i] == acc[i]);
                if j < acc.len() {
                    assert(acc2[j] == acc[j]);
                } else {
                    assert(acc2[j] == e);
                }
            }
            lemma_set_union_listing(n, acc2, rest);
            assert(u == set_union_into(acc2, rest));
            assert(u.take(acc2.len() as int)[acc.len() as int] == u[acc.len() as int]);
            assert(u[acc.len() as int] == e);
            assert(u.take(acc.len() as int) =~= acc) by {
                assert forall|i: int| 0 <= i < acc.len() implies u.take(acc.len() as int)[i] == acc[i] by {
                    assert(u.take(acc2.len() as int)[i] == acc2[i]);
                }
            }
            assert forall|j: int| acc.len() <= j < u.len() implies exists|k: int|
                0 <= k < r.len() && r[k] == #[trigger] u[j] by {
                if j == acc.len() {
                    assert(r[0] == u[j]);
                } else {
                    let k = choose|k: int| 0 <= k < rest.len() && rest[k] == #[trigger] u[j];
                    assert(r[k + 1] == rest[k]);
                }
            }
            assert forall|k: int| 0 <= k < r.len() implies exists|j: int|
                0 <= j < u.len() && (u[j] == #[trigger] r[k] || same_valuation(r[k], #[trigger] u[j])) by {
                if k == 0 {
                    assert(u[acc.len() as int] == r[k]);
                } else {
                    assert(rest[k - 1] == r[k]);
                    let j = choose|j: int|
                        0 <= j < u.len() && (u[j] == #[trigger] rest[k - 1] || same_valuation(
                            rest[k - 1],
                            #[trigger] u[j],
                        ));
                    assert(u[j] == r[k] || same_valuation(r[k], u[j]));
                }
            }
        }
    }
}

/// What a set union of lists of valuations lists: `l` first, then those
/// valuations of `r` that are not the same valuation as one listed before.
pub proof fn law_set_union_listing(l: Seq<Seq<(u32, bool)>>, r: Seq<Seq<(u32, bool)>>)
    ensures
        union_listing(l, r, set_union_into(l, r)),
{
    lemma_set_union_listing(l.len() as int, l, r);
}

/// For a disjunction (outside `neg_mode`) and for a conjunction (in
/// `neg_mode`), `dnf_sat` lists the valuations of the left operand followed
/// only by those of the right operand that are not the same valuation as
/// one already listed: none of them is listed twice.
pub proof fn law_dnf_sat_union(a: Formula, b: Formula)
    ensures
        union_listing(
            sat_valuations(a, false),
            sat_valuations(b, false),
            sat_valuations(Formula::FDisj(Box::new(a), Box::new(b)), false),
        ),
        union_listing(
            sat_valuations(a, true),
            sat_valuations(b, true),
            sat_valuations(Formula::FConj(Box::new(a), Box::new(b)), true),
        ),
{
    law_set_union_listing(sat_valuations(a, false), sat_valuations(b, false));
    law_set_union_listing(sat_valuations(a, true), sat_valuations(b, true));
}

proof fn lemma_lookup_present(l: Seq<(u32, bool)>, i: int)
    requires
        0 <= i < l.len(),
    ensures
        lookup(l, l[i].0) is Some,
    decreases i,
{
    if l[0].0 != l[i].0 {
        assert(l.drop_first()[i - 1] == l[i]);
        lemma_lookup_present(l.drop_first(), i - 1);
    }
}

/// Listing the same variables, and being the same valuation, do not depend
/// on the order of the two valuations; a valuation lists the same variables
/// as itself; and the same valuation lists the same variables.
pub proof fn law_valuation_relations(l: Seq<(u32, bool)>, r: Seq<(u32, bool)>)
    ensures
        same_keys(l, r) == same_keys(r, l),
        same_valuation(l, r) == same_valuation(r, l),
        same_keys(l, l),
        same_valuation(l, r) ==> same_keys(l, r),
{
    assert forall|i: int| 0 <= i < l.len() implies lookup(l, #[trigger] l[i].0) is Some by {
        lemma_lookup_present(l, i);
    }
}

} // verus!
