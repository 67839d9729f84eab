//! The contracts this library relies on for rayon's fork-join parallelism.
use vstd::prelude::*;
use rayon::iter::{IntoParallelIterator, ParallelIterator};

verus! {

/// `rayon::join(oper_a, oper_b)` runs both closures, possibly in parallel,
/// and returns the pair of their results (rayon-core's documentation:
/// "Takes two closures and *potentially* runs them in parallel. It returns
/// a pair of the results from those closures").  Both closures are always
/// run; a panic in either is propagated, so both preconditions are asked for.
pub assume_specification<A, B, RA, RB>[ rayon::join::<A, B, RA, RB> ](oper_a: A, oper_b: B) -> (res: (RA, RB))
    where
        A: FnOnce() -> RA + Send,
        B: FnOnce() -> RB + Send,
        RA: Send,
        RB: Send,
    requires
        call_requires(oper_a, ()),
        call_requires(oper_b, ()),
    ensures
        call_ensures(oper_a, (), res.0),
        call_ensures(oper_b, (), res.1),
;

/// Maps `op` over the items of `v` with rayon's parallel iterators
/// (`IntoParallelIterator::into_par_iter` on the vector, then
/// `ParallelIterator::map` and `collect`).  The result has one item per
/// item of `v`, in the same order, each a result of `op` on the
/// corresponding item: the vector is an indexed parallel iterator, and
/// rayon collects indexed iterators in order.
#[verifier::external_body]
pub(crate) fn par_map<T: Send, U: Send, F: Fn(T) -> U + Sync + Send>(v: Vec<T>, op: F) -> (r: Vec<U>)
    requires
        forall|i: int| 0 <= i < v@.len() ==> call_requires(op, (#[trigger] v@[i],)),
    ensures
        r@.len() == v@.len(),
        forall|i: int| 0 <= i < v@.len() ==> call_ensures(op, (#[trigger] v@[i],), r@[i]),
{
    v.into_par_iter().map(op).collect()
}

} // verus!
