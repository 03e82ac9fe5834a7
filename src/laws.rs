//! Laws relating the builder's operations, stated over the meanings that
//! their contracts give.
use vstd::prelude::*;
use crate::cnf::cnf_holds;
use crate::cnf::Literal;
use crate::repr::{arena_wf, eval, lemma_canonical, lemma_eval_const, reduced, BddNode, BddPtr};

verus! {

/// Compiling two formulas that hold under the same assignments gives the
/// same pointer.
pub proof fn lemma_compile_canonical(
    nodes: Seq<BddNode>,
    nv: nat,
    c1: Seq<Vec<Literal>>,
    c2: Seq<Vec<Literal>>,
    r1: BddPtr,
    r2: BddPtr,
)
    requires
        arena_wf(nodes, nv),
        reduced(nodes, r1),
        reduced(nodes, r2),
        forall|a: spec_fn(u64) -> bool| #[trigger] eval(nodes, r1, a) == cnf_holds(c1, a),
        forall|a: spec_fn(u64) -> bool| #[trigger] eval(nodes, r2, a) == cnf_holds(c2, a),
        forall|a: spec_fn(u64) -> bool| #[trigger] cnf_holds(c1, a) == cnf_holds(c2, a),
    ensures
        r1 == r2,
{
    assert forall|a: spec_fn(u64) -> bool| #[trigger] eval(nodes, r1, a) == eval(nodes, r2, a) by {
        assert(cnf_holds(c1, a) == cnf_holds(c2, a));
    }
    lemma_canonical(nodes, nv, r1, r2);
}

/// `and(a, b)` is the pointer that `ite(a, b, False)` gives.
pub proof fn lemma_and_is_ite(
    nodes: Seq<BddNode>,
    nv: nat,
    a: BddPtr,
    b: BddPtr,
    r_and: BddPtr,
    r_ite: BddPtr,
)
    requires
        arena_wf(nodes, nv),
        reduced(nodes, r_and),
        reduced(nodes, r_ite),
        forall|x: spec_fn(u64) -> bool| #[trigger]
            eval(nodes, r_and, x) == (eval(nodes, a, x) && eval(nodes, b, x)),
        forall|x: spec_fn(u64) -> bool| #[trigger]
            eval(nodes, r_ite, x) == if eval(nodes, a, x) {
                eval(nodes, b, x)
            } else {
                eval(nodes, BddPtr::False, x)
            },
    ensures
        r_and == r_ite,
{
    lemma_eval_const(nodes);
    assert forall|x: spec_fn(u64) -> bool| #[trigger]
        eval(nodes, r_and, x) == eval(nodes, r_ite, x) by {}
    lemma_canonical(nodes, nv, r_and, r_ite);
}

/// `or(a, b)` is the pointer that `ite(a, True, b)` gives.
pub proof fn lemma_or_is_ite(
    nodes: Seq<BddNode>,
    nv: nat,
    a: BddPtr,
    b: BddPtr,
    r_or: BddPtr,
    r_ite: BddPtr,
)
    requires
        arena_wf(nodes, nv),
        reduced(nodes, r_or),
        reduced(nodes, r_ite),
        forall|x: spec_fn(u64) -> bool| #[trigger]
            eval(nodes, r_or, x) == (eval(nodes, a, x) || eval(nodes, b, x)),
        forall|x: spec_fn(u64) -> bool| #[trigger]
            eval(nodes, r_ite, x) == if eval(nodes, a, x) {
                eval(nodes, BddPtr::True, x)
            } else {
                eval(nodes, b, x)
            },
    ensures
        r_or == r_ite,
{
    lemma_eval_const(nodes);
    assert forall|x: spec_fn(u64) -> bool| #[trigger]
        eval(nodes, r_or, x) == eval(nodes, r_ite, x) by {}
    lemma_canonical(nodes, nv, r_or, r_ite);
}

/// `negate(a)` is the pointer that `ite(a, False, True)` gives.
pub proof fn lemma_negate_is_ite(
    nodes: Seq<BddNode>,
    nv: nat,
    a: BddPtr,
    r_neg: BddPtr,
    r_ite: BddPtr,
)
    requires
        arena_wf(nodes, nv),
        reduced(nodes, r_neg),
        reduced(nodes, r_ite),
        forall|x: spec_fn(u64) -> bool| #[trigger] eval(nodes, r_neg, x) == !eval(nodes, a, x),
        forall|x: spec_fn(u64) -> bool| #[trigger]
            eval(nodes, r_ite, x) == if eval(nodes, a, x) {
                eval(nodes, BddPtr::False, x)
            } else {
                eval(nodes, BddPtr::True, x)
            },
    ensures
        r_neg == r_ite,
{
    lemma_eval_const(nodes);
    assert forall|x: spec_fn(u64) -> bool| #[trigger]
        eval(nodes, r_neg, x) == eval(nodes, r_ite, x) by {}
    lemma_canonical(nodes, nv, r_neg, r_ite);
}

/// Negating a reduced diagram twice gives back the same pointer.
pub proof fn lemma_double_negation(
    nodes: Seq<BddNode>,
    nv: nat,
    a: BddPtr,
    na: BddPtr,
    nna: BddPtr,
)
    requires
        arena_wf(nodes, nv),
        reduced(nodes, a),
        reduced(nodes, nna),
        forall|x: spec_fn(u64) -> bool| #[trigger] eval(nodes, na, x) == !eval(nodes, a, x),
        forall|x: spec_fn(u64) -> bool| #[trigger] eval(nodes, nna, x) == !eval(nodes, na, x),
    ensures
        nna == a,
{
    assert forall|x: spec_fn(u64) -> bool| #[trigger] eval(nodes, nna, x) == eval(nodes, a, x) by {
        assert(eval(nodes, na, x) == !eval(nodes, a, x));
    }
    lemma_canonical(nodes, nv, nna, a);
}

} // verus!
