//! Weighted model counting over a prime field, and its meaning as a sum
//! over assignments.
use vstd::prelude::*;
use vstd::arithmetic::div_mod::{lemma_add_mod_noop, lemma_mod_twice, lemma_small_mod};
use crate::repr::{
    arena_wf, eval, lemma_eval_const, lemma_eval_node, node_wf, rank, smooth_at, upd,
    BddNode, BddPtr,
};

verus! {

/// The largest prime below 2^64, the default modulus for exact counting.
pub const U64_LARGEST_PRIME: u64 = 18446744073709551557;

/// Per-variable weights `(weight if false, weight if true)`, indexed by
/// label, all reduced modulo `modulus`.
pub struct WmcParams {
    modulus: u64,
    weights: Vec<(u64, u64)>,
}

#[derive(Clone, Copy, Debug, PartialEq, Eq, Structural)]
pub enum WmcError {
    /// The diagram tests a variable that has no weight pair.
    MissingWeight,
}

impl WmcParams {
    pub closed spec fn modulus_spec(&self) -> int {
        self.modulus as int
    }

    pub closed spec fn weights_spec(&self) -> Seq<(u64, u64)> {
        self.weights@
    }

    pub open spec fn wf(&self) -> bool {
        &&& self.modulus_spec() > 1
        &&& forall|v: int|
            0 <= v < self.weights_spec().len() ==> (#[trigger] self.weights_spec()[v]).0
                < self.modulus_spec() && self.weights_spec()[v].1 < self.modulus_spec()
    }

    /// Weights for the labels `0 .. weights.len()`, each reduced modulo
    /// `modulus`.
    pub fn new(modulus: u64, weights: Vec<(u64, u64)>) -> (r: WmcParams)
        requires
            modulus > 1,
        ensures
            r.wf(),
            r.modulus_spec() == modulus,
            r.weights_spec().len() == weights@.len(),
            forall|v: int|
                0 <= v < weights@.len() ==> (#[trigger] r.weights_spec()[v]).0 == weights@[v].0
                    % modulus && r.weights_spec()[v].1 == weights@[v].1 % modulus,
    {
        let mut w: Vec<(u64, u64)> = Vec::new();
        let mut i: usize = 0;
        while i < weights.len()
            invariant
                i <= weights@.len(),
                w@.len() == i,
                modulus > 1,
                forall|v: int|
                    0 <= v < i ==> (#[trigger] w@[v]).0 == weights@[v].0 % modulus
                        && w@[v].1 == weights@[v].1 % modulus,
            decreases weights@.len() - i,
        {
            let (f, t) = weights[i];
            w.push((f % modulus, t % modulus));
            i = i + 1;
        }
        WmcParams { modulus, weights: w }
    }

    /// Unit weights for the labels `0 .. num_vars`: weighted counting is
    /// then plain model counting.
    pub fn unit(modulus: u64, num_vars: u64) -> (r: WmcParams)
        requires
            modulus > 1,
        ensures
            r.wf(),
            r.modulus_spec() == modulus,
            r.weights_spec().len() == num_vars,
            forall|v: int| 0 <= v < num_vars ==> #[trigger] r.weights_spec()[v] == (1u64, 1u64),
    {
        let mut w: Vec<(u64, u64)> = Vec::new();
        let mut i: u64 = 0;
        while i < num_vars
            invariant
                i <= num_vars,
                w@.len() == i,
                forall|v: int| 0 <= v < i ==> #[trigger] w@[v] == (1u64, 1u64),
            decreases num_vars - i,
        {
            w.push((1, 1));
            i = i + 1;
        }
        WmcParams { modulus, weights: w }
    }

    pub fn modulus(&self) -> (r: u64)
        ensures
            r == self.modulus_spec(),
    {
        self.modulus
    }

    pub fn num_weights(&self) -> (r: usize)
        ensures
            r == self.weights_spec().len(),
    {
        self.weights.len()
    }

    pub fn weight(&self, v: usize) -> (r: (u64, u64))
        requires
            v < self.weights_spec().len(),
        ensures
            r == self.weights_spec()[v as int],
    {
        self.weights[v]
    }
}

/// Every variable tested below `p` has a weight pair.
pub open spec fn covered(nodes: Seq<BddNode>, p: BddPtr, nw: nat) -> bool
    decreases rank(p),
{
    match p {
        BddPtr::Node(i) => if i < nodes.len() && rank(nodes[i as int].low) < rank(p) && rank(
            nodes[i as int].high,
        ) < rank(p) {
            nodes[i as int].var < nw && covered(nodes, nodes[i as int].low, nw) && covered(
                nodes,
                nodes[i as int].high,
                nw,
            )
        } else {
            false
        },
        _ => true,
    }
}

/// The weighted count of `p`, computed on the diagram: each node combines
/// its children with the weights of its variable.
pub open spec fn wmc_value(nodes: Seq<BddNode>, p: BddPtr, w: Seq<(u64, u64)>, m: int) -> int
    decreases rank(p),
{
    match p {
        BddPtr::True => 1,
        BddPtr::False => 0,
        BddPtr::Node(i) => if i < nodes.len() && rank(nodes[i as int].low) < rank(p) && rank(
            nodes[i as int].high,
        ) < rank(p) && nodes[i as int].var < w.len() {
            let n = nodes[i as int];
            ((w[n.var as int].0 * wmc_value(nodes, n.low, w, m)) % m + (w[n.var as int].1
                * wmc_value(nodes, n.high, w, m)) % m) % m
        } else {
            0
        },
    }
}

/// The weighted sum, over every assignment of the variables `k .. n` (the
/// others as in `a`), of the weights of the chosen values when `p` holds.
pub open spec fn brute_wmc(
    nodes: Seq<BddNode>,
    p: BddPtr,
    w: Seq<(u64, u64)>,
    m: int,
    k: nat,
    n: nat,
    a: spec_fn(u64) -> bool,
) -> int
    decreases n - k,
{
    if k >= n {
        if eval(nodes, p, a) {
            1
        } else {
            0
        }
    } else {
        ((w[k as int].0 * brute_wmc(nodes, p, w, m, k + 1, n, upd(a, k as u64, false))) % m + (
        w[k as int].1 * brute_wmc(nodes, p, w, m, k + 1, n, upd(a, k as u64, true))) % m) % m
    }
}

/// The number of assignments of the variables `k .. n` (the others as in
/// `a`) that satisfy `p`.
pub open spec fn count_models(
    nodes: Seq<BddNode>,
    p: BddPtr,
    k: nat,
    n: nat,
    a: spec_fn(u64) -> bool,
) -> int
    decreases n - k,
{
    if k >= n {
        if eval(nodes, p, a) {
            1
        } else {
            0
        }
    } else {
        count_models(nodes, p, k + 1, n, upd(a, k as u64, false)) + count_models(
            nodes,
            p,
            k + 1,
            n,
            upd(a, k as u64, true),
        )
    }
}

/// `a` and `b` agree on every variable before `k`.
pub open spec fn agree_below(a: spec_fn(u64) -> bool, b: spec_fn(u64) -> bool, k: nat) -> bool {
    forall|x: u64| (x as nat) < k ==> #[trigger] a(x) == b(x)
}

/// The brute-force sum depends only on the values of `p` on the
/// assignments it ranges over.
pub proof fn lemma_brute_congruent(
    nodes: Seq<BddNode>,
    p: BddPtr,
    q: BddPtr,
    w: Seq<(u64, u64)>,
    m: int,
    k: nat,
    n: nat,
    b: spec_fn(u64) -> bool,
)
    requires
        n <= u64::MAX,
        forall|a: spec_fn(u64) -> bool|
            agree_below(a, b, k) ==> #[trigger] eval(nodes, p, a) == eval(nodes, q, a),
    ensures
        brute_wmc(nodes, p, w, m, k, n, b) == brute_wmc(nodes, q, w, m, k, n, b),
        count_models(nodes, p, k, n, b) == count_models(nodes, q, k, n, b),
    decreases n - k,
{
    if k >= n {
        assert(agree_below(b, b, k));
    } else {
        let kk = k as u64;
        assert forall|a: spec_fn(u64) -> bool|
            agree_below(a, upd(b, kk, false), k + 1) implies #[trigger] eval(nodes, p, a) == eval(
            nodes,
            q,
            a,
        ) by {
            assert forall|x: u64| (x as nat) < k implies #[trigger] a(x) == b(x) by {
                assert(a(x) == upd(b, kk, false)(x));
            }
        }
        assert forall|a: spec_fn(u64) -> bool|
            agree_below(a, upd(b, kk, true), k + 1) implies #[trigger] eval(nodes, p, a) == eval(
            nodes,
            q,
            a,
        ) by {
            assert forall|x: u64| (x as nat) < k implies #[trigger] a(x) == b(x) by {
                assert(a(x) == upd(b, kk, true)(x));
            }
        }
        lemma_brute_congruent(nodes, p, q, w, m, k + 1, n, upd(b, kk, false));
        lemma_brute_congruent(nodes, p, q, w, m, k + 1, n, upd(b, kk, true));
    }
}

/// Weighted model counting is correct on smooth diagrams: computed on the
/// diagram it equals the brute-force weighted sum over all assignments.
pub proof fn lemma_wmc_correct(
    nodes: Seq<BddNode>,
    nv: nat,
    p: BddPtr,
    w: Seq<(u64, u64)>,
    m: int,
    k: nat,
    a: spec_fn(u64) -> bool,
)
    requires
        arena_wf(nodes, nv),
        nv <= u64::MAX,
        smooth_at(nodes, p, k, nv),
        w.len() >= nv,
        m > 0,
    ensures
        covered(nodes, p, w.len()),
        wmc_value(nodes, p, w, m) == brute_wmc(nodes, p, w, m, k, nv, a),
    decreases nv - k,
{
    lemma_eval_const(nodes);
    if k < nv {
        if let BddPtr::Node(i) = p {
            assert(node_wf(nodes, i as int));
            let n = nodes[i as int];
            let kk = k as u64;
            lemma_wmc_correct(nodes, nv, n.low, w, m, k + 1, upd(a, kk, false));
            lemma_wmc_correct(nodes, nv, n.high, w, m, k + 1, upd(a, kk, true));
            assert forall|b: spec_fn(u64) -> bool|
                agree_below(b, upd(a, kk, false), k + 1) implies #[trigger] eval(nodes, p, b)
                == eval(nodes, n.low, b) by {
                assert(b(kk) == upd(a, kk, false)(kk));
                lemma_eval_node(nodes, nv, i, b);
            }
            assert forall|b: spec_fn(u64) -> bool|
                agree_below(b, upd(a, kk, true), k + 1) implies #[trigger] eval(nodes, p, b)
                == eval(nodes, n.high, b) by {
                assert(b(kk) == upd(a, kk, true)(kk));
                lemma_eval_node(nodes, nv, i, b);
            }
            lemma_brute_congruent(nodes, p, n.low, w, m, k + 1, nv, upd(a, kk, false));
            lemma_brute_congruent(nodes, p, n.high, w, m, k + 1, nv, upd(a, kk, true));
        }
    }
}

/// With unit weights the weighted sum is the number of models.
pub proof fn lemma_unit_weights_count(
    nodes: Seq<BddNode>,
    p: BddPtr,
    w: Seq<(u64, u64)>,
    m: int,
    k: nat,
    n: nat,
    a: spec_fn(u64) -> bool,
)
    requires
        m > 1,
        n <= w.len(),
        forall|v: int| 0 <= v < n ==> #[trigger] w[v] == (1u64, 1u64),
    ensures
        brute_wmc(nodes, p, w, m, k, n, a) == count_models(nodes, p, k, n, a) % m,
    decreases n - k,
{
    if k < n {
        let kk = k as u64;
        let a0 = upd(a, kk, false);
        let a1 = upd(a, kk, true);
        lemma_unit_weights_count(nodes, p, w, m, k + 1, n, a0);
        lemma_unit_weights_count(nodes, p, w, m, k + 1, n, a1);
        assert(w[k as int] == (1u64, 1u64));
        let c0 = count_models(nodes, p, k + 1, n, a0);
        let c1 = count_models(nodes, p, k + 1, n, a1);
        lemma_mod_twice(c0, m);
        lemma_mod_twice(c1, m);
        lemma_add_mod_noop(c0, c1, m);
        assert(1 * (c0 % m) == c0 % m);
        assert(1 * (c1 % m) == c1 % m);
    } else {
        lemma_small_mod(1, m as nat);
        lemma_small_mod(0, m as nat);
    }
}

/// A diagram smooth over variables that lack weights is not covered.
pub proof fn lemma_smooth_uncovered(
    nodes: Seq<BddNode>,
    p: BddPtr,
    k: nat,
    n: nat,
    nw: nat,
)
    requires
        smooth_at(nodes, p, k, n),
        arena_wf(nodes, n),
        k < n,
        nw < n,
    ensures
        !covered(nodes, p, nw),
    decreases n - k,
{
    if let BddPtr::Node(i) = p {
        assert(node_wf(nodes, i as int));
        if k < nw {
            lemma_smooth_uncovered(nodes, nodes[i as int].low, k + 1, n, nw);
        }
    }
}

/// What memoized evaluation keeps: each stored value is the node's count.
pub open spec fn memo_ok(nodes: Seq<BddNode>, memo: Seq<Option<u64>>, w: Seq<(u64, u64)>, m: int) -> bool {
    forall|j: int|
        0 <= j < memo.len() && #[trigger] memo[j] is Some ==> covered(
            nodes,
            BddPtr::Node(j as usize),
            w.len(),
        ) && memo[j]->Some_0 == wmc_value(nodes, BddPtr::Node(j as usize), w, m) && memo[j]->Some_0
            < m
}

pub proof fn lemma_mul_fits(x: u64, y: u64)
    ensures
        (x as int) * (y as int) <= 0xffff_ffff_ffff_ffff * 0xffff_ffff_ffff_ffff,
{
    assert((x as int) * (y as int) <= 0xffff_ffff_ffff_ffff * 0xffff_ffff_ffff_ffff)
        by (nonlinear_arith)
        requires
            x <= 0xffff_ffff_ffff_ffff,
            y <= 0xffff_ffff_ffff_ffff,
    ;
}

} // verus!
