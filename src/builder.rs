//! The BDD builder: a hash-consed arena of reduced ordered nodes, and the
//! if-then-else algebra over it.
use vstd::prelude::*;
use crate::cnf::{clause_holds, cnf_holds, cnf_vars_below, lit_holds, Cnf, Literal};
use crate::wmc::{
    brute_wmc, count_models, covered, lemma_brute_congruent, lemma_mul_fits,
    lemma_smooth_uncovered, lemma_unit_weights_count, lemma_wmc_correct, memo_ok, wmc_value,
    WmcError, WmcParams, U64_LARGEST_PRIME,
};
use crate::repr::{
    reach, lemma_reach, parent_of,
    assignment_of,
    arena_wf, cofactor, lemma_cofactor, lemma_level_bound, level_inf, min3, eval, extends, in_arena, lemma_extend, lemma_grows, level, node_wf, reduced, BddNode,
    BddPtr, lemma_eval_node, lemma_eval_const, lemma_independent, upd, rank, equiv, lemma_canonical,
    smooth_at, lemma_smooth_level, lemma_extend_smooth, lemma_smooth_canonical,
};

verus! {

/// Assembles the meaning of an `ite` node from the meanings of its two
/// recursive results.
proof fn lemma_ite_step(
    n0: Seq<BddNode>,
    n1: Seq<BddNode>,
    n2: Seq<BddNode>,
    n3: Seq<BddNode>,
    nv: nat,
    f: BddPtr,
    g: BddPtr,
    h: BddPtr,
    v: u64,
    lo: BddPtr,
    hi: BddPtr,
    r: BddPtr,
)
    requires
        arena_wf(n0, nv),
        arena_wf(n1, nv),
        arena_wf(n2, nv),
        extends(n0, n1),
        extends(n1, n2),
        extends(n2, n3),
        in_arena(n0, f),
        in_arena(n0, g),
        in_arena(n0, h),
        (v as int) <= level(n0, f),
        (v as int) <= level(n0, g),
        (v as int) <= level(n0, h),
        in_arena(n1, lo),
        in_arena(n2, hi),
        forall|a: spec_fn(u64) -> bool| #[trigger]
            eval(n1, lo, a) == if eval(n1, cofactor(n0, f, v, false), a) {
                eval(n1, cofactor(n0, g, v, false), a)
            } else {
                eval(n1, cofactor(n0, h, v, false), a)
            },
        forall|a: spec_fn(u64) -> bool| #[trigger]
            eval(n2, hi, a) == if eval(n2, cofactor(n0, f, v, true), a) {
                eval(n2, cofactor(n0, g, v, true), a)
            } else {
                eval(n2, cofactor(n0, h, v, true), a)
            },
        forall|a: spec_fn(u64) -> bool| #[trigger]
            eval(n3, r, a) == if a(v) {
                eval(n3, hi, a)
            } else {
                eval(n3, lo, a)
            },
    ensures
        forall|a: spec_fn(u64) -> bool| #[trigger]
            eval(n3, r, a) == if eval(n3, f, a) {
                eval(n3, g, a)
            } else {
                eval(n3, h, a)
            },
{
    lemma_grows(n0, n1, nv);
    lemma_grows(n1, n2, nv);
    lemma_grows(n2, n3, nv);
    assert forall|a: spec_fn(u64) -> bool| #[trigger]
        eval(n3, r, a) == if eval(n3, f, a) {
            eval(n3, g, a)
        } else {
            eval(n3, h, a)
        } by {
        let c = a(v);
        let fc = cofactor(n0, f, v, c);
        let gc = cofactor(n0, g, v, c);
        let hc = cofactor(n0, h, v, c);
        lemma_cofactor(n0, nv, f, v, c, a);
        lemma_cofactor(n0, nv, g, v, c, a);
        lemma_cofactor(n0, nv, h, v, c, a);
        assert(eval(n3, f, a) == eval(n0, f, a));
        assert(eval(n3, g, a) == eval(n0, g, a));
        assert(eval(n3, h, a) == eval(n0, h, a));
        if c {
            assert(eval(n3, hi, a) == eval(n2, hi, a));
            assert(eval(n2, fc, a) == eval(n1, fc, a));
            assert(eval(n2, gc, a) == eval(n1, gc, a));
            assert(eval(n2, hc, a) == eval(n1, hc, a));
        } else {
            assert(eval(n3, lo, a) == eval(n2, lo, a));
            assert(eval(n2, lo, a) == eval(n1, lo, a));
        }
    }
}

/// Assembles the meaning of a composed node from the meanings of its parts.
proof fn lemma_compose_step(
    n0: Seq<BddNode>,
    n1: Seq<BddNode>,
    n2: Seq<BddNode>,
    n3: Seq<BddNode>,
    n4: Seq<BddNode>,
    nv: nat,
    i: usize,
    v: u64,
    g: BddPtr,
    lo: BddPtr,
    hi: BddPtr,
    lit: BddPtr,
    r: BddPtr,
)
    requires
        arena_wf(n0, nv),
        arena_wf(n1, nv),
        arena_wf(n2, nv),
        arena_wf(n3, nv),
        extends(n0, n1),
        extends(n1, n2),
        extends(n2, n3),
        extends(n3, n4),
        i < n0.len(),
        n0[i as int].var < v,
        in_arena(n0, g),
        in_arena(n1, lo),
        in_arena(n2, hi),
        in_arena(n3, lit),
        forall|a: spec_fn(u64) -> bool| #[trigger]
            eval(n1, lo, a) == eval(n1, n0[i as int].low, upd(a, v, eval(n1, g, a))),
        forall|a: spec_fn(u64) -> bool| #[trigger]
            eval(n2, hi, a) == eval(n2, n0[i as int].high, upd(a, v, eval(n2, g, a))),
        forall|a: spec_fn(u64) -> bool| #[trigger] eval(n3, lit, a) == a(n0[i as int].var),
        forall|a: spec_fn(u64) -> bool| #[trigger]
            eval(n4, r, a) == if eval(n4, lit, a) {
                eval(n4, hi, a)
            } else {
                eval(n4, lo, a)
            },
    ensures
        forall|a: spec_fn(u64) -> bool| #[trigger]
            eval(n4, r, a) == eval(n4, BddPtr::Node(i), upd(a, v, eval(n4, g, a))),
{
    lemma_grows(n0, n1, nv);
    lemma_grows(n1, n2, nv);
    lemma_grows(n2, n3, nv);
    lemma_grows(n3, n4, nv);
    let n = n0[i as int];
    assert(node_wf(n0, i as int));
    assert forall|a: spec_fn(u64) -> bool| #[trigger]
        eval(n4, r, a) == eval(n4, BddPtr::Node(i), upd(a, v, eval(n4, g, a))) by {
        let c = eval(n0, g, a);
        let b = upd(a, v, c);
        lemma_eval_node(n0, nv, i, b);
        assert(eval(n4, BddPtr::Node(i), b) == eval(n0, BddPtr::Node(i), b));
        assert(eval(n4, g, a) == c);
        assert(eval(n4, lit, a) == eval(n3, lit, a));
        if a(n.var) {
            assert(eval(n4, hi, a) == eval(n2, hi, a));
            assert(eval(n2, g, a) == c);
            assert(eval(n2, n.high, b) == eval(n0, n.high, b));
        } else {
            assert(eval(n4, lo, a) == eval(n1, lo, a));
            assert(eval(n1, g, a) == c);
            assert(eval(n1, n.low, b) == eval(n0, n.low, b));
        }
    }
}

/// `mark` with both children of node `k` marked.
spec fn mark_children(nodes: Seq<BddNode>, mark: Seq<bool>, k: int) -> Seq<bool> {
    let m1 = match nodes[k].low {
        BddPtr::Node(c) => mark.update(c as int, true),
        _ => mark,
    };
    match nodes[k].high {
        BddPtr::Node(c) => m1.update(c as int, true),
        _ => m1,
    }
}

/// The state of the node count once the indices `k ..= i` are done: the
/// marks there are exactly the reachable nodes, every mark below is
/// reachable, a done node has its children marked, and `seen` holds the
/// reachable nodes done so far.
#[verifier::opaque]
spec fn count_inv(
    nodes: Seq<BddNode>,
    i: int,
    big_r: Set<int>,
    mark: Seq<bool>,
    k: int,
    seen: Set<int>,
) -> bool {
    &&& mark.len() == i + 1
    &&& 0 <= k <= i + 1
    &&& mark[i]
    &&& forall|x: int| k <= x <= i ==> #[trigger] mark[x] == big_r.contains(x)
    &&& forall|x: int| 0 <= x < k ==> #[trigger] mark[x] ==> big_r.contains(x)
    &&& forall|m: int|
        k <= m <= i && #[trigger] mark[m] ==> (nodes[m].low matches BddPtr::Node(c) ==> mark[c as int])
            && (nodes[m].high matches BddPtr::Node(c) ==> mark[c as int])
    &&& seen.finite()
    &&& forall|x: int| #[trigger] seen.contains(x) <==> (k <= x <= i && big_r.contains(x))
}

proof fn lemma_count_start(nodes: Seq<BddNode>, nv: nat, p: BddPtr, i: usize, mark: Seq<bool>)
    requires
        arena_wf(nodes, nv),
        p == BddPtr::Node(i),
        i < nodes.len(),
        mark.len() == i + 1,
        forall|x: int| 0 <= x <= i ==> #[trigger] mark[x] == (x == i as int),
    ensures
        count_inv(nodes, i as int, reach(nodes, p), mark, i + 1, Set::empty()),
{
    reveal(count_inv);
    assert(node_wf(nodes, i as int));
    assert(reach(nodes, p).contains(i as int));
}

/// The node about to be done is marked exactly when it is reachable, and
/// then so are its children.
proof fn lemma_count_key(
    nodes: Seq<BddNode>,
    nv: nat,
    p: BddPtr,
    i: usize,
    mark: Seq<bool>,
    k: int,
    seen: Set<int>,
)
    requires
        arena_wf(nodes, nv),
        p == BddPtr::Node(i),
        0 <= k <= i,
        i < nodes.len(),
        count_inv(nodes, i as int, reach(nodes, p), mark, k + 1, seen),
    ensures
        mark[k] == reach(nodes, p).contains(k),
        reach(nodes, p).contains(k) ==> (nodes[k].low matches BddPtr::Node(c) ==> reach(
            nodes,
            p,
        ).contains(c as int)) && (nodes[k].high matches BddPtr::Node(c) ==> reach(
            nodes,
            p,
        ).contains(c as int)),
{
    reveal(count_inv);
    lemma_reach(nodes, nv, p);
    let big_r = reach(nodes, p);
    if big_r.contains(k) && k != i as int {
        let m = choose|m: int|
            #![trigger parent_of(nodes, m, k)]
            big_r.contains(m) && m > k && parent_of(nodes, m, k);
        assert(mark[m]);
    }
}

proof fn lemma_count_step(
    nodes: Seq<BddNode>,
    nv: nat,
    p: BddPtr,
    i: usize,
    mark: Seq<bool>,
    k: int,
    seen: Set<int>,
)
    requires
        arena_wf(nodes, nv),
        p == BddPtr::Node(i),
        0 <= k <= i,
        i < nodes.len(),
        count_inv(nodes, i as int, reach(nodes, p), mark, k + 1, seen),
    ensures
        seen.finite(),
        mark[k] ==> !seen.contains(k) && count_inv(
            nodes,
            i as int,
            reach(nodes, p),
            mark_children(nodes, mark, k),
            k,
            seen.insert(k),
        ),
        mark_children(nodes, mark, k).len() == mark.len(),
        !mark[k] ==> count_inv(nodes, i as int, reach(nodes, p), mark, k, seen),
{
    lemma_count_key(nodes, nv, p, i, mark, k, seen);
    reveal(count_inv);
    let big_r = reach(nodes, p);
    assert(node_wf(nodes, k));
    if mark[k] {
        let m2 = mark_children(nodes, mark, k);
        let s2 = seen.insert(k);
        assert forall|x: int| #[trigger] s2.contains(x) <==> (k <= x <= i && big_r.contains(x)) by {}
        assert forall|x: int| k <= x <= i implies #[trigger] m2[x] == big_r.contains(x) by {}
        assert forall|x: int| 0 <= x < k implies #[trigger] m2[x] ==> big_r.contains(x) by {}
        assert forall|m: int|
            k <= m <= i && #[trigger] m2[m] implies (nodes[m].low matches BddPtr::Node(c) ==> m2[c as int])
                && (nodes[m].high matches BddPtr::Node(c) ==> m2[c as int]) by {
            assert(node_wf(nodes, m));
            assert(mark[m]);
        }
    }
}

proof fn lemma_count_end(nodes: Seq<BddNode>, nv: nat, p: BddPtr, i: usize, mark: Seq<bool>, seen: Set<int>)
    requires
        arena_wf(nodes, nv),
        p == BddPtr::Node(i),
        i < nodes.len(),
        count_inv(nodes, i as int, reach(nodes, p), mark, 0, seen),
    ensures
        seen == reach(nodes, p),
{
    reveal(count_inv);
    lemma_reach(nodes, nv, p);
    assert(seen =~= reach(nodes, p));
}

/// Owns the node arena of every diagram it returns.
pub struct RobddBuilder {
    nodes: Vec<BddNode>,
    num_vars: u64,
    num_recursive_calls: u64,
    ite_cache: Vec<IteEntry>,
}

/// A remembered `ite` call: `ite(f, g, h)` gave `r`.
#[derive(Clone, Copy, Debug, PartialEq, Eq, Structural)]
pub struct IteEntry {
    pub f: BddPtr,
    pub g: BddPtr,
    pub h: BddPtr,
    pub r: BddPtr,
}

/// `e.r` is what `ite(e.f, e.g, e.h)` returns in `nodes`.
pub open spec fn entry_ok(nodes: Seq<BddNode>, e: IteEntry) -> bool {
    &&& in_arena(nodes, e.f)
    &&& in_arena(nodes, e.g)
    &&& in_arena(nodes, e.h)
    &&& in_arena(nodes, e.r)
    &&& forall|a: spec_fn(u64) -> bool| #[trigger]
        eval(nodes, e.r, a) == if eval(nodes, e.f, a) {
            eval(nodes, e.g, a)
        } else {
            eval(nodes, e.h, a)
        }
    &&& level(nodes, e.r) >= min3(level(nodes, e.f), level(nodes, e.g), level(nodes, e.h))
    &&& reduced(nodes, e.f) && reduced(nodes, e.g) && reduced(nodes, e.h) ==> reduced(nodes, e.r)
}

proof fn lemma_entry_extend(nodes: Seq<BddNode>, nodes2: Seq<BddNode>, nv: nat, e: IteEntry)
    requires
        arena_wf(nodes, nv),
        extends(nodes, nodes2),
        entry_ok(nodes, e),
    ensures
        entry_ok(nodes2, e),
{
    lemma_grows(nodes, nodes2, nv);
    assert forall|a: spec_fn(u64) -> bool| #[trigger]
        eval(nodes2, e.r, a) == if eval(nodes2, e.f, a) {
            eval(nodes2, e.g, a)
        } else {
            eval(nodes2, e.h, a)
        } by {
        assert(eval(nodes, e.r, a) == if eval(nodes, e.f, a) {
            eval(nodes, e.g, a)
        } else {
            eval(nodes, e.h, a)
        });
    }
}

/// A linear variable order over the labels `0 .. num_vars`.
#[derive(Clone, Copy, Debug, PartialEq, Eq, Structural)]
pub struct VarOrder {
    pub num_vars: u64,
}

impl VarOrder {
    pub fn linear_order(num_vars: u64) -> (r: VarOrder)
        ensures
            r.num_vars == num_vars,
    {
        VarOrder { num_vars }
    }
}

impl RobddBuilder {
    pub closed spec fn arena(&self) -> Seq<BddNode> {
        self.nodes@
    }

    pub closed spec fn nvars(&self) -> nat {
        self.num_vars as nat
    }

    pub closed spec fn calls(&self) -> nat {
        self.num_recursive_calls as nat
    }

    pub closed spec fn cache(&self) -> Seq<IteEntry> {
        self.ite_cache@
    }

    pub open spec fn wf(&self) -> bool {
        &&& arena_wf(self.arena(), self.nvars())
        &&& forall|k: int| 0 <= k < self.cache().len() ==> entry_ok(self.arena(), #[trigger] self.cache()[k])
    }

    pub open spec fn valid(&self, p: BddPtr) -> bool {
        in_arena(self.arena(), p)
    }

    pub open spec fn is_reduced(&self, p: BddPtr) -> bool {
        reduced(self.arena(), p)
    }

    /// What every building operation keeps.
    pub open spec fn keeps(&self, after: &Self) -> bool {
        &&& after.wf()
        &&& extends(self.arena(), after.arena())
        &&& after.nvars() == self.nvars()
    }

    pub fn new(order: VarOrder) -> (r: RobddBuilder)
        ensures
            r.wf(),
            r.arena().len() == 0,
            r.nvars() == order.num_vars,
            r.calls() == 0,
    {
        RobddBuilder {
            nodes: Vec::new(),
            num_vars: order.num_vars,
            num_recursive_calls: 0,
            ite_cache: Vec::new(),
        }
    }

    pub fn num_vars(&self) -> (r: u64)
        ensures
            r == self.nvars(),
    {
        self.num_vars
    }

    /// The number of recursive `ite` invocations so far.
    pub fn num_recursive_calls(&self) -> (r: u64)
        ensures
            r == self.calls(),
    {
        self.num_recursive_calls
    }

    /// The index of a node equal to `target`, if there is one.
    fn find(&self, target: &BddNode) -> (r: Option<usize>)
        ensures
            r matches Some(i) ==> i < self.arena().len() && self.arena()[i as int] == *target,
            r is None ==> forall|j: int| 0 <= j < self.arena().len() ==> self.arena()[j] != *target,
    {
        let mut i: usize = 0;
        while i < self.nodes.len()
            invariant
                i <= self.nodes@.len(),
                forall|j: int| 0 <= j < i ==> self.nodes@[j] != *target,
            decreases self.nodes@.len() - i,
        {
            if self.nodes[i] == *target {
                return Some(i);
            }
            i = i + 1;
        }
        None
    }

    /// The node with this triple, allocated only if no such node exists yet.
    fn get_or_insert(&mut self, var: u64, low: BddPtr, high: BddPtr) -> (r: BddPtr)
        requires
            old(self).wf(),
            old(self).valid(low),
            old(self).valid(high),
            (var as nat) < old(self).nvars(),
            (var as int) < level(old(self).arena(), low),
            (var as int) < level(old(self).arena(), high),
        ensures
            old(self).keeps(final(self)),
            final(self).calls() == old(self).calls(),
            r matches BddPtr::Node(i) && i < final(self).arena().len() && final(self).arena()[i as int]
                == (BddNode { var, low, high }),
    {
        let target = BddNode { var, low, high };
        if let Some(i) = self.find(&target) {
            return BddPtr::Node(i);
        }
        let ghost before = self.nodes@;
        let idx = self.nodes.len();
        self.nodes.push(target);
        proof {
            let after = self.nodes@;
            assert(extends(before, after));
            lemma_extend(before, after, self.nvars(), low, |x: u64| true);
            lemma_extend(before, after, self.nvars(), high, |x: u64| true);
            assert forall|k: int| 0 <= k < after.len() implies #[trigger] node_wf(after, k) by {
                if k < before.len() {
                    assert(node_wf(before, k));
                    lemma_extend(before, after, self.nvars(), before[k].low, |x: u64| true);
                    lemma_extend(before, after, self.nvars(), before[k].high, |x: u64| true);
                }
            }
            assert forall|k: int| 0 <= k < after.len() implies (#[trigger] after[k]).var
                < self.nvars() by {
                if k < before.len() {
                    assert(before[k].var < self.nvars());
                }
            }
            assert forall|k: int| 0 <= k < self.cache().len() implies entry_ok(
                after,
                #[trigger] self.cache()[k],
            ) by {
                let e = old(self).cache()[k];
                assert(entry_ok(before, e));
                lemma_entry_extend(before, after, self.nvars(), e);
            }
        }
        BddPtr::Node(idx)
    }

    /// The reduced node "if `var` then `high` else `low`".
    fn mk(&mut self, var: u64, low: BddPtr, high: BddPtr) -> (r: BddPtr)
        requires
            old(self).wf(),
            old(self).valid(low),
            old(self).valid(high),
            (var as nat) < old(self).nvars(),
            (var as int) < level(old(self).arena(), low),
            (var as int) < level(old(self).arena(), high),
        ensures
            old(self).keeps(final(self)),
            final(self).calls() == old(self).calls(),
            final(self).valid(r),
            forall|a: spec_fn(u64) -> bool| #[trigger]
                eval(final(self).arena(), r, a) == if a(var) {
                    eval(final(self).arena(), high, a)
                } else {
                    eval(final(self).arena(), low, a)
                },
            (var as int) <= level(final(self).arena(), r),
            old(self).is_reduced(low) && old(self).is_reduced(high) ==> final(self).is_reduced(r),
    {
        if low == high {
            proof {
                lemma_grows(old(self).arena(), self.arena(), self.nvars());
            }
            return low;
        }
        let r = self.get_or_insert(var, low, high);
        proof {
            lemma_grows(old(self).arena(), self.arena(), self.nvars());
            let n = self.arena();
            if let BddPtr::Node(i) = r {
                assert(node_wf(n, i as int));
                assert forall|a: spec_fn(u64) -> bool| #[trigger] eval(n, r, a) == if a(var) {
                    eval(n, high, a)
                } else {
                    eval(n, low, a)
                } by {
                    lemma_eval_node(n, self.nvars(), i, a);
                }
                if old(self).is_reduced(low) && old(self).is_reduced(high) {
                    assert(reduced(n, low));
                    assert(reduced(n, high));
                }
            }
        }
        r
    }

    /// The cofactor of `p` with variable `v` set to `c`.
    fn cof(&self, p: BddPtr, v: u64, c: bool) -> (r: BddPtr)
        requires
            self.valid(p),
        ensures
            r == cofactor(self.arena(), p, v, c),
    {
        match p {
            BddPtr::Node(i) => {
                let n = self.nodes[i];
                if n.var == v {
                    if c {
                        n.high
                    } else {
                        n.low
                    }
                } else {
                    p
                }
            },
            _ => p,
        }
    }

    /// The variable tested at the root of `p`, if it is not a constant.
    fn root_var(&self, p: BddPtr) -> (r: Option<u64>)
        requires
            self.valid(p),
        ensures
            r matches Some(v) ==> p is Node && v == level(self.arena(), p),
            r is None ==> !(p is Node),
    {
        match p {
            BddPtr::Node(i) => Some(self.nodes[i].var),
            _ => None,
        }
    }

    /// The first variable of the order tested at the root of `f`, `g` or `h`.
    fn top_of(&self, f: BddPtr, g: BddPtr, h: BddPtr) -> (v: u64)
        requires
            self.wf(),
            self.valid(f),
            self.valid(g),
            self.valid(h),
            f is Node,
        ensures
            v as int == min3(level(self.arena(), f), level(self.arena(), g), level(self.arena(), h)),
            (v as nat) < self.nvars(),
    {
        let vf = self.root_var(f);
        let vg = self.root_var(g);
        let vh = self.root_var(h);
        let mut v: u64 = vf.unwrap();
        if let Some(x) = vg {
            if x < v {
                v = x;
            }
        }
        if let Some(x) = vh {
            if x < v {
                v = x;
            }
        }
        proof {
            let n0 = self.arena();
            let nv = self.nvars();
            lemma_level_bound(n0, nv, f);
            lemma_level_bound(n0, nv, g);
            lemma_level_bound(n0, nv, h);
        }
        v
    }

    /// Both cofactors of `p` on `v`, a variable not after its root.
    fn cofactors(&self, p: BddPtr, v: u64) -> (r: (BddPtr, BddPtr))
        requires
            self.wf(),
            self.valid(p),
            (v as int) <= level(self.arena(), p),
        ensures
            r.0 == cofactor(self.arena(), p, v, false),
            r.1 == cofactor(self.arena(), p, v, true),
            self.valid(r.0),
            self.valid(r.1),
            (v as int) < level(self.arena(), r.0),
            (v as int) < level(self.arena(), r.1),
            self.is_reduced(p) ==> self.is_reduced(r.0) && self.is_reduced(r.1),
    {
        proof {
            lemma_cofactor(self.arena(), self.nvars(), p, v, false, |x: u64| false);
            lemma_cofactor(self.arena(), self.nvars(), p, v, true, |x: u64| true);
        }
        (self.cof(p, v, false), self.cof(p, v, true))
    }

    /// The remembered result of `ite(f, g, h)`, if there is one.
    fn cache_lookup(&self, f: BddPtr, g: BddPtr, h: BddPtr) -> (r: Option<BddPtr>)
        requires
            self.wf(),
        ensures
            r matches Some(x) ==> entry_ok(self.arena(), IteEntry { f, g, h, r: x }),
    {
        let mut k: usize = 0;
        while k < self.ite_cache.len()
            invariant
                self.wf(),
                k <= self.cache().len(),
            decreases self.cache().len() - k,
        {
            let e = self.ite_cache[k];
            if e.f == f && e.g == g && e.h == h {
                proof {
                    assert(entry_ok(self.arena(), self.cache()[k as int]));
                }
                return Some(e.r);
            }
            k = k + 1;
        }
        None
    }

    /// Remembers the result of an `ite` call.
    fn remember(&mut self, e: IteEntry)
        requires
            old(self).wf(),
            entry_ok(old(self).arena(), e),
        ensures
            final(self).wf(),
            final(self).arena() == old(self).arena(),
            final(self).nvars() == old(self).nvars(),
            final(self).calls() == old(self).calls(),
    {
        self.ite_cache.push(e);
        proof {
            assert forall|k: int| 0 <= k < self.cache().len() implies entry_ok(
                self.arena(),
                #[trigger] self.cache()[k],
            ) by {
                if k < old(self).cache().len() {
                    assert(entry_ok(self.arena(), old(self).cache()[k]));
                }
            }
        }
    }

    /// "If `f` then `g` else `h`", as a reduced diagram.
    #[verifier::rlimit(100)]
    pub fn ite(&mut self, f: BddPtr, g: BddPtr, h: BddPtr) -> (r: BddPtr)
        requires
            old(self).wf(),
            old(self).valid(f),
            old(self).valid(g),
            old(self).valid(h),
        ensures
            old(self).keeps(final(self)),
            final(self).valid(r),
            forall|a: spec_fn(u64) -> bool| #[trigger]
                eval(final(self).arena(), r, a) == if eval(final(self).arena(), f, a) {
                    eval(final(self).arena(), g, a)
                } else {
                    eval(final(self).arena(), h, a)
                },
            level(final(self).arena(), r) >= min3(
                level(old(self).arena(), f),
                level(old(self).arena(), g),
                level(old(self).arena(), h),
            ),
            old(self).is_reduced(f) && old(self).is_reduced(g) && old(self).is_reduced(h)
                ==> final(self).is_reduced(r),
        decreases level_inf() - min3(
            level(old(self).arena(), f),
            level(old(self).arena(), g),
            level(old(self).arena(), h),
        ),
    {
        if self.num_recursive_calls < u64::MAX {
            self.num_recursive_calls = self.num_recursive_calls + 1;
        }
        let ghost n0 = self.arena();
        let ghost nv = self.nvars();
        assert(n0 == old(self).arena());
        assert(self.cache() == old(self).cache());
        assert forall|k: int| 0 <= k < self.cache().len() implies entry_ok(
            n0,
            #[trigger] self.cache()[k],
        ) by {
            assert(entry_ok(n0, old(self).cache()[k]));
        }
        proof {
            lemma_eval_const(n0);
        }
        if f == BddPtr::True {
            return g;
        }
        if f == BddPtr::False {
            return h;
        }
        if g == h {
            return g;
        }
        if g == BddPtr::True && h == BddPtr::False {
            return f;
        }
        if let Some(r) = self.cache_lookup(f, g, h) {
            return r;
        }
        let v = self.top_of(f, g, h);
        let (f0, f1) = self.cofactors(f, v);
        let (g0, g1) = self.cofactors(g, v);
        let (h0, h1) = self.cofactors(h, v);
        let lo = self.ite(f0, g0, h0);
        let ghost n1 = self.arena();
        proof {
            lemma_grows(n0, n1, nv);
        }
        let hi = self.ite(f1, g1, h1);
        let ghost n2 = self.arena();
        proof {
            lemma_grows(n1, n2, nv);
        }
        let r = self.mk(v, lo, hi);
        proof {
            let n3 = self.arena();
            lemma_ite_step(n0, n1, n2, n3, nv, f, g, h, v, lo, hi, r);
            lemma_grows(n0, n3, nv);
        }
        self.remember(IteEntry { f, g, h, r });
        r
    }

    pub fn true_ptr(&self) -> (r: BddPtr)
        ensures
            r == BddPtr::True,
    {
        BddPtr::True
    }

    pub fn false_ptr(&self) -> (r: BddPtr)
        ensures
            r == BddPtr::False,
    {
        BddPtr::False
    }

    /// Pointer comparison, which for reduced diagrams is logical equivalence.
    pub fn eq(&self, a: BddPtr, b: BddPtr) -> (r: bool)
        ensures
            r == (a == b),
            self.wf() && self.is_reduced(a) && self.is_reduced(b) ==> (r <==> equiv(
                self.arena(),
                a,
                b,
            )),
    {
        proof {
            if self.wf() && self.is_reduced(a) && self.is_reduced(b) && equiv(self.arena(), a, b) {
                lemma_canonical(self.arena(), self.nvars(), a, b);
            }
        }
        a == b
    }

    /// Conjunction.
    pub fn and(&mut self, a: BddPtr, b: BddPtr) -> (r: BddPtr)
        requires
            old(self).wf(),
            old(self).valid(a),
            old(self).valid(b),
        ensures
            old(self).keeps(final(self)),
            final(self).valid(r),
            forall|x: spec_fn(u64) -> bool| #[trigger]
                eval(final(self).arena(), r, x) == (eval(final(self).arena(), a, x) && eval(
                    final(self).arena(),
                    b,
                    x,
                )),
            old(self).is_reduced(a) && old(self).is_reduced(b) ==> final(self).is_reduced(r),
    {
        let r = self.ite(a, b, BddPtr::False);
        proof {
            lemma_eval_const(self.arena());
        }
        r
    }

    /// Disjunction.
    pub fn or(&mut self, a: BddPtr, b: BddPtr) -> (r: BddPtr)
        requires
            old(self).wf(),
            old(self).valid(a),
            old(self).valid(b),
        ensures
            old(self).keeps(final(self)),
            final(self).valid(r),
            forall|x: spec_fn(u64) -> bool| #[trigger]
                eval(final(self).arena(), r, x) == (eval(final(self).arena(), a, x) || eval(
                    final(self).arena(),
                    b,
                    x,
                )),
            old(self).is_reduced(a) && old(self).is_reduced(b) ==> final(self).is_reduced(r),
    {
        let r = self.ite(a, BddPtr::True, b);
        proof {
            lemma_eval_const(self.arena());
        }
        r
    }

    /// Negation.
    pub fn negate(&mut self, a: BddPtr) -> (r: BddPtr)
        requires
            old(self).wf(),
            old(self).valid(a),
        ensures
            old(self).keeps(final(self)),
            final(self).valid(r),
            forall|x: spec_fn(u64) -> bool| #[trigger]
                eval(final(self).arena(), r, x) == !eval(final(self).arena(), a, x),
            old(self).is_reduced(a) ==> final(self).is_reduced(r),
    {
        let r = self.ite(a, BddPtr::False, BddPtr::True);
        proof {
            lemma_eval_const(self.arena());
        }
        r
    }

    /// The literal of `label` with the given polarity.
    pub fn var(&mut self, label: u64, polarity: bool) -> (r: BddPtr)
        requires
            old(self).wf(),
            (label as nat) < old(self).nvars(),
        ensures
            old(self).keeps(final(self)),
            final(self).valid(r),
            forall|x: spec_fn(u64) -> bool| #[trigger]
                eval(final(self).arena(), r, x) == (x(label) == polarity),
            final(self).is_reduced(r),
    {
        let r = if polarity {
            self.mk(label, BddPtr::False, BddPtr::True)
        } else {
            self.mk(label, BddPtr::True, BddPtr::False)
        };
        proof {
            lemma_eval_const(self.arena());
        }
        r
    }

    /// Extends the order by one variable and returns its label.
    pub fn new_label(&mut self) -> (r: u64)
        requires
            old(self).wf(),
            old(self).nvars() < u64::MAX,
        ensures
            final(self).wf(),
            final(self).arena() == old(self).arena(),
            final(self).nvars() == old(self).nvars() + 1,
            final(self).calls() == old(self).calls(),
            r == old(self).nvars(),
    {
        let r = self.num_vars;
        self.num_vars = self.num_vars + 1;
        assert forall|k: int| 0 <= k < self.cache().len() implies entry_ok(
            self.arena(),
            #[trigger] self.cache()[k],
        ) by {
            assert(entry_ok(self.arena(), old(self).cache()[k]));
        }
        r
    }

    /// A fresh variable and its literal of the given polarity.
    pub fn new_var(&mut self, polarity: bool) -> (r: (u64, BddPtr))
        requires
            old(self).wf(),
            old(self).nvars() < u64::MAX,
        ensures
            final(self).wf(),
            extends(old(self).arena(), final(self).arena()),
            final(self).nvars() == old(self).nvars() + 1,
            r.0 == old(self).nvars(),
            final(self).valid(r.1),
            forall|x: spec_fn(u64) -> bool| #[trigger]
                eval(final(self).arena(), r.1, x) == (x(r.0) == polarity),
            final(self).is_reduced(r.1),
    {
        let label = self.new_label();
        let ptr = self.var(label, polarity);
        (label, ptr)
    }

    /// `f` with the diagram `g` substituted for variable `v`.
    pub fn compose(&mut self, f: BddPtr, v: u64, g: BddPtr) -> (r: BddPtr)
        requires
            old(self).wf(),
            old(self).valid(f),
            old(self).valid(g),
        ensures
            old(self).keeps(final(self)),
            final(self).valid(r),
            forall|a: spec_fn(u64) -> bool| #[trigger]
                eval(final(self).arena(), r, a) == eval(
                    final(self).arena(),
                    f,
                    upd(a, v, eval(final(self).arena(), g, a)),
                ),
            old(self).is_reduced(f) && old(self).is_reduced(g) ==> final(self).is_reduced(r),
        decreases rank(f),
    {
        let ghost n0 = self.arena();
        let ghost nv = self.nvars();
        match f {
            BddPtr::Node(i) => {
                let n = self.nodes[i];
                proof {
                    assert(node_wf(n0, i as int));
                }
                if n.var > v {
                    proof {
                        assert forall|a: spec_fn(u64) -> bool| #[trigger]
                            eval(n0, f, a) == eval(n0, f, upd(a, v, eval(n0, g, a))) by {
                            lemma_independent(n0, nv, f, a, v, eval(n0, g, a));
                        }
                    }
                    return f;
                }
                if n.var == v {
                    let r = self.ite(g, n.high, n.low);
                    proof {
                        let n1 = self.arena();
                        lemma_grows(n0, n1, nv);
                        assert forall|a: spec_fn(u64) -> bool| #[trigger]
                            eval(n1, r, a) == eval(n1, f, upd(a, v, eval(n1, g, a))) by {
                            let c = eval(n0, g, a);
                            lemma_eval_node(n0, nv, i, upd(a, v, c));
                            lemma_independent(n0, nv, n.high, a, v, c);
                            lemma_independent(n0, nv, n.low, a, v, c);
                        }
                    }
                    return r;
                }
                let lo = self.compose(n.low, v, g);
                let ghost n1 = self.arena();
                proof {
                    lemma_grows(n0, n1, nv);
                }
                let hi = self.compose(n.high, v, g);
                let ghost n2 = self.arena();
                proof {
                    lemma_grows(n1, n2, nv);
                    lemma_grows(n0, n2, nv);
                }
                let lit = self.var(n.var, true);
                let ghost n3 = self.arena();
                proof {
                    lemma_grows(n2, n3, nv);
                }
                let r = self.ite(lit, hi, lo);
                proof {
                    lemma_compose_step(n0, n1, n2, n3, self.arena(), nv, i, v, g, lo, hi, lit, r);
                }
                r
            },
            _ => {
                proof {
                    lemma_eval_const(n0);
                }
                f
            },
        }
    }

    /// The disjunction of the literals of `clause`.
    pub fn compile_clause(&mut self, clause: &Vec<Literal>) -> (r: BddPtr)
        requires
            old(self).wf(),
            forall|j: int| 0 <= j < clause@.len() ==> (#[trigger] clause@[j]).label < old(
                self,
            ).nvars(),
        ensures
            old(self).keeps(final(self)),
            final(self).valid(r),
            final(self).is_reduced(r),
            forall|a: spec_fn(u64) -> bool| #[trigger]
                eval(final(self).arena(), r, a) == clause_holds(clause@, a),
    {
        let mut r = BddPtr::False;
        let mut j: usize = 0;
        proof {
            lemma_eval_const(self.arena());
        }
        while j < clause.len()
            invariant
                old(self).keeps(self),
                j <= clause@.len(),
                forall|k: int| 0 <= k < clause@.len() ==> (#[trigger] clause@[k]).label
                    < old(self).nvars(),
                self.valid(r),
                self.is_reduced(r),
                forall|a: spec_fn(u64) -> bool| #[trigger]
                    eval(self.arena(), r, a) == clause_holds(clause@.take(j as int), a),
            decreases clause@.len() - j,
        {
            let ghost n0 = self.arena();
            let l = clause[j];
            let lit = self.var(l.label, l.polarity);
            let ghost n1 = self.arena();
            proof {
                lemma_grows(n0, n1, self.nvars());
            }
            r = self.or(r, lit);
            proof {
                let n2 = self.arena();
                lemma_grows(n1, n2, self.nvars());
                let t = clause@.take(j as int);
                let t2 = clause@.take(j + 1);
                assert forall|a: spec_fn(u64) -> bool| #[trigger]
                    eval(n2, r, a) == clause_holds(t2, a) by {
                    assert(t2[j as int] == l);
                    if clause_holds(t, a) {
                        let w = choose|w: int| 0 <= w < t.len() && lit_holds(#[trigger] t[w], a);
                        assert(t2[w] == t[w]);
                    }
                    if clause_holds(t2, a) {
                        let w = choose|w: int| 0 <= w < t2.len() && lit_holds(#[trigger] t2[w], a);
                        if w < j {
                            assert(t2[w] == t[w]);
                        }
                    }
                }
            }
            j = j + 1;
        }
        assert(clause@.take(j as int) =~= clause@);
        r
    }

    /// The conjunction of the clauses of `cnf`, as a reduced diagram.
    pub fn compile_cnf(&mut self, cnf: &Cnf) -> (r: BddPtr)
        requires
            old(self).wf(),
            cnf_vars_below(cnf.clauses@, old(self).nvars()),
        ensures
            old(self).keeps(final(self)),
            final(self).valid(r),
            final(self).is_reduced(r),
            forall|a: spec_fn(u64) -> bool| #[trigger]
                eval(final(self).arena(), r, a) == cnf_holds(cnf.clauses@, a),
    {
        let mut r = BddPtr::True;
        let mut i: usize = 0;
        proof {
            lemma_eval_const(self.arena());
        }
        while i < cnf.clauses.len()
            invariant
                old(self).keeps(self),
                i <= cnf.clauses@.len(),
                cnf_vars_below(cnf.clauses@, old(self).nvars()),
                self.valid(r),
                self.is_reduced(r),
                forall|a: spec_fn(u64) -> bool| #[trigger]
                    eval(self.arena(), r, a) == cnf_holds(cnf.clauses@.take(i as int), a),
            decreases cnf.clauses@.len() - i,
        {
            let ghost n0 = self.arena();
            let c = self.compile_clause(&cnf.clauses[i]);
            let ghost n1 = self.arena();
            proof {
                lemma_grows(n0, n1, self.nvars());
            }
            r = self.and(r, c);
            proof {
                let n2 = self.arena();
                lemma_grows(n1, n2, self.nvars());
                let t = cnf.clauses@.take(i as int);
                let t2 = cnf.clauses@.take(i + 1);
                assert forall|a: spec_fn(u64) -> bool| #[trigger]
                    eval(n2, r, a) == cnf_holds(t2, a) by {
                    assert(t2[i as int] == cnf.clauses@[i as int]);
                    if cnf_holds(t2, a) {
                        assert forall|k: int| 0 <= k < t.len() implies clause_holds(
                            #[trigger] t[k]@,
                            a,
                        ) by {
                            assert(t2[k] == t[k]);
                        }
                        assert(clause_holds(t2[i as int]@, a));
                    }
                    if cnf_holds(t, a) && clause_holds(cnf.clauses@[i as int]@, a) {
                        assert forall|k: int| 0 <= k < t2.len() implies clause_holds(
                            #[trigger] t2[k]@,
                            a,
                        ) by {
                            if k < i {
                                assert(t2[k] == t[k]);
                            }
                        }
                    }
                }
            }
            i = i + 1;
        }
        assert(cnf.clauses@.take(i as int) =~= cnf.clauses@);
        r
    }

    /// `p` is smooth over every variable of the order.
    pub open spec fn is_smooth(&self, p: BddPtr) -> bool {
        smooth_at(self.arena(), p, 0, self.nvars())
    }

    /// A diagram for `p` on which every path tests the variables `k ..` in
    /// order.
    fn smooth_from(&mut self, p: BddPtr, k: u64) -> (r: BddPtr)
        requires
            old(self).wf(),
            old(self).valid(p),
            k <= old(self).nvars(),
            (k as int) <= level(old(self).arena(), p),
        ensures
            old(self).keeps(final(self)),
            final(self).calls() == old(self).calls(),
            final(self).valid(r),
            smooth_at(final(self).arena(), r, k as nat, final(self).nvars()),
            forall|a: spec_fn(u64) -> bool| #[trigger]
                eval(final(self).arena(), r, a) == eval(final(self).arena(), p, a),
        decreases old(self).nvars() - k,
    {
        let ghost n0 = self.arena();
        let ghost nv = self.nvars();
        proof {
            lemma_level_bound(n0, nv, p);
        }
        if k == self.num_vars {
            return p;
        }
        let root = self.root_var(p);
        if root == Some(k) {
            let i = match p {
                BddPtr::Node(i) => i,
                _ => 0,
            };
            let n = self.nodes[i];
            proof {
                assert(node_wf(n0, i as int));
            }
            let lo = self.smooth_from(n.low, k + 1);
            let ghost n1 = self.arena();
            proof {
                lemma_grows(n0, n1, nv);
            }
            let hi = self.smooth_from(n.high, k + 1);
            let ghost n2 = self.arena();
            proof {
                lemma_grows(n1, n2, nv);
                lemma_grows(n0, n2, nv);
                lemma_extend_smooth(n1, n2, lo, (k + 1) as nat, nv);
                lemma_smooth_level(n2, lo, (k + 1) as nat, nv);
                lemma_smooth_level(n2, hi, (k + 1) as nat, nv);
            }
            let r = self.get_or_insert(k, lo, hi);
            proof {
                let n3 = self.arena();
                lemma_grows(n2, n3, nv);
                lemma_grows(n0, n3, nv);
                lemma_extend_smooth(n2, n3, lo, (k + 1) as nat, nv);
                lemma_extend_smooth(n2, n3, hi, (k + 1) as nat, nv);
                if let BddPtr::Node(j) = r {
                    assert forall|a: spec_fn(u64) -> bool| #[trigger]
                        eval(n3, r, a) == eval(n3, p, a) by {
                        lemma_eval_node(n3, nv, j, a);
                        lemma_eval_node(n0, nv, i, a);
                        assert(eval(n3, hi, a) == eval(n2, hi, a));
                        assert(eval(n2, lo, a) == eval(n1, lo, a));
                    }
                }
            }
            r
        } else {
            let s = self.smooth_from(p, k + 1);
            let ghost n1 = self.arena();
            proof {
                lemma_grows(n0, n1, nv);
                lemma_smooth_level(n1, s, (k + 1) as nat, nv);
            }
            let r = self.get_or_insert(k, s, s);
            proof {
                let n2 = self.arena();
                lemma_grows(n1, n2, nv);
                lemma_grows(n0, n2, nv);
                lemma_extend_smooth(n1, n2, s, (k + 1) as nat, nv);
                if let BddPtr::Node(j) = r {
                    assert forall|a: spec_fn(u64) -> bool| #[trigger]
                        eval(n2, r, a) == eval(n2, p, a) by {
                        lemma_eval_node(n2, nv, j, a);
                    }
                }
            }
            r
        }
    }

    /// A diagram for `p` on which every path tests every variable of the
    /// order. On a diagram that is already smooth it is the identity.
    pub fn smooth(&mut self, p: BddPtr) -> (r: BddPtr)
        requires
            old(self).wf(),
            old(self).valid(p),
        ensures
            old(self).keeps(final(self)),
            final(self).calls() == old(self).calls(),
            final(self).valid(r),
            final(self).is_smooth(r),
            forall|a: spec_fn(u64) -> bool| #[trigger]
                eval(final(self).arena(), r, a) == eval(final(self).arena(), p, a),
            old(self).is_smooth(p) ==> r == p,
    {
        proof {
            lemma_level_bound(self.arena(), self.nvars(), p);
        }
        let r = self.smooth_from(p, 0);
        proof {
            if old(self).is_smooth(p) {
                lemma_extend_smooth(old(self).arena(), self.arena(), p, 0, self.nvars());
                lemma_smooth_canonical(self.arena(), self.nvars(), r, p, 0, self.nvars());
            }
        }
        r
    }

    fn wmc_rec(&self, p: BddPtr, params: &WmcParams, memo: &mut Vec<Option<u64>>) -> (r: Result<
        u64,
        WmcError,
    >)
        requires
            self.wf(),
            self.valid(p),
            params.wf(),
            old(memo)@.len() == self.arena().len(),
            memo_ok(self.arena(), old(memo)@, params.weights_spec(), params.modulus_spec()),
        ensures
            final(memo)@.len() == old(memo)@.len(),
            memo_ok(self.arena(), final(memo)@, params.weights_spec(), params.modulus_spec()),
            r is Ok <==> covered(self.arena(), p, params.weights_spec().len()),
            r matches Ok(v) ==> v == wmc_value(
                self.arena(),
                p,
                params.weights_spec(),
                params.modulus_spec(),
            ) && v < params.modulus_spec(),
        decreases rank(p),
    {
        match p {
            BddPtr::True => Ok(1),
            BddPtr::False => Ok(0),
            BddPtr::Node(i) => {
                if let Some(v) = memo[i] {
                    return Ok(v);
                }
                let n = self.nodes[i];
                proof {
                    assert(node_wf(self.arena(), i as int));
                }
                if n.var >= params.num_weights() as u64 {
                    return Err(WmcError::MissingWeight);
                }
                let lo = match self.wmc_rec(n.low, params, memo) {
                    Ok(v) => v,
                    Err(e) => {
                        return Err(e);
                    },
                };
                let hi = match self.wmc_rec(n.high, params, memo) {
                    Ok(v) => v,
                    Err(e) => {
                        return Err(e);
                    },
                };
                let (wf, wt) = params.weight(n.var as usize);
                let m = params.modulus();
                proof {
                    lemma_mul_fits(wf, lo);
                    lemma_mul_fits(wt, hi);
                }
                let a = (wf as u128 * lo as u128) % (m as u128);
                let b = (wt as u128 * hi as u128) % (m as u128);
                let v = ((a + b) % (m as u128)) as u64;
                memo.set(i, Some(v));
                Ok(v)
            },
        }
    }

    /// The weighted model count of `p`, computed on the diagram as it is.
    /// It counts correctly only where `p` is smooth.
    pub fn unsmoothed_wmc(&self, p: BddPtr, params: &WmcParams) -> (r: Result<u64, WmcError>)
        requires
            self.wf(),
            self.valid(p),
            params.wf(),
        ensures
            r is Ok <==> covered(self.arena(), p, params.weights_spec().len()),
            r matches Ok(v) ==> v == wmc_value(
                self.arena(),
                p,
                params.weights_spec(),
                params.modulus_spec(),
            ),
    {
        let mut memo: Vec<Option<u64>> = Vec::new();
        let mut i: usize = 0;
        while i < self.nodes.len()
            invariant
                i <= self.arena().len(),
                memo@.len() == i,
                forall|j: int| 0 <= j < i ==> #[trigger] memo@[j] is None,
            decreases self.arena().len() - i,
        {
            memo.push(None);
            i = i + 1;
        }
        self.wmc_rec(p, params, &mut memo)
    }

    /// The weighted model count of `p` over every variable of the order:
    /// the sum, over all assignments that satisfy `p`, of the product of
    /// the chosen weights.
    pub fn wmc(&mut self, p: BddPtr, params: &WmcParams) -> (r: Result<u64, WmcError>)
        requires
            old(self).wf(),
            old(self).valid(p),
            params.wf(),
        ensures
            old(self).keeps(final(self)),
            r is Ok <==> old(self).nvars() <= params.weights_spec().len(),
            forall|a: spec_fn(u64) -> bool|
                #![trigger brute_wmc(final(self).arena(), p, params.weights_spec(), params.modulus_spec(), 0, final(self).nvars(), a)]
                r matches Ok(v) ==> v == brute_wmc(
                    final(self).arena(),
                    p,
                    params.weights_spec(),
                    params.modulus_spec(),
                    0,
                    final(self).nvars(),
                    a,
                ),
    {
        let s = self.smooth(p);
        let r = self.unsmoothed_wmc(s, params);
        proof {
            let n = self.arena();
            let nv = self.nvars();
            let w = params.weights_spec();
            let m = params.modulus_spec();
            if nv <= w.len() {
                lemma_wmc_correct(n, nv, s, w, m, 0, |x: u64| true);
            } else {
                lemma_smooth_uncovered(n, s, 0, nv, w.len());
            }
            assert forall|a: spec_fn(u64) -> bool|
                r is Ok implies r->Ok_0 == #[trigger] brute_wmc(n, p, w, m, 0, nv, a) by {
                lemma_wmc_correct(n, nv, s, w, m, 0, a);
                lemma_brute_congruent(n, s, p, w, m, 0, nv, a);
            }
        }
        r
    }

    /// The number of models of `p` over every variable of the order, in the
    /// field of the largest 64-bit prime.
    pub fn model_count(&mut self, p: BddPtr) -> (r: u64)
        requires
            old(self).wf(),
            old(self).valid(p),
        ensures
            old(self).keeps(final(self)),
            forall|a: spec_fn(u64) -> bool| #[trigger]
                count_models(final(self).arena(), p, 0, final(self).nvars(), a) % (
                U64_LARGEST_PRIME as int) == r,
    {
        let params = WmcParams::unit(U64_LARGEST_PRIME, self.num_vars);
        let r = self.wmc(p, &params);
        let v = match r {
            Ok(v) => v,
            Err(_) => 0,
        };
        proof {
            assert forall|a: spec_fn(u64) -> bool| #[trigger]
                count_models(self.arena(), p, 0, self.nvars(), a) % (U64_LARGEST_PRIME as int)
                    == v by {
                lemma_unit_weights_count(
                    self.arena(),
                    p,
                    params.weights_spec(),
                    U64_LARGEST_PRIME as int,
                    0,
                    self.nvars(),
                    a,
                );
            }
        }
        v
    }

    /// The variable tested at the root; `None` for a constant.
    pub fn topvar(&self, p: BddPtr) -> (r: Option<u64>)
        requires
            self.valid(p),
        ensures
            r matches Some(v) ==> p is Node && v == level(self.arena(), p),
            r is None ==> !(p is Node),
    {
        self.root_var(p)
    }

    /// The child taken when the root variable is false.
    pub fn low(&self, p: BddPtr) -> (r: BddPtr)
        requires
            self.valid(p),
            p is Node,
        ensures
            r == self.arena()[p->Node_0 as int].low,
            self.wf() ==> self.valid(r),
    {
        proof {
            if self.wf() {
                assert(node_wf(self.arena(), p->Node_0 as int));
            }
        }
        match p {
            BddPtr::Node(i) => self.nodes[i].low,
            _ => p,
        }
    }

    /// The child taken when the root variable is true.
    pub fn high(&self, p: BddPtr) -> (r: BddPtr)
        requires
            self.valid(p),
            p is Node,
        ensures
            r == self.arena()[p->Node_0 as int].high,
            self.wf() ==> self.valid(r),
    {
        proof {
            if self.wf() {
                assert(node_wf(self.arena(), p->Node_0 as int));
            }
        }
        match p {
            BddPtr::Node(i) => self.nodes[i].high,
            _ => p,
        }
    }

    /// The nodes that `p` may reach, in arena order: every child comes
    /// before its parent, and `p` itself, if it is a node, is the last one.
    pub fn export(&self, p: BddPtr) -> (r: Vec<BddNode>)
        requires
            self.valid(p),
        ensures
            r@ == self.arena().take(rank(p) as int),
    {
        let end: usize = match p {
            BddPtr::Node(i) => {
                let len = self.nodes.len();
                assert(i < len);
                i + 1
            },
            _ => 0,
        };
        let mut out: Vec<BddNode> = Vec::new();
        let mut k: usize = 0;
        while k < end
            invariant
                end == rank(p),
                end <= self.arena().len(),
                k <= end,
                out@ == self.arena().take(k as int),
            decreases end - k,
        {
            out.push(self.nodes[k]);
            k = k + 1;
            assert(out@ =~= self.arena().take(k as int));
        }
        out
    }

    /// The value of `p` when each label `v` is `values[v]`, and false
    /// beyond the end of `values`.
    pub fn eval(&self, p: BddPtr, values: &Vec<bool>) -> (r: bool)
        requires
            self.wf(),
            self.valid(p),
        ensures
            r == eval(self.arena(), p, assignment_of(values@)),
    {
        let mut cur = p;
        while !cur.is_const()
            invariant
                self.wf(),
                self.valid(cur),
                eval(self.arena(), cur, assignment_of(values@)) == eval(
                    self.arena(),
                    p,
                    assignment_of(values@),
                ),
            decreases rank(cur),
        {
            let i = match cur {
                BddPtr::Node(i) => i,
                _ => 0,
            };
            let n = self.nodes[i];
            proof {
                assert(node_wf(self.arena(), i as int));
                lemma_eval_node(self.arena(), self.nvars(), i, assignment_of(values@));
            }
            let value = if n.var < values.len() as u64 {
                values[n.var as usize]
            } else {
                false
            };
            assert(value == assignment_of(values@)(n.var));
            cur = if value {
                n.high
            } else {
                n.low
            };
        }
        proof {
            lemma_eval_const(self.arena());
        }
        cur.is_true()
    }

    /// The number of distinct interior nodes reachable from `p`.
    pub fn count_nodes(&self, p: BddPtr) -> (r: usize)
        requires
            self.wf(),
            self.valid(p),
        ensures
            r == reach(self.arena(), p).len(),
    {
        let ghost nodes = self.arena();
        let ghost nv = self.nvars();
        let i = match p {
            BddPtr::Node(i) => i,
            _ => {
                return 0;
            },
        };
        let len = self.nodes.len();
        let mut mark: Vec<bool> = Vec::new();
        let mut t: usize = 0;
        while t <= i
            invariant
                i < len,
                len == nodes.len(),
                t <= i + 1,
                mark@.len() == t,
                forall|x: int| 0 <= x < t ==> #[trigger] mark@[x] == (x == i),
            decreases i + 1 - t,
        {
            mark.push(t == i);
            t = t + 1;
        }
        let ghost mut seen: Set<int> = Set::empty();
        proof {
            lemma_count_start(nodes, nv, p, i, mark@);
        }
        let mut count: usize = 0;
        let mut k: usize = i + 1;
        while k > 0
            invariant
                self.wf(),
                nodes == self.arena(),
                nv == self.nvars(),
                p == BddPtr::Node(i),
                i < nodes.len(),
                i < len,
                k <= i + 1,
                mark@.len() == i + 1,
                count_inv(nodes, i as int, reach(nodes, p), mark@, k as int, seen),
                count == seen.len(),
                count <= i + 1 - k,
            decreases k,
        {
            k = k - 1;
            let ghost m0 = mark@;
            let ghost s0 = seen;
            proof {
                lemma_count_step(nodes, nv, p, i, m0, k as int, s0);
                assert(node_wf(nodes, k as int));
            }
            if mark[k] {
                proof {
                    seen = seen.insert(k as int);
                }
                assert(count <= i - k);
                count = count + 1;
                let n = self.nodes[k];
                if let BddPtr::Node(c) = n.low {
                    mark.set(c, true);
                }
                if let BddPtr::Node(c) = n.high {
                    mark.set(c, true);
                }
            }
            assert(mark@ =~= if m0[k as int] {
                mark_children(nodes, m0, k as int)
            } else {
                m0
            });
        }
        proof {
            lemma_count_end(nodes, nv, p, i, mark@, seen);
        }
        count
    }
}

} // verus!
