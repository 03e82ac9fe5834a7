//! Arena representation of reduced ordered decision diagrams and their
//! meaning as boolean functions.
use vstd::prelude::*;

verus! {

/// A reference into a builder's arena: a constant, or the index of an
/// interior node.
#[derive(Clone, Copy, Debug, PartialEq, Eq, Structural)]
pub enum BddPtr {
    False,
    True,
    Node(usize),
}

/// An interior node: "if `var` then `high` else `low`".
#[derive(Clone, Copy, Debug, PartialEq, Eq, Structural)]
pub struct BddNode {
    pub var: u64,
    pub low: BddPtr,
    pub high: BddPtr,
}

impl BddPtr {
    pub fn is_true(&self) -> (r: bool)
        ensures
            r == (*self is True),
    {
        matches!(*self, BddPtr::True)
    }

    pub fn is_false(&self) -> (r: bool)
        ensures
            r == (*self is False),
    {
        matches!(*self, BddPtr::False)
    }

    pub fn is_const(&self) -> (r: bool)
        ensures
            r == !(*self is Node),
    {
        !matches!(*self, BddPtr::Node(_))
    }
}

/// The level given to constants: below every variable.
pub open spec fn level_inf() -> int {
    0x1_0000_0000_0000_0000
}

/// Children always have a smaller rank than their parent.
pub open spec fn rank(p: BddPtr) -> nat {
    match p {
        BddPtr::Node(i) => i as nat + 1,
        _ => 0,
    }
}

pub open spec fn in_arena(nodes: Seq<BddNode>, p: BddPtr) -> bool {
    match p {
        BddPtr::Node(i) => i < nodes.len(),
        _ => true,
    }
}

/// The variable tested at the root, or `level_inf()` for a constant.
pub open spec fn level(nodes: Seq<BddNode>, p: BddPtr) -> int {
    match p {
        BddPtr::Node(i) => if i < nodes.len() {
            nodes[i as int].var as int
        } else {
            level_inf()
        },
        _ => level_inf(),
    }
}

/// Node `i` points only to earlier nodes, and tests its variable before
/// any variable tested by its children.
pub open spec fn node_wf(nodes: Seq<BddNode>, i: int) -> bool {
    let n = nodes[i];
    &&& rank(n.low) <= i
    &&& rank(n.high) <= i
    &&& (n.var as int) < level(nodes, n.low)
    &&& (n.var as int) < level(nodes, n.high)
}

/// The arena invariant: ordered nodes over `num_vars` variables, and no two
/// nodes with the same (variable, low, high) triple.
pub open spec fn arena_wf(nodes: Seq<BddNode>, num_vars: nat) -> bool {
    &&& forall|i: int| 0 <= i < nodes.len() ==> #[trigger] node_wf(nodes, i)
    &&& forall|i: int| 0 <= i < nodes.len() ==> (#[trigger] nodes[i]).var < num_vars
    &&& forall|i: int, j: int|
        0 <= i < nodes.len() && 0 <= j < nodes.len() && i != j ==> #[trigger] nodes[i]
            != #[trigger] nodes[j]
}

/// `a` with variable `v` set to `c`.
pub open spec fn upd(a: spec_fn(u64) -> bool, v: u64, c: bool) -> spec_fn(u64) -> bool {
    |x: u64| if x == v { c } else { a(x) }
}

/// The assignment that gives label `v` the value `values[v]`, and false
/// to labels past its end.
pub open spec fn assignment_of(values: Seq<bool>) -> spec_fn(u64) -> bool {
    |x: u64| (x as int) < values.len() && values[x as int]
}

/// The value of the function denoted by `p` under assignment `a`.
#[verifier::opaque]
pub open spec fn eval(nodes: Seq<BddNode>, p: BddPtr, a: spec_fn(u64) -> bool) -> bool
    decreases rank(p),
{
    match p {
        BddPtr::True => true,
        BddPtr::False => false,
        BddPtr::Node(i) => if i < nodes.len() {
            let n = nodes[i as int];
            if a(n.var) {
                if rank(n.high) < rank(p) {
                    eval(nodes, n.high, a)
                } else {
                    false
                }
            } else {
                if rank(n.low) < rank(p) {
                    eval(nodes, n.low, a)
                } else {
                    false
                }
            }
        } else {
            false
        },
    }
}

/// `p` and `q` denote the same boolean function.
pub open spec fn equiv(nodes: Seq<BddNode>, p: BddPtr, q: BddPtr) -> bool {
    forall|a: spec_fn(u64) -> bool| #[trigger] eval(nodes, p, a) == eval(nodes, q, a)
}

/// No node reachable from `p` has equal children.
pub open spec fn reduced(nodes: Seq<BddNode>, p: BddPtr) -> bool
    decreases rank(p),
{
    match p {
        BddPtr::Node(i) => if i < nodes.len() {
            let n = nodes[i as int];
            if rank(n.low) < rank(p) && rank(n.high) < rank(p) {
                n.low != n.high && reduced(nodes, n.low) && reduced(nodes, n.high)
            } else {
                false
            }
        } else {
            false
        },
        _ => true,
    }
}

/// Every path from `p` tests each of the variables `k .. n` in turn.
pub open spec fn smooth_at(nodes: Seq<BddNode>, p: BddPtr, k: nat, n: nat) -> bool
    decreases n - k,
{
    if k >= n {
        p is True || p is False
    } else {
        match p {
            BddPtr::Node(i) => i < nodes.len() && nodes[i as int].var == k && smooth_at(
                nodes,
                nodes[i as int].low,
                k + 1,
                n,
            ) && smooth_at(nodes, nodes[i as int].high, k + 1, n),
            _ => false,
        }
    }
}

/// `nodes2` extends `nodes`.
pub open spec fn extends(nodes: Seq<BddNode>, nodes2: Seq<BddNode>) -> bool {
    nodes.len() <= nodes2.len() && forall|i: int| 0 <= i < nodes.len() ==> nodes2[i] == nodes[i]
}

/// Growing the arena changes nothing about pointers already in it.
pub proof fn lemma_extend(
    nodes: Seq<BddNode>,
    nodes2: Seq<BddNode>,
    nv: nat,
    p: BddPtr,
    a: spec_fn(u64) -> bool,
)
    requires
        arena_wf(nodes, nv),
        extends(nodes, nodes2),
        in_arena(nodes, p),
    ensures
        in_arena(nodes2, p),
        eval(nodes2, p, a) == eval(nodes, p, a),
        level(nodes2, p) == level(nodes, p),
        reduced(nodes2, p) == reduced(nodes, p),
    decreases rank(p),
{
    reveal(eval);
    if let BddPtr::Node(i) = p {
        assert(node_wf(nodes, i as int));
        let n = nodes[i as int];
        assert(nodes2[i as int] == n);
        lemma_extend(nodes, nodes2, nv, n.low, a);
        lemma_extend(nodes, nodes2, nv, n.high, a);
    }
}

/// Extension preserves smoothness.
pub proof fn lemma_extend_smooth(
    nodes: Seq<BddNode>,
    nodes2: Seq<BddNode>,
    p: BddPtr,
    k: nat,
    n: nat,
)
    requires
        extends(nodes, nodes2),
        smooth_at(nodes, p, k, n),
    ensures
        smooth_at(nodes2, p, k, n),
    decreases n - k,
{
    if k < n {
        if let BddPtr::Node(i) = p {
            assert(nodes2[i as int] == nodes[i as int]);
            lemma_extend_smooth(nodes, nodes2, nodes[i as int].low, k + 1, n);
            lemma_extend_smooth(nodes, nodes2, nodes[i as int].high, k + 1, n);
        }
    }
}

/// A diagram does not depend on variables ordered before its root.
pub proof fn lemma_independent(
    nodes: Seq<BddNode>,
    nv: nat,
    p: BddPtr,
    a: spec_fn(u64) -> bool,
    x: u64,
    c: bool,
)
    requires
        arena_wf(nodes, nv),
        in_arena(nodes, p),
        (x as int) < level(nodes, p),
    ensures
        eval(nodes, p, upd(a, x, c)) == eval(nodes, p, a),
    decreases rank(p),
{
    reveal(eval);
    if let BddPtr::Node(i) = p {
        assert(node_wf(nodes, i as int));
        let n = nodes[i as int];
        lemma_independent(nodes, nv, n.low, a, x, c);
        lemma_independent(nodes, nv, n.high, a, x, c);
    }
}

/// Splitting on the root variable of a node.
proof fn lemma_split(nodes: Seq<BddNode>, nv: nat, i: usize, a: spec_fn(u64) -> bool)
    requires
        arena_wf(nodes, nv),
        i < nodes.len(),
    ensures
        eval(nodes, BddPtr::Node(i), upd(a, nodes[i as int].var, false)) == eval(
            nodes,
            nodes[i as int].low,
            a,
        ),
        eval(nodes, BddPtr::Node(i), upd(a, nodes[i as int].var, true)) == eval(
            nodes,
            nodes[i as int].high,
            a,
        ),
{
    reveal(eval);
    assert(node_wf(nodes, i as int));
    let n = nodes[i as int];
    lemma_independent(nodes, nv, n.low, a, n.var, false);
    lemma_independent(nodes, nv, n.high, a, n.var, true);
}

/// A node whose root is ordered before `q` cannot denote the same function
/// as `q` unless its two children do.
proof fn lemma_root_before(nodes: Seq<BddNode>, nv: nat, i: usize, q: BddPtr)
    requires
        arena_wf(nodes, nv),
        i < nodes.len(),
        in_arena(nodes, q),
        (nodes[i as int].var as int) < level(nodes, q),
        equiv(nodes, BddPtr::Node(i), q),
    ensures
        equiv(nodes, nodes[i as int].low, nodes[i as int].high),
{
    let n = nodes[i as int];
    assert forall|a: spec_fn(u64) -> bool| #[trigger]
        eval(nodes, n.low, a) == eval(nodes, n.high, a) by {
        lemma_split(nodes, nv, i, a);
        lemma_independent(nodes, nv, q, a, n.var, false);
        lemma_independent(nodes, nv, q, a, n.var, true);
        assert(eval(nodes, BddPtr::Node(i), upd(a, n.var, false)) == eval(
            nodes,
            q,
            upd(a, n.var, false),
        ));
        assert(eval(nodes, BddPtr::Node(i), upd(a, n.var, true)) == eval(
            nodes,
            q,
            upd(a, n.var, true),
        ));
    }
}

pub open spec fn max_rank(p: BddPtr, q: BddPtr) -> nat {
    if rank(p) >= rank(q) {
        rank(p)
    } else {
        rank(q)
    }
}

/// Canonicity: in a well-formed arena, two reduced diagrams that denote the
/// same boolean function are the same pointer.
pub proof fn lemma_canonical(nodes: Seq<BddNode>, nv: nat, p: BddPtr, q: BddPtr)
    requires
        arena_wf(nodes, nv),
        reduced(nodes, p),
        reduced(nodes, q),
        equiv(nodes, p, q),
    ensures
        p == q,
    decreases max_rank(p, q),
{
    reveal(eval);
    let t = |x: u64| true;
    assert(eval(nodes, p, t) == eval(nodes, q, t));
    match p {
        BddPtr::Node(i) => {
            assert(node_wf(nodes, i as int));
            let n = nodes[i as int];
            match q {
                BddPtr::Node(j) => {
                    assert(node_wf(nodes, j as int));
                    let m = nodes[j as int];
                    if n.var < m.var {
                        lemma_root_before(nodes, nv, i, q);
                        lemma_canonical(nodes, nv, n.low, n.high);
                    } else if m.var < n.var {
                        lemma_root_before(nodes, nv, j, p);
                        lemma_canonical(nodes, nv, m.low, m.high);
                    } else {
                        assert forall|a: spec_fn(u64) -> bool| #[trigger]
                            eval(nodes, n.low, a) == eval(nodes, m.low, a) by {
                            lemma_split(nodes, nv, i, a);
                            lemma_split(nodes, nv, j, a);
                            assert(eval(nodes, p, upd(a, n.var, false)) == eval(
                                nodes,
                                q,
                                upd(a, n.var, false),
                            ));
                        }
                        assert forall|a: spec_fn(u64) -> bool| #[trigger]
                            eval(nodes, n.high, a) == eval(nodes, m.high, a) by {
                            lemma_split(nodes, nv, i, a);
                            lemma_split(nodes, nv, j, a);
                            assert(eval(nodes, p, upd(a, n.var, true)) == eval(
                                nodes,
                                q,
                                upd(a, n.var, true),
                            ));
                        }
                        lemma_canonical(nodes, nv, n.low, m.low);
                        lemma_canonical(nodes, nv, n.high, m.high);
                        assert(nodes[i as int] == nodes[j as int]);
                    }
                },
                _ => {
                    lemma_root_before(nodes, nv, i, q);
                    lemma_canonical(nodes, nv, n.low, n.high);
                },
            }
        },
        _ => {
            if let BddPtr::Node(j) = q {
                assert(node_wf(nodes, j as int));
                let m = nodes[j as int];
                lemma_root_before(nodes, nv, j, p);
                lemma_canonical(nodes, nv, m.low, m.high);
            }
        },
    }
}

/// Two diagrams smooth over the same variables that denote the same
/// function are the same pointer.
pub proof fn lemma_smooth_canonical(
    nodes: Seq<BddNode>,
    nv: nat,
    p: BddPtr,
    q: BddPtr,
    k: nat,
    n: nat,
)
    requires
        arena_wf(nodes, nv),
        smooth_at(nodes, p, k, n),
        smooth_at(nodes, q, k, n),
        equiv(nodes, p, q),
    ensures
        p == q,
    decreases n - k,
{
    reveal(eval);
    let t = |x: u64| true;
    assert(eval(nodes, p, t) == eval(nodes, q, t));
    if k < n {
        if let BddPtr::Node(i) = p {
            if let BddPtr::Node(j) = q {
                let np = nodes[i as int];
                let nq = nodes[j as int];
                assert forall|a: spec_fn(u64) -> bool| #[trigger]
                    eval(nodes, np.low, a) == eval(nodes, nq.low, a) by {
                    lemma_split(nodes, nv, i, a);
                    lemma_split(nodes, nv, j, a);
                    assert(eval(nodes, p, upd(a, np.var, false)) == eval(
                        nodes,
                        q,
                        upd(a, np.var, false),
                    ));
                }
                assert forall|a: spec_fn(u64) -> bool| #[trigger]
                    eval(nodes, np.high, a) == eval(nodes, nq.high, a) by {
                    lemma_split(nodes, nv, i, a);
                    lemma_split(nodes, nv, j, a);
                    assert(eval(nodes, p, upd(a, np.var, true)) == eval(
                        nodes,
                        q,
                        upd(a, np.var, true),
                    ));
                }
                lemma_smooth_canonical(nodes, nv, np.low, nq.low, k + 1, n);
                lemma_smooth_canonical(nodes, nv, np.high, nq.high, k + 1, n);
                assert(nodes[i as int] == nodes[j as int]);
            }
        }
    }
}

} // verus!

verus! {

/// What growing an arena keeps: every old pointer means what it meant.
pub open spec fn grows(nodes: Seq<BddNode>, nodes2: Seq<BddNode>) -> bool {
    &&& extends(nodes, nodes2)
    &&& forall|p: BddPtr, a: spec_fn(u64) -> bool|
        in_arena(nodes, p) ==> #[trigger] eval(nodes2, p, a) == eval(nodes, p, a)
    &&& forall|p: BddPtr| in_arena(nodes, p) ==> #[trigger] level(nodes2, p) == level(nodes, p)
    &&& forall|p: BddPtr| in_arena(nodes, p) ==> #[trigger] reduced(nodes2, p) == reduced(nodes, p)
    &&& forall|p: BddPtr| in_arena(nodes, p) ==> #[trigger] in_arena(nodes2, p)
}

pub proof fn lemma_grows(nodes: Seq<BddNode>, nodes2: Seq<BddNode>, nv: nat)
    requires
        arena_wf(nodes, nv),
        extends(nodes, nodes2),
    ensures
        grows(nodes, nodes2),
{
    assert forall|p: BddPtr, a: spec_fn(u64) -> bool| in_arena(nodes, p) implies #[trigger] eval(
        nodes2,
        p,
        a,
    ) == eval(nodes, p, a) by {
        lemma_extend(nodes, nodes2, nv, p, a);
    }
    assert forall|p: BddPtr| in_arena(nodes, p) implies #[trigger] level(nodes2, p) == level(
        nodes,
        p,
    ) by {
        lemma_extend(nodes, nodes2, nv, p, |x: u64| true);
    }
    assert forall|p: BddPtr| in_arena(nodes, p) implies #[trigger] reduced(nodes2, p) == reduced(
        nodes,
        p,
    ) by {
        lemma_extend(nodes, nodes2, nv, p, |x: u64| true);
    }
}

/// The cofactor of `p` on variable `v` set to `c`, for `v` not after the
/// root of `p`.
pub open spec fn cofactor(nodes: Seq<BddNode>, p: BddPtr, v: u64, c: bool) -> BddPtr {
    match p {
        BddPtr::Node(i) => if i < nodes.len() && nodes[i as int].var == v {
            if c {
                nodes[i as int].high
            } else {
                nodes[i as int].low
            }
        } else {
            p
        },
        _ => p,
    }
}

pub proof fn lemma_cofactor(
    nodes: Seq<BddNode>,
    nv: nat,
    p: BddPtr,
    v: u64,
    c: bool,
    a: spec_fn(u64) -> bool,
)
    requires
        arena_wf(nodes, nv),
        in_arena(nodes, p),
        (v as int) <= level(nodes, p),
        a(v) == c,
    ensures
        eval(nodes, cofactor(nodes, p, v, c), a) == eval(nodes, p, a),
        in_arena(nodes, cofactor(nodes, p, v, c)),
        (v as int) < level(nodes, cofactor(nodes, p, v, c)),
        reduced(nodes, p) ==> reduced(nodes, cofactor(nodes, p, v, c)),
{
    reveal(eval);
    if let BddPtr::Node(i) = p {
        assert(node_wf(nodes, i as int));
    }
}

/// One step of evaluation at an interior node.
pub proof fn lemma_eval_node(nodes: Seq<BddNode>, nv: nat, i: usize, a: spec_fn(u64) -> bool)
    requires
        arena_wf(nodes, nv),
        i < nodes.len(),
    ensures
        eval(nodes, BddPtr::Node(i), a) == if a(nodes[i as int].var) {
            eval(nodes, nodes[i as int].high, a)
        } else {
            eval(nodes, nodes[i as int].low, a)
        },
{
    reveal(eval);
    assert(node_wf(nodes, i as int));
}

/// The constants denote the constant functions.
pub proof fn lemma_eval_const(nodes: Seq<BddNode>)
    ensures
        forall|a: spec_fn(u64) -> bool| #[trigger] eval(nodes, BddPtr::True, a),
        forall|a: spec_fn(u64) -> bool| !#[trigger] eval(nodes, BddPtr::False, a),
{
    reveal(eval);
}

pub open spec fn min3(x: int, y: int, z: int) -> int {
    if x <= y && x <= z {
        x
    } else if y <= z {
        y
    } else {
        z
    }
}

pub proof fn lemma_level_bound(nodes: Seq<BddNode>, nv: nat, p: BddPtr)
    requires
        arena_wf(nodes, nv),
    ensures
        0 <= level(nodes, p) <= level_inf(),
        in_arena(nodes, p) && p is Node ==> level(nodes, p) < nv,
{
    if let BddPtr::Node(i) = p {
        if i < nodes.len() {
            assert(nodes[i as int].var < nv);
        }
    }
}

/// A smooth diagram starts at the variable it is smooth from.
pub proof fn lemma_smooth_level(nodes: Seq<BddNode>, p: BddPtr, k: nat, n: nat)
    requires
        smooth_at(nodes, p, k, n),
    ensures
        in_arena(nodes, p),
        k < n ==> level(nodes, p) == k,
        k >= n ==> level(nodes, p) == level_inf(),
{
}

/// The indices of the interior nodes reachable from `p`, `p` included.
pub open spec fn reach(nodes: Seq<BddNode>, p: BddPtr) -> Set<int>
    decreases rank(p),
{
    match p {
        BddPtr::Node(i) => if i < nodes.len() && rank(nodes[i as int].low) < rank(p) && rank(
            nodes[i as int].high,
        ) < rank(p) {
            reach(nodes, nodes[i as int].low).union(reach(nodes, nodes[i as int].high)).insert(
                i as int,
            )
        } else {
            Set::empty()
        },
        _ => Set::empty(),
    }
}

/// `m` is a node whose low or high child is node `x`.
pub open spec fn parent_of(nodes: Seq<BddNode>, m: int, x: int) -> bool {
    nodes[m].low == BddPtr::Node(x as usize) || nodes[m].high == BddPtr::Node(x as usize)
}

/// The reachable set is finite, lies below the root, is closed under
/// children, and each of its nodes but the root has a parent in it.
pub proof fn lemma_reach(nodes: Seq<BddNode>, nv: nat, p: BddPtr)
    requires
        arena_wf(nodes, nv),
        in_arena(nodes, p),
    ensures
        reach(nodes, p).finite(),
        forall|x: int| #[trigger] reach(nodes, p).contains(x) ==> 0 <= x < rank(p),
        forall|x: int| #[trigger]
            reach(nodes, p).contains(x) ==> (nodes[x].low matches BddPtr::Node(c) ==> reach(
                nodes,
                p,
            ).contains(c as int)) && (nodes[x].high matches BddPtr::Node(c) ==> reach(
                nodes,
                p,
            ).contains(c as int)),
        forall|x: int| #[trigger]
            reach(nodes, p).contains(x) && x != rank(p) - 1 ==> exists|m: int|
                #![trigger parent_of(nodes, m, x)]
                reach(nodes, p).contains(m) && m > x && parent_of(nodes, m, x),
    decreases rank(p),
{
    if let BddPtr::Node(i) = p {
        assert(node_wf(nodes, i as int));
        let n = nodes[i as int];
        lemma_reach(nodes, nv, n.low);
        lemma_reach(nodes, nv, n.high);
        let r = reach(nodes, p);
        assert forall|x: int| #[trigger] r.contains(x) && x != rank(p) - 1 implies exists|m: int|
            #![trigger parent_of(nodes, m, x)]
            r.contains(m) && m > x && parent_of(nodes, m, x) by {
            if reach(nodes, n.low).contains(x) {
                if n.low == BddPtr::Node(x as usize) {
                    assert(parent_of(nodes, i as int, x));
                } else {
                    let m = choose|m: int|
                        #![trigger parent_of(nodes, m, x)]
                        reach(nodes, n.low).contains(m) && m > x && parent_of(nodes, m, x);
                    assert(r.contains(m));
                }
            } else {
                assert(reach(nodes, n.high).contains(x));
                if n.high == BddPtr::Node(x as usize) {
                    assert(parent_of(nodes, i as int, x));
                } else {
                    let m = choose|m: int|
                        #![trigger parent_of(nodes, m, x)]
                        reach(nodes, n.high).contains(m) && m > x && parent_of(nodes, m, x);
                    assert(r.contains(m));
                }
            }
        }
        assert forall|x: int| #[trigger] r.contains(x) implies (nodes[x].low matches BddPtr::Node(
            c,
        ) ==> r.contains(c as int)) && (nodes[x].high matches BddPtr::Node(c) ==> r.contains(
            c as int,
        )) by {
            if x == i as int {
                if let BddPtr::Node(c) = n.low {
                    assert(node_wf(nodes, c as int));
                    assert(reach(nodes, n.low).contains(c as int));
                }
                if let BddPtr::Node(c) = n.high {
                    assert(node_wf(nodes, c as int));
                    assert(reach(nodes, n.high).contains(c as int));
                }
            }
        }
    }
}

} // verus!
