use rsdd::builder::{RobddBuilder, VarOrder};
use rsdd::cnf::{Cnf, Literal};
use rsdd::repr::BddPtr;
use rsdd::wmc::{WmcError, WmcParams, U64_LARGEST_PRIME};

fn lit(label: u64, polarity: bool) -> Literal {
    Literal { label, polarity }
}

fn builder(n: u64) -> RobddBuilder {
    RobddBuilder::new(VarOrder::linear_order(n))
}

fn assignments(n: usize) -> Vec<Vec<bool>> {
    let mut out = Vec::new();
    for bits in 0..(1u32 << n) {
        out.push((0..n).map(|i| bits & (1 << i) != 0).collect());
    }
    out
}

#[test]
fn model_count_of_two_clause_formula() {
    // (x1 or x2) and (not x1 or x2): x1 = label 0, x2 = label 1
    let mut b = builder(2);
    let cnf = Cnf::new(vec![vec![lit(0, true), lit(1, true)], vec![lit(0, false), lit(1, true)]]);
    let f = b.compile_cnf(&cnf);
    let x2 = b.var(1, true);
    assert_eq!(f, x2);
    assert_eq!(b.model_count(f), 2);
}

#[test]
fn model_count_counts_unmentioned_variables() {
    let mut b = builder(3);
    let x0 = b.var(0, true);
    assert_eq!(b.model_count(x0), 4);
    let t = b.true_ptr();
    assert_eq!(b.model_count(t), 8);
    let f = b.false_ptr();
    assert_eq!(b.model_count(f), 0);
}

#[test]
fn equivalent_formulas_compile_to_same_pointer() {
    let mut b = builder(3);
    let c1 = Cnf::new(vec![vec![lit(0, true)], vec![lit(1, true), lit(2, false)]]);
    let c2 = Cnf::new(vec![
        vec![lit(2, false), lit(1, true)],
        vec![lit(0, true), lit(1, true)],
        vec![lit(0, true)],
    ]);
    let f1 = b.compile_cnf(&c1);
    let f2 = b.compile_cnf(&c2);
    assert!(b.eq(f1, f2));
    let c3 = Cnf::new(vec![vec![lit(0, true)], vec![lit(1, true)]]);
    let f3 = b.compile_cnf(&c3);
    assert!(!b.eq(f1, f3));
}

#[test]
fn contradiction_and_tautology_compile_to_constants() {
    let mut b = builder(2);
    let c = Cnf::new(vec![vec![lit(0, true)], vec![lit(0, false)]]);
    let f = b.compile_cnf(&c);
    assert!(f.is_false());
    let t = Cnf::new(vec![vec![lit(0, true), lit(0, false)]]);
    let g = b.compile_cnf(&t);
    assert!(g.is_true());
    let empty = Cnf::new(vec![]);
    assert!(b.compile_cnf(&empty).is_true());
    let empty_clause = Cnf::new(vec![vec![]]);
    assert!(b.compile_cnf(&empty_clause).is_false());
}

#[test]
fn ite_matches_pointwise_truth_table() {
    let mut b = builder(3);
    let x0 = b.var(0, true);
    let x1 = b.var(1, true);
    let nx2 = b.var(2, false);
    let g = b.or(x1, nx2);
    let h = b.and(x0, x1);
    let r = b.ite(x0, g, nx2);
    let r2 = b.ite(g, h, x0);
    for a in assignments(3) {
        let (fv, gv, hv) = (b.eval(x0, &a), b.eval(g, &a), b.eval(nx2, &a));
        assert_eq!(b.eval(r, &a), if fv { gv } else { hv });
        let (fv, gv, hv) = (b.eval(g, &a), b.eval(h, &a), b.eval(x0, &a));
        assert_eq!(b.eval(r2, &a), if fv { gv } else { hv });
    }
    assert!(b.num_recursive_calls() > 0);
}

#[test]
fn derived_operators_are_ite_instances() {
    let mut b = builder(3);
    let x0 = b.var(0, true);
    let x2 = b.var(2, false);
    let a = b.or(x0, x2);
    let c = b.var(1, true);
    let and1 = b.and(a, c);
    let fls = b.false_ptr();
    let tru = b.true_ptr();
    let and2 = b.ite(a, c, fls);
    assert_eq!(and1, and2);
    let or1 = b.or(a, c);
    let or2 = b.ite(a, tru, c);
    assert_eq!(or1, or2);
    let n1 = b.negate(a);
    let n2 = b.ite(a, fls, tru);
    assert_eq!(n1, n2);
}

#[test]
fn double_negation_is_identity() {
    let mut b = builder(3);
    let c = Cnf::new(vec![vec![lit(0, true), lit(2, true)], vec![lit(1, false)]]);
    let f = b.compile_cnf(&c);
    let nf = b.negate(f);
    assert_ne!(f, nf);
    let nnf = b.negate(nf);
    assert_eq!(nnf, f);
    let t = b.true_ptr();
    let nt = b.negate(t);
    assert!(nt.is_false());
}

#[test]
fn compose_substitutes_a_diagram_for_a_variable() {
    let mut b = builder(3);
    let x0 = b.var(0, true);
    let x1 = b.var(1, true);
    let x2 = b.var(2, true);
    let f = b.and(x0, x1);
    let g = b.or(x0, x2);
    let r = b.compose(f, 1, g);
    for a in assignments(3) {
        let mut a2 = a.clone();
        a2[1] = b.eval(g, &a);
        assert_eq!(b.eval(r, &a), b.eval(f, &a2));
    }
    // x0 and (x0 or x2) is x0
    assert_eq!(r, x0);
    let nx0 = b.var(0, false);
    let r2 = b.compose(f, 1, nx0);
    assert!(r2.is_false());
    // a variable that f does not mention
    let r3 = b.compose(f, 2, x0);
    assert_eq!(r3, f);
}

#[test]
fn smoothing_twice_is_smoothing_once() {
    let mut b = builder(4);
    let c = Cnf::new(vec![vec![lit(1, true), lit(3, false)]]);
    let f = b.compile_cnf(&c);
    let s1 = b.smooth(f);
    let s2 = b.smooth(s1);
    assert_eq!(s1, s2);
    for a in assignments(4) {
        assert_eq!(b.eval(s1, &a), b.eval(f, &a));
    }
    // every path of a smooth diagram tests each variable in turn
    let mut p = s1;
    let mut k = 0;
    while let Some(v) = b.topvar(p) {
        assert_eq!(v, k);
        p = b.low(p);
        k += 1;
    }
    assert_eq!(k, 4);
}

#[test]
fn weighted_count_equals_brute_force_sum() {
    let m = U64_LARGEST_PRIME;
    let mut b = builder(3);
    let c = Cnf::new(vec![vec![lit(0, true), lit(1, true)], vec![lit(2, false), lit(1, false)]]);
    let f = b.compile_cnf(&c);
    let weights = vec![(2u64, 3u64), (5, 7), (11, 13)];
    let params = WmcParams::new(m, weights.clone());
    let got = b.wmc(f, &params).unwrap();
    let mut expected: u64 = 0;
    for a in assignments(3) {
        if b.eval(f, &a) {
            let mut prod = 1u64;
            for (v, &val) in a.iter().enumerate() {
                prod *= if val { weights[v].1 } else { weights[v].0 };
            }
            expected += prod;
        }
    }
    assert_eq!(got, expected);
    // smoothing first and counting the result as it stands agrees
    let s = b.smooth(f);
    assert_eq!(b.unsmoothed_wmc(s, &params), Ok(expected));
}

#[test]
fn weighted_count_reduces_modulo_small_prime() {
    let mut b = builder(2);
    let t = b.true_ptr();
    let params = WmcParams::new(7, vec![(3, 4), (5, 9)]);
    // (3 + 4) * (5 + 2) = 49 = 0 mod 7
    assert_eq!(b.wmc(t, &params), Ok(0));
    let x0 = b.var(0, true);
    // 4 * (5 + 2) = 28 = 0 mod 7; weight 9 was reduced to 2
    assert_eq!(b.wmc(x0, &params), Ok(0));
    let x1 = b.var(1, true);
    // (3 + 4) * 2 = 14 = 0 mod 7
    assert_eq!(b.wmc(x1, &params), Ok(0));
    let params2 = WmcParams::new(11, vec![(3, 4), (5, 9)]);
    // 4 * (5 + 9) = 56 = 1 mod 11
    assert_eq!(b.wmc(x0, &params2), Ok(1));
    assert_eq!(params2.modulus(), 11);
    assert_eq!(params2.weight(1), (5, 9));
}

#[test]
fn missing_weight_is_an_error() {
    let mut b = builder(3);
    let x2 = b.var(2, true);
    let params = WmcParams::new(U64_LARGEST_PRIME, vec![(1, 1), (1, 1)]);
    assert_eq!(b.unsmoothed_wmc(x2, &params), Err(WmcError::MissingWeight));
    assert_eq!(b.wmc(x2, &params), Err(WmcError::MissingWeight));
    let x0 = b.var(0, true);
    assert_eq!(b.unsmoothed_wmc(x0, &params), Ok(1));
}

#[test]
fn new_variables_extend_the_order() {
    let mut b = builder(1);
    assert_eq!(b.num_vars(), 1);
    let l = b.new_label();
    assert_eq!(l, 1);
    let (l2, p) = b.new_var(false);
    assert_eq!(l2, 2);
    assert_eq!(b.num_vars(), 3);
    assert_eq!(b.topvar(p), Some(2));
    assert!(b.eval(p, &vec![false, false, false]));
    assert!(!b.eval(p, &vec![false, false, true]));
}

#[test]
fn inspecting_a_literal() {
    let mut b = builder(2);
    let x1 = b.var(1, true);
    assert!(!x1.is_const());
    assert_eq!(b.topvar(x1), Some(1));
    assert!(b.low(x1).is_false());
    assert!(b.high(x1).is_true());
    let t = b.true_ptr();
    assert!(t.is_const() && t.is_true() && !t.is_false());
    assert_eq!(b.topvar(t), None);
    assert_eq!(b.export(t).len(), 0);
    let nodes = b.export(x1);
    assert_eq!(nodes.len(), 1);
    assert_eq!(nodes[0].var, 1);
    assert_eq!(nodes[0].low, BddPtr::False);
    assert_eq!(nodes[0].high, BddPtr::True);
}

#[test]
fn hash_consing_reuses_nodes() {
    let mut b = builder(2);
    let x0 = b.var(0, true);
    let x0_again = b.var(0, true);
    assert_eq!(x0, x0_again);
    let x1 = b.var(1, true);
    let a = b.and(x0, x1);
    let a2 = b.and(x1, x0);
    assert_eq!(a, a2);
    assert_eq!(b.export(a).len(), 3);
}

#[test]
fn cnf_num_vars_is_one_past_largest_label() {
    let c = Cnf::new(vec![vec![lit(3, true)], vec![lit(0, false), lit(5, true)]]);
    assert_eq!(c.num_vars(), 6);
    assert_eq!(Cnf::new(vec![]).num_vars(), 0);
}

#[test]
fn count_nodes_counts_distinct_reachable_nodes() {
    let mut b = builder(3);
    let t = b.true_ptr();
    assert_eq!(b.count_nodes(t), 0);
    let x0 = b.var(0, true);
    let x1 = b.var(1, true);
    let x2 = b.var(2, true);
    assert_eq!(b.count_nodes(x1), 1);
    let a = b.and(x0, x1);
    // x0 is in the arena but not reachable from x1
    assert_eq!(b.count_nodes(a), 2);
    // x0 xor x1 shares nothing below x0 but the two x1 nodes are distinct
    let nx1 = b.negate(x1);
    let xor = b.ite(x0, nx1, x1);
    assert_eq!(b.count_nodes(xor), 3);
    // (x0 and x1) or x2: the x2 node is shared by two parents
    let f = b.or(a, x2);
    assert_eq!(b.count_nodes(f), 3);
    let s = b.smooth(f);
    assert!(b.count_nodes(s) >= b.count_nodes(f));
}

#[test]
fn repeated_ite_is_answered_from_the_cache() {
    let mut b = builder(4);
    let c = Cnf::new(vec![vec![lit(0, true), lit(2, true)], vec![lit(1, false), lit(3, true)]]);
    let f = b.compile_cnf(&c);
    let x1 = b.var(1, true);
    let x3 = b.var(3, false);
    let r1 = b.ite(f, x1, x3);
    let before = b.num_recursive_calls();
    let r2 = b.ite(f, x1, x3);
    assert_eq!(r1, r2);
    assert_eq!(b.num_recursive_calls(), before + 1);
}
