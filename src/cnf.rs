//! Formulas in conjunctive normal form, the compilation input.
use vstd::prelude::*;

verus! {

/// A variable with a polarity: `label` when `polarity`, else its negation.
#[derive(Clone, Copy, Debug, PartialEq, Eq, Structural)]
pub struct Literal {
    pub label: u64,
    pub polarity: bool,
}

/// A conjunction of clauses, each a disjunction of literals.
pub struct Cnf {
    pub clauses: Vec<Vec<Literal>>,
}

pub open spec fn lit_holds(l: Literal, a: spec_fn(u64) -> bool) -> bool {
    a(l.label) == l.polarity
}

pub open spec fn clause_holds(c: Seq<Literal>, a: spec_fn(u64) -> bool) -> bool {
    exists|j: int| 0 <= j < c.len() && lit_holds(#[trigger] c[j], a)
}

pub open spec fn cnf_holds(cs: Seq<Vec<Literal>>, a: spec_fn(u64) -> bool) -> bool {
    forall|i: int| 0 <= i < cs.len() ==> clause_holds(#[trigger] cs[i]@, a)
}

/// Every literal names one of the variables `0 .. n`.
pub open spec fn cnf_vars_below(cs: Seq<Vec<Literal>>, n: nat) -> bool {
    forall|i: int, j: int|
        0 <= i < cs.len() && 0 <= j < cs[i]@.len() ==> (#[trigger] cs[i]@[j]).label < n
}

impl Cnf {
    pub fn new(clauses: Vec<Vec<Literal>>) -> (r: Cnf)
        ensures
            r.clauses@ == clauses@,
    {
        Cnf { clauses }
    }

    /// The number of variables that the clauses mention: one more than the
    /// largest label.
    pub fn num_vars(&self) -> (r: u64)
        requires
            cnf_vars_below(self.clauses@, u64::MAX as nat),
        ensures
            cnf_vars_below(self.clauses@, r as nat),
            forall|i: int, j: int|
                0 <= i < self.clauses@.len() && 0 <= j < self.clauses@[i]@.len() ==> (
                #[trigger] self.clauses@[i]@[j]).label < r,
            r > 0 ==> exists|i: int, j: int|
                0 <= i < self.clauses@.len() && 0 <= j < self.clauses@[i]@.len() && (
                #[trigger] self.clauses@[i]@[j]).label + 1 == r,
    {
        let mut r: u64 = 0;
        let mut i: usize = 0;
        while i < self.clauses.len()
            invariant
                i <= self.clauses@.len(),
                cnf_vars_below(self.clauses@, u64::MAX as nat),
                forall|k: int, j: int|
                    0 <= k < i && 0 <= j < self.clauses@[k]@.len() ==> (
                    #[trigger] self.clauses@[k]@[j]).label < r,
                r > 0 ==> exists|k: int, j: int|
                    0 <= k < self.clauses@.len() && 0 <= j < self.clauses@[k]@.len() && (
                    #[trigger] self.clauses@[k]@[j]).label + 1 == r,
            decreases self.clauses@.len() - i,
        {
            let c = &self.clauses[i];
            let mut j: usize = 0;
            while j < c.len()
                invariant
                    i < self.clauses@.len(),
                    c@ == self.clauses@[i as int]@,
                    j <= c@.len(),
                    cnf_vars_below(self.clauses@, u64::MAX as nat),
                    forall|k: int, m: int|
                        0 <= k < i && 0 <= m < self.clauses@[k]@.len() ==> (
                        #[trigger] self.clauses@[k]@[m]).label < r,
                    forall|m: int| 0 <= m < j ==> (#[trigger] c@[m]).label < r,
                    r > 0 ==> exists|k: int, m: int|
                        0 <= k < self.clauses@.len() && 0 <= m < self.clauses@[k]@.len() && (
                        #[trigger] self.clauses@[k]@[m]).label + 1 == r,
                decreases c@.len() - j,
            {
                assert(self.clauses@[i as int]@[j as int].label < u64::MAX);
                if c[j].label >= r {
                    r = c[j].label + 1;
                    assert(self.clauses@[i as int]@[j as int].label + 1 == r);
                }
                j = j + 1;
            }
            i = i + 1;
        }
        r
    }
}

} // verus!
