//! Knowledge compilation: formulas in conjunctive normal form compiled to
//! reduced ordered binary decision diagrams over a hash-consed arena, with
//! if-then-else algebra, composition, smoothing and weighted model counting
//! over a prime field.
pub mod builder;
pub mod cnf;
pub mod laws;
pub mod repr;
pub mod wmc;
