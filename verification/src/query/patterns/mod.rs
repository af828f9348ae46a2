//! The kinds of pattern that take part in a plan.

pub mod evaluation;
pub mod function;
pub mod join_laws;
pub mod not;
pub mod or;
pub mod predicate;
pub mod relation;
pub mod relation_laws;
pub mod triple;
pub mod triple_laws;
