//! Joins.

pub mod generic_join;
