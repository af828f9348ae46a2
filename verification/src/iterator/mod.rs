//! Ordered scans and the combinators of the join.

pub mod generic_and_prefix_extender;
pub mod generic_fn_prefix_extender;
pub mod generic_not_prefix_extender;
pub mod generic_or_prefix_extender;
pub mod generic_predicate_prefix_extender;
pub mod generic_prefix_extender;
pub mod index;
pub mod prefix_extender;
pub mod prefix_values;
pub mod slate_iterator;
pub mod stored_pattern;
pub mod temporal_filter_iterator;
