//! From transactions to index entries.

pub mod basis;
pub mod commit;
pub mod keys;
pub mod laws;
pub mod life_laws;
pub mod one_value;
pub mod owners;
pub mod pattern_laws;
pub mod state;
pub mod stored;
pub mod transact;
pub mod unique_laws;
pub mod unique_value;
