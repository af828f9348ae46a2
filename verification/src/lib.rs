//! A verified core for a datalog database over entity-attribute-value triples.

pub mod algo;
pub mod byte_string;
pub mod clock;
pub mod codec;
pub mod codec_laws;
pub mod error;
pub mod error_laws;
pub mod expr;
pub mod indexer;
pub mod iterator;
pub mod kafka_log;
pub mod log;
pub mod memory_log;
pub mod metadata;
pub mod node;
pub mod numeric;
pub mod ops;
pub mod partition;
pub mod protocol;
pub mod query;
pub mod schema;
pub mod text;
pub mod transaction;
pub mod value;
pub mod variable;
