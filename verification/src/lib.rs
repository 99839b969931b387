//! Confirmation bookkeeping of the service supervisor: sets of byte strings with a
//! length-prefixed binary encoding, tables of such sets keyed by byte strings, and the
//! schema that records which validators confirmed a pending deployment or service start.

pub mod binary_set;
pub mod byte_map;
pub mod confirmation_index;
pub mod digest;
pub mod framing;
pub mod lexicographic;
pub mod schema;
pub mod seq_facts;
