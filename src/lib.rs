//! Managed aggregate state for ordered string concatenation, kept in an
//! in-memory cache over an ordered key-value store; with the return-type
//! rules of function calls and the fragment graph of a streaming plan.
pub mod byte_order;
pub mod flush_status;
pub mod memcmp;
pub mod ordered_key;
pub mod store;
pub mod string_agg;
pub mod laws;
pub mod type_inference;
pub mod fragment_graph;
