//! Ownership primitives: the borrow discipline of guarded cells, the storage
//! policy of the small type-erased box, and a few small utilities.
pub mod base64url;
pub mod borrow;
pub mod collections;
pub mod graph;
pub mod node_graph;
pub mod simple_error;
pub mod small_string_id;
pub mod smallbox;
pub mod utils;
