//! A hierarchical outline aggregate: a bounded tree of titled nodes with
//! structural mutation, positional numbering, reference resolution, and a
//! round-tripping tree codec with markdown rendering.

pub mod book;
pub mod eject;
pub mod errors;
pub mod ids;
pub mod laws;
pub mod node;
pub mod numbering;
pub mod resolve;
pub mod store;
pub mod textutil;
pub mod tree;
