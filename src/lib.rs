//! Cost-based tree-pattern instruction selection over a small
//! three-address-code value graph.
pub mod graph;
pub mod opcode;
pub mod pattern;
pub mod select;
pub mod tree;
