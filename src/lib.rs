//! Boot-time device discovery over a flattened device tree blob: header
//! validation, a pre-order walk of the parsed tree, and the dispatch of each
//! node to a driver by its `compatible` string.

pub mod header;
pub mod tree;
pub mod discovery;
