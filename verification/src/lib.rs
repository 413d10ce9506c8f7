//! An in-memory XML document tree: nodes live in an arena and are addressed by
//! stable handles, so that parent, child and sibling links can refer to each
//! other freely. The crate offers structural mutation, attribute tables,
//! namespace lookup, duplication and serialization back to text, each with a
//! machine-checked contract.

pub mod attributes;
pub mod binding;
pub mod bytes;
pub mod duplicate;
pub mod escape;
pub mod laws;
pub mod mutation;
pub mod namespace;
pub mod native_menu_item;
pub mod search;
pub mod serialize;
pub mod start_tag;
pub mod tree;
