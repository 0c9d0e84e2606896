//! Filters indentation-drawn trees (such as dependency listings) down to the
//! lines that match a predicate, together with every ancestor line that keeps
//! them anchored to the root.

pub mod depth;
pub mod filter;
pub mod laws;
pub mod pattern;
pub mod tree;

pub use depth::get_depth;
pub use filter::{filter_by_matches, filter_by_predicate};
pub use pattern::filter_by_regex;
pub use tree::{find_parent, list_ancestors};
