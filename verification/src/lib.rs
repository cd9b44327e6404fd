//! Candidate discovery and ranking for an interactive file/content search
//! tool: settings parsing, traversal filtering, merge of path matches with
//! content matches, deterministic ordering, and display formatting.

pub mod actions;
pub mod content;
pub mod patterns;
pub mod present;
pub mod search;
pub mod settings;
pub mod text;
