//! Verified core of a project-tree summarization pipeline: an in-memory
//! directory model with sorted, denylist-filtered nodes, a two-phase scan
//! (shallow skeleton, then deep expansion of chosen subtrees), a folder
//! selection session, summarization scheduling decisions, and a shared
//! progress store.  All file and network I/O lives outside this crate and
//! hands plain values in and out.

pub mod apply;
pub mod listing;
pub mod scan;
pub mod select;
pub mod selector;
pub mod store;
pub mod summarize;
pub mod text;
pub mod tree;
