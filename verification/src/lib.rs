//! Core logic of a small file-browser backend.
//!
//! The centre piece is a breadth-first directory search: starting from a root
//! directory, every reachable entry whose base name contains a search term
//! (case-insensitively) is reported, in breadth-first discovery order.  The
//! traversal itself is split from the filesystem: [`search::SearchState`]
//! makes every decision, while the caller supplies directory listings and
//! performs the reads.  [`search::search_tree`] runs the same traversal over
//! an in-memory tree.

pub mod text;
pub mod model;
pub mod search;
pub mod listing;
pub mod shell;
pub mod favorites;
pub mod laws;
