//! A content relationship graph for a static-site generator.
//!
//! Content items — posts and categories — declare zero or more named
//! parents. This crate resolves those declarations into a directed graph
//! rooted at a synthetic Root node, validates referential integrity
//! (duplicate names before construction, missing parents during it),
//! answers sorted child and parent queries for rendering, and enumerates
//! every route from Root to every reachable node, tolerating cycles, to
//! drive a mirrored directory-and-symlink tree. Every function here is
//! verified against its contract; the only trust boundary is the small
//! set of petgraph wrappers in `pg`.

pub mod errors;
pub mod gen_html;
pub mod posts;
pub mod post_graph;
pub mod registry;
pub mod pg;
pub mod text;
