//! Error values produced while validating content and building the graph.
//!
//! Both kinds are collected into lists and reported as a batch, never
//! fail-fast: one run surfaces every broken reference or name collision at
//! once.

use vstd::prelude::*;

verus! {

/// A problem found while loading or validating content items. Source
/// locations are carried as plain strings (typically file paths).
#[derive(Debug, Clone)]
pub enum IOError {
    /// The expected content directory is missing.
    MissingDirectory(String),
    /// A content file lacks the header that precedes the body.
    MissingPostHeader(String),
    /// A content file's header did not parse; carries the parser's message
    /// and the file.
    InvalidHeader(String, String),
    /// Two items share a qualified name or alias: the colliding name and
    /// both source locations.
    DuplicateName(String, String, String),
    /// Reading a file failed; carries the file and the underlying message.
    FileError(String, String),
}

/// A problem found while wiring up graph edges.
#[derive(Debug, Clone)]
pub enum GraphError {
    /// A child declared parents that do not resolve to any node: the
    /// child's qualified name and every unresolved parent name.
    MissingEdgeError(String, Vec<String>),
}

} // verus!
