//! Query parameter shapes consumed by the HTTP collaborators.
//!
//! The server deserializes its query strings into mirrors of these and
//! hands them over as plain values; the engine itself never parses a
//! query string.

use vstd::prelude::*;

verus! {

/// Which subtrees of a commit a tree request asks for.
#[derive(Debug)]
pub struct SubtreeQuery {
    pub subtrees: Option<String>,
}

/// Paging and mutability options of a dataframe request.
#[derive(Debug, Clone, Copy, PartialEq, Eq, Structural)]
pub struct GetDataFrameOptsQuery {
    pub page: Option<usize>,
    pub page_size: Option<usize>,
    pub editable: Option<bool>,
}

} // verus!
