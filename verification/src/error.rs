//! The closed set of conditions the graph reports to its callers.
//!
//! An enclosing system may wrap further conditions of its own collaborators
//! (such as a serializer's failures) around this type; the graph itself only
//! ever raises the two domain conditions below.
use vstd::prelude::*;

verus! {

/// Errors which may occur during normal usage of the library.
#[derive(PartialEq, Eq, Structural, Debug)]
pub enum Error {
    /// An operation named a vertex that is not stored in the graph.
    VertexDoesNotExist,
    /// Installing the requested edge would close a cycle: the reachability
    /// relation between its endpoints already exists in the other direction.
    EdgeExistsError,
}

} // verus!
