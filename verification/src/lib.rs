//! A directed acyclic graph (DAG) over `u64` vertex identities, kept in a
//! `BTreeMap` from each vertex to its set of direct successors.  Every
//! mutation first validates the vertices it names, edge insertion runs a
//! reachability check that rejects any edge which would close a cycle, and
//! vertex removal cascades so that no adjacency set ever holds a vertex that
//! is no longer stored.
pub mod api;
pub mod dag;
pub mod error;
pub mod laws;
pub mod reachability;

pub use api::{AddEdge, AddVertex, Adjacent, Connections, GetVertexValue};
pub use api::{Prune, RemoveEdge, RemoveVertex, Vertices};
pub use dag::BTreeDag;
pub use error::Error;
