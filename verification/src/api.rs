//! The contracts of the graph operations: one trait per operation, each
//! stated against the adjacency-map model, together with the spec functions
//! that describe what each mutation does to that model.
use vstd::prelude::*;

use std::collections::BTreeSet;

use crate::error::Error;
use crate::reachability::{dag_wf, reaches, AdjacencyMap};

verus! {

/// What `add_vertex` does to the model: a missing vertex is inserted with an
/// empty adjacency set; an existing one is left untouched.
pub open spec fn add_vertex_model(m: AdjacencyMap, x: u64) -> AdjacencyMap {
    if m.contains_key(x) {
        m
    } else {
        m.insert(x, Set::empty())
    }
}

/// Installing an edge from `x` to `y` keeps the graph acyclic exactly when
/// the edge is not a self-loop and `x` cannot already be reached from `y`.
pub open spec fn add_edge_allowed(m: AdjacencyMap, x: u64, y: u64) -> bool {
    x != y && !reaches(m, y, x)
}

/// What a successful `add_edge` does to the model: `y` joins `x`'s adjacency
/// set.
pub open spec fn add_edge_model(m: AdjacencyMap, x: u64, y: u64) -> AdjacencyMap {
    m.insert(x, m[x].insert(y))
}

/// What a successful `remove_edge` does to the model: `y` leaves `x`'s
/// adjacency set.
pub open spec fn remove_edge_model(m: AdjacencyMap, x: u64, y: u64) -> AdjacencyMap {
    m.insert(x, m[x].remove(y))
}

/// What a successful `remove_vertex` does to the model: `x` leaves the vertex
/// store and every remaining adjacency set.
pub open spec fn remove_vertex_model(m: AdjacencyMap, x: u64) -> AdjacencyMap {
    Map::new(|v: u64| m.contains_key(v) && v != x, |v: u64| m[v].remove(x))
}

/// The vertices a successful `prune(x)` removes: `x` itself and everything
/// transitively reachable from it.
pub open spec fn pruned_set(m: AdjacencyMap, x: u64) -> Set<u64> {
    Set::new(|v: u64| v == x || reaches(m, x, v))
}

/// The map `m` with all vertices of `s` removed: they leave the vertex store
/// and every remaining adjacency set.
pub open spec fn removed_map(m: AdjacencyMap, s: Set<u64>) -> AdjacencyMap {
    Map::new(|v: u64| m.contains_key(v) && !s.contains(v), |v: u64| m[v].difference(s))
}

/// What a successful `prune` does to the model: the pruned vertices leave the
/// vertex store and every remaining adjacency set.
pub open spec fn prune_model(m: AdjacencyMap, x: u64) -> AdjacencyMap {
    removed_map(m, pruned_set(m, x))
}

/// `Vertices` returns the set of the vertices which comprise the dag.
pub trait Vertices: View<V = AdjacencyMap> {
    fn vertices(&self) -> (r: BTreeSet<u64>)
        ensures
            r@ == self@.dom(),
    ;
}

/// `AddVertex` adds the vertex `x`, if it is not there; the adjacency set of
/// a vertex that is already there is left untouched.  The previous adjacency
/// set is returned when the vertex already existed, so a caller can detect
/// whether the insertion was new.
pub trait AddVertex: View<V = AdjacencyMap> {
    fn add_vertex(&mut self, x: u64) -> (prev: Option<BTreeSet<u64>>)
        ensures
            final(self)@ == add_vertex_model(old(self)@, x),
            match prev {
                Some(s) => old(self)@.contains_key(x) && s@ == old(self)@[x],
                None => !old(self)@.contains_key(x),
            },
            dag_wf(old(self)@) ==> dag_wf(final(self)@),
    ;
}

/// `AddEdge` adds an edge from the vertex `x` to the vertex `y`, if it is not
/// there.  The operation fails with `VertexDoesNotExist` when either endpoint
/// is absent, and with `EdgeExistsError` when the edge would close a cycle:
/// when it is a self-loop, or when `x` is already reachable from `y`.  On
/// success the previous adjacency set of `x` is returned.
pub trait AddEdge: View<V = AdjacencyMap> {
    fn add_edge(&mut self, x: u64, y: u64) -> (r: Result<BTreeSet<u64>, Error>)
        ensures
            match r {
                Ok(s) => {
                    &&& old(self)@.contains_key(x)
                    &&& old(self)@.contains_key(y)
                    &&& add_edge_allowed(old(self)@, x, y)
                    &&& s@ == old(self)@[x]
                    &&& final(self)@ == add_edge_model(old(self)@, x, y)
                },
                Err(e) => {
                    &&& final(self)@ == old(self)@
                    &&& if !old(self)@.contains_key(x) || !old(self)@.contains_key(y) {
                        e == Error::VertexDoesNotExist
                    } else {
                        e == Error::EdgeExistsError && !add_edge_allowed(old(self)@, x, y)
                    }
                },
            },
            dag_wf(old(self)@) ==> dag_wf(final(self)@),
    ;
}

/// `GetVertexValue` returns the value associated with the vertex `x`: its
/// adjacency set, or nothing when `x` is absent.
pub trait GetVertexValue: View<V = AdjacencyMap> {
    fn get_vertex_value(&self, x: u64) -> (r: Option<&BTreeSet<u64>>)
        ensures
            match r {
                Some(s) => self@.contains_key(x) && s@ == self@[x],
                None => !self@.contains_key(x),
            },
    ;
}

/// `RemoveEdge` removes the edge from the vertex `x` to the vertex `y`, if it
/// is there.  Removing an absent edge is a no-op, but both endpoints must be
/// stored.  The adjacency set of `x` prior to the removal is returned.
pub trait RemoveEdge: View<V = AdjacencyMap> {
    fn remove_edge(&mut self, x: u64, y: u64) -> (r: Result<BTreeSet<u64>, Error>)
        ensures
            match r {
                Ok(s) => {
                    &&& old(self)@.contains_key(x)
                    &&& old(self)@.contains_key(y)
                    &&& s@ == old(self)@[x]
                    &&& final(self)@ == remove_edge_model(old(self)@, x, y)
                },
                Err(e) => {
                    &&& final(self)@ == old(self)@
                    &&& (!old(self)@.contains_key(x) || !old(self)@.contains_key(y))
                    &&& e == Error::VertexDoesNotExist
                },
            },
            dag_wf(old(self)@) ==> dag_wf(final(self)@),
    ;
}

/// `RemoveVertex` removes the vertex `x`, if it is there.  The removal
/// cascades: every edge pointing at `x` is removed from the other vertices'
/// adjacency sets, so no dangling reference survives.  The adjacency set of
/// `x` prior to the removal is returned.
pub trait RemoveVertex: View<V = AdjacencyMap> {
    fn remove_vertex(&mut self, x: u64) -> (r: Result<BTreeSet<u64>, Error>)
        ensures
            match r {
                Ok(s) => {
                    &&& old(self)@.contains_key(x)
                    &&& s@ == old(self)@[x]
                    &&& final(self)@ == remove_vertex_model(old(self)@, x)
                },
                Err(e) => {
                    &&& final(self)@ == old(self)@
                    &&& !old(self)@.contains_key(x)
                    &&& e == Error::VertexDoesNotExist
                },
            },
            dag_wf(old(self)@) ==> dag_wf(final(self)@),
    ;
}

/// `Adjacent` tests whether there is an edge from the vertex `x` to the
/// vertex `y`.  Directionality matters: `adjacent(x, y)` and `adjacent(y, x)`
/// are independent.  Both endpoints must be stored.
pub trait Adjacent: View<V = AdjacencyMap> {
    fn adjacent(&self, x: u64, y: u64) -> (r: Result<bool, Error>)
        ensures
            match r {
                Ok(b) => {
                    &&& self@.contains_key(x)
                    &&& self@.contains_key(y)
                    &&& b == self@[x].contains(y)
                },
                Err(e) => {
                    &&& (!self@.contains_key(x) || !self@.contains_key(y))
                    &&& e == Error::VertexDoesNotExist
                },
            },
    ;
}

/// `Connections` lists all vertices `y` such that there is an edge from the
/// vertex `x` to the vertex `y`, or nothing when `x` is absent.
pub trait Connections: View<V = AdjacencyMap> {
    fn connections(&self, x: u64) -> (r: Option<&BTreeSet<u64>>)
        ensures
            match r {
                Some(s) => self@.contains_key(x) && s@ == self@[x],
                None => !self@.contains_key(x),
            },
    ;
}

/// `Prune` removes the vertex `x` and recursively removes all vertices
/// transitively reachable from `x`.  Prune fails when `x` does not exist; by
/// the graph's invariant every cascaded removal acts on a vertex that is
/// still present, so no other failure can arise.
pub trait Prune: View<V = AdjacencyMap> {
    fn prune(&mut self, x: u64) -> (r: Result<(), Error>)
        requires
            dag_wf(old(self)@),
        ensures
            dag_wf(final(self)@),
            match r {
                Ok(()) => {
                    &&& old(self)@.contains_key(x)
                    &&& final(self)@ == prune_model(old(self)@, x)
                },
                Err(e) => {
                    &&& final(self)@ == old(self)@
                    &&& !old(self)@.contains_key(x)
                    &&& e == Error::VertexDoesNotExist
                },
            },
    ;
}

} // verus!
