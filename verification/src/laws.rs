//! Laws of the graph, stated over the same model and spec functions that the
//! operation contracts use, and proved once and for all.
use vstd::prelude::*;

use crate::api::{add_edge_allowed, add_edge_model, add_vertex_model};
use crate::api::{prune_model, pruned_set, remove_vertex_model};
use crate::reachability::{
    acyclic, dag_wf, edge, lemma_add_edge_keeps_acyclic, lemma_edge_reaches, reaches, AdjacencyMap,
};

verus! {

/// Acyclicity: a well-formed graph has no vertex that reaches itself, and a
/// successful `add_edge` keeps the graph well-formed.  Since `new` yields a
/// well-formed graph and every operation's contract preserves
/// well-formedness, no sequence of successful `add_edge` calls can ever make
/// a vertex reachable from itself.
pub proof fn lemma_acyclicity(m: AdjacencyMap, x: u64, y: u64)
    requires
        dag_wf(m),
        m.contains_key(x),
        m.contains_key(y),
        add_edge_allowed(m, x, y),
    ensures
        forall|v: u64| !reaches(m, v, v),
        dag_wf(add_edge_model(m, x, y)),
        forall|v: u64| !reaches(add_edge_model(m, x, y), v, v),
{
    let m2 = add_edge_model(m, x, y);
    assert forall|a: u64, b: u64| edge(m2, a, b) implies m2.contains_key(b) by {
        if a == x && b != y {
            assert(edge(m, x, b));
        } else if a != x {
            assert(edge(m, a, b));
        }
    }
    lemma_add_edge_keeps_acyclic(m, x, y);
}

/// Idempotent vertex insert: adding a vertex twice in a row leaves the graph
/// — and in particular the vertex's adjacency set, as `connections` reports
/// it — exactly as adding it once does.
pub proof fn lemma_add_vertex_idempotent(m: AdjacencyMap, x: u64)
    ensures
        add_vertex_model(add_vertex_model(m, x), x) == add_vertex_model(m, x),
        add_vertex_model(add_vertex_model(m, x), x)[x] == add_vertex_model(m, x)[x],
{
    assert(add_vertex_model(m, x).contains_key(x));
}

/// Directionality: when an edge from `x` to `y` may be installed, the
/// resulting graph answers `adjacent(x, y)` with true and `adjacent(y, x)`
/// with false — the reverse edge cannot exist, or `x` would have been
/// reachable from `y`.
pub proof fn lemma_add_edge_directional(m: AdjacencyMap, x: u64, y: u64)
    requires
        m.contains_key(x),
        m.contains_key(y),
        add_edge_allowed(m, x, y),
    ensures
        add_edge_model(m, x, y)[x].contains(y),
        !add_edge_model(m, x, y)[y].contains(x),
{
    let m2 = add_edge_model(m, x, y);
    if m2[y].contains(x) {
        assert(m[y].contains(x));
        lemma_edge_reaches(m, y, x);
    }
}

/// Cascading edge removal: after a vertex is removed, no remaining vertex
/// lists it as a successor.
pub proof fn lemma_remove_vertex_cascades(m: AdjacencyMap, x: u64, v: u64)
    requires
        remove_vertex_model(m, x).contains_key(v),
    ensures
        !remove_vertex_model(m, x)[v].contains(x),
{
}

/// Prune completeness: pruning `x` removes exactly `x` and the vertices that
/// were transitively reachable from `x`; every other vertex survives, its
/// adjacency set reduced by the removed vertices alone — so a vertex with no
/// edge into the removed set keeps its adjacency set unchanged.
pub proof fn lemma_prune_completeness(m: AdjacencyMap, x: u64, v: u64)
    ensures
        pruned_set(m, x).contains(v) ==> !prune_model(m, x).contains_key(v),
        m.contains_key(v) && !pruned_set(m, x).contains(v) ==> {
            &&& prune_model(m, x).contains_key(v)
            &&& prune_model(m, x)[v] == m[v].difference(pruned_set(m, x))
            &&& (m[v].disjoint(pruned_set(m, x)) ==> prune_model(m, x)[v] == m[v])
        },
{
    if m.contains_key(v) && !pruned_set(m, x).contains(v) && m[v].disjoint(pruned_set(m, x)) {
        assert(m[v].difference(pruned_set(m, x)) =~= m[v]);
    }
}

/// Acyclicity rules out self-loops outright: in a well-formed graph no
/// vertex lists itself as a successor.
pub proof fn lemma_no_self_loops(m: AdjacencyMap, v: u64)
    requires
        acyclic(m),
        m.contains_key(v),
    ensures
        !m[v].contains(v),
{
    if m[v].contains(v) {
        lemma_edge_reaches(m, v, v);
    }
}

} // verus!
