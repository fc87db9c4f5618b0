//! The graph engine: the ordered adjacency map, the cycle guard run before
//! every edge insertion, and the cascading deletions.
use vstd::prelude::*;
use vstd::std_specs::iter::IteratorSpec;

use std::collections::{BTreeMap, BTreeSet};

use crate::api::{add_edge_model, add_vertex_model, remove_edge_model, remove_vertex_model};
use crate::api::{pruned_set, removed_map};
use crate::api::{AddEdge, AddVertex, Adjacent, Connections, GetVertexValue};
use crate::api::{Prune, RemoveEdge, RemoveVertex, Vertices};
use crate::error::Error;
use crate::reachability::{dag_wf, edge, is_path, reaches, AdjacencyMap};
use crate::reachability::{lemma_acyclic_monotonic, lemma_edge_reaches, lemma_reaches_step};
use crate::reachability::{
    lemma_closed_set_contains_reachable, lemma_reachable_is_stored, successor_closed,
};

verus! {

broadcast use vstd::std_specs::btree::group_btree_axioms, vstd::laws_cmp::group_laws_cmp;

/// `BTreeDag` is an implementation of a directed acyclic graph (abstract data
/// structure) which utilizes `BTreeMap` for the vertex adjacency list.
#[derive(PartialEq, Eq, Debug)]
pub struct BTreeDag {
    pub vertices: BTreeMap<u64, BTreeSet<u64>>,
}

impl Clone for BTreeDag {
    /// An independent deep copy with identical vertices and edges, so that a
    /// caller can snapshot the graph before a cascading operation.
    fn clone(&self) -> (r: Self)
        ensures
            r@ == self@,
    {
        BTreeDag { vertices: self.vertices.clone() }
    }
}

impl View for BTreeDag {
    type V = AdjacencyMap;

    open spec fn view(&self) -> AdjacencyMap {
        self.vertices@.map_values(|s: BTreeSet<u64>| s@)
    }
}

impl BTreeDag {
    pub fn new() -> (dag: Self)
        ensures
            dag@ == AdjacencyMap::empty(),
            dag_wf(dag@),
    {
        let vertices: BTreeMap<u64, BTreeSet<u64>> = BTreeMap::new();
        let dag = BTreeDag { vertices };
        proof {
            assert(dag@ =~= AdjacencyMap::empty());
            assert forall|v: u64| !reaches(dag@, v, v) by {
                if reaches(dag@, v, v) {
                    let p = choose|p: Seq<u64>|
                        is_path(dag@, p) && p.len() >= 2 && p.first() == v && p.last() == v;
                    assert(edge(dag@, p[0], p[1]));
                }
            }
        }
        dag
    }

    /// The cycle guard: reports `EdgeExistsError` exactly when `x` can
    /// already be reached from `y` through one or more directed edges, so
    /// that installing an edge from `x` to `y` would close a cycle.
    ///
    /// The search runs over an explicit work list with a visited set, so its
    /// memory use is bounded by the graph itself rather than the call stack.
    pub fn cyclic_relationship_exists(&self, x: u64, y: u64) -> (r: Result<(), Error>)
        ensures
            match r {
                Ok(()) => !reaches(self@, y, x),
                Err(e) => reaches(self@, y, x) && e == Error::EdgeExistsError,
            },
    {
        proof {
            assert(self@.dom() =~= self.vertices@.dom());
        }
        let mut visited: BTreeSet<u64> = BTreeSet::new();
        let mut pending: Vec<u64> = Vec::new();
        pending.push(y);
        proof {
            assert(pending@[0] == y);
            assert(pending@.contains(y));
        }
        loop
            invariant
                visited@.finite(),
                visited@.subset_of(self@.dom()),
                self@.dom().finite(),
                forall|v: u64| #[trigger]
                    pending@.contains(v) ==> v == y || reaches(self@, y, v),
                forall|v: u64| #[trigger]
                    visited@.contains(v) ==> self@.contains_key(v) && !self@[v].contains(x),
                forall|u: u64, w: u64|
                    #[trigger] visited@.contains(u) && #[trigger] self@[u].contains(w)
                        && self@.contains_key(w) ==> visited@.contains(w) || pending@.contains(w),
                visited@.contains(y) || pending@.contains(y) || !self@.contains_key(y),
            decreases self@.dom().len() - visited@.len(), pending@.len(),
        {
            let ghost pend0 = pending@;
            let next = pending.pop();
            match next {
                None => {
                    proof {
                        if self@.contains_key(y) {
                            assert(visited@.contains(y));
                            assert(crate::reachability::successor_closed(self@, visited@)) by {
                                assert forall|u: u64, w: u64| #[trigger]
                                    visited@.contains(u) && #[trigger] edge(self@, u, w)
                                        && self@.contains_key(w) implies visited@.contains(w) by {
                                    assert(self@[u].contains(w));
                                    assert(!pending@.contains(w));
                                }
                            }
                            crate::reachability::lemma_closed_set_blocks(self@, visited@, y, x);
                        } else {
                            crate::reachability::lemma_unreachable_from_absent(self@, y, x);
                        }
                    }
                    return Ok(());
                },
                Some(v) => {
                    proof {
                        assert(v == pend0[pend0.len() - 1]);
                        assert(pend0.contains(v));
                        // After the pop, anything that was pending is either
                        // still pending or is the element just popped, and
                        // everything still pending was pending before.
                        assert forall|w: u64| #[trigger] pend0.contains(w) implies pending@.contains(
                            w,
                        ) || w == v by {
                            let j = choose|j: int| 0 <= j < pend0.len() && pend0[j] == w;
                            if j < pend0.len() - 1 {
                                assert(pending@[j] == w);
                            }
                        }
                        assert forall|w: u64| #[trigger] pending@.contains(w) implies pend0.contains(
                            w,
                        ) by {
                            let j = choose|j: int| 0 <= j < pending@.len() && pending@[j] == w;
                            assert(pend0[j] == w);
                        }
                    }
                    if !visited.contains(&v) {
                        match self.vertices.get(&v) {
                            None => {
                                proof {
                                    assert(!self@.contains_key(v));
                                }
                            },
                            Some(adj) => {
                                proof {
                                    assert(self@.contains_key(v));
                                    assert(self@[v] == adj@);
                                }
                                if adj.contains(&x) {
                                    proof {
                                        assert(edge(self@, v, x));
                                        if v == y {
                                            lemma_edge_reaches(self@, y, x);
                                        } else {
                                            lemma_reaches_step(self@, y, v, x);
                                        }
                                    }
                                    return Err(Error::EdgeExistsError);
                                }
                                visited.insert(v);
                                proof {
                                    vstd::set_lib::lemma_len_subset(visited@, self@.dom());
                                    assert forall|w: u64| #[trigger] adj@.contains(w) implies reaches(
                                        self@,
                                        y,
                                        w,
                                    ) by {
                                        assert(edge(self@, v, w));
                                        if v == y {
                                            lemma_edge_reaches(self@, y, w);
                                        } else {
                                            lemma_reaches_step(self@, y, v, w);
                                        }
                                    }
                                }
                                let ghost pend_popped = pending@;
                                let mut elems = set_elements(adj);
                                let ghost elem_seq = elems@;
                                pending.append(&mut elems);
                                proof {
                                    assert(pending@ == pend_popped + elem_seq);
                                    assert forall|w: u64| #[trigger] pend_popped.contains(
                                        w,
                                    ) implies pending@.contains(w) by {
                                        let j = choose|j: int|
                                            0 <= j < pend_popped.len() && pend_popped[j] == w;
                                        assert(pending@[j] == w);
                                    }
                                    assert forall|w: u64| #[trigger] adj@.contains(w) implies pending@.contains(
                                        w,
                                    ) by {
                                        assert(elem_seq.to_set().contains(w));
                                        let j = choose|j: int|
                                            0 <= j < elem_seq.len() && elem_seq[j] == w;
                                        assert(pending@[pend_popped.len() + j] == w);
                                    }
                                    assert forall|w: u64| #[trigger] pending@.contains(w) implies (w
                                        == y || reaches(self@, y, w)) by {
                                        let j = choose|j: int|
                                            0 <= j < pending@.len() && pending@[j] == w;
                                        if j < pend_popped.len() {
                                            assert(pend_popped[j] == w);
                                            assert(pend_popped.contains(w));
                                            assert(pend0.contains(w));
                                        } else {
                                            assert(elem_seq[j - pend_popped.len()] == w);
                                            assert(elem_seq.to_set().contains(w));
                                            assert(adj@.contains(w));
                                        }
                                    }
                                }
                            },
                        }
                    }
                },
            }
        }
    }

    /// All vertices that pruning `x` removes: `x` itself and every vertex
    /// transitively reachable from it, collected over an explicit work list.
    fn reachable_closure(&self, x: u64) -> (r: BTreeSet<u64>)
        requires
            dag_wf(self@),
            self@.contains_key(x),
        ensures
            r@ == pruned_set(self@, x),
    {
        proof {
            assert(self@.dom() =~= self.vertices@.dom());
        }
        let mut visited: BTreeSet<u64> = BTreeSet::new();
        let mut pending: Vec<u64> = Vec::new();
        pending.push(x);
        proof {
            assert(pending@[0] == x);
            assert(pending@.contains(x));
        }
        loop
            invariant
                dag_wf(self@),
                self@.contains_key(x),
                visited@.finite(),
                visited@.subset_of(self@.dom()),
                self@.dom().finite(),
                forall|v: u64| #[trigger]
                    pending@.contains(v) ==> v == x || reaches(self@, x, v),
                forall|v: u64| #[trigger]
                    visited@.contains(v) ==> v == x || reaches(self@, x, v),
                forall|u: u64, w: u64|
                    #[trigger] visited@.contains(u) && #[trigger] self@[u].contains(w)
                        ==> visited@.contains(w) || pending@.contains(w),
                visited@.contains(x) || pending@.contains(x),
            decreases self@.dom().len() - visited@.len(), pending@.len(),
        {
            let ghost pend0 = pending@;
            let next = pending.pop();
            match next {
                None => {
                    proof {
                        assert(visited@.contains(x));
                        assert(successor_closed(self@, visited@)) by {
                            assert forall|u: u64, w: u64| #[trigger]
                                visited@.contains(u) && #[trigger] edge(self@, u, w)
                                    && self@.contains_key(w) implies visited@.contains(w) by {
                                assert(self@[u].contains(w));
                                assert(!pending@.contains(w));
                            }
                        }
                        assert(visited@ =~= pruned_set(self@, x)) by {
                            assert forall|v: u64| #[trigger]
                                pruned_set(self@, x).contains(v) implies visited@.contains(v) by {
                                if v != x {
                                    lemma_reachable_is_stored(self@, x, v);
                                    lemma_closed_set_contains_reachable(self@, visited@, x, v);
                                }
                            }
                        }
                    }
                    return visited;
                },
                Some(v) => {
                    proof {
                        assert(v == pend0[pend0.len() - 1]);
                        assert(pend0.contains(v));
                        assert forall|w: u64| #[trigger] pend0.contains(w) implies pending@.contains(
                            w,
                        ) || w == v by {
                            let j = choose|j: int| 0 <= j < pend0.len() && pend0[j] == w;
                            if j < pend0.len() - 1 {
                                assert(pending@[j] == w);
                            }
                        }
                        assert forall|w: u64| #[trigger] pending@.contains(w) implies pend0.contains(
                            w,
                        ) by {
                            let j = choose|j: int| 0 <= j < pending@.len() && pending@[j] == w;
                            assert(pend0[j] == w);
                        }
                    }
                    if !visited.contains(&v) {
                        proof {
                            if v != x {
                                lemma_reachable_is_stored(self@, x, v);
                            }
                        }
                        let adj = self.vertices.get(&v).unwrap();
                        visited.insert(v);
                        proof {
                            vstd::set_lib::lemma_len_subset(visited@, self@.dom());
                            assert(self@[v] == adj@);
                            assert forall|w: u64| #[trigger] adj@.contains(w) implies reaches(
                                self@,
                                x,
                                w,
                            ) by {
                                assert(edge(self@, v, w));
                                if v == x {
                                    lemma_edge_reaches(self@, x, w);
                                } else {
                                    lemma_reaches_step(self@, x, v, w);
                                }
                            }
                        }
                        let ghost pend_popped = pending@;
                        let mut elems = set_elements(adj);
                        let ghost elem_seq = elems@;
                        pending.append(&mut elems);
                        proof {
                            assert(pending@ == pend_popped + elem_seq);
                            assert forall|w: u64| #[trigger] pend_popped.contains(
                                w,
                            ) implies pending@.contains(w) by {
                                let j = choose|j: int|
                                    0 <= j < pend_popped.len() && pend_popped[j] == w;
                                assert(pending@[j] == w);
                            }
                            assert forall|w: u64| #[trigger] adj@.contains(w) implies pending@.contains(
                                w,
                            ) by {
                                assert(elem_seq.to_set().contains(w));
                                let j = choose|j: int| 0 <= j < elem_seq.len() && elem_seq[j] == w;
                                assert(pending@[pend_popped.len() + j] == w);
                            }
                            assert forall|w: u64| #[trigger] pending@.contains(w) implies (w == x
                                || reaches(self@, x, w)) by {
                                let j = choose|j: int|
                                    0 <= j < pending@.len() && pending@[j] == w;
                                if j < pend_popped.len() {
                                    assert(pend_popped[j] == w);
                                    assert(pend_popped.contains(w));
                                    assert(pend0.contains(w));
                                } else {
                                    assert(elem_seq[j - pend_popped.len()] == w);
                                    assert(elem_seq.to_set().contains(w));
                                    assert(adj@.contains(w));
                                }
                            }
                        }
                    }
                },
            }
        }
    }
}

impl Default for BTreeDag {
    fn default() -> (dag: Self)
        ensures
            dag@ == AdjacencyMap::empty(),
            dag_wf(dag@),
    {
        BTreeDag::new()
    }
}

impl Vertices for BTreeDag {
    fn vertices(&self) -> (r: BTreeSet<u64>) {
        let keys = map_keys(&self.vertices);
        proof {
            assert(self@.dom() =~= self.vertices@.dom());
        }
        let mut r: BTreeSet<u64> = BTreeSet::new();
        let mut i: usize = 0;
        while i < keys.len()
            invariant
                i <= keys@.len(),
                keys@.to_set() == self@.dom(),
                r@ == keys@.take(i as int).to_set(),
            decreases keys@.len() - i,
        {
            proof {
                assert(keys@.take(i + 1) =~= keys@.take(i as int).push(keys@[i as int]));
                keys@.take(i as int).lemma_push_to_set_commute(keys@[i as int]);
            }
            r.insert(keys[i]);
            i = i + 1;
        }
        proof {
            assert(keys@.take(keys@.len() as int) =~= keys@);
        }
        r
    }
}

impl AddVertex for BTreeDag {
    fn add_vertex(&mut self, x: u64) -> (prev: Option<BTreeSet<u64>>) {
        let r = match self.vertices.get(&x) {
            Some(adj) => Some(adj.clone()),
            None => {
                self.vertices.insert(x, BTreeSet::new());
                None
            },
        };
        proof {
            if old(self)@.contains_key(x) {
                assert(self@ =~= add_vertex_model(old(self)@, x));
            } else {
                assert(self@ =~= old(self)@.insert(x, Set::empty()));
                if dag_wf(old(self)@) {
                    lemma_add_isolated_vertex_wf(old(self)@, x);
                }
            }
        }
        r
    }
}

impl AddEdge for BTreeDag {
    fn add_edge(&mut self, x: u64, y: u64) -> (r: Result<BTreeSet<u64>, Error>) {
        if self.vertices.contains_key(&y) {
            if self.vertices.contains_key(&x) {
                if x == y {
                    return Err(Error::EdgeExistsError);
                }
                if let Err(e) = self.cyclic_relationship_exists(x, y) {
                    return Err(e);
                }
                let prev = self.vertices.get(&x).unwrap().clone();
                let mut adj = prev.clone();
                adj.insert(y);
                self.vertices.insert(x, adj);
                proof {
                    assert(self@ =~= add_edge_model(old(self)@, x, y));
                    if dag_wf(old(self)@) {
                        assert forall|a: u64, b: u64| edge(self@, a, b) implies self@.contains_key(
                            b,
                        ) by {
                            if a == x && b != y {
                                assert(edge(old(self)@, x, b));
                            } else if a != x {
                                assert(edge(old(self)@, a, b));
                            }
                        }
                        crate::reachability::lemma_add_edge_keeps_acyclic(old(self)@, x, y);
                    }
                }
                return Ok(prev);
            }
        }
        Err(Error::VertexDoesNotExist)
    }
}

impl GetVertexValue for BTreeDag {
    fn get_vertex_value(&self, x: u64) -> (r: Option<&BTreeSet<u64>>) {
        self.vertices.get(&x)
    }
}

impl Connections for BTreeDag {
    fn connections(&self, x: u64) -> (r: Option<&BTreeSet<u64>>) {
        self.vertices.get(&x)
    }
}

impl Adjacent for BTreeDag {
    fn adjacent(&self, x: u64, y: u64) -> (r: Result<bool, Error>) {
        if self.vertices.contains_key(&y) {
            if let Some(adj_x) = self.vertices.get(&x) {
                return Ok(adj_x.contains(&y));
            }
        }
        Err(Error::VertexDoesNotExist)
    }
}

impl RemoveEdge for BTreeDag {
    fn remove_edge(&mut self, x: u64, y: u64) -> (r: Result<BTreeSet<u64>, Error>) {
        if self.vertices.contains_key(&y) {
            if self.vertices.contains_key(&x) {
                let prev = self.vertices.get(&x).unwrap().clone();
                let mut adj = prev.clone();
                adj.remove(&y);
                self.vertices.insert(x, adj);
                proof {
                    assert(self@ =~= remove_edge_model(old(self)@, x, y));
                    if dag_wf(old(self)@) {
                        lemma_fewer_edges_wf(old(self)@, self@);
                    }
                }
                return Ok(prev);
            }
        }
        Err(Error::VertexDoesNotExist)
    }
}

impl RemoveVertex for BTreeDag {
    fn remove_vertex(&mut self, x: u64) -> (r: Result<BTreeSet<u64>, Error>) {
        let prev = match self.vertices.remove(&x) {
            Some(s) => s,
            None => {
                return Err(Error::VertexDoesNotExist);
            },
        };
        let ghost mid = self@;
        proof {
            assert(self.vertices@ =~= old(self).vertices@.remove(x));
            assert(mid =~= old(self)@.remove(x));
        }
        let keys = map_keys(&self.vertices);
        proof {
            assert(self@.dom() =~= self.vertices@.dom());
        }
        let mut i: usize = 0;
        while i < keys.len()
            invariant
                i <= keys@.len(),
                keys@.to_set() == mid.dom(),
                self@.dom() == mid.dom(),
                forall|k: u64| #[trigger]
                    mid.dom().contains(k) ==> self@[k] == if keys@.take(
                        i as int,
                    ).to_set().contains(k) {
                        mid[k].remove(x)
                    } else {
                        mid[k]
                    },
            decreases keys@.len() - i,
        {
            let k = keys[i];
            proof {
                assert(keys@.to_set().contains(k));
                assert(keys@.take(i + 1) =~= keys@.take(i as int).push(k));
                keys@.take(i as int).lemma_push_to_set_commute(k);
            }
            let ghost pre = self@;
            let adj = self.vertices.get(&k).unwrap();
            if adj.contains(&x) {
                let mut s = adj.clone();
                s.remove(&x);
                self.vertices.insert(k, s);
                proof {
                    assert(self@ =~= pre.insert(k, pre[k].remove(x)));
                }
            } else {
                proof {
                    assert(pre[k].remove(x) =~= pre[k]);
                }
            }
            proof {
                assert(mid[k].remove(x).remove(x) =~= mid[k].remove(x));
            }
            i = i + 1;
        }
        proof {
            assert(keys@.take(keys@.len() as int) =~= keys@);
            assert(self@ =~= remove_vertex_model(old(self)@, x));
            if dag_wf(old(self)@) {
                lemma_remove_vertex_wf(old(self)@, x);
            }
        }
        Ok(prev)
    }
}

impl Prune for BTreeDag {
    fn prune(&mut self, x: u64) -> (r: Result<(), Error>) {
        proof {
            assert(self@.dom() =~= self.vertices@.dom());
        }
        if !self.vertices.contains_key(&x) {
            return Err(Error::VertexDoesNotExist);
        }
        let removals = self.reachable_closure(x);
        let removal_list = set_elements(&removals);
        let ghost orig = self@;
        let ghost r_set = pruned_set(orig, x);
        proof {
            assert(self@ =~~= removed_map(orig, removal_list@.take(0).to_set()));
        }
        let mut i: usize = 0;
        while i < removal_list.len()
            invariant
                i <= removal_list@.len(),
                removal_list@.to_set() == r_set,
                r_set == pruned_set(orig, x),
                orig.contains_key(x),
                dag_wf(orig),
                dag_wf(self@),
                self@ == removed_map(orig, removal_list@.take(i as int).to_set()),
            decreases removal_list@.len() - i,
        {
            let v = removal_list[i];
            let ghost done = removal_list@.take(i as int).to_set();
            proof {
                assert(removal_list@.to_set().contains(v));
                assert(removal_list@.take(i + 1) =~= removal_list@.take(i as int).push(v));
                removal_list@.take(i as int).lemma_push_to_set_commute(v);
                if v != x {
                    lemma_reachable_is_stored(orig, x, v);
                }
                assert(orig.contains_key(v));
            }
            let stored = self.vertices.contains_key(&v);
            proof {
                assert(stored == self@.contains_key(v));
            }
            if stored {
                let prior = self.remove_vertex(v);
                proof {
                    assert(prior is Ok);
                    assert(self@ =~~= removed_map(orig, done.insert(v)));
                }
            } else {
                proof {
                    assert(done.contains(v));
                    assert(done.insert(v) =~= done);
                }
            }
            i = i + 1;
        }
        proof {
            assert(removal_list@.take(removal_list@.len() as int) =~= removal_list@);
            assert(self@ == removed_map(orig, r_set));
        }
        Ok(())
    }
}

/// Removing a vertex, together with every edge pointing at it, preserves the
/// graph invariant.
proof fn lemma_remove_vertex_wf(m: AdjacencyMap, x: u64)
    requires
        dag_wf(m),
    ensures
        dag_wf(remove_vertex_model(m, x)),
{
    let m2 = remove_vertex_model(m, x);
    assert forall|a: u64, b: u64| edge(m2, a, b) implies edge(m, a, b) by {
        assert(m2[a] == m[a].remove(x));
    }
    lemma_acyclic_monotonic(m, m2);
    assert forall|a: u64, b: u64| edge(m2, a, b) implies m2.contains_key(b) by {
        assert(edge(m, a, b));
        assert(b != x);
    }
}

/// Dropping edges (while keeping every edge target stored) preserves the
/// graph invariant.
proof fn lemma_fewer_edges_wf(m: AdjacencyMap, m2: AdjacencyMap)
    requires
        dag_wf(m),
        forall|a: u64, b: u64| edge(m2, a, b) ==> edge(m, a, b),
        forall|b: u64| m.contains_key(b) ==> m2.contains_key(b),
    ensures
        dag_wf(m2),
{
    lemma_acyclic_monotonic(m, m2);
    assert forall|a: u64, b: u64| edge(m2, a, b) implies m2.contains_key(b) by {
        assert(edge(m, a, b));
    }
}

/// Inserting a fresh vertex with no adjacencies preserves the graph
/// invariant.
proof fn lemma_add_isolated_vertex_wf(m: AdjacencyMap, x: u64)
    requires
        dag_wf(m),
        !m.contains_key(x),
    ensures
        dag_wf(m.insert(x, Set::empty())),
{
    let m2 = m.insert(x, Set::empty());
    assert forall|a: u64, b: u64| edge(m2, a, b) implies edge(m, a, b) by {
        if a == x {
            assert(!m2[a].contains(b));
        }
    }
    lemma_acyclic_monotonic(m, m2);
    assert forall|a: u64, b: u64| edge(m2, a, b) implies m2.contains_key(b) by {
        assert(edge(m, a, b));
    }
}

/// The keys of an adjacency map, gathered into a vector.
fn map_keys(m: &BTreeMap<u64, BTreeSet<u64>>) -> (r: Vec<u64>)
    ensures
        r@.to_set() == m@.dom(),
{
    let ghost key_seq: Seq<u64> = m.keys().remaining().unref();
    let mut r: Vec<u64> = Vec::new();
    for k in it: m.keys()
        invariant
            it.seq().unref() == key_seq,
            r@ == key_seq.take(it.index()),
    {
        proof {
            assert(key_seq.take(it.index() + 1) =~= key_seq.take(it.index()).push(*k));
        }
        r.push(*k);
    }
    proof {
        assert(key_seq.take(key_seq.len() as int) =~= key_seq);
    }
    r
}

/// The elements of an adjacency set, gathered into a vector.
fn set_elements(s: &BTreeSet<u64>) -> (r: Vec<u64>)
    ensures
        r@.to_set() == s@,
{
    let ghost elem_seq: Seq<u64> = s.iter().remaining().unref();
    let mut r: Vec<u64> = Vec::new();
    for k in it: s.iter()
        invariant
            it.seq().unref() == elem_seq,
            r@ == elem_seq.take(it.index()),
    {
        proof {
            assert(elem_seq.take(it.index() + 1) =~= elem_seq.take(it.index()).push(*k));
        }
        r.push(*k);
    }
    proof {
        assert(elem_seq.take(elem_seq.len() as int) =~= elem_seq);
    }
    r
}

} // verus!
