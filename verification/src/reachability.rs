//! The mathematical model of the graph: a `Map` from each vertex to its set
//! of direct successors, the reachability relation induced by that map, and
//! the lemmas about reachability that the executable operations are proved
//! against.
use vstd::prelude::*;

verus! {

/// The model of a graph: each stored vertex maps to the set of vertices it
/// has a direct outgoing edge to.
pub type AdjacencyMap = Map<u64, Set<u64>>;

/// There is a direct edge from `a` to `b`.
pub open spec fn edge(m: AdjacencyMap, a: u64, b: u64) -> bool {
    m.contains_key(a) && m[a].contains(b)
}

/// `p` lists vertices that consecutive direct edges of `m` run through.
pub open spec fn is_path(m: AdjacencyMap, p: Seq<u64>) -> bool {
    forall|i: int| 0 <= i < p.len() - 1 ==> edge(m, #[trigger] p[i], p[i + 1])
}

/// `y` can be reached from `x` through one or more direct edges.
pub open spec fn reaches(m: AdjacencyMap, x: u64, y: u64) -> bool {
    exists|p: Seq<u64>|
        is_path(m, p) && p.len() >= 2 && p.first() == x && p.last() == y
}

/// No chain of outgoing edges starting at some vertex returns to that vertex.
pub open spec fn acyclic(m: AdjacencyMap) -> bool {
    forall|v: u64| !reaches(m, v, v)
}

/// Referential integrity: every vertex appearing in an adjacency set is also
/// stored as a key.
pub open spec fn integral(m: AdjacencyMap) -> bool {
    forall|a: u64, b: u64| edge(m, a, b) ==> m.contains_key(b)
}

/// The invariant every graph operation preserves.
pub open spec fn dag_wf(m: AdjacencyMap) -> bool {
    integral(m) && acyclic(m)
}

/// A single direct edge is a (two-vertex) path.
pub proof fn lemma_edge_reaches(m: AdjacencyMap, a: u64, b: u64)
    requires
        edge(m, a, b),
    ensures
        reaches(m, a, b),
{
    let p = seq![a, b];
    assert(is_path(m, p));
    assert(p.first() == a && p.last() == b);
}

/// Reachability extends across one more direct edge.
pub proof fn lemma_reaches_step(m: AdjacencyMap, a: u64, b: u64, c: u64)
    requires
        reaches(m, a, b),
        edge(m, b, c),
    ensures
        reaches(m, a, c),
{
    let p = choose|p: Seq<u64>|
        is_path(m, p) && p.len() >= 2 && p.first() == a && p.last() == b;
    let q = p.push(c);
    assert(is_path(m, q)) by {
        assert forall|i: int| 0 <= i < q.len() - 1 implies edge(m, #[trigger] q[i], q[i + 1]) by {
            if i < p.len() - 1 {
                assert(edge(m, p[i], p[i + 1]));
            } else {
                assert(q[i] == p.last() && q[i + 1] == c);
            }
        }
    }
    assert(q.first() == a && q.last() == c);
}

/// `s` is closed under following direct edges to stored vertices.
pub open spec fn successor_closed(m: AdjacencyMap, s: Set<u64>) -> bool {
    forall|v: u64, w: u64|
        #[trigger] s.contains(v) && #[trigger] edge(m, v, w) && m.contains_key(w) ==> s.contains(w)
}

/// Nothing at all can be reached from a vertex that is not stored: every
/// path needs a first edge, and edges only leave stored vertices.
pub proof fn lemma_unreachable_from_absent(m: AdjacencyMap, y: u64, x: u64)
    requires
        !m.contains_key(y),
    ensures
        !reaches(m, y, x),
{
    if reaches(m, y, x) {
        let p = choose|p: Seq<u64>|
            is_path(m, p) && p.len() >= 2 && p.first() == y && p.last() == x;
        assert(edge(m, p[0], p[1]));
    }
}

/// Every vertex on a path whose start lies in a successor-closed set `s`
/// stays in `s` (the final vertex only provably so when it is itself
/// stored: only then does the closure of `s` speak of it).
pub proof fn lemma_path_stays(m: AdjacencyMap, s: Set<u64>, p: Seq<u64>)
    requires
        is_path(m, p),
        p.len() >= 1,
        s.contains(p.first()),
        successor_closed(m, s),
    ensures
        forall|i: int| 0 <= i < p.len() - 1 ==> s.contains(#[trigger] p[i]),
        m.contains_key(p.last()) ==> s.contains(p.last()),
    decreases p.len(),
{
    if p.len() == 2 {
        assert(edge(m, p[0], p[1]));
    } else if p.len() >= 3 {
        assert(edge(m, p[0], p[1]));
        assert(edge(m, p[1], p[2]));
        assert(s.contains(p[1]));
        let q = p.drop_first();
        assert(is_path(m, q)) by {
            assert forall|i: int| 0 <= i < q.len() - 1 implies edge(m, #[trigger] q[i], q[i + 1]) by {
                assert(edge(m, p[i + 1], p[i + 2]));
            }
        }
        lemma_path_stays(m, s, q);
        assert forall|i: int| 0 <= i < p.len() - 1 implies s.contains(#[trigger] p[i]) by {
            if i >= 1 {
                assert(s.contains(q[i - 1]));
            }
        }
        assert(p.last() == q.last());
    }
}

/// From a vertex of a successor-closed set `s` none of whose members has an
/// edge to `x`, the vertex `x` cannot be reached.
pub proof fn lemma_closed_set_blocks(m: AdjacencyMap, s: Set<u64>, y: u64, x: u64)
    requires
        s.contains(y),
        successor_closed(m, s),
        forall|v: u64| s.contains(v) && m.contains_key(v) ==> !(#[trigger] m[v]).contains(x),
    ensures
        !reaches(m, y, x),
{
    if reaches(m, y, x) {
        let p = choose|p: Seq<u64>|
            is_path(m, p) && p.len() >= 2 && p.first() == y && p.last() == x;
        lemma_path_stays(m, s, p);
        let k = p.len() - 2;
        assert(s.contains(p[k]));
        assert(edge(m, p[k], p[k + 1]));
        assert(m[p[k]].contains(x));
    }
}

/// Everything reachable from a vertex of a successor-closed set `s` and
/// itself stored lies in `s`.
pub proof fn lemma_closed_set_contains_reachable(m: AdjacencyMap, s: Set<u64>, x: u64, v: u64)
    requires
        s.contains(x),
        successor_closed(m, s),
        reaches(m, x, v),
        m.contains_key(v),
    ensures
        s.contains(v),
{
    let p = choose|p: Seq<u64>|
        is_path(m, p) && p.len() >= 2 && p.first() == x && p.last() == v;
    lemma_path_stays(m, s, p);
}

/// Under referential integrity, everything reachable is itself stored: it
/// arrives through an edge, and edges only point at stored vertices.
pub proof fn lemma_reachable_is_stored(m: AdjacencyMap, x: u64, v: u64)
    requires
        integral(m),
        reaches(m, x, v),
    ensures
        m.contains_key(v),
{
    let p = choose|p: Seq<u64>|
        is_path(m, p) && p.len() >= 2 && p.first() == x && p.last() == v;
    assert(edge(m, p[p.len() - 2], p[p.len() - 1]));
}

/// Reachability only shrinks when edges are taken away: every path of a map
/// whose edges all occur in `m1` is a path of `m1`.
pub proof fn lemma_reaches_monotonic(m1: AdjacencyMap, m2: AdjacencyMap, x: u64, y: u64)
    requires
        forall|a: u64, b: u64| edge(m2, a, b) ==> edge(m1, a, b),
        reaches(m2, x, y),
    ensures
        reaches(m1, x, y),
{
    let p = choose|p: Seq<u64>|
        is_path(m2, p) && p.len() >= 2 && p.first() == x && p.last() == y;
    assert(is_path(m1, p)) by {
        assert forall|i: int| 0 <= i < p.len() - 1 implies edge(m1, #[trigger] p[i], p[i + 1]) by {
            assert(edge(m2, p[i], p[i + 1]));
        }
    }
}

/// Two paths whose junction is itself an edge join into one path.
pub proof fn lemma_path_join(m: AdjacencyMap, p1: Seq<u64>, p2: Seq<u64>)
    requires
        is_path(m, p1),
        is_path(m, p2),
        p1.len() >= 1,
        p2.len() >= 1,
        edge(m, p1.last(), p2.first()),
    ensures
        is_path(m, p1 + p2),
{
    let q = p1 + p2;
    assert forall|i: int| 0 <= i < q.len() - 1 implies edge(m, #[trigger] q[i], q[i + 1]) by {
        if i < p1.len() - 1 {
            assert(q[i] == p1[i] && q[i + 1] == p1[i + 1]);
            assert(edge(m, p1[i], p1[i + 1]));
        } else if i == p1.len() - 1 {
            assert(q[i] == p1.last() && q[i + 1] == p2[0]);
        } else {
            assert(q[i] == p2[i - p1.len()] && q[i + 1] == p2[i + 1 - p1.len()]);
            assert(edge(m, p2[i - p1.len()], p2[i - p1.len() + 1]));
        }
    }
}

/// A path of the extended map that runs from `y` to `x` witnesses that `x`
/// was reachable from `y` before the edge from `x` to `y` was added: cutting
/// the path at its first visit to `x` leaves a path that never leaves `x`,
/// so it only uses old edges.
proof fn lemma_new_path_back(m: AdjacencyMap, x: u64, y: u64, p: Seq<u64>)
    requires
        m.contains_key(x),
        x != y,
        is_path(m.insert(x, m[x].insert(y)), p),
        p.len() >= 2,
        p.first() == y,
        p.last() == x,
    ensures
        reaches(m, y, x),
    decreases p.len(),
{
    let m2 = m.insert(x, m[x].insert(y));
    if exists|j: int| 1 <= j < p.len() - 1 && p[j] == x {
        let j = choose|j: int| 1 <= j < p.len() - 1 && p[j] == x;
        let q = p.subrange(0, j + 1);
        assert(is_path(m2, q)) by {
            assert forall|i: int| 0 <= i < q.len() - 1 implies edge(m2, #[trigger] q[i], q[i + 1]) by {
                assert(edge(m2, p[i], p[i + 1]));
            }
        }
        lemma_new_path_back(m, x, y, q);
    } else {
        assert(is_path(m, p)) by {
            assert forall|i: int| 0 <= i < p.len() - 1 implies edge(m, #[trigger] p[i], p[i + 1]) by {
                assert(edge(m2, p[i], p[i + 1]));
                assert(p[i] != x);
            }
        }
    }
}

/// A cycle of the extended map that runs through `x` betrays an old
/// reachability: its first edge either is the new edge, whose remainder is
/// an old path from `y` back to `x`, or an old edge, in which case the whole
/// cycle already existed.
proof fn lemma_cycle_through_x(m: AdjacencyMap, x: u64, y: u64, q: Seq<u64>)
    requires
        m.contains_key(x),
        x != y,
        is_path(m.insert(x, m[x].insert(y)), q),
        q.len() >= 2,
        q.first() == x,
        q.last() == x,
    ensures
        reaches(m, y, x) || reaches(m, x, x),
    decreases q.len(),
{
    let m2 = m.insert(x, m[x].insert(y));
    if exists|j: int| 1 <= j < q.len() - 1 && q[j] == x {
        let j = choose|j: int| 1 <= j < q.len() - 1 && q[j] == x;
        let q2 = q.subrange(0, j + 1);
        assert(is_path(m2, q2)) by {
            assert forall|i: int| 0 <= i < q2.len() - 1 implies edge(m2, #[trigger] q2[i], q2[i + 1]) by {
                assert(edge(m2, q[i], q[i + 1]));
            }
        }
        lemma_cycle_through_x(m, x, y, q2);
    } else {
        assert(edge(m2, q[0], q[1]));
        if q[1] == y {
            assert(q.len() > 2) by {
                if q.len() == 2 {
                    assert(q[1] == q.last());
                }
            }
            let t = q.subrange(1, q.len() as int);
            assert(is_path(m2, t)) by {
                assert forall|i: int| 0 <= i < t.len() - 1 implies edge(m2, #[trigger] t[i], t[i + 1]) by {
                    assert(edge(m2, q[i + 1], q[i + 2]));
                }
            }
            assert(t.first() == y && t.last() == x && t.len() >= 2);
            lemma_new_path_back(m, x, y, t);
        } else {
            assert(m[x].contains(q[1]));
            assert(is_path(m, q)) by {
                assert forall|i: int| 0 <= i < q.len() - 1 implies edge(m, #[trigger] q[i], q[i + 1]) by {
                    assert(edge(m2, q[i], q[i + 1]));
                    if i > 0 {
                        assert(q[i] != x);
                    }
                }
            }
            assert(reaches(m, x, x));
        }
    }
}

/// Adding an edge from `x` to `y` keeps the graph acyclic, provided the edge
/// is no self-loop and `x` was not reachable from `y`.
pub proof fn lemma_add_edge_keeps_acyclic(m: AdjacencyMap, x: u64, y: u64)
    requires
        acyclic(m),
        !reaches(m, y, x),
        m.contains_key(x),
        x != y,
    ensures
        acyclic(m.insert(x, m[x].insert(y))),
{
    let m2 = m.insert(x, m[x].insert(y));
    assert forall|v: u64| !reaches(m2, v, v) by {
        if reaches(m2, v, v) {
            let p = choose|p: Seq<u64>|
                is_path(m2, p) && p.len() >= 2 && p.first() == v && p.last() == v;
            if exists|j: int| 0 <= j < p.len() - 1 && p[j] == x {
                let j = choose|j: int| 0 <= j < p.len() - 1 && p[j] == x;
                if j == 0 {
                    lemma_cycle_through_x(m, x, y, p);
                } else {
                    let part1 = p.subrange(j, p.len() as int);
                    let part2 = p.subrange(1, j + 1);
                    assert(is_path(m2, part1)) by {
                        assert forall|i: int| 0 <= i < part1.len() - 1 implies edge(
                            m2,
                            #[trigger] part1[i],
                            part1[i + 1],
                        ) by {
                            assert(edge(m2, p[j + i], p[j + i + 1]));
                        }
                    }
                    assert(is_path(m2, part2)) by {
                        assert forall|i: int| 0 <= i < part2.len() - 1 implies edge(
                            m2,
                            #[trigger] part2[i],
                            part2[i + 1],
                        ) by {
                            assert(edge(m2, p[i + 1], p[i + 2]));
                        }
                    }
                    assert(part1.last() == v && part2.first() == p[1]);
                    assert(edge(m2, p[0], p[1]));
                    lemma_path_join(m2, part1, part2);
                    let q = part1 + part2;
                    assert(q.first() == x && q.last() == x && q.len() == p.len());
                    lemma_cycle_through_x(m, x, y, q);
                }
            } else {
                assert(is_path(m, p)) by {
                    assert forall|i: int| 0 <= i < p.len() - 1 implies edge(
                        m,
                        #[trigger] p[i],
                        p[i + 1],
                    ) by {
                        assert(edge(m2, p[i], p[i + 1]));
                        assert(p[i] != x);
                    }
                }
                assert(reaches(m, v, v));
            }
        }
    }
}

/// A map with no edges beyond those of an acyclic map is acyclic.
pub proof fn lemma_acyclic_monotonic(m1: AdjacencyMap, m2: AdjacencyMap)
    requires
        acyclic(m1),
        forall|a: u64, b: u64| edge(m2, a, b) ==> edge(m1, a, b),
    ensures
        acyclic(m2),
{
    assert forall|v: u64| !reaches(m2, v, v) by {
        if reaches(m2, v, v) {
            lemma_reaches_monotonic(m1, m2, v, v);
        }
    }
}

} // verus!
