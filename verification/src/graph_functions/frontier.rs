//! What the unweighted searches share: what they hand back, how a goal
//! judges a vertex, and why a search that has expanded every vertex it
//! could has seen every vertex within its reach.
use vstd::prelude::*;
use crate::graph_functions::goal::Goal;
use crate::model::{
    has_edge, hops, is_path, is_search_tree, lemma_path_drop_last, lemma_tree_recorded_chain,
};
use crate::store::{Graph, VertexStore};
use crate::types::{GraphError, GraphPath, VertexId};
use crate::visited::{recorded_chain, VisitedNodes, VisitedRecord};

verus! {

/// What a traversal hands back: the vertices that met the goal, in the order
/// in which they were met, and the records of every visited vertex.
pub struct Traversal {
    pub found: Vec<VertexId>,
    pub visited: VisitedNodes,
}

/// The goal can say yes to the vertex `id` of the store.
pub open spec fn accepts<V, C, G: Goal<C>>(store: &VertexStore<V, C>, goal: &G, id: VertexId) -> bool {
    goal.verdict(id, &store@[id].data, true)
}

/// The goal can say no to the vertex `id` of the store.
pub open spec fn rejects<V, C, G: Goal<C>>(store: &VertexStore<V, C>, goal: &G, id: VertexId) -> bool {
    goal.verdict(id, &store@[id].data, false)
}

/// `n` is within the limit, if there is one.
pub open spec fn within_limit(n: nat, limit: Option<u64>) -> bool {
    match limit {
        Some(l) => n <= l,
        None => true,
    }
}

/// `n` results are as many as were asked for.
pub open spec fn is_full(n: nat, max_results: Option<usize>) -> bool {
    match max_results {
        Some(l) => n >= l,
        None => false,
    }
}

/// Every edge of `v` that leads to a vertex of the graph leads to a recorded
/// vertex.
pub open spec fn expanded(g: Graph, m: Map<VertexId, VisitedRecord>, v: VertexId) -> bool {
    forall|k: int|
        0 <= k < g[v].len() && g.contains_key((#[trigger] g[v][k]).0) ==> m.contains_key(g[v][k].0)
}

/// Every recorded vertex is pending, or lies at the limit of steps, or is
/// expanded.
pub open spec fn settled(
    g: Graph,
    m: Map<VertexId, VisitedRecord>,
    pending: Set<VertexId>,
    max_steps: Option<u64>,
) -> bool {
    forall|v: VertexId| #[trigger]
        m.contains_key(v) ==> pending.contains(v) || !within_limit(m[v].step as nat + 1, max_steps)
            || expanded(g, m, v)
}

/// No path from `start` to a recorded vertex has fewer edges than the
/// vertex's step.
pub open spec fn shortest_steps(g: Graph, start: VertexId, m: Map<VertexId, VisitedRecord>) -> bool {
    forall|q: Seq<VertexId>|
        #[trigger] is_path(g, q) && q[0] == start && m.contains_key(q.last()) ==> m[q.last()].step
            <= hops(q)
}

/// Where every pending vertex is at least `b` steps away, every path from
/// the start vertex of at most `b` edges, and within the limit, ends at a
/// recorded vertex.
pub proof fn lemma_frontier(
    g: Graph,
    start: VertexId,
    m: Map<VertexId, VisitedRecord>,
    pending: Set<VertexId>,
    max_steps: Option<u64>,
    b: nat,
    q: Seq<VertexId>,
)
    requires
        is_search_tree(g, start, m),
        shortest_steps(g, start, m),
        settled(g, m, pending, max_steps),
        forall|v: VertexId| pending.contains(v) && m.contains_key(v) ==> m[v].step >= b,
        is_path(g, q),
        q[0] == start,
        hops(q) <= b,
        within_limit(hops(q), max_steps),
    ensures
        m.contains_key(q.last()),
    decreases q.len(),
{
    if q.len() >= 2 {
        let q1 = q.drop_last();
        lemma_path_drop_last(g, q);
        lemma_frontier(g, start, m, pending, max_steps, b, q1);
        let x = q1.last();
        assert(m.contains_key(x));
        assert(m[x].step <= hops(q1));
        assert(!pending.contains(x));
        assert(within_limit(m[x].step as nat + 1, max_steps));
        assert(expanded(g, m, x));
        assert(has_edge(g, x, q.last()));
        let k = choose|k: int| 0 <= k < g[x].len() && (#[trigger] g[x][k]).0 == q.last();
        assert(g.contains_key(g[x][k].0));
    }
}

/// The goal was asked about every recorded vertex: `found` holds, once
/// each, recorded vertices that it accepted, and it rejected every other
/// recorded vertex.
#[verifier::opaque]
pub open spec fn collected<V, C, G: Goal<C>>(
    store: &VertexStore<V, C>,
    goal: &G,
    m: Map<VertexId, VisitedRecord>,
    found: Seq<VertexId>,
) -> bool {
    &&& found.no_duplicates()
    &&& forall|i: int|
        0 <= i < found.len() ==> m.contains_key(#[trigger] found[i]) && accepts(store, goal, found[i])
    &&& forall|v: VertexId| #[trigger]
        m.contains_key(v) ==> found.contains(v) || rejects(store, goal, v)
}

/// The steps of the found vertices never fall.
#[verifier::opaque]
pub open spec fn rising_steps(m: Map<VertexId, VisitedRecord>, found: Seq<VertexId>) -> bool {
    forall|i: int, j: int|
        0 <= i < j < found.len() ==> m[#[trigger] found[i]].step <= m[#[trigger] found[j]].step
}

/// A newly recorded vertex joins `found` where the goal accepted it.
pub proof fn lemma_collect<V, C, G: Goal<C>>(
    store: &VertexStore<V, C>,
    goal: &G,
    before: Map<VertexId, VisitedRecord>,
    found: Seq<VertexId>,
    n: VertexId,
    record: VisitedRecord,
    accepted: bool,
)
    requires
        collected(store, goal, before, found),
        !before.contains_key(n),
        goal.verdict(n, &store@[n].data, accepted),
    ensures
        accepted ==> collected(store, goal, before.insert(n, record), found.push(n)),
        !accepted ==> collected(store, goal, before.insert(n, record), found),
{
    reveal(collected);
    let m = before.insert(n, record);
    if accepted {
        let f = found.push(n);
        assert(!found.contains(n)) by {
            if found.contains(n) {
                let k = choose|k: int| 0 <= k < found.len() && found[k] == n;
                assert(before.contains_key(found[k]));
            }
        }
        assert forall|a: int, b: int| 0 <= a < f.len() && 0 <= b < f.len() && a != b implies f[a]
            != f[b] by {
            if a < found.len() {
                assert(f[a] == found[a]);
            }
            if b < found.len() {
                assert(f[b] == found[b]);
            }
        }
        assert forall|i: int| 0 <= i < f.len() implies m.contains_key(#[trigger] f[i]) && accepts(
            store,
            goal,
            f[i],
        ) by {
            if i < found.len() {
                assert(f[i] == found[i]);
            }
        }
        assert forall|v: VertexId| #[trigger] m.contains_key(v) implies f.contains(v) || rejects(
            store,
            goal,
            v,
        ) by {
            if v == n {
                assert(f[f.len() - 1] == n);
            } else {
                assert(before.contains_key(v));
                if found.contains(v) {
                    let k = choose|k: int| 0 <= k < found.len() && found[k] == v;
                    assert(f[k] == v);
                }
            }
        }
    } else {
        assert forall|v: VertexId| #[trigger] m.contains_key(v) implies found.contains(v) || rejects(
            store,
            goal,
            v,
        ) by {
            if v != n {
                assert(before.contains_key(v));
            }
        }
    }
}

/// A new record of a vertex that the graph holds and that was not recorded,
/// one step beyond a recorded vertex from which an edge leads to it, keeps a
/// search tree a search tree.
pub proof fn lemma_tree_grow(
    g: Graph,
    start: VertexId,
    before: Map<VertexId, VisitedRecord>,
    u: VertexId,
    n: VertexId,
    record: VisitedRecord,
)
    requires
        is_search_tree(g, start, before),
        before.contains_key(u),
        !before.contains_key(n),
        has_edge(g, u, n),
        record.predecessor == Some(u),
        record.step == before[u].step + 1,
    ensures
        is_search_tree(g, start, before.insert(n, record)),
        before.insert(n, record).dom().len() == before.dom().len() + 1,
{
    let m = before.insert(n, record);
    assert(m.dom() =~= before.dom().insert(n));
    assert forall|v: VertexId| #[trigger] m.contains_key(v) && v != start implies m[v].predecessor is Some
        && m.contains_key(m[v].predecessor.unwrap()) && has_edge(g, m[v].predecessor.unwrap(), v)
        && m[v].step == m[m[v].predecessor.unwrap()].step + 1 by {
        if v != n {
            assert(before.contains_key(v));
            assert(before.contains_key(before[v].predecessor.unwrap()));
        }
    }
    assert forall|v: VertexId| #[trigger] m.contains_key(v) implies g.contains_key(v) && m[v].step
        < m.dom().len() by {
        if v != n {
            assert(before.contains_key(v));
        }
    }
}

/// Recording one more vertex keeps the recorded vertices settled, where the
/// new vertex is pending afterwards and no pending vertex is dropped.
pub proof fn lemma_settled_grow(
    g: Graph,
    before: Map<VertexId, VisitedRecord>,
    pending: Set<VertexId>,
    max_steps: Option<u64>,
    n: VertexId,
    record: VisitedRecord,
    pending_after: Set<VertexId>,
)
    requires
        settled(g, before, pending, max_steps),
        !before.contains_key(n),
        pending_after.contains(n),
        pending.subset_of(pending_after),
    ensures
        settled(g, before.insert(n, record), pending_after, max_steps),
{
    let m = before.insert(n, record);
    assert forall|v: VertexId| #[trigger] m.contains_key(v) implies pending_after.contains(v)
        || !within_limit(m[v].step as nat + 1, max_steps) || expanded(g, m, v) by {
        if v != n {
            assert(before.contains_key(v));
            if !pending.contains(v) && within_limit(before[v].step as nat + 1, max_steps) {
                assert(expanded(g, before, v));
                assert forall|k: int|
                    0 <= k < g[v].len() && g.contains_key(
                        (#[trigger] g[v][k]).0,
                    ) implies m.contains_key(g[v][k].0) by {
                    assert(before.contains_key(g[v][k].0));
                }
            }
        }
    }
}

/// With the start vertex alone recorded, and asked about, the goal was
/// asked about every recorded vertex.
pub proof fn lemma_collect_start<V, C, G: Goal<C>>(
    store: &VertexStore<V, C>,
    goal: &G,
    m: Map<VertexId, VisitedRecord>,
    start: VertexId,
    accepted: bool,
)
    requires
        m.dom() =~= set![start],
        goal.verdict(start, &store@[start].data, accepted),
    ensures
        accepted ==> collected(store, goal, m, seq![start]) && rising_steps(m, seq![start]),
        !accepted ==> collected(store, goal, m, Seq::<VertexId>::empty()) && rising_steps(
            m,
            Seq::<VertexId>::empty(),
        ),
{
    reveal(collected);
    reveal(rising_steps);
    if accepted {
        assert(seq![start][0] == start);
    }
}

/// The vertices of a returned path in the order in which they are walked:
/// from the source to the destination.
pub open spec fn forward<D>(path: GraphPath<D>) -> Seq<VertexId> {
    path.vertices().reverse()
}

/// The destination of a returned path.
pub open spec fn destination<D>(path: GraphPath<D>) -> VertexId {
    path@[0].0
}

/// The paths that the records describe for the found vertices, in order.
pub(crate) fn recorded_paths(
    visited: &VisitedNodes,
    found: &Vec<VertexId>,
    Ghost(g): Ghost<Graph>,
    Ghost(start): Ghost<VertexId>,
) -> (r: Result<Vec<GraphPath<()>>, GraphError>)
    requires
        visited.wf(),
        is_search_tree(g, start, visited@),
        forall|i: int| 0 <= i < found@.len() ==> visited@.contains_key(#[trigger] found@[i]),
    ensures
        r is Ok,
        r.unwrap()@.len() == found@.len(),
        forall|i: int|
            0 <= i < found@.len() ==> recorded_chain(visited@, found@[i]) == Some(
                (#[trigger] r.unwrap()@[i]).vertices(),
            ),
{
    let mut paths: Vec<GraphPath<()>> = Vec::new();
    let mut i: usize = 0;
    while i < found.len()
        invariant
            visited.wf(),
            is_search_tree(g, start, visited@),
            forall|k: int| 0 <= k < found@.len() ==> visited@.contains_key(#[trigger] found@[k]),
            i <= found@.len(),
            paths@.len() == i,
            forall|k: int|
                0 <= k < i ==> recorded_chain(visited@, found@[k]) == Some(
                    (#[trigger] paths@[k]).vertices(),
                ),
        decreases found.len() - i,
    {
        proof {
            lemma_tree_recorded_chain(g, start, visited@, found@[i as int]);
        }
        match visited.determine_path(found[i]) {
            Ok(path) => {
                paths.push(path);
            },
            Err(e) => {
                return Err(e);
            },
        }
        i += 1;
    }
    Ok(paths)
}

} // verus!
