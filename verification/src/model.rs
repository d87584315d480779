//! The graph as mathematics: paths, walks with weights, and what it means
//! for the records of a search to describe a tree in the graph.
use vstd::prelude::*;
use crate::graph_vertex::has_edge_to;
use crate::store::Graph;
use crate::types::{NoneValueResponse, PathWeight, VertexId};
use crate::types::lemma_extend_monotone;
use crate::visited::{chain_from, lemma_chain_links, recorded_chain, VisitedRecord};

verus! {

/// There is an edge from `u` to `v`, and both are vertices of the graph.
pub open spec fn has_edge(g: Graph, u: VertexId, v: VertexId) -> bool {
    g.contains_key(u) && g.contains_key(v) && has_edge_to(g[u], v)
}

/// `p` is a path: vertices of the graph, each joined to the next by an edge.
pub open spec fn is_path(g: Graph, p: Seq<VertexId>) -> bool {
    &&& p.len() >= 1
    &&& g.contains_key(p[0])
    &&& forall|i: int| 0 <= i < p.len() - 1 ==> has_edge(g, #[trigger] p[i], p[i + 1])
}

/// `p` is a path from `s` to `t`.
pub open spec fn path_between(g: Graph, s: VertexId, t: VertexId, p: Seq<VertexId>) -> bool {
    is_path(g, p) && p[0] == s && p.last() == t
}

/// The number of edges of a path.
pub open spec fn hops(p: Seq<VertexId>) -> nat {
    (p.len() - 1) as nat
}

/// Some path leads from `s` to `t`.
pub open spec fn reachable(g: Graph, s: VertexId, t: VertexId) -> bool {
    exists|p: Seq<VertexId>| path_between(g, s, t, p)
}

/// The records `m` describe a tree in the graph, rooted at `start`: the
/// start vertex has no predecessor and step 0; every other recorded vertex
/// has a recorded predecessor one step nearer, from which an edge leads to
/// it; and no step reaches the number of records.
pub open spec fn is_search_tree(g: Graph, start: VertexId, m: Map<VertexId, VisitedRecord>) -> bool {
    &&& m.dom().finite()
    &&& m.contains_key(start)
    &&& m[start].predecessor is None
    &&& m[start].step == 0
    &&& forall|v: VertexId| #[trigger]
        m.contains_key(v) ==> g.contains_key(v) && m[v].step < m.dom().len()
    &&& forall|v: VertexId| #[trigger]
        m.contains_key(v) && v != start ==> m[v].predecessor is Some && m.contains_key(
            m[v].predecessor.unwrap(),
        ) && has_edge(g, m[v].predecessor.unwrap(), v) && m[v].step
            == m[m[v].predecessor.unwrap()].step + 1
}

/// In a search tree the chain of a recorded vertex is there whenever the
/// fuel covers its step; it has one vertex more than the step says, and ends
/// at the start vertex; read backwards it is a path from the start vertex.
pub proof fn lemma_tree_chain(
    g: Graph,
    start: VertexId,
    m: Map<VertexId, VisitedRecord>,
    v: VertexId,
    fuel: nat,
)
    requires
        is_search_tree(g, start, m),
        m.contains_key(v),
        fuel >= m[v].step,
    ensures
        chain_from(m, v, fuel) is Some,
        chain_from(m, v, fuel).unwrap().len() == m[v].step + 1,
        chain_from(m, v, fuel).unwrap()[0] == v,
        chain_from(m, v, fuel).unwrap().last() == start,
        path_between(g, start, v, chain_from(m, v, fuel).unwrap().reverse()),
    decreases fuel,
{
    if v == start {
        let c = chain_from(m, v, fuel).unwrap();
        assert(c =~= seq![v]);
        assert(c.reverse() =~= seq![v]);
    } else {
        let p = m[v].predecessor.unwrap();
        lemma_tree_chain(g, start, m, p, (fuel - 1) as nat);
        let rest = chain_from(m, p, (fuel - 1) as nat).unwrap();
        let c = chain_from(m, v, fuel).unwrap();
        assert(c =~= seq![v] + rest);
        let r = c.reverse();
        let rr = rest.reverse();
        assert(r.len() == rest.len() + 1);
        assert forall|i: int| 0 <= i < r.len() - 1 implies has_edge(g, #[trigger] r[i], r[i + 1]) by {
            if i < rr.len() - 1 {
                assert(r[i] == rr[i]);
                assert(r[i + 1] == rr[i + 1]);
                assert(has_edge(g, rr[i], rr[i + 1]));
            } else {
                assert(r[i] == rest[0]);
                assert(r[i + 1] == v);
            }
        }
        assert(r[0] == rr[0]);
    }
}

/// In a search tree the records describe, for every recorded vertex, a path
/// from the start vertex of as many edges as its step.
pub proof fn lemma_tree_recorded_chain(
    g: Graph,
    start: VertexId,
    m: Map<VertexId, VisitedRecord>,
    v: VertexId,
)
    requires
        is_search_tree(g, start, m),
        m.contains_key(v),
    ensures
        recorded_chain(m, v) is Some,
        recorded_chain(m, v).unwrap().len() == m[v].step + 1,
        recorded_chain(m, v).unwrap()[0] == v,
        recorded_chain(m, v).unwrap().last() == start,
        path_between(g, start, v, recorded_chain(m, v).unwrap().reverse()),
{
    lemma_tree_chain(g, start, m, v, (m.dom().len() - 1) as nat);
}

/// A path without its last vertex is a path, as long as a vertex is left.
pub proof fn lemma_path_drop_last(g: Graph, p: Seq<VertexId>)
    requires
        is_path(g, p),
        p.len() >= 2,
    ensures
        is_path(g, p.drop_last()),
        p.drop_last()[0] == p[0],
        has_edge(g, p.drop_last().last(), p.last()),
{
    let q = p.drop_last();
    assert forall|i: int| 0 <= i < q.len() - 1 implies has_edge(g, #[trigger] q[i], q[i + 1]) by {
        assert(q[i] == p[i]);
        assert(q[i + 1] == p[i + 1]);
    }
    assert(q.last() == p[p.len() - 2]);
}

/// A stop of a walk: a vertex, and the weight of the walk up to it.
pub type Stop = (VertexId, PathWeight);

/// The `k`-th edge of `a`'s vertex leads to `b`'s vertex, can be walked
/// under the policy, and takes the weight of `a` to the weight of `b`.
pub open spec fn steps_along(g: Graph, policy: NoneValueResponse, a: Stop, b: Stop, k: int) -> bool {
    &&& 0 <= k < g[a.0].len()
    &&& g[a.0][k].0 == b.0
    &&& a.1.spec_extend(g[a.0][k].1, policy) == Some(b.1)
}

/// One edge leads from the stop `a` to the stop `b`: both are vertices of
/// the graph, and some edge of `a`'s vertex takes the one to the other.
pub open spec fn weighted_step(g: Graph, policy: NoneValueResponse, a: Stop, b: Stop) -> bool {
    &&& g.contains_key(a.0)
    &&& g.contains_key(b.0)
    &&& exists|k: int| #[trigger] steps_along(g, policy, a, b, k)
}

/// `w` is a walk from `start`: it begins there with the weight of the
/// empty walk, and one edge leads from each stop to the next.
pub open spec fn is_walk(g: Graph, policy: NoneValueResponse, start: VertexId, w: Seq<Stop>) -> bool {
    &&& w.len() >= 1
    &&& w[0] == (start, PathWeight::spec_zero())
    &&& g.contains_key(start)
    &&& forall|i: int| 0 <= i < w.len() - 1 ==> weighted_step(g, policy, #[trigger] w[i], w[i + 1])
}

/// Some walk from `start` ends at `v` with the weight `d`.
pub open spec fn has_walk(
    g: Graph,
    policy: NoneValueResponse,
    start: VertexId,
    v: VertexId,
    d: PathWeight,
) -> bool {
    exists|w: Seq<Stop>| #[trigger] is_walk(g, policy, start, w) && w.last() == (v, d)
}

/// No walk from `start` to `v` weighs less than `d`.
pub open spec fn is_cheapest(
    g: Graph,
    policy: NoneValueResponse,
    start: VertexId,
    v: VertexId,
    d: PathWeight,
) -> bool {
    forall|w: Seq<Stop>| #[trigger] is_walk(g, policy, start, w) && w.last().0 == v ==> d.spec_le(w.last().1)
}

/// Some edge of `v` has a finite weight below zero.
pub open spec fn has_negative_edge(g: Graph, v: VertexId) -> bool {
    exists|k: int| 0 <= k < g[v].len() && is_negative(#[trigger] g[v][k])
}

/// The weight of the edge is finite and below zero.
pub open spec fn is_negative(e: (VertexId, Option<i64>)) -> bool {
    e.1 is Some && e.1.unwrap() < 0
}

/// The records describe a tree of walks: a search tree in which the weight
/// of the start vertex is that of the empty walk, and an edge takes the
/// recorded weight of each predecessor to the recorded weight of its vertex.
pub open spec fn is_weighted_tree(
    g: Graph,
    policy: NoneValueResponse,
    start: VertexId,
    m: Map<VertexId, VisitedRecord>,
) -> bool {
    &&& is_search_tree(g, start, m)
    &&& m[start].weight == PathWeight::spec_zero()
    &&& forall|v: VertexId| #[trigger]
        m.contains_key(v) && v != start ==> weighted_step(
            g,
            policy,
            (m[v].predecessor.unwrap(), m[m[v].predecessor.unwrap()].weight),
            (v, m[v].weight),
        )
}

/// A walk up to one of its stops is a walk.
pub proof fn lemma_walk_prefix(
    g: Graph,
    policy: NoneValueResponse,
    start: VertexId,
    w: Seq<Stop>,
    i: int,
)
    requires
        is_walk(g, policy, start, w),
        0 <= i < w.len(),
    ensures
        is_walk(g, policy, start, w.subrange(0, i + 1)),
        w.subrange(0, i + 1).last() == w[i],
{
    let p = w.subrange(0, i + 1);
    assert forall|j: int| 0 <= j < p.len() - 1 implies weighted_step(
        g,
        policy,
        #[trigger] p[j],
        p[j + 1],
    ) by {
        assert(p[j] == w[j]);
        assert(p[j + 1] == w[j + 1]);
    }
}

/// A walk with one more edge at its end is a walk.
pub proof fn lemma_walk_push(
    g: Graph,
    policy: NoneValueResponse,
    start: VertexId,
    w: Seq<Stop>,
    b: Stop,
)
    requires
        is_walk(g, policy, start, w),
        weighted_step(g, policy, w.last(), b),
    ensures
        is_walk(g, policy, start, w.push(b)),
        w.push(b).last() == b,
{
    let p = w.push(b);
    assert forall|j: int| 0 <= j < p.len() - 1 implies weighted_step(
        g,
        policy,
        #[trigger] p[j],
        p[j + 1],
    ) by {
        if j < w.len() - 1 {
            assert(p[j] == w[j]);
            assert(p[j + 1] == w[j + 1]);
        } else {
            assert(p[j] == w.last());
        }
    }
}

/// Every walk ends at a vertex of the graph.
pub proof fn lemma_walk_end(g: Graph, policy: NoneValueResponse, start: VertexId, w: Seq<Stop>)
    requires
        is_walk(g, policy, start, w),
    ensures
        g.contains_key(w.last().0),
{
    if w.len() >= 2 {
        assert(weighted_step(g, policy, w[w.len() - 2], w[w.len() - 1]));
    }
}

/// The weights along a walk never fall.
pub proof fn lemma_walk_rising(
    g: Graph,
    policy: NoneValueResponse,
    start: VertexId,
    w: Seq<Stop>,
    i: int,
    j: int,
)
    requires
        is_walk(g, policy, start, w),
        0 <= i <= j < w.len(),
    ensures
        w[i].1.spec_le(w[j].1),
    decreases j - i,
{
    if i < j {
        lemma_walk_rising(g, policy, start, w, i, j - 1);
        assert(weighted_step(g, policy, w[j - 1], w[j]));
        let k = choose|k: int| #[trigger] steps_along(g, policy, w[j - 1], w[j], k);
        lemma_extend_monotone(w[j - 1].1, w[j - 1].1, g[w[j - 1].0][k].1, policy);
    }
}

/// In a tree of walks some walk ends at each recorded vertex with its
/// recorded weight.
pub proof fn lemma_tree_walk(
    g: Graph,
    policy: NoneValueResponse,
    start: VertexId,
    m: Map<VertexId, VisitedRecord>,
    v: VertexId,
)
    requires
        is_weighted_tree(g, policy, start, m),
        m.contains_key(v),
    ensures
        has_walk(g, policy, start, v, m[v].weight),
    decreases m[v].step,
{
    if v == start {
        let w = seq![(start, PathWeight::spec_zero())];
        assert(is_walk(g, policy, start, w) && w.last() == (v, m[v].weight));
    } else {
        let p = m[v].predecessor.unwrap();
        lemma_tree_walk(g, policy, start, m, p);
        let w = choose|w: Seq<Stop>| #[trigger]
            is_walk(g, policy, start, w) && w.last() == (p, m[p].weight);
        lemma_walk_push(g, policy, start, w, (v, m[v].weight));
        assert(is_walk(g, policy, start, w.push((v, m[v].weight))));
    }
}

/// In a tree of walks, the chain of a recorded vertex with the recorded
/// weights, read backwards, is a walk to that vertex.
pub proof fn lemma_tree_chain_walk(
    g: Graph,
    policy: NoneValueResponse,
    start: VertexId,
    m: Map<VertexId, VisitedRecord>,
    v: VertexId,
    nodes: Seq<Stop>,
)
    requires
        is_weighted_tree(g, policy, start, m),
        m.contains_key(v),
        recorded_chain(m, v) == Some(nodes.map_values(|node: Stop| node.0)),
        forall|j: int| 0 <= j < nodes.len() ==> (#[trigger] nodes[j]).1 == m[nodes[j].0].weight,
    ensures
        is_walk(g, policy, start, nodes.reverse()),
        nodes.len() >= 1,
        nodes[0] == (v, m[v].weight),
        nodes.reverse().last() == (v, m[v].weight),
{
    let c = nodes.map_values(|node: Stop| node.0);
    lemma_tree_recorded_chain(g, start, m, v);
    lemma_chain_links(m, v, (m.dom().len() - 1) as nat);
    let r = nodes.reverse();
    let n = nodes.len() as int;
    assert(c[0] == nodes[0].0);
    assert(c[n - 1] == nodes[n - 1].0);
    assert(r[0] == nodes[n - 1]);
    assert forall|i: int| 0 <= i < r.len() - 1 implies weighted_step(
        g,
        policy,
        #[trigger] r[i],
        r[i + 1],
    ) by {
        let a = nodes[n - 1 - i];
        let b = nodes[n - 2 - i];
        assert(r[i] == a);
        assert(r[i + 1] == b);
        assert(c[n - 2 - i] == b.0);
        assert(c[n - 1 - i] == a.0);
        assert(m.contains_key(c[n - 2 - i]));
        assert(m[c[n - 2 - i]].predecessor == Some(c[n - 2 - i + 1]));
        assert(b.0 != start);
    }
}

} // verus!
