//! What the weighted searches share: the search that always expands the
//! vertex of least priority next, and why its records are right.
use vstd::prelude::*;
use crate::graph_functions::estimates::{
    allowed_estimates, bare, is_cheapest_plain, lemma_pair_le_trans, lemma_priorities_rise,
    lemma_walk_clear, plain, sound,
};
use crate::graph_functions::frontier::{accepts, destination, is_full, rejects, Traversal};
use crate::graph_functions::goal::{Estimator, Goal};
use crate::graph_vertex::GraphVertex;
use crate::model::{
    has_edge, has_negative_edge, is_cheapest, is_negative, is_search_tree, is_walk,
    is_weighted_tree, lemma_tree_chain_walk, lemma_tree_recorded_chain, lemma_tree_walk,
    lemma_walk_prefix, lemma_walk_rising, steps_along, weighted_step, Stop,
};
use crate::queue::{
    queue_change_priority, queue_contents, queue_new, queue_pop, queue_push,
};
use crate::store::{Graph, VertexStore};
use crate::types::{
    lemma_extend_monotone, lemma_priority_order, lemma_weight_bounds, lemma_weight_le_trans,
    lemma_weight_total, pair_le,
    GraphError, GraphPath, Heuristic, NoneValueResponse, PathWeight, VertexId,
};
use crate::visited::{start_record, VisitedNodes, VisitedRecord};

verus! {

/// `d` is within the cap, if there is one.
pub open spec fn within_cap(d: PathWeight, cap: Option<PathWeight>) -> bool {
    match cap {
        Some(c) => d.spec_le(c),
        None => true,
    }
}

/// The priority with which a recorded vertex is queued: its weight with its
/// estimate added.
pub open spec fn priority_of(r: VisitedRecord) -> (u128, u128) {
    r.weight.spec_priority(r.estimate)
}

/// The `k`-th edge of `x` is dealt with: its weight is not negative, and
/// where it can be walked within the cap to a vertex of the graph, that
/// vertex is recorded; and where the estimates can be relied on and the
/// vertex is queued, with a weight no greater than the walk over this edge
/// gives.
pub open spec fn relaxed(
    g: Graph,
    policy: NoneValueResponse,
    m: Map<VertexId, VisitedRecord>,
    qc: Map<VertexId, (u128, u128)>,
    cap: Option<PathWeight>,
    allowed: Set<(VertexId, Heuristic)>,
    x: VertexId,
    k: int,
) -> bool {
    let e = g[x][k];
    let c = m[x].weight.spec_extend(e.1, policy);
    &&& !is_negative(e)
    &&& (g.contains_key(e.0) && c is Some && within_cap(c.unwrap(), cap)) ==> m.contains_key(e.0)
        && (sound(g, policy, allowed) && qc.contains_key(e.0) ==> m[e.0].weight.spec_le(c.unwrap()))
}

/// The first `i` edges of `x` are dealt with.
pub open spec fn relaxed_upto(
    g: Graph,
    policy: NoneValueResponse,
    m: Map<VertexId, VisitedRecord>,
    qc: Map<VertexId, (u128, u128)>,
    cap: Option<PathWeight>,
    allowed: Set<(VertexId, Heuristic)>,
    x: VertexId,
    i: int,
) -> bool {
    forall|k: int|
        0 <= k < i && k < g[x].len() ==> #[trigger] relaxed(g, policy, m, qc, cap, allowed, x, k)
}

/// The state of a weighted search. `closed` holds the vertices that left
/// the queue; `hot` is the one among them whose edges are being dealt with;
/// `allowed` holds the estimates that can be made.
#[verifier::opaque]
pub open spec fn search_state(
    g: Graph,
    policy: NoneValueResponse,
    start: VertexId,
    m: Map<VertexId, VisitedRecord>,
    qc: Map<VertexId, (u128, u128)>,
    closed: Set<VertexId>,
    hot: Option<VertexId>,
    cap: Option<PathWeight>,
    allowed: Set<(VertexId, Heuristic)>,
) -> bool {
    &&& is_weighted_tree(g, policy, start, m)
    &&& m[start].estimate == Heuristic::spec_none()
    &&& qc.dom().finite()
    &&& closed.finite()
    &&& forall|v: VertexId| #[trigger]
        qc.contains_key(v) ==> m.contains_key(v) && !closed.contains(v) && qc[v] == priority_of(m[v])
    &&& forall|v: VertexId| #[trigger]
        closed.contains(v) ==> m.contains_key(v) && m[v].step < closed.len()
    &&& forall|v: VertexId| #[trigger]
        m.contains_key(v) ==> (closed.contains(v) || qc.contains_key(v)) && within_cap(
            m[v].weight,
            cap,
        ) && (v != start ==> allowed.contains((v, m[v].estimate)) && closed.contains(
            m[v].predecessor.unwrap(),
        ))
    &&& forall|x: VertexId| #[trigger]
        closed.contains(x) && hot != Some(x) ==> relaxed_upto(
            g,
            policy,
            m,
            qc,
            cap,
            allowed,
            x,
            g[x].len() as int,
        )
    &&& sound(g, policy, allowed) ==> forall|v: VertexId| #[trigger]
        closed.contains(v) ==> is_cheapest_plain(g, policy, start, allowed, v, m[v].weight)
    &&& hot is Some ==> closed.contains(hot.unwrap())
}

/// The goal was asked about every closed vertex: `found` holds, once each,
/// closed vertices that it accepted, and it rejected every other closed
/// vertex.
#[verifier::opaque]
pub open spec fn judged<V, C, G: Goal<C>>(
    store: &VertexStore<V, C>,
    goal: &G,
    closed: Set<VertexId>,
    found: Seq<VertexId>,
) -> bool {
    &&& found.no_duplicates()
    &&& forall|i: int|
        0 <= i < found.len() ==> closed.contains(#[trigger] found[i]) && accepts(store, goal, found[i])
    &&& forall|v: VertexId| #[trigger]
        closed.contains(v) ==> found.contains(v) || rejects(store, goal, v)
}

/// A vertex that leaves the queue joins `found` where the goal accepts it.
proof fn lemma_judge<V, C, G: Goal<C>>(
    store: &VertexStore<V, C>,
    goal: &G,
    closed: Set<VertexId>,
    found: Seq<VertexId>,
    u: VertexId,
    accepted: bool,
)
    requires
        judged(store, goal, closed, found),
        !closed.contains(u),
        goal.verdict(u, &store@[u].data, accepted),
    ensures
        accepted ==> judged(store, goal, closed.insert(u), found.push(u)),
        !accepted ==> judged(store, goal, closed.insert(u), found),
{
    reveal(judged);
    let c2 = closed.insert(u);
    if accepted {
        let f = found.push(u);
        assert(!found.contains(u)) by {
            if found.contains(u) {
                let k = choose|k: int| 0 <= k < found.len() && found[k] == u;
                assert(closed.contains(found[k]));
            }
        }
        assert forall|a: int, b: int| 0 <= a < f.len() && 0 <= b < f.len() && a != b implies f[a]
            != f[b] by {
            if a < found.len() {
                assert(f[a] == found[a]);
            }
            if b < found.len() {
                assert(f[b] == found[b]);
            }
        }
        assert forall|i: int| 0 <= i < f.len() implies c2.contains(#[trigger] f[i]) && accepts(
            store,
            goal,
            f[i],
        ) by {
            if i < found.len() {
                assert(f[i] == found[i]);
            }
        }
        assert forall|v: VertexId| #[trigger] c2.contains(v) implies f.contains(v) || rejects(
            store,
            goal,
            v,
        ) by {
            if v == u {
                assert(f[f.len() - 1] == u);
            } else {
                if found.contains(v) {
                    let k = choose|k: int| 0 <= k < found.len() && found[k] == v;
                    assert(f[k] == v);
                }
            }
        }
    }
}

/// Along a walk within the cap, either the stop `i` is a closed vertex
/// whose edges are all dealt with, or a stop up to `i` is a vertex that is
/// queued or being dealt with; where the estimates can be relied on, and the
/// search can be sure of the walk, the recorded weight of that vertex is no
/// greater than the weight of the walk there.
proof fn lemma_walk_frontier(
    g: Graph,
    policy: NoneValueResponse,
    start: VertexId,
    m: Map<VertexId, VisitedRecord>,
    qc: Map<VertexId, (u128, u128)>,
    closed: Set<VertexId>,
    hot: Option<VertexId>,
    cap: Option<PathWeight>,
    allowed: Set<(VertexId, Heuristic)>,
    w: Seq<Stop>,
    i: int,
)
    requires
        search_state(g, policy, start, m, qc, closed, hot, cap, allowed),
        cap is None || (sound(g, policy, allowed) && plain(allowed, w[i].1)),
        is_walk(g, policy, start, w),
        0 <= i < w.len(),
        within_cap(w[i].1, cap),
    ensures
        (closed.contains(w[i].0) && hot != Some(w[i].0) && m.contains_key(w[i].0) && (sound(
            g,
            policy,
            allowed,
        ) && plain(allowed, w[i].1) ==> m[w[i].0].weight.spec_le(w[i].1))) || exists|j: int|
            0 <= j <= i && m.contains_key((#[trigger] w[j]).0) && (qc.contains_key(w[j].0) || hot
                == Some(w[j].0)) && (sound(g, policy, allowed) && plain(allowed, w[i].1)
                ==> m[w[j].0].weight.spec_le(w[j].1)),
    decreases i,
{
    reveal(search_state);
    let sure = sound(g, policy, allowed) && plain(allowed, w[i].1);
    if i == 0 {
        assert(m.contains_key(start));
        if !(closed.contains(start) && hot != Some(start)) {
            assert(m.contains_key(w[0].0) && (qc.contains_key(w[0].0) || hot == Some(w[0].0)));
        }
    } else {
        lemma_walk_rising(g, policy, start, w, i - 1, i);
        if cap is Some {
            lemma_weight_le_trans(w[i - 1].1, w[i].1, cap.unwrap());
        }
        if sure && !bare(allowed) {
            lemma_walk_clear(g, policy, start, w, i - 1, i);
        }
        lemma_walk_frontier(g, policy, start, m, qc, closed, hot, cap, allowed, w, i - 1);
        let x = w[i - 1].0;
        let y = w[i].0;
        if closed.contains(x) && hot != Some(x) && m.contains_key(x) && (sure ==> m[x].weight.spec_le(
            w[i - 1].1,
        )) {
            assert(weighted_step(g, policy, w[i - 1], w[i]));
            let k = choose|k: int| #[trigger] steps_along(g, policy, w[i - 1], w[i], k);
            let e = g[x][k];
            assert(relaxed(g, policy, m, qc, cap, allowed, x, k));
            let c = m[x].weight.spec_extend(e.1, policy);
            if sure {
                lemma_extend_monotone(m[x].weight, w[i - 1].1, e.1, policy);
                if cap is Some {
                    lemma_weight_le_trans(c.unwrap(), w[i].1, cap.unwrap());
                }
            }
            assert(c is Some);
            assert(m.contains_key(y));
            if closed.contains(y) {
                if sure {
                    lemma_walk_prefix(g, policy, start, w, i);
                    assert(is_cheapest_plain(g, policy, start, allowed, y, m[y].weight));
                    assert(m[y].weight.spec_le(w.subrange(0, i + 1).last().1));
                }
                if hot == Some(y) {
                    assert(m.contains_key(w[i].0) && hot == Some(w[i].0));
                }
            } else {
                assert(qc.contains_key(y));
                if sure {
                    lemma_weight_le_trans(m[y].weight, c.unwrap(), w[i].1);
                }
                assert(m.contains_key(w[i].0) && qc.contains_key(w[i].0));
            }
        } else {
            let j = choose|j: int|
                0 <= j <= i - 1 && m.contains_key((#[trigger] w[j]).0) && (qc.contains_key(w[j].0)
                    || hot == Some(w[j].0)) && (sound(g, policy, allowed) && plain(
                    allowed,
                    w[i - 1].1,
                ) ==> m[w[j].0].weight.spec_le(w[j].1));
            assert(0 <= j <= i && m.contains_key(w[j].0));
        }
    }
}

/// A search begins with the start vertex alone recorded and queued.
proof fn lemma_search_start(
    g: Graph,
    policy: NoneValueResponse,
    start: VertexId,
    m: Map<VertexId, VisitedRecord>,
    qc: Map<VertexId, (u128, u128)>,
    cap: Option<PathWeight>,
    allowed: Set<(VertexId, Heuristic)>,
)
    requires
        g.contains_key(start),
        m == Map::<VertexId, VisitedRecord>::empty().insert(start, start_record()),
        qc == Map::<VertexId, (u128, u128)>::empty().insert(
            start,
            PathWeight::spec_zero().spec_priority(Heuristic::spec_none()),
        ),
    ensures
        search_state(g, policy, start, m, qc, Set::<VertexId>::empty(), None, cap, allowed),
        is_weighted_tree(g, policy, start, m),
{
    reveal(search_state);
    assert(m.dom() =~= set![start]);
    assert(qc.dom() =~= set![start]);
    if cap is Some {
        lemma_weight_bounds(cap.unwrap());
    }
}

/// The vertex of least priority leaves the queue and is closed. Where the
/// estimates can be relied on, no walk to it of which the search can be sure
/// weighs less than its record says. Where the estimates are all nothing,
/// every walk that weighs less than that ends at a vertex that was closed
/// before.
proof fn lemma_search_pop(
    g: Graph,
    policy: NoneValueResponse,
    start: VertexId,
    m: Map<VertexId, VisitedRecord>,
    qc: Map<VertexId, (u128, u128)>,
    closed: Set<VertexId>,
    cap: Option<PathWeight>,
    allowed: Set<(VertexId, Heuristic)>,
    u: VertexId,
)
    requires
        search_state(g, policy, start, m, qc, closed, None, cap, allowed),
        qc.contains_key(u),
        forall|k: VertexId| #[trigger] qc.contains_key(k) ==> pair_le(qc[u], qc[k]),
    ensures
        search_state(g, policy, start, m, qc.remove(u), closed.insert(u), Some(u), cap, allowed),
        m.contains_key(u),
        !closed.contains(u),
        g.contains_key(u),
        m[u].step < m.dom().len(),
        m.dom().subset_of(g.dom()),
        m.dom().finite(),
        qc.dom().finite(),
        qc.remove(u).dom().len() == qc.dom().len() - 1,
        relaxed_upto(g, policy, m, qc.remove(u), cap, allowed, u, 0),
        bare(allowed) ==> forall|w: Seq<Stop>|
            #[trigger] is_walk(g, policy, start, w) && w.last().1.spec_lt(m[u].weight)
                ==> closed.contains(w.last().0),
{
    lemma_pop_cheapest(g, policy, start, m, qc, closed, cap, allowed, u);
    reveal(search_state);
    let closed2 = closed.insert(u);
    let qc2 = qc.remove(u);
    assert(qc2.dom() =~= qc.dom().remove(u));
    // the count of closed vertices covers the step of u
    assert(m[u].step < closed2.len()) by {
        if u != start {
            let p = m[u].predecessor.unwrap();
            assert(closed.contains(p));
        }
    }
    assert forall|v: VertexId| #[trigger] closed2.contains(v) implies m.contains_key(v) && m[v].step
        < closed2.len() by {}
    assert forall|v: VertexId| #[trigger] m.contains_key(v) implies (closed2.contains(v)
        || qc2.contains_key(v)) by {}
    assert forall|x: VertexId| #[trigger] closed2.contains(x) && Some(u) != Some(x) implies relaxed_upto(
        g,
        policy,
        m,
        qc2,
        cap,
        allowed,
        x,
        g[x].len() as int,
    ) by {
        assert(relaxed_upto(g, policy, m, qc, cap, allowed, x, g[x].len() as int));
        assert forall|k: int| 0 <= k < g[x].len() implies #[trigger] relaxed(
            g,
            policy,
            m,
            qc2,
            cap,
            allowed,
            x,
            k,
        ) by {
            assert(relaxed(g, policy, m, qc, cap, allowed, x, k));
        }
    }
}

/// Where the estimates can be relied on, no walk of which the search can
/// be sure, to the queued vertex of least priority, weighs less than the
/// record of that vertex says; and where the estimates are all nothing,
/// every walk that weighs less than that ends at a closed vertex.
proof fn lemma_pop_cheapest(
    g: Graph,
    policy: NoneValueResponse,
    start: VertexId,
    m: Map<VertexId, VisitedRecord>,
    qc: Map<VertexId, (u128, u128)>,
    closed: Set<VertexId>,
    cap: Option<PathWeight>,
    allowed: Set<(VertexId, Heuristic)>,
    u: VertexId,
)
    requires
        search_state(g, policy, start, m, qc, closed, None, cap, allowed),
        qc.contains_key(u),
        forall|k: VertexId| #[trigger] qc.contains_key(k) ==> pair_le(qc[u], qc[k]),
    ensures
        sound(g, policy, allowed) ==> is_cheapest_plain(g, policy, start, allowed, u, m[u].weight),
        bare(allowed) ==> forall|w: Seq<Stop>|
            #[trigger] is_walk(g, policy, start, w) && w.last().1.spec_lt(m[u].weight)
                ==> closed.contains(w.last().0),
{
    assert(!closed.contains(u)) by {
        reveal(search_state);
    }
    if sound(g, policy, allowed) {
        assert forall|w: Seq<Stop>|
            #[trigger] is_walk(g, policy, start, w) && w.last().0 == u && plain(
                allowed,
                w.last().1,
            ) implies m[u].weight.spec_le(w.last().1) by {
            lemma_pop_bound(g, policy, start, m, qc, closed, cap, allowed, u, w);
        }
        if bare(allowed) {
            assert forall|w: Seq<Stop>|
                #[trigger] is_walk(g, policy, start, w) && w.last().1.spec_lt(
                    m[u].weight,
                ) implies closed.contains(w.last().0) by {
                lemma_weight_total(w.last().1, m[u].weight);
                if !closed.contains(w.last().0) {
                    lemma_pop_bound(g, policy, start, m, qc, closed, cap, allowed, u, w);
                }
            }
        }
    }
}

/// Where the estimates can be relied on, a walk of which the search can be
/// sure, that ends at a vertex which is not closed, weighs no less than the
/// record of the queued vertex of least priority says.
proof fn lemma_pop_bound(
    g: Graph,
    policy: NoneValueResponse,
    start: VertexId,
    m: Map<VertexId, VisitedRecord>,
    qc: Map<VertexId, (u128, u128)>,
    closed: Set<VertexId>,
    cap: Option<PathWeight>,
    allowed: Set<(VertexId, Heuristic)>,
    u: VertexId,
    w: Seq<Stop>,
)
    requires
        search_state(g, policy, start, m, qc, closed, None, cap, allowed),
        qc.contains_key(u),
        forall|k: VertexId| #[trigger] qc.contains_key(k) ==> pair_le(qc[u], qc[k]),
        sound(g, policy, allowed),
        is_walk(g, policy, start, w),
        plain(allowed, w.last().1),
        !closed.contains(w.last().0),
        bare(allowed) || w.last().0 == u,
    ensures
        m[u].weight.spec_le(w.last().1),
{
    let last = w.len() - 1;
    let d = w[last].1;
    assert(m.contains_key(u) && within_cap(m[u].weight, cap) && m[start].weight
        == PathWeight::spec_zero() && m[start].estimate == Heuristic::spec_none()) by {
        reveal(search_state);
    }
    lemma_weight_total(m[u].weight, d);
    if u == start {
        lemma_weight_bounds(d);
    } else if cap is Some && !d.spec_le(cap.unwrap()) {
        lemma_weight_total(cap.unwrap(), d);
        lemma_weight_le_trans(m[u].weight, cap.unwrap(), d);
    } else {
        lemma_walk_frontier(g, policy, start, m, qc, closed, None, cap, allowed, w, last);
        let j = choose|j: int|
            0 <= j <= last && m.contains_key((#[trigger] w[j]).0) && (qc.contains_key(w[j].0)
                || None::<VertexId> == Some(w[j].0)) && (sound(g, policy, allowed) && plain(
                allowed,
                w[last].1,
            ) ==> m[w[j].0].weight.spec_le(w[j].1));
        let y = w[j].0;
        // u is not the start vertex, so the start vertex is closed, and y is not it
        assert(y != start && allowed.contains((y, m[y].estimate)) && allowed.contains(
            (u, m[u].estimate),
        ) && qc[u] == priority_of(m[u]) && qc[y] == priority_of(m[y])) by {
            reveal(search_state);
            assert(closed.contains(m[u].predecessor.unwrap()));
            lemma_start_closed(
                g,
                policy,
                start,
                m,
                qc,
                closed,
                None,
                cap,
                allowed,
                m[u].predecessor.unwrap(),
            );
        }
        let hy = m[y].estimate;
        let hu = m[u].estimate;
        assert(pair_le(qc[u], qc[y]));
        if bare(allowed) {
            // the estimates are nothing: the weights themselves rise
            lemma_walk_rising(g, policy, start, w, j, last);
            lemma_priority_order(m[u].weight, m[y].weight, Heuristic::spec_none());
            lemma_weight_le_trans(m[u].weight, m[y].weight, w[j].1);
            lemma_weight_le_trans(m[u].weight, w[j].1, d);
        } else {
            // from y on the priorities rise to the end of the walk, which is u
            lemma_priority_order(m[y].weight, w[j].1, hy);
            if j < last {
                lemma_priorities_rise(g, policy, start, allowed, w, j, last, hy, hu);
            }
            lemma_pair_le_trans(
                m[u].weight.spec_priority(hu),
                m[y].weight.spec_priority(hy),
                w[j].1.spec_priority(hy),
            );
            lemma_pair_le_trans(
                m[u].weight.spec_priority(hu),
                w[j].1.spec_priority(hy),
                d.spec_priority(hu),
            );
            lemma_priority_order(m[u].weight, d, hu);
        }
    }
}

/// Every edge of the vertex being dealt with is dealt with: the search is
/// between two vertices again.
proof fn lemma_search_finish(
    g: Graph,
    policy: NoneValueResponse,
    start: VertexId,
    m: Map<VertexId, VisitedRecord>,
    qc: Map<VertexId, (u128, u128)>,
    closed: Set<VertexId>,
    cap: Option<PathWeight>,
    allowed: Set<(VertexId, Heuristic)>,
    u: VertexId,
)
    requires
        search_state(g, policy, start, m, qc, closed, Some(u), cap, allowed),
        relaxed_upto(g, policy, m, qc, cap, allowed, u, g[u].len() as int),
    ensures
        search_state(g, policy, start, m, qc, closed, None, cap, allowed),
{
    reveal(search_state);
}

/// The records and the queue change at `n` alone, and there the weight
/// does not rise: edges that were dealt with stay dealt with.
proof fn lemma_relaxed_kept(
    g: Graph,
    policy: NoneValueResponse,
    before: Map<VertexId, VisitedRecord>,
    after: Map<VertexId, VisitedRecord>,
    qc: Map<VertexId, (u128, u128)>,
    qc2: Map<VertexId, (u128, u128)>,
    cap: Option<PathWeight>,
    allowed: Set<(VertexId, Heuristic)>,
    n: VertexId,
    x: VertexId,
    i: int,
)
    requires
        relaxed_upto(g, policy, before, qc, cap, allowed, x, i),
        x != n,
        before.contains_key(x),
        after == before.insert(n, after[n]),
        qc2 == qc.insert(n, qc2[n]),
        before.contains_key(n) ==> qc.contains_key(n) && after[n].weight.spec_le(before[n].weight),
    ensures
        relaxed_upto(g, policy, after, qc2, cap, allowed, x, i),
{
    assert forall|k: int| 0 <= k < i && k < g[x].len() implies #[trigger] relaxed(
        g,
        policy,
        after,
        qc2,
        cap,
        allowed,
        x,
        k,
    ) by {
        assert(relaxed(g, policy, before, qc, cap, allowed, x, k));
        let e = g[x][k];
        let c = before[x].weight.spec_extend(e.1, policy);
        if g.contains_key(e.0) && c is Some && within_cap(c.unwrap(), cap) {
            if e.0 == n && sound(g, policy, allowed) {
                lemma_weight_le_trans(after[n].weight, before[n].weight, c.unwrap());
            }
        }
    }
}

/// The `i`-th edge of `u` leads to the recorded vertex `n`, and the walk
/// over it does not improve on the record of `n`, or `n` is no longer
/// queued: the edge is dealt with.
proof fn lemma_search_keep(
    g: Graph,
    policy: NoneValueResponse,
    m: Map<VertexId, VisitedRecord>,
    qc: Map<VertexId, (u128, u128)>,
    cap: Option<PathWeight>,
    allowed: Set<(VertexId, Heuristic)>,
    u: VertexId,
    i: int,
    cand: PathWeight,
)
    requires
        g.contains_key(u),
        0 <= i < g[u].len(),
        !is_negative(g[u][i]),
        m.contains_key(g[u][i].0),
        m[u].weight.spec_extend(g[u][i].1, policy) == Some(cand),
        !cand.spec_lt(m[g[u][i].0].weight) || !qc.contains_key(g[u][i].0),
    ensures
        relaxed(g, policy, m, qc, cap, allowed, u, i),
{
    lemma_weight_total(cand, m[g[u][i].0].weight);
}

/// The `i`-th edge of `u` leads to a vertex `n` that was not recorded; it
/// is recorded with the weight of the walk over this edge, and queued.
proof fn lemma_search_discover(
    g: Graph,
    policy: NoneValueResponse,
    start: VertexId,
    before: Map<VertexId, VisitedRecord>,
    qc: Map<VertexId, (u128, u128)>,
    closed: Set<VertexId>,
    cap: Option<PathWeight>,
    allowed: Set<(VertexId, Heuristic)>,
    u: VertexId,
    i: int,
    record: VisitedRecord,
)
    requires
        search_state(g, policy, start, before, qc, closed, Some(u), cap, allowed),
        relaxed_upto(g, policy, before, qc, cap, allowed, u, i),
        g.contains_key(u),
        0 <= i < g[u].len(),
        !is_negative(g[u][i]),
        g.contains_key(g[u][i].0),
        !before.contains_key(g[u][i].0),
        before[u].weight.spec_extend(g[u][i].1, policy) == Some(record.weight),
        within_cap(record.weight, cap),
        record.predecessor == Some(u),
        record.step == before[u].step + 1,
        allowed.contains((g[u][i].0, record.estimate)),
    ensures
        search_state(
            g,
            policy,
            start,
            before.insert(g[u][i].0, record),
            qc.insert(g[u][i].0, priority_of(record)),
            closed,
            Some(u),
            cap,
            allowed,
        ),
        relaxed_upto(
            g,
            policy,
            before.insert(g[u][i].0, record),
            qc.insert(g[u][i].0, priority_of(record)),
            cap,
            allowed,
            u,
            i + 1,
        ),
        before.insert(g[u][i].0, record).dom().len() == before.dom().len() + 1,
        qc.insert(g[u][i].0, priority_of(record)).dom().len() == qc.dom().len() + 1,
        before.insert(g[u][i].0, record).dom().subset_of(g.dom()),
        qc.insert(g[u][i].0, priority_of(record)).dom().finite(),
{
    reveal(search_state);
    let n = g[u][i].0;
    let m = before.insert(n, record);
    let qc2 = qc.insert(n, priority_of(record));
    assert(qc2.dom() =~= qc.dom().insert(n));
    assert(!qc.contains_key(n));
    assert(crate::graph_vertex::has_edge_to(g[u], n));
    crate::graph_functions::frontier::lemma_tree_grow(g, start, before, u, n, record);
    assert(steps_along(g, policy, (u, before[u].weight), (n, record.weight), i));
    assert(n != u);
    assert(n != start);
    assert forall|v: VertexId| #[trigger] m.contains_key(v) && v != start implies weighted_step(
        g,
        policy,
        (m[v].predecessor.unwrap(), m[m[v].predecessor.unwrap()].weight),
        (v, m[v].weight),
    ) by {
        if v != n {
            assert(before.contains_key(v));
            assert(before.contains_key(before[v].predecessor.unwrap()));
        }
    }
    assert forall|x: VertexId| #[trigger] closed.contains(x) && Some(u) != Some(x) implies relaxed_upto(
        g,
        policy,
        m,
        qc2,
        cap,
        allowed,
        x,
        g[x].len() as int,
    ) by {
        lemma_relaxed_kept(g, policy, before, m, qc, qc2, cap, allowed, n, x, g[x].len() as int);
    }
    lemma_relaxed_kept(g, policy, before, m, qc, qc2, cap, allowed, n, u, i);
    lemma_weight_total(record.weight, record.weight);
    assert(relaxed(g, policy, m, qc2, cap, allowed, u, i));
    assert forall|v: VertexId| #[trigger] m.contains_key(v) implies (closed.contains(v)
        || qc2.contains_key(v)) && within_cap(m[v].weight, cap) && (v != start ==> allowed.contains(
        (v, m[v].estimate),
    ) && closed.contains(m[v].predecessor.unwrap())) by {
        if v != n {
            assert(before.contains_key(v));
        }
    }
    assert forall|v: VertexId| #[trigger] qc2.contains_key(v) implies m.contains_key(v)
        && !closed.contains(v) && qc2[v] == priority_of(m[v]) by {
        if v != n {
            assert(qc.contains_key(v));
        }
    }
    assert forall|v: VertexId| #[trigger] closed.contains(v) implies m.contains_key(v) && m[v].step
        < closed.len() by {}
    if sound(g, policy, allowed) {
        assert forall|v: VertexId| #[trigger] closed.contains(v) implies is_cheapest_plain(
            g,
            policy,
            start,
            allowed,
            v,
            m[v].weight,
        ) by {}
    }
}

/// The `i`-th edge of `u` leads to a queued vertex `n`, and the walk over
/// it weighs less than the record of `n` says; the record and the priority
/// of `n` follow.
proof fn lemma_search_improve(
    g: Graph,
    policy: NoneValueResponse,
    start: VertexId,
    before: Map<VertexId, VisitedRecord>,
    qc: Map<VertexId, (u128, u128)>,
    closed: Set<VertexId>,
    cap: Option<PathWeight>,
    allowed: Set<(VertexId, Heuristic)>,
    u: VertexId,
    i: int,
    record: VisitedRecord,
)
    requires
        search_state(g, policy, start, before, qc, closed, Some(u), cap, allowed),
        relaxed_upto(g, policy, before, qc, cap, allowed, u, i),
        g.contains_key(u),
        0 <= i < g[u].len(),
        !is_negative(g[u][i]),
        g.contains_key(g[u][i].0),
        before.contains_key(g[u][i].0),
        qc.contains_key(g[u][i].0),
        before[u].weight.spec_extend(g[u][i].1, policy) == Some(record.weight),
        record.weight.spec_lt(before[g[u][i].0].weight),
        record.predecessor == Some(u),
        record.step == before[u].step + 1,
        record.estimate == before[g[u][i].0].estimate,
    ensures
        search_state(
            g,
            policy,
            start,
            before.insert(g[u][i].0, record),
            qc.insert(g[u][i].0, priority_of(record)),
            closed,
            Some(u),
            cap,
            allowed,
        ),
        relaxed_upto(
            g,
            policy,
            before.insert(g[u][i].0, record),
            qc.insert(g[u][i].0, priority_of(record)),
            cap,
            allowed,
            u,
            i + 1,
        ),
        before.insert(g[u][i].0, record).dom() == before.dom(),
        qc.insert(g[u][i].0, priority_of(record)).dom() == qc.dom(),
{
    let n = g[u][i].0;
    let m = before.insert(n, record);
    let qc2 = qc.insert(n, priority_of(record));
    assert(qc2.dom() =~= qc.dom());
    assert(m.dom() =~= before.dom());
    lemma_improve_tree(g, policy, start, before, qc, closed, cap, allowed, u, i, record);
    lemma_improve_relaxed(g, policy, start, before, qc, closed, cap, allowed, u, i, record);
    lemma_improve_rest(g, policy, start, before, qc, closed, cap, allowed, u, n, record);
}

/// Recording a queued vertex anew, reached over the `i`-th edge of the
/// vertex being dealt with, keeps the records a tree of walks.
proof fn lemma_improve_tree(
    g: Graph,
    policy: NoneValueResponse,
    start: VertexId,
    before: Map<VertexId, VisitedRecord>,
    qc: Map<VertexId, (u128, u128)>,
    closed: Set<VertexId>,
    cap: Option<PathWeight>,
    allowed: Set<(VertexId, Heuristic)>,
    u: VertexId,
    i: int,
    record: VisitedRecord,
)
    requires
        search_state(g, policy, start, before, qc, closed, Some(u), cap, allowed),
        g.contains_key(u),
        0 <= i < g[u].len(),
        g.contains_key(g[u][i].0),
        before.contains_key(g[u][i].0),
        qc.contains_key(g[u][i].0),
        before[u].weight.spec_extend(g[u][i].1, policy) == Some(record.weight),
        record.weight.spec_lt(before[g[u][i].0].weight),
        record.predecessor == Some(u),
        record.step == before[u].step + 1,
    ensures
        closed.contains(u),
        !closed.contains(g[u][i].0),
        g[u][i].0 != u,
        g[u][i].0 != start,
        within_cap(record.weight, cap),
        is_weighted_tree(g, policy, start, before.insert(g[u][i].0, record)),
{
    let n = g[u][i].0;
    lemma_not_closed(g, policy, start, before, qc, closed, Some(u), cap, allowed, n);
    assert(closed.contains(u)) by {
        reveal(search_state);
    }
    lemma_start_closed(g, policy, start, before, qc, closed, Some(u), cap, allowed, u);
    lemma_weight_total(record.weight, before[n].weight);
    reveal(search_state);
    if cap is Some {
        lemma_weight_le_trans(record.weight, before[n].weight, cap.unwrap());
    }
    lemma_tree_reparent(g, policy, start, before, closed, u, i, record);
}

/// Recording a queued vertex anew, with a lesser weight, keeps the edges
/// that were dealt with dealt with, and deals with the edge that leads to
/// it.
proof fn lemma_improve_relaxed(
    g: Graph,
    policy: NoneValueResponse,
    start: VertexId,
    before: Map<VertexId, VisitedRecord>,
    qc: Map<VertexId, (u128, u128)>,
    closed: Set<VertexId>,
    cap: Option<PathWeight>,
    allowed: Set<(VertexId, Heuristic)>,
    u: VertexId,
    i: int,
    record: VisitedRecord,
)
    requires
        search_state(g, policy, start, before, qc, closed, Some(u), cap, allowed),
        relaxed_upto(g, policy, before, qc, cap, allowed, u, i),
        g.contains_key(u),
        0 <= i < g[u].len(),
        !is_negative(g[u][i]),
        before.contains_key(g[u][i].0),
        qc.contains_key(g[u][i].0),
        g[u][i].0 != u,
        before[u].weight.spec_extend(g[u][i].1, policy) == Some(record.weight),
        record.weight.spec_lt(before[g[u][i].0].weight),
    ensures
        forall|x: VertexId| #[trigger]
            closed.contains(x) && Some(u) != Some(x) ==> relaxed_upto(
                g,
                policy,
                before.insert(g[u][i].0, record),
                qc.insert(g[u][i].0, priority_of(record)),
                cap,
                allowed,
                x,
                g[x].len() as int,
            ),
        relaxed_upto(
            g,
            policy,
            before.insert(g[u][i].0, record),
            qc.insert(g[u][i].0, priority_of(record)),
            cap,
            allowed,
            u,
            i + 1,
        ),
{
    let n = g[u][i].0;
    let m = before.insert(n, record);
    let qc2 = qc.insert(n, priority_of(record));
    lemma_weight_total(record.weight, before[n].weight);
    lemma_not_closed(g, policy, start, before, qc, closed, Some(u), cap, allowed, n);
    assert(before.contains_key(u)) by {
        reveal(search_state);
    }
    assert forall|x: VertexId| #[trigger] closed.contains(x) && Some(u) != Some(x) implies relaxed_upto(
        g,
        policy,
        m,
        qc2,
        cap,
        allowed,
        x,
        g[x].len() as int,
    ) by {
        assert(relaxed_upto(g, policy, before, qc, cap, allowed, x, g[x].len() as int)
            && before.contains_key(x)) by {
            reveal(search_state);
        }
        lemma_relaxed_kept(g, policy, before, m, qc, qc2, cap, allowed, n, x, g[x].len() as int);
    }
    lemma_relaxed_kept(g, policy, before, m, qc, qc2, cap, allowed, n, u, i);
    lemma_weight_total(record.weight, record.weight);
    assert(relaxed(g, policy, m, qc2, cap, allowed, u, i));
}

/// What else holds of the state after a queued vertex was recorded anew.
proof fn lemma_improve_rest(
    g: Graph,
    policy: NoneValueResponse,
    start: VertexId,
    before: Map<VertexId, VisitedRecord>,
    qc: Map<VertexId, (u128, u128)>,
    closed: Set<VertexId>,
    cap: Option<PathWeight>,
    allowed: Set<(VertexId, Heuristic)>,
    u: VertexId,
    n: VertexId,
    record: VisitedRecord,
)
    requires
        search_state(g, policy, start, before, qc, closed, Some(u), cap, allowed),
        before.contains_key(n),
        qc.contains_key(n),
        n != start,
        closed.contains(u),
        within_cap(record.weight, cap),
        record.predecessor == Some(u),
        record.estimate == before[n].estimate,
        is_weighted_tree(g, policy, start, before.insert(n, record)),
        forall|x: VertexId| #[trigger]
            closed.contains(x) && Some(u) != Some(x) ==> relaxed_upto(
                g,
                policy,
                before.insert(n, record),
                qc.insert(n, priority_of(record)),
                cap,
                allowed,
                x,
                g[x].len() as int,
            ),
    ensures
        search_state(
            g,
            policy,
            start,
            before.insert(n, record),
            qc.insert(n, priority_of(record)),
            closed,
            Some(u),
            cap,
            allowed,
        ),
{
    reveal(search_state);
    let m = before.insert(n, record);
    let qc2 = qc.insert(n, priority_of(record));
    assert(qc2.dom() =~= qc.dom());
    assert forall|v: VertexId| #[trigger] m.contains_key(v) implies (closed.contains(v)
        || qc2.contains_key(v)) && within_cap(m[v].weight, cap) && (v != start ==> allowed.contains(
        (v, m[v].estimate),
    ) && closed.contains(m[v].predecessor.unwrap())) by {
        if v != n {
            assert(before.contains_key(v));
        }
    }
    assert forall|v: VertexId| #[trigger] qc2.contains_key(v) implies m.contains_key(v)
        && !closed.contains(v) && qc2[v] == priority_of(m[v]) by {
        if v != n {
            assert(qc.contains_key(v));
        }
    }
    assert forall|v: VertexId| #[trigger] closed.contains(v) implies m.contains_key(v) && m[v].step
        < closed.len() by {}
    if sound(g, policy, allowed) {
        assert forall|v: VertexId| #[trigger] closed.contains(v) implies is_cheapest_plain(
            g,
            policy,
            start,
            allowed,
            v,
            m[v].weight,
        ) by {}
    }
}

/// A recorded vertex that is not closed, and is not the start vertex,
/// takes the closed vertex `u` for its predecessor, with the weight of the
/// walk over the `i`-th edge of `u`: the records stay a tree of walks.
proof fn lemma_tree_reparent(
    g: Graph,
    policy: NoneValueResponse,
    start: VertexId,
    before: Map<VertexId, VisitedRecord>,
    closed: Set<VertexId>,
    u: VertexId,
    i: int,
    record: VisitedRecord,
)
    requires
        is_weighted_tree(g, policy, start, before),
        closed.finite(),
        forall|v: VertexId| #[trigger]
            closed.contains(v) ==> before.contains_key(v) && before[v].step < closed.len(),
        forall|v: VertexId| #[trigger]
            before.contains_key(v) && v != start ==> closed.contains(before[v].predecessor.unwrap()),
        closed.contains(u),
        g.contains_key(u),
        0 <= i < g[u].len(),
        g.contains_key(g[u][i].0),
        before.contains_key(g[u][i].0),
        !closed.contains(g[u][i].0),
        g[u][i].0 != start,
        before[u].weight.spec_extend(g[u][i].1, policy) == Some(record.weight),
        record.predecessor == Some(u),
        record.step == before[u].step + 1,
    ensures
        is_weighted_tree(g, policy, start, before.insert(g[u][i].0, record)),
{
    let n = g[u][i].0;
    let m = before.insert(n, record);
    assert(m.dom() =~= before.dom());
    assert(crate::graph_vertex::has_edge_to(g[u], n));
    assert(steps_along(g, policy, (u, before[u].weight), (n, record.weight), i));
    assert(record.step < m.dom().len()) by {
        vstd::set_lib::lemma_len_subset(closed.insert(n), before.dom());
    }
    assert(is_search_tree(g, start, m)) by {
        assert forall|v: VertexId| #[trigger] m.contains_key(v) && v != start implies m[v].predecessor is Some
            && m.contains_key(m[v].predecessor.unwrap()) && has_edge(
            g,
            m[v].predecessor.unwrap(),
            v,
        ) && m[v].step == m[m[v].predecessor.unwrap()].step + 1 by {
            if v != n {
                assert(before.contains_key(v));
                assert(closed.contains(before[v].predecessor.unwrap()));
            }
        }
        assert forall|v: VertexId| #[trigger] m.contains_key(v) implies g.contains_key(v) && m[v].step
            < m.dom().len() by {
            if v != n {
                assert(before.contains_key(v));
            }
        }
    }
    assert forall|v: VertexId| #[trigger] m.contains_key(v) && v != start implies weighted_step(
        g,
        policy,
        (m[v].predecessor.unwrap(), m[m[v].predecessor.unwrap()].weight),
        (v, m[v].weight),
    ) by {
        if v != n {
            assert(before.contains_key(v));
            assert(closed.contains(before[v].predecessor.unwrap()));
        }
    }
}

/// A queued vertex is not closed, and a vertex without a record is not
/// closed.
proof fn lemma_not_closed(
    g: Graph,
    policy: NoneValueResponse,
    start: VertexId,
    m: Map<VertexId, VisitedRecord>,
    qc: Map<VertexId, (u128, u128)>,
    closed: Set<VertexId>,
    hot: Option<VertexId>,
    cap: Option<PathWeight>,
    allowed: Set<(VertexId, Heuristic)>,
    n: VertexId,
)
    requires
        search_state(g, policy, start, m, qc, closed, hot, cap, allowed),
        qc.contains_key(n) || !m.contains_key(n),
    ensures
        !closed.contains(n),
{
    reveal(search_state);
}

/// Once a vertex is closed, the start vertex is closed.
proof fn lemma_start_closed(
    g: Graph,
    policy: NoneValueResponse,
    start: VertexId,
    m: Map<VertexId, VisitedRecord>,
    qc: Map<VertexId, (u128, u128)>,
    closed: Set<VertexId>,
    hot: Option<VertexId>,
    cap: Option<PathWeight>,
    allowed: Set<(VertexId, Heuristic)>,
    v: VertexId,
)
    requires
        search_state(g, policy, start, m, qc, closed, hot, cap, allowed),
        closed.contains(v),
    ensures
        closed.contains(start),
    decreases m[v].step,
{
    reveal(search_state);
    if v != start {
        let p = m[v].predecessor.unwrap();
        assert(m.contains_key(v));
        lemma_start_closed(g, policy, start, m, qc, closed, hot, cap, allowed, p);
    }
}

/// The recorded weights of the vertices rise along the sequence.
pub open spec fn rising_weights(m: Map<VertexId, VisitedRecord>, found: Seq<VertexId>) -> bool {
    forall|i: int, j: int|
        0 <= i < j < found.len() ==> m[#[trigger] found[i]].weight.spec_le(
            m[#[trigger] found[j]].weight,
        )
}

/// No closed vertex weighs more than `d`, where the estimates are all
/// nothing.
pub open spec fn floor_at(
    m: Map<VertexId, VisitedRecord>,
    closed: Set<VertexId>,
    d: PathWeight,
    allowed: Set<(VertexId, Heuristic)>,
) -> bool {
    bare(allowed) ==> forall|c: VertexId| #[trigger] closed.contains(c) ==> m[c].weight.spec_le(d)
}

/// Where the estimates are all nothing the vertices leave the queue in the
/// order of their weights: no closed vertex weighs more than a queued one, the found
/// vertices are closed, and their weights rise.
#[verifier::opaque]
pub open spec fn in_order(
    m: Map<VertexId, VisitedRecord>,
    qc: Map<VertexId, (u128, u128)>,
    closed: Set<VertexId>,
    found: Seq<VertexId>,
    allowed: Set<(VertexId, Heuristic)>,
) -> bool {
    bare(allowed) ==> {
        &&& forall|v: VertexId| #[trigger] qc.contains_key(v) ==> floor_at(m, closed, m[v].weight, allowed)
        &&& forall|i: int| 0 <= i < found.len() ==> closed.contains(#[trigger] found[i])
        &&& rising_weights(m, found)
    }
}

/// The vertex of least priority leaves the queue: no closed vertex weighs
/// more than it, and it may join the found vertices.
proof fn lemma_order_pop(
    g: Graph,
    policy: NoneValueResponse,
    start: VertexId,
    m: Map<VertexId, VisitedRecord>,
    qc: Map<VertexId, (u128, u128)>,
    closed: Set<VertexId>,
    cap: Option<PathWeight>,
    found: Seq<VertexId>,
    allowed: Set<(VertexId, Heuristic)>,
    u: VertexId,
)
    requires
        search_state(g, policy, start, m, qc, closed, None, cap, allowed),
        in_order(m, qc, closed, found, allowed),
        qc.contains_key(u),
        forall|k: VertexId| #[trigger] qc.contains_key(k) ==> pair_le(qc[u], qc[k]),
    ensures
        in_order(m, qc.remove(u), closed.insert(u), found, allowed),
        in_order(m, qc.remove(u), closed.insert(u), found.push(u), allowed),
        floor_at(m, closed.insert(u), m[u].weight, allowed),
{
    reveal(search_state);
    reveal(in_order);
    if bare(allowed) {
        let closed2 = closed.insert(u);
        let qc2 = qc.remove(u);
        let f = found.push(u);
        assert(floor_at(m, closed, m[u].weight, allowed));
        lemma_weight_total(m[u].weight, m[u].weight);
        assert forall|v: VertexId| #[trigger] qc2.contains_key(v) implies floor_at(
            m,
            closed2,
            m[v].weight,
            allowed,
        ) by {
            assert(qc.contains_key(v));
            assert(floor_at(m, closed, m[v].weight, allowed));
            assert(pair_le(qc[u], qc[v]));
            lemma_priority_order(m[u].weight, m[v].weight, Heuristic::spec_none());
        }
        assert forall|i: int| 0 <= i < f.len() implies closed2.contains(#[trigger] f[i]) by {
            if i < found.len() {
                assert(f[i] == found[i]);
            }
        }
        assert forall|i: int, j: int| 0 <= i < j < f.len() implies m[#[trigger] f[i]].weight.spec_le(
            m[#[trigger] f[j]].weight,
        ) by {
            assert(f[i] == found[i]);
            assert(closed.contains(found[i]));
            if j < found.len() {
                assert(f[j] == found[j]);
            }
        }
        assert forall|i: int| 0 <= i < found.len() implies closed2.contains(#[trigger] found[i]) by {
            assert(closed.contains(found[i]));
        }
    }
}

/// A vertex that is not closed is recorded or recorded anew, with a weight
/// that no closed vertex exceeds: the order is kept.
proof fn lemma_order_record(
    before: Map<VertexId, VisitedRecord>,
    qc: Map<VertexId, (u128, u128)>,
    closed: Set<VertexId>,
    found: Seq<VertexId>,
    allowed: Set<(VertexId, Heuristic)>,
    n: VertexId,
    record: VisitedRecord,
    priority: (u128, u128),
    d: PathWeight,
)
    requires
        in_order(before, qc, closed, found, allowed),
        floor_at(before, closed, d, allowed),
        !closed.contains(n),
        d.spec_le(record.weight),
    ensures
        in_order(before.insert(n, record), qc.insert(n, priority), closed, found, allowed),
        floor_at(before.insert(n, record), closed, d, allowed),
{
    reveal(in_order);
    if bare(allowed) {
        let m = before.insert(n, record);
        let qc2 = qc.insert(n, priority);
        assert forall|v: VertexId| #[trigger] qc2.contains_key(v) implies floor_at(
            m,
            closed,
            m[v].weight,
            allowed,
        ) by {
            if v == n {
                assert forall|c: VertexId| #[trigger] closed.contains(c) implies m[c].weight.spec_le(
                    m[v].weight,
                ) by {
                    lemma_weight_le_trans(before[c].weight, d, record.weight);
                }
            } else {
                assert(qc.contains_key(v));
                assert(floor_at(before, closed, before[v].weight, allowed));
            }
        }
        assert forall|i: int, j: int| 0 <= i < j < found.len() implies m[#[trigger] found[i]].weight.spec_le(
            m[#[trigger] found[j]].weight,
        ) by {
            assert(closed.contains(found[i]));
            assert(closed.contains(found[j]));
        }
    }
}

/// `h` is the one estimate that can be made for `v`: nothing where the
/// estimates are all nothing.
pub open spec fn only_estimate(allowed: Set<(VertexId, Heuristic)>, v: VertexId, h: Heuristic) -> bool {
    if bare(allowed) {
        h == Heuristic::spec_none()
    } else {
        allowed.contains((v, h)) && forall|h2: Heuristic| #[trigger]
            allowed.contains((v, h2)) ==> h2 == h
    }
}

/// The walk `w` rivals the `i`-th found vertex: the search can be sure of
/// it, it stays within the cap, and it ends at a vertex that has one
/// estimate, `h`, that the goal cannot reject, and that was not found
/// before.
pub open spec fn rivals<V, C, G: Goal<C>>(
    store: &VertexStore<V, C>,
    goal: &G,
    g: Graph,
    policy: NoneValueResponse,
    start: VertexId,
    cap: Option<PathWeight>,
    allowed: Set<(VertexId, Heuristic)>,
    found: Seq<VertexId>,
    i: int,
    w: Seq<Stop>,
    h: Heuristic,
) -> bool {
    &&& 0 <= i < found.len()
    &&& is_walk(g, policy, start, w)
    &&& plain(allowed, w.last().1)
    &&& within_cap(w.last().1, cap)
    &&& only_estimate(allowed, w.last().0, h)
    &&& !rejects(store, goal, w.last().0)
    &&& forall|j: int| 0 <= j < i ==> #[trigger] found[j] != w.last().0
}

/// Where the estimates can be relied on, each found vertex left the queue
/// with a priority no greater than that of any walk that rivals it.
pub open spec fn outdoes_rivals<V, C, G: Goal<C>>(
    store: &VertexStore<V, C>,
    goal: &G,
    g: Graph,
    policy: NoneValueResponse,
    start: VertexId,
    cap: Option<PathWeight>,
    allowed: Set<(VertexId, Heuristic)>,
    m: Map<VertexId, VisitedRecord>,
    found: Seq<VertexId>,
) -> bool {
    sound(g, policy, allowed) ==> forall|i: int, w: Seq<Stop>, h: Heuristic| #[trigger]
        rivals(store, goal, g, policy, start, cap, allowed, found, i, w, h) ==> pair_le(
            priority_of(m[found[i]]),
            w.last().1.spec_priority(h),
        )
}

/// `outdoes_rivals`, kept from the search while it runs.
#[verifier::opaque]
pub open spec fn nearest<V, C, G: Goal<C>>(
    store: &VertexStore<V, C>,
    goal: &G,
    g: Graph,
    policy: NoneValueResponse,
    start: VertexId,
    cap: Option<PathWeight>,
    allowed: Set<(VertexId, Heuristic)>,
    m: Map<VertexId, VisitedRecord>,
    found: Seq<VertexId>,
) -> bool {
    outdoes_rivals(store, goal, g, policy, start, cap, allowed, m, found)
}

/// Where the estimates can be relied on, the queued vertex of least
/// priority has a priority no greater than that of any walk of which the
/// search can be sure, within the cap, to a vertex that is not closed and has
/// one estimate.
proof fn lemma_pop_priority(
    g: Graph,
    policy: NoneValueResponse,
    start: VertexId,
    m: Map<VertexId, VisitedRecord>,
    qc: Map<VertexId, (u128, u128)>,
    closed: Set<VertexId>,
    cap: Option<PathWeight>,
    allowed: Set<(VertexId, Heuristic)>,
    u: VertexId,
    w: Seq<Stop>,
    h: Heuristic,
)
    requires
        search_state(g, policy, start, m, qc, closed, None, cap, allowed),
        qc.contains_key(u),
        forall|k: VertexId| #[trigger] qc.contains_key(k) ==> pair_le(qc[u], qc[k]),
        sound(g, policy, allowed),
        is_walk(g, policy, start, w),
        plain(allowed, w.last().1),
        within_cap(w.last().1, cap),
        !closed.contains(w.last().0),
        only_estimate(allowed, w.last().0, h),
    ensures
        pair_le(priority_of(m[u]), w.last().1.spec_priority(h)),
{
    let last = w.len() - 1;
    let d = w[last].1;
    assert(m.contains_key(u) && m[start].weight == PathWeight::spec_zero() && m[start].estimate
        == Heuristic::spec_none() && qc[u] == priority_of(m[u])) by {
        reveal(search_state);
    }
    if u == start {
    } else {
        lemma_walk_frontier(g, policy, start, m, qc, closed, None, cap, allowed, w, last);
        let j = choose|j: int|
            0 <= j <= last && m.contains_key((#[trigger] w[j]).0) && (qc.contains_key(w[j].0)
                || None::<VertexId> == Some(w[j].0)) && (sound(g, policy, allowed) && plain(
                allowed,
                w[last].1,
            ) ==> m[w[j].0].weight.spec_le(w[j].1));
        let y = w[j].0;
        assert(y != start && allowed.contains((y, m[y].estimate)) && qc[y] == priority_of(m[y])) by {
            reveal(search_state);
            assert(closed.contains(m[u].predecessor.unwrap()));
            lemma_start_closed(
                g,
                policy,
                start,
                m,
                qc,
                closed,
                None,
                cap,
                allowed,
                m[u].predecessor.unwrap(),
            );
        }
        let hy = m[y].estimate;
        assert(pair_le(qc[u], qc[y]));
        lemma_priority_order(m[y].weight, w[j].1, hy);
        if !bare(allowed) {
            lemma_walk_clear(g, policy, start, w, j, last);
        }
        if j < last {
            lemma_priorities_rise(g, policy, start, allowed, w, j, last, hy, h);
        }
        lemma_pair_le_trans(priority_of(m[u]), priority_of(m[y]), w[j].1.spec_priority(hy));
        lemma_pair_le_trans(priority_of(m[u]), w[j].1.spec_priority(hy), d.spec_priority(h));
    }
}

/// The vertex of least priority leaves the queue and is found: it outdoes
/// its rivals, as the vertices found before it do.
proof fn lemma_nearest_push<V: GraphVertex, C, G: Goal<C>>(
    store: &VertexStore<V, C>,
    goal: &G,
    policy: NoneValueResponse,
    start: VertexId,
    m: Map<VertexId, VisitedRecord>,
    qc: Map<VertexId, (u128, u128)>,
    closed: Set<VertexId>,
    cap: Option<PathWeight>,
    allowed: Set<(VertexId, Heuristic)>,
    found: Seq<VertexId>,
    u: VertexId,
)
    requires
        search_state(store.graph(), policy, start, m, qc, closed, None, cap, allowed),
        judged(store, goal, closed, found),
        nearest(store, goal, store.graph(), policy, start, cap, allowed, m, found),
        qc.contains_key(u),
        forall|k: VertexId| #[trigger] qc.contains_key(k) ==> pair_le(qc[u], qc[k]),
    ensures
        nearest(store, goal, store.graph(), policy, start, cap, allowed, m, found.push(u)),
{
    let g = store.graph();
    let f = found.push(u);
    reveal(nearest);
    if sound(g, policy, allowed) {
        assert forall|i: int, w: Seq<Stop>, h: Heuristic| #[trigger]
            rivals(store, goal, g, policy, start, cap, allowed, f, i, w, h) implies pair_le(
            priority_of(m[f[i]]),
            w.last().1.spec_priority(h),
        ) by {
            if i < found.len() {
                assert(f[i] == found[i]);
                assert forall|j: int| 0 <= j < i implies #[trigger] found[j] != w.last().0 by {
                    assert(f[j] == found[j]);
                }
                assert(rivals(store, goal, g, policy, start, cap, allowed, found, i, w, h));
            } else {
                assert(!closed.contains(w.last().0)) by {
                    reveal(judged);
                    if closed.contains(w.last().0) {
                        let k = choose|k: int| 0 <= k < found.len() && found[k] == w.last().0;
                        assert(f[k] == found[k]);
                    }
                }
                lemma_pop_priority(g, policy, start, m, qc, closed, cap, allowed, u, w, h);
            }
        }
    }
}

/// A vertex that is not closed is recorded or recorded anew: the found
/// vertices, which are closed, outdo their rivals as before.
proof fn lemma_nearest_kept<V: GraphVertex, C, G: Goal<C>>(
    store: &VertexStore<V, C>,
    goal: &G,
    policy: NoneValueResponse,
    start: VertexId,
    before: Map<VertexId, VisitedRecord>,
    closed: Set<VertexId>,
    cap: Option<PathWeight>,
    allowed: Set<(VertexId, Heuristic)>,
    found: Seq<VertexId>,
    n: VertexId,
    record: VisitedRecord,
)
    requires
        judged(store, goal, closed, found),
        nearest(store, goal, store.graph(), policy, start, cap, allowed, before, found),
        !closed.contains(n),
    ensures
        nearest(
            store,
            goal,
            store.graph(),
            policy,
            start,
            cap,
            allowed,
            before.insert(n, record),
            found,
        ),
{
    let g = store.graph();
    let m = before.insert(n, record);
    reveal(nearest);
    reveal(judged);
    if sound(g, policy, allowed) {
        assert forall|i: int, w: Seq<Stop>, h: Heuristic| #[trigger]
            rivals(store, goal, g, policy, start, cap, allowed, found, i, w, h) implies pair_le(
            priority_of(m[found[i]]),
            w.last().1.spec_priority(h),
        ) by {
            assert(closed.contains(found[i]));
        }
    }
}

/// A walk of weight `d` ends, by what the search promises, at a vertex
/// about which the goal was asked and of which every edge was read. Where
/// the search stopped with as many vertices as were asked for, these are
/// the walks that weigh less than the last one found, where the estimates
/// are all nothing. Where it did not, they are the walks within the cap: all
/// walks where there is no cap, else those of which the search can be sure,
/// where the estimates can be relied on.
pub open spec fn surveyed(
    g: Graph,
    policy: NoneValueResponse,
    allowed: Set<(VertexId, Heuristic)>,
    cap: Option<PathWeight>,
    max_results: Option<usize>,
    found: Seq<VertexId>,
    m: Map<VertexId, VisitedRecord>,
    d: PathWeight,
) -> bool {
    if is_full(found.len(), max_results) {
        bare(allowed) && found.len() > 0 && d.spec_lt(m[found.last()].weight)
    } else {
        within_cap(d, cap) && (cap is None || (sound(g, policy, allowed) && plain(allowed, d)))
    }
}

/// What a weighted search promises of the vertices it found and of its
/// records. `allowed` holds the estimates that can be made.
pub open spec fn cheapest_first<V: GraphVertex, C, G: Goal<C>>(
    store: &VertexStore<V, C>,
    start: VertexId,
    goal: &G,
    policy: NoneValueResponse,
    allowed: Set<(VertexId, Heuristic)>,
    max_results: Option<usize>,
    cap: Option<PathWeight>,
    found: Seq<VertexId>,
    m: Map<VertexId, VisitedRecord>,
) -> bool {
    let g = store.graph();
    &&& is_weighted_tree(g, policy, start, m)
    &&& forall|v: VertexId| #[trigger]
        m.contains_key(v) ==> within_cap(m[v].weight, cap) && if v == start {
            m[v].estimate == Heuristic::spec_none()
        } else {
            allowed.contains((v, m[v].estimate))
        }
    &&& found.no_duplicates()
    &&& max_results is Some ==> found.len() <= max_results.unwrap()
    &&& forall|i: int|
        0 <= i < found.len() ==> m.contains_key(#[trigger] found[i]) && accepts(store, goal, found[i])
            && (sound(g, policy, allowed) ==> is_cheapest_plain(
            g,
            policy,
            start,
            allowed,
            found[i],
            m[found[i]].weight,
        ))
    &&& bare(allowed) ==> rising_weights(m, found)
    &&& outdoes_rivals(store, goal, g, policy, start, cap, allowed, m, found)
    &&& forall|w: Seq<Stop>|
        #[trigger] is_walk(g, policy, start, w) && surveyed(
            g,
            policy,
            allowed,
            cap,
            max_results,
            found,
            m,
            w.last().1,
        ) ==> !has_negative_edge(g, w.last().0) && (found.contains(w.last().0) || rejects(
            store,
            goal,
            w.last().0,
        ))
}

/// A vertex of which every edge is dealt with has no edge of negative
/// weight.
proof fn lemma_no_negative_edge(
    g: Graph,
    policy: NoneValueResponse,
    m: Map<VertexId, VisitedRecord>,
    qc: Map<VertexId, (u128, u128)>,
    cap: Option<PathWeight>,
    allowed: Set<(VertexId, Heuristic)>,
    x: VertexId,
)
    requires
        relaxed_upto(g, policy, m, qc, cap, allowed, x, g[x].len() as int),
    ensures
        !has_negative_edge(g, x),
{
    if has_negative_edge(g, x) {
        let k = choose|k: int| 0 <= k < g[x].len() && is_negative(#[trigger] g[x][k]);
        assert(relaxed(g, policy, m, qc, cap, allowed, x, k));
    }
}

/// A search that stops because nothing is queued has kept its promise.
proof fn lemma_cheapest_exhausted<V: GraphVertex, C, G: Goal<C>>(
    store: &VertexStore<V, C>,
    start: VertexId,
    goal: &G,
    policy: NoneValueResponse,
    allowed: Set<(VertexId, Heuristic)>,
    max_results: Option<usize>,
    cap: Option<PathWeight>,
    found: Seq<VertexId>,
    m: Map<VertexId, VisitedRecord>,
    qc: Map<VertexId, (u128, u128)>,
    closed: Set<VertexId>,
)
    requires
        search_state(store.graph(), policy, start, m, qc, closed, None, cap, allowed),
        qc.dom() == Set::<VertexId>::empty(),
        judged(store, goal, closed, found),
        in_order(m, qc, closed, found, allowed),
        nearest(store, goal, store.graph(), policy, start, cap, allowed, m, found),
        !is_full(found.len(), max_results),
    ensures
        cheapest_first(store, start, goal, policy, allowed, max_results, cap, found, m),
{
    let g = store.graph();
    assert(outdoes_rivals(store, goal, g, policy, start, cap, allowed, m, found)) by {
        reveal(nearest);
    }
    assert(bare(allowed) ==> rising_weights(m, found)) by {
        reveal(in_order);
    }
    assert forall|w: Seq<Stop>|
        #[trigger] is_walk(g, policy, start, w) && surveyed(
            g,
            policy,
            allowed,
            cap,
            max_results,
            found,
            m,
            w.last().1,
        ) implies !has_negative_edge(g, w.last().0) && (found.contains(w.last().0) || rejects(
        store,
        goal,
        w.last().0,
    )) by {
        lemma_walk_frontier(g, policy, start, m, qc, closed, None, cap, allowed, w, w.len() - 1);
        reveal(search_state);
        reveal(judged);
        assert(closed.contains(w.last().0));
        lemma_no_negative_edge(g, policy, m, qc, cap, allowed, w.last().0);
    }
    reveal(search_state);
    reveal(judged);
}

/// A search that stops with as many vertices as were asked for, right
/// after the last of them left the queue, has kept its promise.
proof fn lemma_cheapest_full<V: GraphVertex, C, G: Goal<C>>(
    store: &VertexStore<V, C>,
    start: VertexId,
    goal: &G,
    policy: NoneValueResponse,
    allowed: Set<(VertexId, Heuristic)>,
    max_results: Option<usize>,
    cap: Option<PathWeight>,
    found: Seq<VertexId>,
    m: Map<VertexId, VisitedRecord>,
    qc: Map<VertexId, (u128, u128)>,
    closed: Set<VertexId>,
    u: VertexId,
)
    requires
        search_state(store.graph(), policy, start, m, qc, closed.insert(u), Some(u), cap, allowed),
        !closed.contains(u),
        judged(store, goal, closed.insert(u), found),
        in_order(m, qc, closed.insert(u), found, allowed),
        nearest(store, goal, store.graph(), policy, start, cap, allowed, m, found),
        max_results is Some,
        found.len() == max_results.unwrap(),
        found.len() > 0,
        found.last() == u,
        bare(allowed) ==> forall|w: Seq<Stop>|
            #[trigger] is_walk(store.graph(), policy, start, w) && w.last().1.spec_lt(m[u].weight)
                ==> closed.contains(w.last().0),
    ensures
        cheapest_first(store, start, goal, policy, allowed, max_results, cap, found, m),
{
    let g = store.graph();
    assert(outdoes_rivals(store, goal, g, policy, start, cap, allowed, m, found)) by {
        reveal(nearest);
    }
    assert(bare(allowed) ==> rising_weights(m, found)) by {
        reveal(in_order);
    }
    reveal(search_state);
    reveal(judged);
    assert forall|w: Seq<Stop>|
        #[trigger] is_walk(g, policy, start, w) && surveyed(
            g,
            policy,
            allowed,
            cap,
            max_results,
            found,
            m,
            w.last().1,
        ) implies !has_negative_edge(g, w.last().0) && (found.contains(w.last().0) || rejects(
        store,
        goal,
        w.last().0,
    )) by {
        assert(closed.contains(w.last().0));
        assert(closed.insert(u).contains(w.last().0));
        lemma_no_negative_edge(g, policy, m, qc, cap, allowed, w.last().0);
    }
}

/// Expands the recorded vertex of least priority until nothing is queued,
/// and collects the vertices that the goal accepts as they leave the queue,
/// until there are `max_results` of them. An edge whose walk would weigh
/// more than `max_distance` is not walked.
pub(crate) fn best_first<V: GraphVertex, C, G: Goal<C>, E: Estimator<C>>(
    store: &VertexStore<V, C>,
    start: VertexId,
    goal: &G,
    estimator: &E,
    policy: NoneValueResponse,
    max_results: Option<usize>,
    max_distance: Option<PathWeight>,
) -> (r: Result<Traversal, GraphError>)
    requires
        forall|id: VertexId, c: &C| goal.admits(id, c),
        forall|id: VertexId, c: &C| estimator.admits(id, c),
    ensures
        match r {
            Ok(t) => store@.contains_key(start) && t.visited.wf() && cheapest_first(
                store,
                start,
                goal,
                policy,
                allowed_estimates(store, estimator),
                max_results,
                max_distance,
                t.found@,
                t.visited@,
            ),
            Err(e) => match e {
                GraphError::InvalidEntity => !store@.contains_key(start),
                GraphError::NegativeWeight => store@.contains_key(start) && exists|w: Seq<Stop>|
                    #[trigger] is_walk(store.graph(), policy, start, w) && has_negative_edge(
                        store.graph(),
                        w.last().0,
                    ),
                _ => false,
            },
        },
{
    if !store.contains(start) {
        return Err(GraphError::InvalidEntity);
    }
    let ghost g = store.graph();
    let ghost allowed = allowed_estimates(store, estimator);
    let store_len = store.len();
    proof {
        store.lemma_finite();
    }
    let mut visited = VisitedNodes::new_from_start(start);
    let mut found: Vec<VertexId> = Vec::new();
    let mut queue = queue_new();
    proof {
        assert(queue_contents(queue) =~= Map::<VertexId, (u128, u128)>::empty());
    }
    queue_push(&mut queue, start, PathWeight::zero().priority(Heuristic::none()));
    let ghost mut closed: Set<VertexId> = Set::empty();
    proof {
        lemma_search_start(g, policy, start, visited@, queue_contents(queue), max_distance, allowed);
        reveal(judged);
        reveal(in_order);
        reveal(nearest);
        assert(visited@.dom() =~= set![start]);
        assert(queue_contents(queue).dom() =~= set![start]);
    }
    if let Some(limit) = max_results {
        if limit == 0 {
            proof {
                reveal(search_state);
            }
            return Ok(Traversal { found, visited });
        }
    }
    loop
        invariant
            g == store.graph(),
            allowed == allowed_estimates(store, estimator),
            store@.dom().finite(),
            store_len == store@.dom().len(),
            store@.contains_key(start),
            forall|id: VertexId, c: &C| goal.admits(id, c),
            forall|id: VertexId, c: &C| estimator.admits(id, c),
            visited.wf(),
            search_state(
                g,
                policy,
                start,
                visited@,
                queue_contents(queue),
                closed,
                None,
                max_distance,
                allowed,
            ),
            judged(store, goal, closed, found@),
            in_order(visited@, queue_contents(queue), closed, found@, allowed),
            nearest(store, goal, g, policy, start, max_distance, allowed, visited@, found@),
            !is_full(found@.len(), max_results),
            visited@.dom().len() <= store@.dom().len(),
            queue_contents(queue).dom().finite(),
        decreases
                2 * (store@.dom().len() - visited@.dom().len()) + queue_contents(queue).dom().len(),
    {
        let ghost measure = 2 * (store@.dom().len() - visited@.dom().len()) + queue_contents(
            queue,
        ).dom().len();
        let ghost old_qc = queue_contents(queue);
        let ghost old_closed = closed;
        let u = match queue_pop(&mut queue) {
            Some(entry) => entry.0,
            None => {
                proof {
                    lemma_cheapest_exhausted(
                        store,
                        start,
                        goal,
                        policy,
                        allowed,
                        max_results,
                        max_distance,
                        found@,
                        visited@,
                        queue_contents(queue),
                        closed,
                    );
                }
                return Ok(Traversal { found, visited });
            },
        };
        proof {
            lemma_search_pop(g, policy, start, visited@, old_qc, old_closed, max_distance, allowed, u);
            lemma_order_pop(
                g,
                policy,
                start,
                visited@,
                old_qc,
                old_closed,
                max_distance,
                found@,
                allowed,
                u,
            );
            closed = old_closed.insert(u);
            assert(g.dom() =~= store@.dom());
            vstd::set_lib::lemma_len_subset(visited@.dom(), store@.dom());
        }
        let record = match visited.get(u) {
            Some(record) => record,
            None => {
                return Err(GraphError::InvalidPath);
            },
        };
        let entry = match store.lookup(u) {
            Ok(entry) => entry,
            Err(_) => {
                return Err(GraphError::InvalidPath);
            },
        };
        let accepted = goal.test(u, &entry.data);
        proof {
            if accepted {
                lemma_nearest_push(
                    store,
                    goal,
                    policy,
                    start,
                    visited@,
                    old_qc,
                    old_closed,
                    max_distance,
                    allowed,
                    found@,
                    u,
                );
            }
            lemma_judge(store, goal, old_closed, found@, u, accepted);
        }
        if accepted {
            found.push(u);
            if let Some(limit) = max_results {
                if found.len() >= limit {
                    proof {
                        lemma_cheapest_full(
                            store,
                            start,
                            goal,
                            policy,
                            allowed,
                            max_results,
                            max_distance,
                            found@,
                            visited@,
                            queue_contents(queue),
                            old_closed,
                            u,
                        );
                    }
                    return Ok(Traversal { found, visited });
                }
            }
        }
        let dist = record.weight;
        let step = record.step;
        let edges = entry.vertex.get_neighbours_with_weight();
        let mut i: usize = 0;
        while i < edges.len()
            invariant
                g == store.graph(),
                allowed == allowed_estimates(store, estimator),
                store@.dom().finite(),
                store_len == store@.dom().len(),
                store@.contains_key(start),
                forall|id: VertexId, c: &C| goal.admits(id, c),
                forall|id: VertexId, c: &C| estimator.admits(id, c),
                visited.wf(),
                search_state(
                    g,
                    policy,
                    start,
                    visited@,
                    queue_contents(queue),
                    closed,
                    Some(u),
                    max_distance,
                    allowed,
                ),
                relaxed_upto(
                    g,
                    policy,
                    visited@,
                    queue_contents(queue),
                    max_distance,
                    allowed,
                    u,
                    i as int,
                ),
                judged(store, goal, closed, found@),
                in_order(visited@, queue_contents(queue), closed, found@, allowed),
                nearest(store, goal, g, policy, start, max_distance, allowed, visited@, found@),
                floor_at(visited@, closed, dist, allowed),
                !is_full(found@.len(), max_results),
                closed.contains(u),
                visited@.contains_key(u),
                visited@[u].weight == dist,
                visited@[u].step == step,
                step < visited@.dom().len(),
                visited@.dom().len() <= store_len,
                g.contains_key(u),
                edges@ == g[u],
                i <= edges.len(),
                queue_contents(queue).dom().finite(),
                0 <= 2 * (store@.dom().len() - visited@.dom().len()) + queue_contents(
                    queue,
                ).dom().len() < measure,
            decreases edges.len() - i,
        {
            let (n, weight) = edges[i];
            assert(g[u][i as int] == (n, weight));
            if let Some(x) = weight {
                if x < 0 {
                    proof {
                        reveal(search_state);
                        lemma_tree_walk(g, policy, start, visited@, u);
                        assert(is_negative(g[u][i as int]));
                        assert(has_negative_edge(g, u));
                    }
                    return Err(GraphError::NegativeWeight);
                }
            }
            let cand = match dist.extend(weight, policy) {
                Some(cand) => cand,
                None => {
                    proof {
                        assert(relaxed(
                            g,
                            policy,
                            visited@,
                            queue_contents(queue),
                            max_distance,
                            allowed,
                            u,
                            i as int,
                        ));
                    }
                    i += 1;
                    continue ;
                },
            };
            if let Some(cap) = max_distance {
                if cap.lt(&cand) {
                    proof {
                        lemma_weight_total(cap, cand);
                        assert(relaxed(
                            g,
                            policy,
                            visited@,
                            queue_contents(queue),
                            max_distance,
                            allowed,
                            u,
                            i as int,
                        ));
                    }
                    i += 1;
                    continue ;
                }
            }
            proof {
                if max_distance is Some {
                    lemma_weight_total(max_distance.unwrap(), cand);
                }
            }
            let n_entry = match store.lookup(n) {
                Ok(n_entry) => n_entry,
                Err(_) => {
                    proof {
                        assert(relaxed(
                            g,
                            policy,
                            visited@,
                            queue_contents(queue),
                            max_distance,
                            allowed,
                            u,
                            i as int,
                        ));
                    }
                    i += 1;
                    continue ;
                },
            };
            let ghost before = visited@;
            let ghost qc_before = queue_contents(queue);
            match visited.get(n) {
                None => {
                    let h = estimator.estimate(n, &n_entry.data);
                    let fresh = VisitedRecord {
                        predecessor: Some(u),
                        step: step + 1,
                        weight: cand,
                        estimate: h,
                    };
                    visited.insert_record(n, fresh);
                    queue_push(&mut queue, n, cand.priority(h));
                    proof {
                        lemma_extend_monotone(dist, dist, weight, policy);
                        lemma_not_closed(
                            g,
                            policy,
                            start,
                            before,
                            qc_before,
                            closed,
                            Some(u),
                            max_distance,
                            allowed,
                            n,
                        );
                        lemma_nearest_kept(
                            store,
                            goal,
                            policy,
                            start,
                            before,
                            closed,
                            max_distance,
                            allowed,
                            found@,
                            n,
                            fresh,
                        );
                        lemma_order_record(
                            before,
                            qc_before,
                            closed,
                            found@,
                            allowed,
                            n,
                            fresh,
                            cand.spec_priority(h),
                            dist,
                        );
                        lemma_search_discover(
                            g,
                            policy,
                            start,
                            before,
                            qc_before,
                            closed,
                            max_distance,
                            allowed,
                            u,
                            i as int,
                            fresh,
                        );
                        assert(g.dom() =~= store@.dom());
                        vstd::set_lib::lemma_len_subset(visited@.dom(), store@.dom());
                    }
                },
                Some(old) => {
                    let mut improved = false;
                    if cand.lt(&old.weight) {
                        let better = VisitedRecord {
                            predecessor: Some(u),
                            step: step + 1,
                            weight: cand,
                            estimate: old.estimate,
                        };
                        if queue_change_priority(&mut queue, n, cand.priority(old.estimate)) {
                            visited.insert_record(n, better);
                            improved = true;
                            proof {
                                lemma_extend_monotone(dist, dist, weight, policy);
                                lemma_not_closed(
                                    g,
                                    policy,
                                    start,
                                    before,
                                    qc_before,
                                    closed,
                                    Some(u),
                                    max_distance,
                                    allowed,
                                    n,
                                );
                                lemma_nearest_kept(
                                    store,
                                    goal,
                                    policy,
                                    start,
                                    before,
                                    closed,
                                    max_distance,
                                    allowed,
                                    found@,
                                    n,
                                    better,
                                );
                                lemma_order_record(
                                    before,
                                    qc_before,
                                    closed,
                                    found@,
                                    allowed,
                                    n,
                                    better,
                                    cand.spec_priority(old.estimate),
                                    dist,
                                );
                                lemma_search_improve(
                                    g,
                                    policy,
                                    start,
                                    before,
                                    qc_before,
                                    closed,
                                    max_distance,
                                    allowed,
                                    u,
                                    i as int,
                                    better,
                                );
                                reveal(search_state);
                            }
                        }
                    }
                    proof {
                        if !improved {
                            lemma_search_keep(
                                g,
                                policy,
                                before,
                                qc_before,
                                max_distance,
                                allowed,
                                u,
                                i as int,
                                cand,
                            );
                        }
                    }
                },
            }
            i += 1;
        }
        proof {
            lemma_search_finish(
                g,
                policy,
                start,
                visited@,
                queue_contents(queue),
                closed,
                max_distance,
                allowed,
                u,
            );
        }
    }
}

/// The stops of a returned path in the order in which they are walked:
/// from the source to the destination.
pub open spec fn walked(path: GraphPath<PathWeight>) -> Seq<Stop> {
    path@.reverse()
}

/// The weight of a returned path: the cumulative weight at its destination.
pub open spec fn total_distance(path: GraphPath<PathWeight>) -> PathWeight {
    path@[0].1
}

/// The returned path is a walk from `start` to `end`.
pub open spec fn is_walk_to(
    g: Graph,
    policy: NoneValueResponse,
    start: VertexId,
    end: VertexId,
    path: GraphPath<PathWeight>,
) -> bool {
    &&& path@.len() >= 1
    &&& is_walk(g, policy, start, walked(path))
    &&& destination(path) == end
    &&& walked(path).last() == path@[0]
}

/// The returned path is a walk from `start` to `end`, and no walk from
/// `start` to `end` weighs less.
pub open spec fn is_cheapest_walk_to(
    g: Graph,
    policy: NoneValueResponse,
    start: VertexId,
    end: VertexId,
    path: GraphPath<PathWeight>,
) -> bool {
    &&& is_walk_to(g, policy, start, end, path)
    &&& is_cheapest(g, policy, start, end, total_distance(path))
}

/// Two cheapest walks between the same vertices weigh the same.
pub proof fn lemma_cheapest_walks_weigh_the_same(
    g: Graph,
    policy: NoneValueResponse,
    start: VertexId,
    end: VertexId,
    a: GraphPath<PathWeight>,
    b: GraphPath<PathWeight>,
)
    requires
        is_cheapest_walk_to(g, policy, start, end, a),
        is_cheapest_walk_to(g, policy, start, end, b),
    ensures
        total_distance(a) == total_distance(b),
{
    assert(is_walk(g, policy, start, walked(a)));
    assert(is_walk(g, policy, start, walked(b)));
    lemma_weight_total(total_distance(a), total_distance(b));
}

/// The path that the records describe for a recorded vertex, with the
/// recorded weights.
pub(crate) fn recorded_walk(
    visited: &VisitedNodes,
    end: VertexId,
    Ghost(g): Ghost<Graph>,
    Ghost(policy): Ghost<NoneValueResponse>,
    Ghost(start): Ghost<VertexId>,
) -> (r: Result<GraphPath<PathWeight>, GraphError>)
    requires
        visited.wf(),
        is_weighted_tree(g, policy, start, visited@),
        visited@.contains_key(end),
    ensures
        r is Ok,
        is_walk_to(g, policy, start, end, r.unwrap()),
        total_distance(r.unwrap()) == visited@[end].weight,
{
    proof {
        lemma_tree_recorded_chain(g, start, visited@, end);
    }
    let result = visited.determine_path_weighted(end);
    proof {
        let path = result.unwrap();
        assert(path.vertices() =~= path@.map_values(|node: Stop| node.0));
        lemma_tree_chain_walk(g, policy, start, visited@, end, path@);
    }
    result
}

/// The paths that the records describe for the found vertices, in order,
/// with the recorded weights.
pub(crate) fn recorded_walks(
    visited: &VisitedNodes,
    found: &Vec<VertexId>,
    Ghost(g): Ghost<Graph>,
    Ghost(policy): Ghost<NoneValueResponse>,
    Ghost(start): Ghost<VertexId>,
) -> (r: Result<Vec<GraphPath<PathWeight>>, GraphError>)
    requires
        visited.wf(),
        is_weighted_tree(g, policy, start, visited@),
        forall|i: int| 0 <= i < found@.len() ==> visited@.contains_key(#[trigger] found@[i]),
    ensures
        r is Ok,
        r.unwrap()@.len() == found@.len(),
        forall|i: int|
            0 <= i < found@.len() ==> is_walk_to(g, policy, start, found@[i], #[trigger] r.unwrap()@[i])
                && total_distance(r.unwrap()@[i]) == visited@[found@[i]].weight,
{
    let mut paths: Vec<GraphPath<PathWeight>> = Vec::new();
    let mut i: usize = 0;
    while i < found.len()
        invariant
            visited.wf(),
            is_weighted_tree(g, policy, start, visited@),
            forall|k: int| 0 <= k < found@.len() ==> visited@.contains_key(#[trigger] found@[k]),
            i <= found@.len(),
            paths@.len() == i,
            forall|k: int|
                0 <= k < i ==> is_walk_to(g, policy, start, found@[k], #[trigger] paths@[k])
                    && total_distance(paths@[k]) == visited@[found@[k]].weight,
        decreases found.len() - i,
    {
        match recorded_walk(visited, found[i], Ghost(g), Ghost(policy), Ghost(start)) {
            Ok(path) => {
                paths.push(path);
            },
            Err(e) => {
                return Err(e);
            },
        }
        i += 1;
    }
    Ok(paths)
}

} // verus!
