//! Breadth-first search.
use vstd::prelude::*;
use std::collections::VecDeque;
use crate::graph_functions::frontier::{
    accepts, collected, destination, expanded, forward, is_full, lemma_collect,
    lemma_collect_start, lemma_frontier, lemma_settled_grow, lemma_tree_grow, recorded_paths,
    rejects, rising_steps, settled, shortest_steps, within_limit, Traversal,
};
use crate::graph_functions::bfs_order::{
    coded, lemma_code_is_turns, lemma_lex_discover, lemma_lex_done, lemma_lex_pop,
    lemma_lex_reach, lemma_lex_skip, lemma_lex_start, lemma_rising_codes_push, lex_busy, lex_idle,
    rising_codes, tree_path,
};
use crate::graph_functions::goal::{ComputedEnd, FixedEnd, Goal};
use crate::graph_functions::order::{
    comes_before, first_path, is_first_path, lemma_first_path_is, precedes, turns,
};
use crate::graph_vertex::{edge_targets, GraphVertex};
use crate::model::{
    has_edge, hops, is_path, is_search_tree, lemma_tree_recorded_chain, path_between, reachable,
};
use crate::store::{Graph, VertexStore};
use crate::types::{GraphError, GraphPath, PathWeight, VertexId};
use crate::visited::{recorded_chain, start_record, VisitedNodes, VisitedRecord};

verus! {

/// What a breadth-first traversal promises of the vertices it found and of
/// its records: the records describe, for each recorded vertex, the first
/// of the paths to it; the found vertices stand in the order of these
/// paths; and the goal was asked about every vertex whose first path comes
/// before that of the last vertex found, or, where fewer vertices were found
/// than were asked for, about every vertex within the limit of steps.
pub open spec fn nearest_first<V: GraphVertex, C, G: Goal<C>>(
    store: &VertexStore<V, C>,
    start: VertexId,
    goal: &G,
    max_results: Option<usize>,
    max_steps: Option<u64>,
    found: Seq<VertexId>,
    m: Map<VertexId, VisitedRecord>,
) -> bool {
    let g = store.graph();
    &&& is_search_tree(g, start, m)
    &&& shortest_steps(g, start, m)
    &&& forall|q: Seq<VertexId>|
        #[trigger] is_path(g, q) && q[0] == start && m.contains_key(q.last()) ==> !comes_before(
            g,
            q,
            tree_path(m, q.last()),
        )
    &&& forall|v: VertexId| #[trigger] m.contains_key(v) ==> within_limit(m[v].step as nat, max_steps)
    &&& found.no_duplicates()
    &&& max_results is Some ==> found.len() <= max_results.unwrap()
    &&& forall|i: int|
        0 <= i < found.len() ==> m.contains_key(#[trigger] found[i]) && accepts(store, goal, found[i])
    &&& forall|i: int, j: int|
        0 <= i < j < found.len() ==> m[#[trigger] found[i]].step <= m[#[trigger] found[j]].step
            && comes_before(g, tree_path(m, found[i]), tree_path(m, found[j]))
    &&& forall|q: Seq<VertexId>|
        #[trigger] is_path(g, q) && q[0] == start && (if is_full(found.len(), max_results) {
            found.len() > 0 && comes_before(g, q, tree_path(m, found.last()))
        } else {
            within_limit(hops(q), max_steps)
        }) ==> m.contains_key(q.last()) && (found.contains(q.last()) || rejects(
            store,
            goal,
            q.last(),
        ))
}

/// The steps of the queued vertices never fall.
pub open spec fn rising_queue(m: Map<VertexId, VisitedRecord>, queue: Seq<VertexId>) -> bool {
    forall|i: int, j: int|
        0 <= i < j < queue.len() ==> m[#[trigger] queue[i]].step <= m[#[trigger] queue[j]].step
}

/// The state of a breadth-first traversal between two expansions.
#[verifier::opaque]
pub open spec fn layer_idle(
    g: Graph,
    start: VertexId,
    m: Map<VertexId, VisitedRecord>,
    queue: Seq<VertexId>,
    max_steps: Option<u64>,
) -> bool {
    &&& is_search_tree(g, start, m)
    &&& shortest_steps(g, start, m)
    &&& forall|v: VertexId| #[trigger] m.contains_key(v) ==> within_limit(m[v].step as nat, max_steps)
    &&& forall|k: int| 0 <= k < queue.len() ==> m.contains_key(#[trigger] queue[k])
    &&& rising_queue(m, queue)
    &&& queue.len() > 0 ==> forall|v: VertexId| #[trigger]
        m.contains_key(v) ==> m[v].step <= m[queue[0]].step + 1
    &&& settled(g, m, queue.to_set(), max_steps)
}

/// The state of a breadth-first traversal while it expands `u`.
#[verifier::opaque]
pub open spec fn layer_busy(
    g: Graph,
    start: VertexId,
    m: Map<VertexId, VisitedRecord>,
    queue: Seq<VertexId>,
    u: VertexId,
    max_steps: Option<u64>,
) -> bool {
    &&& is_search_tree(g, start, m)
    &&& shortest_steps(g, start, m)
    &&& m.contains_key(u)
    &&& forall|v: VertexId| #[trigger]
        m.contains_key(v) ==> within_limit(m[v].step as nat, max_steps) && m[v].step <= m[u].step + 1
    &&& forall|k: int|
        0 <= k < queue.len() ==> m.contains_key(#[trigger] queue[k]) && m[queue[k]].step >= m[u].step
    &&& rising_queue(m, queue)
    &&& settled(g, m, queue.to_set().insert(u), max_steps)
}

/// The first `i` edges of `u` lead to recorded vertices, as far as they lead
/// to vertices of the graph.
pub open spec fn expanded_upto(g: Graph, m: Map<VertexId, VisitedRecord>, u: VertexId, i: int) -> bool {
    forall|k: int|
        0 <= k < i && k < g[u].len() && g.contains_key((#[trigger] g[u][k]).0) ==> m.contains_key(
            g[u][k].0,
        )
}

/// A traversal begins between two expansions, with the start vertex queued.
proof fn lemma_layer_start(g: Graph, start: VertexId, m: Map<VertexId, VisitedRecord>, max_steps: Option<u64>)
    requires
        g.contains_key(start),
        m == Map::<VertexId, VisitedRecord>::empty().insert(start, start_record()),
    ensures
        layer_idle(g, start, m, seq![start], max_steps),
        is_search_tree(g, start, m),
        shortest_steps(g, start, m),
{
    reveal(layer_idle);
    assert(m.dom() =~= set![start]);
    assert(seq![start].to_set().contains(start)) by {
        assert(seq![start][0] == start);
    }
}

/// Taking the first vertex off the queue starts its expansion.
proof fn lemma_layer_pop(
    g: Graph,
    start: VertexId,
    m: Map<VertexId, VisitedRecord>,
    queue: Seq<VertexId>,
    max_steps: Option<u64>,
)
    requires
        layer_idle(g, start, m, queue, max_steps),
        queue.len() > 0,
    ensures
        layer_busy(g, start, m, queue.drop_first(), queue[0], max_steps),
        m.contains_key(queue[0]),
        g.contains_key(queue[0]),
        m[queue[0]].step < m.dom().len(),
        m.dom().subset_of(g.dom()),
        m.dom().finite(),
{
    reveal(layer_idle);
    reveal(layer_busy);
    let rest = queue.drop_first();
    let u = queue[0];
    assert forall|k: int| 0 <= k < rest.len() implies m.contains_key(#[trigger] rest[k])
        && m[rest[k]].step >= m[u].step by {
        assert(rest[k] == queue[k + 1]);
    }
    assert forall|i: int, j: int| 0 <= i < j < rest.len() implies m[#[trigger] rest[i]].step
        <= m[#[trigger] rest[j]].step by {
        assert(rest[i] == queue[i + 1]);
        assert(rest[j] == queue[j + 1]);
    }
    assert forall|v: VertexId| queue.to_set().contains(v) implies rest.to_set().insert(u).contains(
        v,
    ) by {
        let i = choose|i: int| 0 <= i < queue.len() && queue[i] == v;
        if i > 0 {
            assert(rest[i - 1] == v);
        }
    }
}

/// A vertex whose expansion is over, or that lies at the limit of steps,
/// leaves the traversal between two expansions.
proof fn lemma_layer_done(
    g: Graph,
    start: VertexId,
    m: Map<VertexId, VisitedRecord>,
    queue: Seq<VertexId>,
    u: VertexId,
    max_steps: Option<u64>,
)
    requires
        layer_busy(g, start, m, queue, u, max_steps),
        expanded_upto(g, m, u, g[u].len() as int) || !within_limit(m[u].step as nat + 1, max_steps),
    ensures
        layer_idle(g, start, m, queue, max_steps),
{
    reveal(layer_idle);
    reveal(layer_busy);
    assert forall|v: VertexId| #[trigger] m.contains_key(v) implies queue.to_set().contains(v)
        || !within_limit(m[v].step as nat + 1, max_steps) || expanded(g, m, v) by {}
}

/// While `u` is expanded, every path from the start vertex of no more
/// edges than `u` is steps away ends at a recorded vertex.
proof fn lemma_layer_reach(
    g: Graph,
    start: VertexId,
    m: Map<VertexId, VisitedRecord>,
    queue: Seq<VertexId>,
    u: VertexId,
    max_steps: Option<u64>,
    q: Seq<VertexId>,
)
    requires
        layer_busy(g, start, m, queue, u, max_steps),
        is_path(g, q),
        q[0] == start,
        hops(q) <= m[u].step,
    ensures
        m.contains_key(q.last()),
{
    reveal(layer_busy);
    lemma_frontier(g, start, m, queue.to_set().insert(u), max_steps, m[u].step as nat, q);
}

/// Recording a neighbour of `u` that was not recorded, one step beyond `u`,
/// and queueing it, goes on with the expansion of `u`.
proof fn lemma_layer_discover(
    g: Graph,
    start: VertexId,
    before: Map<VertexId, VisitedRecord>,
    queue: Seq<VertexId>,
    u: VertexId,
    max_steps: Option<u64>,
    n: VertexId,
    record: VisitedRecord,
    i: int,
)
    requires
        layer_busy(g, start, before, queue, u, max_steps),
        within_limit(before[u].step as nat + 1, max_steps),
        !before.contains_key(n),
        g.contains_key(u),
        g.contains_key(n),
        0 <= i < g[u].len(),
        g[u][i].0 == n,
        expanded_upto(g, before, u, i),
        record.predecessor == Some(u),
        record.step == before[u].step + 1,
    ensures
        layer_busy(g, start, before.insert(n, record), queue.push(n), u, max_steps),
        before.insert(n, record).dom().len() == before.dom().len() + 1,
        before.insert(n, record).dom().subset_of(g.dom()),
        before.dom().len() < g.dom().len() || !g.dom().finite(),
        forall|v: VertexId| #[trigger] before.contains_key(v) ==> before[v].step <= record.step,
        expanded_upto(g, before.insert(n, record), u, i + 1),
{
    reveal(layer_busy);
    let m = before.insert(n, record);
    let queue2 = queue.push(n);
    assert(has_edge(g, u, n));
    lemma_tree_grow(g, start, before, u, n, record);
    if g.dom().finite() {
        vstd::set_lib::lemma_len_subset(m.dom(), g.dom());
    }
    assert forall|q: Seq<VertexId>|
        #[trigger] is_path(g, q) && q[0] == start && m.contains_key(q.last()) implies m[q.last()].step
        <= hops(q) by {
        if q.last() == n {
            if hops(q) <= before[u].step {
                lemma_layer_reach(g, start, before, queue, u, max_steps, q);
            }
        } else {
            assert(before.contains_key(q.last()));
        }
    }
    assert forall|v: VertexId| #[trigger] m.contains_key(v) implies within_limit(
        m[v].step as nat,
        max_steps,
    ) && m[v].step <= m[u].step + 1 by {
        if v != n {
            assert(before.contains_key(v));
        }
    }
    assert forall|k: int| 0 <= k < queue2.len() implies m.contains_key(#[trigger] queue2[k])
        && m[queue2[k]].step >= m[u].step by {
        if k < queue.len() {
            assert(queue2[k] == queue[k]);
            assert(before.contains_key(queue[k]));
        }
    }
    assert forall|a: int, b: int| 0 <= a < b < queue2.len() implies m[#[trigger] queue2[a]].step
        <= m[#[trigger] queue2[b]].step by {
        assert(queue2[a] == queue[a]);
        assert(before.contains_key(queue[a]));
        if b < queue.len() {
            assert(queue2[b] == queue[b]);
            assert(before.contains_key(queue[b]));
        }
    }
    assert(queue2.to_set().insert(u).contains(n)) by {
        assert(queue2[queue2.len() - 1] == n);
    }
    assert forall|v: VertexId| queue.to_set().insert(u).contains(v) implies queue2.to_set().insert(
        u,
    ).contains(v) by {
        if v != u {
            let k = choose|k: int| 0 <= k < queue.len() && queue[k] == v;
            assert(queue2[k] == v);
        }
    }
    lemma_settled_grow(
        g,
        before,
        queue.to_set().insert(u),
        max_steps,
        n,
        record,
        queue2.to_set().insert(u),
    );
    assert forall|k: int|
        0 <= k < i + 1 && k < g[u].len() && g.contains_key((#[trigger] g[u][k]).0) implies m.contains_key(
        g[u][k].0,
    ) by {
        if k < i {
            assert(before.contains_key(g[u][k].0));
        }
    }
    assert forall|v: VertexId| #[trigger] before.contains_key(v) implies before[v].step
        <= record.step by {}
}

/// A vertex found one step beyond every recorded step keeps the steps of
/// the found vertices rising.
proof fn lemma_rising_push<V, C, G: Goal<C>>(
    store: &VertexStore<V, C>,
    goal: &G,
    before: Map<VertexId, VisitedRecord>,
    found: Seq<VertexId>,
    n: VertexId,
    record: VisitedRecord,
)
    requires
        rising_steps(before, found),
        collected(store, goal, before, found),
        !before.contains_key(n),
        forall|v: VertexId| #[trigger] before.contains_key(v) ==> before[v].step <= record.step,
    ensures
        rising_steps(before.insert(n, record), found.push(n)),
        rising_steps(before.insert(n, record), found),
{
    reveal(rising_steps);
    reveal(collected);
    let m = before.insert(n, record);
    let f = found.push(n);
    assert forall|i: int, j: int| 0 <= i < j < f.len() implies m[#[trigger] f[i]].step
        <= m[#[trigger] f[j]].step by {
        assert(f[i] == found[i]);
        assert(before.contains_key(found[i]));
        if j < found.len() {
            assert(f[j] == found[j]);
            assert(before.contains_key(found[j]));
        }
    }
    assert forall|i: int, j: int| 0 <= i < j < found.len() implies m[#[trigger] found[i]].step
        <= m[#[trigger] found[j]].step by {
        assert(before.contains_key(found[i]));
        assert(before.contains_key(found[j]));
    }
}

/// What the codes say of the records and of the found vertices, in terms
/// of paths.
proof fn lemma_codes_to_paths<V: GraphVertex, C, G: Goal<C>>(
    store: &VertexStore<V, C>,
    start: VertexId,
    goal: &G,
    found: Seq<VertexId>,
    m: Map<VertexId, VisitedRecord>,
    codes: Map<VertexId, Seq<int>>,
    queue: Seq<VertexId>,
)
    requires
        is_search_tree(store.graph(), start, m),
        shortest_steps(store.graph(), start, m),
        coded(store.graph(), start, m, codes, queue),
        collected(store, goal, m, found),
        rising_codes(codes, found),
    ensures
        forall|q: Seq<VertexId>|
            #[trigger] is_path(store.graph(), q) && q[0] == start && m.contains_key(q.last())
                ==> !comes_before(store.graph(), q, tree_path(m, q.last())),
        forall|i: int, j: int|
            0 <= i < j < found.len() ==> comes_before(
                store.graph(),
                tree_path(m, #[trigger] found[i]),
                tree_path(m, #[trigger] found[j]),
            ),
{
    let g = store.graph();
    reveal(collected);
    assert forall|q: Seq<VertexId>|
        #[trigger] is_path(g, q) && q[0] == start && m.contains_key(q.last()) implies !comes_before(
        g,
        q,
        tree_path(m, q.last()),
    ) by {
        lemma_code_is_turns(g, start, m, codes, q.last());
        assert(turns(g, q).len() == hops(q));
        assert(turns(g, tree_path(m, q.last())).len() == hops(tree_path(m, q.last())));
    }
    assert forall|i: int, j: int| 0 <= i < j < found.len() implies comes_before(
        g,
        tree_path(m, #[trigger] found[i]),
        tree_path(m, #[trigger] found[j]),
    ) by {
        lemma_code_is_turns(g, start, m, codes, found[i]);
        lemma_code_is_turns(g, start, m, codes, found[j]);
    }
}

/// A traversal that stops before its first expansion has kept its promise.
proof fn lemma_nearest_first_at_start<V: GraphVertex, C, G: Goal<C>>(
    store: &VertexStore<V, C>,
    start: VertexId,
    goal: &G,
    max_results: Option<usize>,
    max_steps: Option<u64>,
    found: Seq<VertexId>,
    m: Map<VertexId, VisitedRecord>,
)
    requires
        store@.contains_key(start),
        m == Map::<VertexId, VisitedRecord>::empty().insert(start, start_record()),
        max_results is Some,
        found.len() == max_results.unwrap(),
        found.len() == 0 || (found =~= seq![start] && accepts(store, goal, start)),
    ensures
        nearest_first(store, start, goal, max_results, max_steps, found, m),
{
    let g = store.graph();
    lemma_layer_start(g, start, m, max_steps);
    lemma_lex_start(g, start, m);
    reveal(lex_idle);
    let codes = Map::<VertexId, Seq<int>>::empty().insert(start, Seq::<int>::empty());
    assert forall|q: Seq<VertexId>|
        #[trigger] is_path(g, q) && q[0] == start && m.contains_key(q.last()) implies !comes_before(
        g,
        q,
        tree_path(m, q.last()),
    ) by {
        lemma_code_is_turns(g, start, m, codes, q.last());
        assert(turns(g, q).len() == hops(q));
        assert(turns(g, tree_path(m, q.last())).len() == hops(tree_path(m, q.last())));
    }
    if found.len() > 0 {
        lemma_code_is_turns(g, start, m, codes, start);
        assert(turns(g, tree_path(m, start)).len() == 0);
    }
}

/// A traversal that stops while it expands `u`, because it has found as
/// many vertices as were asked for, has kept its promise.
proof fn lemma_nearest_first_full<V: GraphVertex, C, G: Goal<C>>(
    store: &VertexStore<V, C>,
    start: VertexId,
    goal: &G,
    max_results: Option<usize>,
    max_steps: Option<u64>,
    found: Seq<VertexId>,
    m: Map<VertexId, VisitedRecord>,
    codes: Map<VertexId, Seq<int>>,
    queue: Seq<VertexId>,
    u: VertexId,
    i: int,
)
    requires
        layer_busy(store.graph(), start, m, queue, u, max_steps),
        lex_busy(store.graph(), start, m, codes, queue, u, i),
        expanded_upto(store.graph(), m, u, i),
        store.graph().contains_key(u),
        within_limit(m[u].step as nat + 1, max_steps),
        collected(store, goal, m, found),
        rising_steps(m, found),
        rising_codes(codes, found),
        max_results is Some,
        found.len() == max_results.unwrap(),
        found.len() > 0,
        m.contains_key(found.last()),
        m[found.last()].predecessor == Some(u),
    ensures
        nearest_first(store, start, goal, max_results, max_steps, found, m),
{
    let g = store.graph();
    let n = found.last();
    assert(n != start) by {
        reveal(layer_busy);
    }
    assert(is_search_tree(g, start, m) && shortest_steps(g, start, m) && coded(
        g,
        start,
        m,
        codes,
        queue,
    ) && codes[n].last() < i && codes[n] == codes[u].push(codes[n].last()) && m[n].step == m[u].step
        + 1) by {
        reveal(layer_busy);
        reveal(lex_busy);
        assert(codes[n].len() == m[n].step);
        assert(codes[n] =~= codes[u].push(codes[n].last()));
    }
    lemma_codes_to_paths(store, start, goal, found, m, codes, queue);
    lemma_code_is_turns(g, start, m, codes, n);
    assert forall|q: Seq<VertexId>|
        #[trigger] is_path(g, q) && q[0] == start && comes_before(
            g,
            q,
            tree_path(m, found.last()),
        ) implies m.contains_key(q.last()) && (found.contains(q.last()) || rejects(
        store,
        goal,
        q.last(),
    )) by {
        assert(turns(g, q).len() == hops(q));
        if hops(q) <= m[u].step {
            lemma_layer_reach(g, start, m, queue, u, max_steps, q);
        } else {
            lemma_lex_reach(g, start, m, codes, queue, u, i, max_steps, codes[n].last(), q);
        }
        reveal(collected);
    }
    reveal(layer_busy);
    reveal(collected);
    reveal(rising_steps);
}

/// A traversal that stops because nothing is queued has kept its promise.
proof fn lemma_nearest_first_exhausted<V: GraphVertex, C, G: Goal<C>>(
    store: &VertexStore<V, C>,
    start: VertexId,
    goal: &G,
    max_results: Option<usize>,
    max_steps: Option<u64>,
    found: Seq<VertexId>,
    m: Map<VertexId, VisitedRecord>,
    codes: Map<VertexId, Seq<int>>,
)
    requires
        layer_idle(store.graph(), start, m, Seq::<VertexId>::empty(), max_steps),
        lex_idle(store.graph(), start, m, codes, Seq::<VertexId>::empty()),
        collected(store, goal, m, found),
        rising_steps(m, found),
        rising_codes(codes, found),
        !is_full(found.len(), max_results),
    ensures
        nearest_first(store, start, goal, max_results, max_steps, found, m),
{
    let g = store.graph();
    reveal(layer_idle);
    assert(coded(g, start, m, codes, Seq::<VertexId>::empty())) by {
        reveal(lex_idle);
    }
    lemma_codes_to_paths(store, start, goal, found, m, codes, Seq::<VertexId>::empty());
    assert forall|q: Seq<VertexId>|
        #[trigger] is_path(g, q) && q[0] == start && within_limit(
            hops(q),
            max_steps,
        ) implies m.contains_key(q.last()) && (found.contains(q.last()) || rejects(
        store,
        goal,
        q.last(),
    )) by {
        lemma_frontier(g, start, m, Seq::<VertexId>::empty().to_set(), max_steps, hops(q), q);
        reveal(collected);
    }
    reveal(collected);
    reveal(rising_steps);
}

/// A vertex found after every recorded vertex keeps the codes of the found
/// vertices rising.
proof fn lemma_found_rising<V, C, G: Goal<C>>(
    store: &VertexStore<V, C>,
    goal: &G,
    before: Map<VertexId, VisitedRecord>,
    codes: Map<VertexId, Seq<int>>,
    found: Seq<VertexId>,
    n: VertexId,
    code: Seq<int>,
)
    requires
        collected(store, goal, before, found),
        rising_codes(codes, found),
        !before.contains_key(n),
        forall|v: VertexId| #[trigger] before.contains_key(v) ==> precedes(codes[v], code),
    ensures
        rising_codes(codes.insert(n, code), found.push(n)),
        rising_codes(codes.insert(n, code), found),
{
    reveal(collected);
    assert forall|a: int| 0 <= a < found.len() implies #[trigger] found[a] != n && precedes(
        codes[found[a]],
        code,
    ) by {
        assert(before.contains_key(found[a]));
    }
    lemma_rising_codes_push(codes, found, n, code);
}

/// Visits the vertices layer by layer from `start`, never beyond
/// `max_steps` edges, and collects those that the goal accepts, until there
/// are `max_results` of them.
pub(crate) fn breadth_first<V: GraphVertex, C, G: Goal<C>>(
    store: &VertexStore<V, C>,
    start: VertexId,
    goal: &G,
    max_results: Option<usize>,
    max_steps: Option<u64>,
) -> (r: Result<Traversal, GraphError>)
    requires
        forall|id: VertexId, c: &C| goal.admits(id, c),
    ensures
        match r {
            Ok(t) => store@.contains_key(start) && t.visited.wf() && nearest_first(
                store,
                start,
                goal,
                max_results,
                max_steps,
                t.found@,
                t.visited@,
            ),
            Err(e) => e == GraphError::InvalidEntity && !store@.contains_key(start),
        },
{
    let start_entry = match store.lookup(start) {
        Ok(entry) => entry,
        Err(e) => {
            return Err(e);
        },
    };
    let ghost g = store.graph();
    let store_len = store.len();
    proof {
        store.lemma_finite();
    }
    let mut visited = VisitedNodes::new_from_start(start);
    let mut found: Vec<VertexId> = Vec::new();
    let ghost mut codes = Map::<VertexId, Seq<int>>::empty().insert(start, Seq::<int>::empty());
    if let Some(limit) = max_results {
        if limit == 0 {
            proof {
                lemma_nearest_first_at_start(
                    store,
                    start,
                    goal,
                    max_results,
                    max_steps,
                    found@,
                    visited@,
                );
            }
            return Ok(Traversal { found, visited });
        }
    }
    let start_accepted = goal.test(start, &start_entry.data);
    if start_accepted {
        found.push(start);
    }
    proof {
        assert(visited@.dom() =~= set![start]);
        assert(found@ =~= if start_accepted {
            seq![start]
        } else {
            Seq::<VertexId>::empty()
        });
        lemma_collect_start(store, goal, visited@, start, start_accepted);
    }
    if let Some(limit) = max_results {
        if found.len() >= limit {
            proof {
                lemma_nearest_first_at_start(
                    store,
                    start,
                    goal,
                    max_results,
                    max_steps,
                    found@,
                    visited@,
                );
            }
            return Ok(Traversal { found, visited });
        }
    }
    let mut queue: VecDeque<VertexId> = VecDeque::new();
    queue.push_back(start);
    proof {
        assert(queue@ =~= seq![start]);
        lemma_layer_start(g, start, visited@, max_steps);
        lemma_lex_start(g, start, visited@);
    }
    while queue.len() > 0
        invariant
            g == store.graph(),
            store@.dom().finite(),
            store_len == store@.dom().len(),
            store@.contains_key(start),
            forall|id: VertexId, c: &C| goal.admits(id, c),
            visited.wf(),
            layer_idle(g, start, visited@, queue@, max_steps),
            lex_idle(g, start, visited@, codes, queue@),
            collected(store, goal, visited@, found@),
            rising_steps(visited@, found@),
            rising_codes(codes, found@),
            !is_full(found@.len(), max_results),
        decreases 2 * (store@.dom().len() - visited@.dom().len()) + queue@.len(),
    {
        let ghost measure = 2 * (store@.dom().len() - visited@.dom().len()) + queue@.len();
        let ghost old_queue = queue@;
        proof {
            lemma_layer_pop(g, start, visited@, old_queue, max_steps);
            lemma_lex_pop(g, start, visited@, codes, old_queue);
            assert(g.dom() =~= store@.dom());
            vstd::set_lib::lemma_len_subset(visited@.dom(), store@.dom());
        }
        let u = match queue.pop_front() {
            Some(u) => u,
            None => {
                return Err(GraphError::InvalidPath);
            },
        };
        let step = match visited.get(u) {
            Some(record) => record.step,
            None => {
                return Err(GraphError::InvalidPath);
            },
        };
        proof {
            assert(queue@ =~= old_queue.drop_first());
        }
        if let Some(limit) = max_steps {
            if step >= limit {
                proof {
                    lemma_layer_done(g, start, visited@, queue@, u, max_steps);
                    lemma_lex_done(g, start, visited@, codes, queue@, u, 0);
                }
                continue ;
            }
        }
        let entry = match store.lookup(u) {
            Ok(entry) => entry,
            Err(e) => {
                return Err(GraphError::InvalidPath);
            },
        };
        let neighbours = entry.vertex.get_neighbours();
        let mut i: usize = 0;
        while i < neighbours.len()
            invariant
                g == store.graph(),
                store@.dom().finite(),
                store_len == store@.dom().len(),
                store@.contains_key(start),
                forall|id: VertexId, c: &C| goal.admits(id, c),
                visited.wf(),
                layer_busy(g, start, visited@, queue@, u, max_steps),
                lex_busy(g, start, visited@, codes, queue@, u, i as int),
                rising_codes(codes, found@),
                visited@.contains_key(u),
                visited@[u].step == step,
                step < visited@.dom().len(),
                visited@.dom().len() <= store_len,
                within_limit(step as nat + 1, max_steps),
                g.contains_key(u),
                neighbours@ == edge_targets(g[u]),
                i <= neighbours.len(),
                expanded_upto(g, visited@, u, i as int),
                collected(store, goal, visited@, found@),
                rising_steps(visited@, found@),
                !is_full(found@.len(), max_results),
                0 <= 2 * (store@.dom().len() - visited@.dom().len()) + queue@.len() < measure,
            decreases neighbours.len() - i,
        {
            let n = neighbours[i];
            assert(n == g[u][i as int].0);
            if visited.is_visited(&n) {
                proof {
                    lemma_lex_skip(g, start, visited@, codes, queue@, u, i as int);
                }
                i += 1;
                continue ;
            }
            let n_entry = match store.lookup(n) {
                Ok(n_entry) => n_entry,
                Err(_) => {
                    proof {
                        lemma_lex_skip(g, start, visited@, codes, queue@, u, i as int);
                    }
                    i += 1;
                    continue ;
                },
            };
            let ghost before = visited@;
            let ghost queue_before = queue@;
            let ghost found_before = found@;
            visited.insert(n, u, step + 1, PathWeight::zero());
            queue.push_back(n);
            let accepted = goal.test(n, &n_entry.data);
            proof {
                let record = visited@[n];
                assert(queue@ =~= queue_before.push(n));
                lemma_layer_discover(
                    g,
                    start,
                    before,
                    queue_before,
                    u,
                    max_steps,
                    n,
                    record,
                    i as int,
                );
                lemma_collect(store, goal, before, found_before, n, record, accepted);
                lemma_rising_push(store, goal, before, found_before, n, record);
                lemma_lex_discover(
                    g,
                    start,
                    before,
                    codes,
                    queue_before,
                    u,
                    i as int,
                    max_steps,
                    record,
                );
                lemma_found_rising(
                    store,
                    goal,
                    before,
                    codes,
                    found_before,
                    n,
                    codes[u].push(i as int),
                );
                codes = codes.insert(n, codes[u].push(i as int));
                assert(g.dom() =~= store@.dom());
            }
            i += 1;
            if accepted {
                found.push(n);
                if let Some(limit) = max_results {
                    if found.len() >= limit {
                        proof {
                            assert(found@.last() == n);
                            lemma_nearest_first_full(
                                store,
                                start,
                                goal,
                                max_results,
                                max_steps,
                                found@,
                                visited@,
                                codes,
                                queue@,
                                u,
                                i as int,
                            );
                        }
                        return Ok(Traversal { found, visited });
                    }
                }
            }
        }
        proof {
            lemma_layer_done(g, start, visited@, queue@, u, max_steps);
            lemma_lex_done(g, start, visited@, codes, queue@, u, i as int);
        }
    }
    proof {
        assert(queue@ =~= Seq::<VertexId>::empty());
        lemma_nearest_first_exhausted(
            store,
            start,
            goal,
            max_results,
            max_steps,
            found@,
            visited@,
            codes,
        );
    }
    Ok(Traversal { found, visited })
}

/// `p` is a path from `start`, and no path from `start` to the same
/// vertex has fewer edges.
pub open spec fn is_shortest_path(g: Graph, start: VertexId, p: Seq<VertexId>) -> bool {
    &&& is_path(g, p)
    &&& p[0] == start
    &&& forall|q: Seq<VertexId>|
        #[trigger] is_path(g, q) && q[0] == start && q.last() == p.last() ==> hops(p) <= hops(q)
}

/// In the records of a breadth-first traversal, the chain of a recorded
/// vertex, read backwards, is the first path to it: a shortest path, of as
/// many edges as its step.
proof fn lemma_chain_is_first<V: GraphVertex, C, G: Goal<C>>(
    store: &VertexStore<V, C>,
    start: VertexId,
    goal: &G,
    max_results: Option<usize>,
    max_steps: Option<u64>,
    found: Seq<VertexId>,
    m: Map<VertexId, VisitedRecord>,
    v: VertexId,
    chain: Seq<VertexId>,
)
    requires
        nearest_first(store, start, goal, max_results, max_steps, found, m),
        m.contains_key(v),
        recorded_chain(m, v) == Some(chain),
    ensures
        chain.len() >= 1,
        chain[0] == v,
        chain.reverse() == tree_path(m, v),
        chain.reverse().last() == v,
        hops(chain.reverse()) == m[v].step,
        is_shortest_path(store.graph(), start, chain.reverse()),
        is_first_path(store.graph(), start, chain.reverse()),
{
    lemma_tree_recorded_chain(store.graph(), start, m, v);
}

/// In the records of a breadth-first traversal, the path that the records
/// describe for a recorded vertex is the first path to it.
pub proof fn lemma_tree_path_is_first<V: GraphVertex, C, G: Goal<C>>(
    store: &VertexStore<V, C>,
    start: VertexId,
    goal: &G,
    max_results: Option<usize>,
    max_steps: Option<u64>,
    found: Seq<VertexId>,
    m: Map<VertexId, VisitedRecord>,
    v: VertexId,
)
    requires
        nearest_first(store, start, goal, max_results, max_steps, found, m),
        m.contains_key(v),
    ensures
        is_first_path(store.graph(), start, tree_path(m, v)),
        tree_path(m, v).last() == v,
        first_path(store.graph(), start, v) == tree_path(m, v),
{
    lemma_tree_recorded_chain(store.graph(), start, m, v);
    lemma_first_path_is(store.graph(), start, tree_path(m, v));
}

/// Breadth-first search from `start_ent` to `end_ent`.
///
/// Gives a path of as few edges as any, from the destination back to the
/// source; of several such paths the first, which takes the earlier edge
/// where two of them part. `InvalidEntity` where either vertex is not in the
/// store; `NoPath` where no path leads from the one to the other.
pub fn bfs<V: GraphVertex, C>(
    store: &VertexStore<V, C>,
    start_ent: VertexId,
    end_ent: VertexId,
) -> (r: Result<GraphPath<()>, GraphError>)
    ensures
        match r {
            Ok(path) => path_between(store.graph(), start_ent, end_ent, forward(path))
                && is_shortest_path(store.graph(), start_ent, forward(path)) && is_first_path(
                store.graph(),
                start_ent,
                forward(path),
            ),
            Err(e) => match e {
                GraphError::InvalidEntity => !store@.contains_key(start_ent) || !store@.contains_key(
                    end_ent,
                ),
                GraphError::NoPath => store@.contains_key(start_ent) && store@.contains_key(end_ent)
                    && !reachable(store.graph(), start_ent, end_ent),
                _ => false,
            },
        },
        store@.contains_key(start_ent) && store@.contains_key(end_ent) && reachable(
            store.graph(),
            start_ent,
            end_ent,
        ) ==> r is Ok,
{
    if !store.contains(start_ent) || !store.contains(end_ent) {
        return Err(GraphError::InvalidEntity);
    }
    let goal = FixedEnd { end: end_ent };
    let traversal = match breadth_first(store, start_ent, &goal, Some(1), None) {
        Ok(traversal) => traversal,
        Err(e) => {
            return Err(e);
        },
    };
    let ghost g = store.graph();
    let ghost m = traversal.visited@;
    if traversal.found.len() == 0 {
        proof {
            assert forall|q: Seq<VertexId>| path_between(g, start_ent, end_ent, q) implies false by {
                assert(is_path(g, q));
                assert(rejects(store, &goal, q.last()));
            }
        }
        return Err(GraphError::NoPath);
    }
    let end = traversal.found[0];
    proof {
        assert(accepts(store, &goal, traversal.found@[0]));
        assert(end == end_ent);
        lemma_tree_recorded_chain(g, start_ent, m, end);
    }
    let result = traversal.visited.determine_path(end);
    proof {
        if result is Ok {
            lemma_chain_is_first(
                store,
                start_ent,
                &goal,
                Some(1usize),
                None,
                traversal.found@,
                m,
                end,
                result.unwrap().vertices(),
            );
        }
    }
    result
}

/// The end determiner can say yes to the data of the vertex `id`.
pub open spec fn is_end<V, C, F: Fn(&C) -> bool>(
    store: &VertexStore<V, C>,
    end_determiner: F,
    id: VertexId,
) -> bool {
    call_ensures(end_determiner, (&store@[id].data,), true)
}

/// The end determiner can say no to the data of the vertex `id`.
pub open spec fn is_no_end<V, C, F: Fn(&C) -> bool>(
    store: &VertexStore<V, C>,
    end_determiner: F,
    id: VertexId,
) -> bool {
    call_ensures(end_determiner, (&store@[id].data,), false)
}

/// Breadth-first search from `start_ent` to the nearest vertex whose data
/// the end determiner accepts.
///
/// Gives the first path to that vertex, from the destination back to the
/// source: a path of as few edges as any. The end determiner said no to
/// every vertex to which a path comes before this one: a path of fewer
/// edges, or one of as many that takes the earlier edge where the two part.
/// `InvalidEntity` where `start_ent` is not in the store;
/// `NoPath` where the end determiner said no to every vertex that can be
/// reached.
pub fn bfs_computed_end<V: GraphVertex, C, F: Fn(&C) -> bool>(
    store: &VertexStore<V, C>,
    start_ent: VertexId,
    end_determiner: F,
) -> (r: Result<GraphPath<()>, GraphError>)
    requires
        forall|c: &C| call_requires(end_determiner, (c,)),
    ensures
        match r {
            Ok(path) => is_shortest_path(store.graph(), start_ent, forward(path)) && is_first_path(
                store.graph(),
                start_ent,
                forward(path),
            ) && forward(path).last() == destination(path) && is_end(
                store,
                end_determiner,
                destination(path),
            ) && forall|q: Seq<VertexId>|
                #[trigger] is_path(store.graph(), q) && q[0] == start_ent && comes_before(
                    store.graph(),
                    q,
                    forward(path),
                ) ==> is_no_end(store, end_determiner, q.last()),
            Err(e) => match e {
                GraphError::InvalidEntity => !store@.contains_key(start_ent),
                GraphError::NoPath => store@.contains_key(start_ent) && forall|q: Seq<VertexId>|
                    #[trigger] is_path(store.graph(), q) && q[0] == start_ent ==> is_no_end(
                        store,
                        end_determiner,
                        q.last(),
                    ),
                _ => false,
            },
        },
        store@.contains_key(start_ent) && (exists|q: Seq<VertexId>|
            #[trigger] is_path(store.graph(), q) && q[0] == start_ent && !is_no_end(
                store,
                end_determiner,
                q.last(),
            )) ==> r is Ok,
{
    let goal = ComputedEnd { end_determiner };
    let traversal = match breadth_first(store, start_ent, &goal, Some(1), None) {
        Ok(traversal) => traversal,
        Err(e) => {
            return Err(e);
        },
    };
    let ghost g = store.graph();
    let ghost m = traversal.visited@;
    if traversal.found.len() == 0 {
        proof {
            assert forall|q: Seq<VertexId>|
                #[trigger] is_path(g, q) && q[0] == start_ent implies is_no_end(
                store,
                end_determiner,
                q.last(),
            ) by {
                assert(rejects(store, &goal, q.last()));
            }
        }
        return Err(GraphError::NoPath);
    }
    let end = traversal.found[0];
    proof {
        assert(accepts(store, &goal, traversal.found@[0]));
        lemma_tree_recorded_chain(g, start_ent, m, end);
    }
    let result = traversal.visited.determine_path(end);
    proof {
        if result is Ok {
            let path = result.unwrap();
            lemma_chain_is_first(
                store,
                start_ent,
                &goal,
                Some(1usize),
                None,
                traversal.found@,
                m,
                end,
                path.vertices(),
            );
            assert(traversal.found@.last() == end);
            assert forall|q: Seq<VertexId>|
                #[trigger] is_path(g, q) && q[0] == start_ent && comes_before(
                    g,
                    q,
                    forward(path),
                ) implies is_no_end(store, end_determiner, q.last()) by {
                if traversal.found@.contains(q.last()) {
                    assert(q.last() == end);
                }
            }
        }
    }
    result
}

/// What `bfs_multiple_end` promises of its paths.
pub open spec fn nearest_ends<V: GraphVertex, C, F: Fn(&C) -> bool>(
    store: &VertexStore<V, C>,
    start: VertexId,
    end_determiner: F,
    max_ends: Option<usize>,
    max_steps: Option<u64>,
    paths: Seq<GraphPath<()>>,
) -> bool {
    let g = store.graph();
    &&& max_ends is Some ==> paths.len() <= max_ends.unwrap()
    &&& forall|i: int|
        0 <= i < paths.len() ==> is_shortest_path(g, start, forward(#[trigger] paths[i]))
            && is_first_path(g, start, forward(paths[i])) && forward(paths[i]).last()
            == destination(paths[i]) && within_limit(hops(forward(paths[i])), max_steps) && is_end(
            store,
            end_determiner,
            destination(paths[i]),
        )
    &&& forall|i: int, j: int|
        0 <= i < j < paths.len() ==> destination(#[trigger] paths[i]) != destination(
            #[trigger] paths[j],
        ) && hops(forward(paths[i])) <= hops(forward(paths[j])) && comes_before(
            g,
            forward(paths[i]),
            forward(paths[j]),
        )
    &&& forall|q: Seq<VertexId>|
        #[trigger] is_path(g, q) && q[0] == start && (if is_full(paths.len(), max_ends) {
            paths.len() > 0 && comes_before(g, q, forward(paths.last()))
        } else {
            within_limit(hops(q), max_steps)
        }) ==> is_no_end(store, end_determiner, q.last()) || exists|i: int|
            0 <= i < paths.len() && destination(#[trigger] paths[i]) == q.last()
}

/// Breadth-first search from `start_ent` to every vertex whose data the end
/// determiner accepts, nearest first, up to `max_ends` of them and never
/// beyond `max_steps` edges.
///
/// Gives for each such vertex the first path to it, a shortest one, each
/// from its destination back to the source, and in the order of these
/// paths. Where fewer than `max_ends` paths come back, the end determiner
/// said no to every other vertex within `max_steps` edges; where `max_ends`
/// come back, to every other vertex to which a path comes before the last
/// of them. `InvalidEntity` where `start_ent` is not in the store.
pub fn bfs_multiple_end<V: GraphVertex, C, F: Fn(&C) -> bool>(
    store: &VertexStore<V, C>,
    start_ent: VertexId,
    end_determiner: F,
    max_ends: Option<usize>,
    max_steps: Option<u64>,
) -> (r: Result<Vec<GraphPath<()>>, GraphError>)
    requires
        forall|c: &C| call_requires(end_determiner, (c,)),
    ensures
        match r {
            Ok(paths) => store@.contains_key(start_ent) && nearest_ends(
                store,
                start_ent,
                end_determiner,
                max_ends,
                max_steps,
                paths@,
            ),
            Err(e) => e == GraphError::InvalidEntity && !store@.contains_key(start_ent),
        },
{
    let goal = ComputedEnd { end_determiner };
    let traversal = match breadth_first(store, start_ent, &goal, max_ends, max_steps) {
        Ok(traversal) => traversal,
        Err(e) => {
            return Err(e);
        },
    };
    let ghost g = store.graph();
    let ghost m = traversal.visited@;
    let ghost found = traversal.found@;
    let result = recorded_paths(&traversal.visited, &traversal.found, Ghost(g), Ghost(start_ent));
    proof {
        let paths = result.unwrap()@;
        assert forall|i: int| 0 <= i < paths.len() implies is_shortest_path(
            g,
            start_ent,
            forward(#[trigger] paths[i]),
        ) && is_first_path(g, start_ent, forward(paths[i])) && forward(paths[i]).last()
            == destination(paths[i]) && within_limit(hops(forward(paths[i])), max_steps) && is_end(
            store,
            end_determiner,
            destination(paths[i]),
        ) && destination(paths[i]) == found[i] && hops(forward(paths[i])) == m[found[i]].step
            && forward(paths[i]) == tree_path(m, found[i]) by {
            assert(m.contains_key(found[i]));
            assert(accepts(store, &goal, found[i]));
            lemma_chain_is_first(
                store,
                start_ent,
                &goal,
                max_ends,
                max_steps,
                found,
                m,
                found[i],
                paths[i].vertices(),
            );
        }
        assert forall|q: Seq<VertexId>|
            #[trigger] is_path(g, q) && q[0] == start_ent && (if is_full(paths.len(), max_ends) {
                paths.len() > 0 && comes_before(g, q, forward(paths.last()))
            } else {
                within_limit(hops(q), max_steps)
            }) implies is_no_end(store, end_determiner, q.last()) || exists|i: int|
            0 <= i < paths.len() && destination(#[trigger] paths[i]) == q.last() by {
            if paths.len() > 0 {
                assert(destination(paths[paths.len() - 1]) == found[paths.len() - 1]);
            }
            if found.contains(q.last()) {
                let i = choose|i: int| 0 <= i < found.len() && found[i] == q.last();
                assert(destination(paths[i]) == q.last());
            } else {
                assert(rejects(store, &goal, q.last()));
            }
        }
    }
    result
}

} // verus!
