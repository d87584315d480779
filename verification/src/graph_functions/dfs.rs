//! Depth-first search, on a stack of frames that each remember how many
//! neighbours of their vertex were looked at.
use vstd::prelude::*;
use crate::graph_functions::bfs::{expanded_upto, is_end, is_no_end};
use crate::graph_functions::frontier::{
    accepts, collected, destination, expanded, forward, is_full, lemma_collect,
    lemma_collect_start, lemma_tree_grow, recorded_paths, rejects, Traversal,
};
use crate::graph_functions::bfs_order::{codes_fit, lemma_code_is_turns, tree_path};
use crate::graph_functions::dfs_order::{
    border, deep_state, lemma_deep_discover, lemma_deep_drop, lemma_deep_skip, lemma_deep_start,
    lemma_tree_path_simple,
};
use crate::graph_functions::goal::{ComputedEnd, FixedEnd, Goal};
use crate::graph_functions::order::{goes_before, is_first_simple_path, lex_before, turns};
use crate::graph_vertex::{edge_targets, GraphVertex};
use crate::model::{
    has_edge, is_path, is_search_tree, lemma_path_drop_last, lemma_tree_recorded_chain,
    path_between, reachable,
};
use crate::store::{Graph, VertexStore};
use crate::types::{GraphError, GraphPath, PathWeight, VertexId};
use crate::visited::{start_record, VisitedNodes, VisitedRecord};

verus! {

/// A frame of the stack: a vertex, its neighbours, how many of them were
/// looked at, and how many edges the vertex is from the start vertex along
/// the stack.
pub struct DepthNode {
    pub ent: VertexId,
    pub neighbours: Vec<VertexId>,
    pub neighbours_visited: usize,
    pub step: u64,
}

impl DepthNode {
    /// A frame for `ent` that has looked at none of its neighbours.
    pub fn new(ent: VertexId, neighbours: Vec<VertexId>, step: u64) -> (r: Self)
        ensures
            r.ent == ent,
            r.neighbours == neighbours,
            r.neighbours_visited == 0,
            r.step == step,
    {
        Self { ent, neighbours, neighbours_visited: 0, step }
    }

    /// The next neighbour that was not looked at, which then counts as
    /// looked at; `None` once all were.
    pub fn get_next_neighbour(&mut self) -> (r: Option<VertexId>)
        ensures
            final(self).ent == old(self).ent,
            final(self).neighbours == old(self).neighbours,
            final(self).step == old(self).step,
            old(self).neighbours_visited < old(self).neighbours@.len() ==> r == Some(
                old(self).neighbours@[old(self).neighbours_visited as int],
            ) && final(self).neighbours_visited == old(self).neighbours_visited + 1,
            old(self).neighbours_visited >= old(self).neighbours@.len() ==> r is None
                && final(self).neighbours_visited == old(self).neighbours_visited,
    {
        let to_visit = self.neighbours_visited;
        if to_visit < self.neighbours.len() {
            self.neighbours_visited = to_visit + 1;
            Some(self.neighbours[to_visit])
        } else {
            None
        }
    }
}

/// How much a frame still has to do: one for each neighbour not looked at,
/// and one for the frame itself.
pub open spec fn frame_work(frame: DepthNode) -> nat {
    if frame.neighbours_visited <= frame.neighbours@.len() {
        (frame.neighbours@.len() - frame.neighbours_visited + 1) as nat
    } else {
        1
    }
}

/// How much the frames of a stack still have to do.
pub open spec fn stack_work(stack: Seq<DepthNode>) -> nat
    decreases stack.len(),
{
    if stack.len() == 0 {
        0
    } else {
        stack_work(stack.drop_last()) + frame_work(stack.last())
    }
}

/// A frame fits the graph and the records.
pub open spec fn frame_fits(g: Graph, m: Map<VertexId, VisitedRecord>, frame: DepthNode) -> bool {
    &&& m.contains_key(frame.ent)
    &&& g.contains_key(frame.ent)
    &&& frame.neighbours@ == edge_targets(g[frame.ent])
    &&& frame.neighbours_visited <= frame.neighbours@.len()
    &&& frame.step == m[frame.ent].step
    &&& expanded_upto(g, m, frame.ent, frame.neighbours_visited as int)
}

/// Some frame of the stack is for `v`.
pub open spec fn on_stack(stack: Seq<DepthNode>, v: VertexId) -> bool {
    exists|k: int| 0 <= k < stack.len() && (#[trigger] stack[k]).ent == v
}

/// The state of a depth-first traversal: the records are a tree, every
/// frame fits, and every recorded vertex is on the stack or expanded.
#[verifier::opaque]
pub open spec fn depth_state(
    g: Graph,
    start: VertexId,
    m: Map<VertexId, VisitedRecord>,
    stack: Seq<DepthNode>,
) -> bool {
    &&& is_search_tree(g, start, m)
    &&& forall|k: int| 0 <= k < stack.len() ==> frame_fits(g, m, #[trigger] stack[k])
    &&& forall|v: VertexId| #[trigger] m.contains_key(v) ==> on_stack(stack, v) || expanded(g, m, v)
}

/// What a depth-first traversal promises of the vertices it found and of
/// its records: the records describe, for each recorded vertex, the first
/// of the simple paths to it; the found vertices stand in the order of these
/// paths; and the goal was asked about every vertex to which a simple path
/// goes before that of the last vertex found, or, where fewer vertices were
/// found than were asked for, about every vertex that can be reached.
pub open spec fn depth_first_found<V: GraphVertex, C, G: Goal<C>>(
    store: &VertexStore<V, C>,
    start: VertexId,
    goal: &G,
    max_results: Option<usize>,
    found: Seq<VertexId>,
    m: Map<VertexId, VisitedRecord>,
) -> bool {
    let g = store.graph();
    &&& is_search_tree(g, start, m)
    &&& forall|v: VertexId| #[trigger] m.contains_key(v) ==> tree_path(m, v).no_duplicates()
    &&& forall|q: Seq<VertexId>|
        #[trigger] is_path(g, q) && q[0] == start && q.no_duplicates() && m.contains_key(q.last())
            ==> !goes_before(g, q, tree_path(m, q.last()))
    &&& found.no_duplicates()
    &&& max_results is Some ==> found.len() <= max_results.unwrap()
    &&& forall|i: int|
        0 <= i < found.len() ==> m.contains_key(#[trigger] found[i]) && accepts(store, goal, found[i])
    &&& forall|i: int, j: int|
        0 <= i < j < found.len() ==> goes_before(
            g,
            tree_path(m, #[trigger] found[i]),
            tree_path(m, #[trigger] found[j]),
        )
    &&& forall|q: Seq<VertexId>|
        #[trigger] is_path(g, q) && q[0] == start && (is_full(found.len(), max_results)
            ==> found.len() > 0 && q.no_duplicates() && goes_before(
            g,
            q,
            tree_path(m, found.last()),
        )) ==> m.contains_key(q.last()) && (found.contains(q.last()) || rejects(
            store,
            goal,
            q.last(),
        ))
}

/// The codes of the found vertices rise in the order of the dictionary.
pub open spec fn rising_lex(codes: Map<VertexId, Seq<int>>, found: Seq<VertexId>) -> bool {
    forall|a: int, b: int|
        0 <= a < b < found.len() ==> lex_before(codes[#[trigger] found[a]], codes[#[trigger] found[b]])
}

/// Where every recorded vertex is expanded, every path from the start
/// vertex ends at a recorded vertex.
proof fn lemma_closed(g: Graph, start: VertexId, m: Map<VertexId, VisitedRecord>, q: Seq<VertexId>)
    requires
        is_search_tree(g, start, m),
        forall|v: VertexId| #[trigger] m.contains_key(v) ==> expanded(g, m, v),
        is_path(g, q),
        q[0] == start,
    ensures
        m.contains_key(q.last()),
    decreases q.len(),
{
    if q.len() >= 2 {
        let q1 = q.drop_last();
        lemma_path_drop_last(g, q);
        lemma_closed(g, start, m, q1);
        let x = q1.last();
        assert(expanded(g, m, x));
        assert(has_edge(g, x, q.last()));
        let k = choose|k: int| 0 <= k < g[x].len() && (#[trigger] g[x][k]).0 == q.last();
        assert(g.contains_key(g[x][k].0));
    }
}

/// A traversal begins with the start vertex alone on the stack.
proof fn lemma_depth_start(g: Graph, start: VertexId, m: Map<VertexId, VisitedRecord>, frame: DepthNode)
    requires
        g.contains_key(start),
        m == Map::<VertexId, VisitedRecord>::empty().insert(start, start_record()),
        frame.ent == start,
        frame.neighbours@ == edge_targets(g[start]),
        frame.neighbours_visited == 0,
        frame.step == 0,
    ensures
        depth_state(g, start, m, seq![frame]),
        is_search_tree(g, start, m),
{
    reveal(depth_state);
    assert(m.dom() =~= set![start]);
    assert(seq![frame][0].ent == start);
}

/// What is known of the topmost frame.
proof fn lemma_depth_top(g: Graph, start: VertexId, m: Map<VertexId, VisitedRecord>, stack: Seq<DepthNode>)
    requires
        depth_state(g, start, m, stack),
        stack.len() > 0,
    ensures
        frame_fits(g, m, stack.last()),
        m.dom().subset_of(g.dom()),
        m.dom().finite(),
        stack.last().step < m.dom().len(),
{
    reveal(depth_state);
}

/// A frame whose neighbours were all looked at leaves the stack.
proof fn lemma_depth_drop(
    g: Graph,
    start: VertexId,
    m: Map<VertexId, VisitedRecord>,
    stack: Seq<DepthNode>,
)
    requires
        depth_state(g, start, m, stack),
        stack.len() > 0,
        stack.last().neighbours_visited >= stack.last().neighbours@.len(),
    ensures
        depth_state(g, start, m, stack.drop_last()),
        stack_work(stack.drop_last()) < stack_work(stack),
{
    reveal(depth_state);
    let rest = stack.drop_last();
    let top = stack.last();
    assert forall|v: VertexId| #[trigger] m.contains_key(v) implies on_stack(rest, v) || expanded(
        g,
        m,
        v,
    ) by {
        if !expanded(g, m, v) {
            let k = choose|k: int| 0 <= k < stack.len() && (#[trigger] stack[k]).ent == v;
            if k == stack.len() - 1 {
                assert(frame_fits(g, m, top));
                assert(expanded(g, m, v));
            } else {
                assert(rest[k].ent == v);
            }
        }
    }
    assert forall|k: int| 0 <= k < rest.len() implies frame_fits(g, m, #[trigger] rest[k]) by {
        assert(rest[k] == stack[k]);
    }
}

/// Looking at a neighbour that is recorded already, or that the graph does
/// not hold, goes on with one neighbour less to look at.
proof fn lemma_depth_skip(
    g: Graph,
    start: VertexId,
    m: Map<VertexId, VisitedRecord>,
    stack: Seq<DepthNode>,
    advanced: DepthNode,
)
    requires
        depth_state(g, start, m, stack),
        stack.len() > 0,
        stack.last().neighbours_visited < stack.last().neighbours@.len(),
        advanced.ent == stack.last().ent,
        advanced.neighbours == stack.last().neighbours,
        advanced.step == stack.last().step,
        advanced.neighbours_visited == stack.last().neighbours_visited + 1,
        m.contains_key(stack.last().neighbours@[stack.last().neighbours_visited as int])
            || !g.contains_key(stack.last().neighbours@[stack.last().neighbours_visited as int]),
    ensures
        depth_state(g, start, m, stack.drop_last().push(advanced)),
        stack_work(stack.drop_last().push(advanced)) < stack_work(stack),
{
    reveal(depth_state);
    let top = stack.last();
    let next = stack.drop_last().push(advanced);
    assert(next.drop_last() =~= stack.drop_last());
    assert(frame_fits(g, m, top));
    let u = top.ent;
    assert forall|k: int|
        0 <= k < advanced.neighbours_visited && k < g[u].len() && g.contains_key(
            (#[trigger] g[u][k]).0,
        ) implies m.contains_key(g[u][k].0) by {
        if k == top.neighbours_visited {
            assert(top.neighbours@[k] == g[u][k].0);
        }
    }
    assert forall|k: int| 0 <= k < next.len() implies frame_fits(g, m, #[trigger] next[k]) by {
        if k < stack.len() - 1 {
            assert(next[k] == stack[k]);
        }
    }
    assert forall|v: VertexId| #[trigger] m.contains_key(v) implies on_stack(next, v) || expanded(
        g,
        m,
        v,
    ) by {
        if !expanded(g, m, v) {
            let k = choose|k: int| 0 <= k < stack.len() && (#[trigger] stack[k]).ent == v;
            assert(next[k].ent == v);
        }
    }
}

/// Recording a neighbour that was not recorded, and pushing a frame for it,
/// goes on with one recorded vertex more.
proof fn lemma_depth_discover(
    g: Graph,
    start: VertexId,
    before: Map<VertexId, VisitedRecord>,
    stack: Seq<DepthNode>,
    advanced: DepthNode,
    fresh: DepthNode,
    record: VisitedRecord,
)
    requires
        depth_state(g, start, before, stack),
        stack.len() > 0,
        stack.last().neighbours_visited < stack.last().neighbours@.len(),
        advanced.ent == stack.last().ent,
        advanced.neighbours == stack.last().neighbours,
        advanced.step == stack.last().step,
        advanced.neighbours_visited == stack.last().neighbours_visited + 1,
        fresh.ent == stack.last().neighbours@[stack.last().neighbours_visited as int],
        !before.contains_key(fresh.ent),
        g.contains_key(fresh.ent),
        fresh.neighbours@ == edge_targets(g[fresh.ent]),
        fresh.neighbours_visited == 0,
        fresh.step == stack.last().step + 1,
        record.predecessor == Some(stack.last().ent),
        record.step == fresh.step,
    ensures
        depth_state(
            g,
            start,
            before.insert(fresh.ent, record),
            stack.drop_last().push(advanced).push(fresh),
        ),
        before.insert(fresh.ent, record).dom().len() == before.dom().len() + 1,
        before.insert(fresh.ent, record).dom().subset_of(g.dom()),
{
    reveal(depth_state);
    let top = stack.last();
    let n = fresh.ent;
    let u = top.ent;
    let m = before.insert(n, record);
    let next = stack.drop_last().push(advanced).push(fresh);
    assert(frame_fits(g, before, top));
    assert(g[u][top.neighbours_visited as int].0 == n);
    assert(has_edge(g, u, n));
    lemma_tree_grow(g, start, before, u, n, record);
    assert forall|k: int| 0 <= k < next.len() implies frame_fits(g, m, #[trigger] next[k]) by {
        let f = next[k];
        if k < stack.len() - 1 {
            assert(f == stack[k]);
            assert(frame_fits(g, before, stack[k]));
        }
        if k <= stack.len() - 1 {
            let w = f.ent;
            assert forall|j: int|
                0 <= j < f.neighbours_visited && j < g[w].len() && g.contains_key(
                    (#[trigger] g[w][j]).0,
                ) implies m.contains_key(g[w][j].0) by {
                if k == stack.len() - 1 && j == top.neighbours_visited {
                } else {
                    assert(before.contains_key(g[w][j].0));
                }
            }
        }
    }
    assert forall|v: VertexId| #[trigger] m.contains_key(v) implies on_stack(next, v) || expanded(
        g,
        m,
        v,
    ) by {
        if v == n {
            assert(next[next.len() - 1].ent == n);
        } else {
            assert(before.contains_key(v));
            if on_stack(stack, v) {
                let k = choose|k: int| 0 <= k < stack.len() && (#[trigger] stack[k]).ent == v;
                assert(next[k].ent == v);
            } else {
                assert(expanded(g, before, v));
                assert forall|j: int|
                    0 <= j < g[v].len() && g.contains_key(
                        (#[trigger] g[v][j]).0,
                    ) implies m.contains_key(g[v][j].0) by {
                    assert(before.contains_key(g[v][j].0));
                }
            }
        }
    }
}

/// What the codes say of the records and of the found vertices, in terms
/// of paths.
proof fn lemma_depth_paths<V: GraphVertex, C, G: Goal<C>>(
    store: &VertexStore<V, C>,
    start: VertexId,
    goal: &G,
    found: Seq<VertexId>,
    m: Map<VertexId, VisitedRecord>,
    codes: Map<VertexId, Seq<int>>,
    stack: Seq<DepthNode>,
)
    requires
        is_search_tree(store.graph(), start, m),
        deep_state(store.graph(), start, m, codes, stack),
        collected(store, goal, m, found),
        rising_lex(codes, found),
    ensures
        codes_fit(store.graph(), start, m, codes),
        forall|v: VertexId| #[trigger] m.contains_key(v) ==> tree_path(m, v).no_duplicates(),
        forall|q: Seq<VertexId>|
            #[trigger] is_path(store.graph(), q) && q[0] == start && q.no_duplicates()
                && m.contains_key(q.last()) ==> !goes_before(
                store.graph(),
                q,
                tree_path(m, q.last()),
            ),
        forall|i: int, j: int|
            0 <= i < j < found.len() ==> goes_before(
                store.graph(),
                tree_path(m, #[trigger] found[i]),
                tree_path(m, #[trigger] found[j]),
            ),
{
    let g = store.graph();
    reveal(crate::graph_functions::dfs_order::deep_state);
    reveal(collected);
    assert forall|v: VertexId| #[trigger] m.contains_key(v) implies tree_path(m, v).no_duplicates() by {
        lemma_tree_path_simple(g, start, m, codes, v);
    }
    assert forall|q: Seq<VertexId>|
        #[trigger] is_path(g, q) && q[0] == start && q.no_duplicates() && m.contains_key(
            q.last(),
        ) implies !goes_before(g, q, tree_path(m, q.last())) by {
        lemma_code_is_turns(g, start, m, codes, q.last());
    }
    assert forall|i: int, j: int| 0 <= i < j < found.len() implies goes_before(
        g,
        tree_path(m, #[trigger] found[i]),
        tree_path(m, #[trigger] found[j]),
    ) by {
        lemma_code_is_turns(g, start, m, codes, found[i]);
        lemma_code_is_turns(g, start, m, codes, found[j]);
    }
}

/// A traversal that stops with an empty stack has asked the goal about
/// every vertex that can be reached.
proof fn lemma_depth_exhausted<V: GraphVertex, C, G: Goal<C>>(
    store: &VertexStore<V, C>,
    start: VertexId,
    goal: &G,
    max_results: Option<usize>,
    found: Seq<VertexId>,
    m: Map<VertexId, VisitedRecord>,
    codes: Map<VertexId, Seq<int>>,
)
    requires
        depth_state(store.graph(), start, m, Seq::<DepthNode>::empty()),
        deep_state(store.graph(), start, m, codes, Seq::<DepthNode>::empty()),
        collected(store, goal, m, found),
        rising_lex(codes, found),
        !is_full(found.len(), max_results),
    ensures
        depth_first_found(store, start, goal, max_results, found, m),
{
    let g = store.graph();
    assert(is_search_tree(g, start, m)) by {
        reveal(depth_state);
    }
    lemma_depth_paths(store, start, goal, found, m, codes, Seq::<DepthNode>::empty());
    reveal(depth_state);
    reveal(collected);
    assert forall|q: Seq<VertexId>| #[trigger] is_path(g, q) && q[0] == start implies m.contains_key(
        q.last(),
    ) && (found.contains(q.last()) || rejects(store, goal, q.last())) by {
        lemma_closed(g, start, m, q);
    }
}

/// A traversal that stops because it has found as many vertices as were
/// asked for has kept its promise.
proof fn lemma_depth_full<V: GraphVertex, C, G: Goal<C>>(
    store: &VertexStore<V, C>,
    start: VertexId,
    goal: &G,
    max_results: Option<usize>,
    found: Seq<VertexId>,
    m: Map<VertexId, VisitedRecord>,
    codes: Map<VertexId, Seq<int>>,
    stack: Seq<DepthNode>,
)
    requires
        is_search_tree(store.graph(), start, m),
        deep_state(store.graph(), start, m, codes, stack),
        collected(store, goal, m, found),
        rising_lex(codes, found),
        max_results is Some,
        found.len() == max_results.unwrap(),
        found.len() > 0 ==> m.contains_key(found.last()) && forall|q: Seq<VertexId>|
            #[trigger] is_path(store.graph(), q) && q[0] == start && q.no_duplicates() && lex_before(
                turns(store.graph(), q),
                codes[found.last()],
            ) ==> m.contains_key(q.last()),
    ensures
        depth_first_found(store, start, goal, max_results, found, m),
{
    let g = store.graph();
    lemma_depth_paths(store, start, goal, found, m, codes, stack);
    if found.len() > 0 {
        lemma_code_is_turns(g, start, m, codes, found.last());
    }
    reveal(collected);
}

/// A vertex found after every recorded vertex keeps the codes of the found
/// vertices rising.
proof fn lemma_found_rising_lex<V, C, G: Goal<C>>(
    store: &VertexStore<V, C>,
    goal: &G,
    before: Map<VertexId, VisitedRecord>,
    codes: Map<VertexId, Seq<int>>,
    found: Seq<VertexId>,
    n: VertexId,
    code: Seq<int>,
)
    requires
        collected(store, goal, before, found),
        rising_lex(codes, found),
        !before.contains_key(n),
        forall|v: VertexId| #[trigger] before.contains_key(v) ==> lex_before(codes[v], code),
    ensures
        rising_lex(codes.insert(n, code), found.push(n)),
        rising_lex(codes.insert(n, code), found),
{
    reveal(collected);
    let f = found.push(n);
    let c2 = codes.insert(n, code);
    assert forall|a: int, b: int| 0 <= a < b < f.len() implies lex_before(
        c2[#[trigger] f[a]],
        c2[#[trigger] f[b]],
    ) by {
        assert(f[a] == found[a]);
        assert(before.contains_key(found[a]));
        if b < found.len() {
            assert(f[b] == found[b]);
            assert(before.contains_key(found[b]));
        }
    }
    assert forall|a: int, b: int| 0 <= a < b < found.len() implies lex_before(
        c2[#[trigger] found[a]],
        c2[#[trigger] found[b]],
    ) by {
        assert(before.contains_key(found[a]));
        assert(before.contains_key(found[b]));
    }
}

/// A traversal that is asked for no vertex at all has kept its promise
/// before it begins.
proof fn lemma_depth_zero<V: GraphVertex, C, G: Goal<C>>(
    store: &VertexStore<V, C>,
    start: VertexId,
    goal: &G,
    max_results: Option<usize>,
    m: Map<VertexId, VisitedRecord>,
    codes: Map<VertexId, Seq<int>>,
    stack: Seq<DepthNode>,
)
    requires
        max_results == Some(0usize),
        depth_state(store.graph(), start, m, stack),
        deep_state(store.graph(), start, m, codes, stack),
    ensures
        depth_first_found(store, start, goal, max_results, Seq::<VertexId>::empty(), m),
{
    let g = store.graph();
    reveal(depth_state);
    reveal(crate::graph_functions::dfs_order::deep_state);
    assert forall|v: VertexId| #[trigger] m.contains_key(v) implies tree_path(m, v).no_duplicates() by {
        lemma_tree_path_simple(g, start, m, codes, v);
    }
    assert forall|q: Seq<VertexId>|
        #[trigger] is_path(g, q) && q[0] == start && q.no_duplicates() && m.contains_key(
            q.last(),
        ) implies !goes_before(g, q, tree_path(m, q.last())) by {
        lemma_code_is_turns(g, start, m, codes, q.last());
    }
}

/// Visits the vertices depth first from `start`, and collects those that
/// the goal accepts, until there are `max_results` of them.
pub(crate) fn depth_first<V: GraphVertex, C, G: Goal<C>>(
    store: &VertexStore<V, C>,
    start: VertexId,
    goal: &G,
    max_results: Option<usize>,
) -> (r: Result<Traversal, GraphError>)
    requires
        forall|id: VertexId, c: &C| goal.admits(id, c),
    ensures
        match r {
            Ok(t) => store@.contains_key(start) && t.visited.wf() && depth_first_found(
                store,
                start,
                goal,
                max_results,
                t.found@,
                t.visited@,
            ),
            Err(e) => e == GraphError::InvalidEntity && !store@.contains_key(start),
        },
{
    let start_entry = match store.lookup(start) {
        Ok(entry) => entry,
        Err(e) => {
            return Err(e);
        },
    };
    let ghost g = store.graph();
    let store_len = store.len();
    proof {
        store.lemma_finite();
    }
    let mut visited = VisitedNodes::new_from_start(start);
    let mut found: Vec<VertexId> = Vec::new();
    let mut stack: Vec<DepthNode> = Vec::new();
    stack.push(DepthNode::new(start, start_entry.vertex.get_neighbours(), 0));
    let ghost mut codes = Map::<VertexId, Seq<int>>::empty().insert(start, Seq::<int>::empty());
    proof {
        assert(stack@ =~= seq![stack@[0]]);
        lemma_depth_start(g, start, visited@, stack@[0]);
        lemma_deep_start(g, start, visited@, stack@[0]);
        assert(visited@.dom() =~= set![start]);
    }
    if let Some(limit) = max_results {
        if limit == 0 {
            proof {
                assert(found@ =~= Seq::<VertexId>::empty());
                lemma_depth_zero(store, start, goal, max_results, visited@, codes, stack@);
            }
            return Ok(Traversal { found, visited });
        }
    }
    let start_accepted = goal.test(start, &start_entry.data);
    if start_accepted {
        found.push(start);
    }
    proof {
        assert(found@ =~= if start_accepted {
            seq![start]
        } else {
            Seq::<VertexId>::empty()
        });
        lemma_collect_start(store, goal, visited@, start, start_accepted);
    }
    if let Some(limit) = max_results {
        if found.len() >= limit {
            proof {
                assert(codes[start].len() == 0);
                lemma_depth_full(store, start, goal, max_results, found@, visited@, codes, stack@);
            }
            return Ok(Traversal { found, visited });
        }
    }
    while stack.len() > 0
        invariant
            g == store.graph(),
            store@.dom().finite(),
            store_len == store@.dom().len(),
            store@.contains_key(start),
            forall|id: VertexId, c: &C| goal.admits(id, c),
            visited.wf(),
            depth_state(g, start, visited@, stack@),
            deep_state(g, start, visited@, codes, stack@),
            collected(store, goal, visited@, found@),
            rising_lex(codes, found@),
            !is_full(found@.len(), max_results),
            visited@.dom().len() <= store@.dom().len(),
        decreases store@.dom().len() - visited@.dom().len(), stack_work(stack@),
    {
        let ghost old_stack = stack@;
        proof {
            lemma_depth_top(g, start, visited@, old_stack);
            assert(g.dom() =~= store@.dom());
        }
        let mut node = match stack.pop() {
            Some(node) => node,
            None => {
                return Err(GraphError::InvalidPath);
            },
        };
        proof {
            assert(stack@ =~= old_stack.drop_last());
            assert(node == old_stack.last());
        }
        let neighbour_ent = match node.get_next_neighbour() {
            Some(neighbour_ent) => neighbour_ent,
            None => {
                proof {
                    lemma_depth_drop(g, start, visited@, old_stack);
                    lemma_deep_drop(g, start, visited@, codes, old_stack);
                }
                continue ;
            },
        };
        let previous = node.ent;
        let step = node.step;
        let ghost advanced = node;
        stack.push(node);
        proof {
            assert(stack@ =~= old_stack.drop_last().push(advanced));
        }
        if visited.is_visited(&neighbour_ent) {
            proof {
                lemma_depth_skip(g, start, visited@, old_stack, advanced);
                lemma_deep_skip(g, start, visited@, codes, old_stack, advanced);
            }
            continue ;
        }
        let neighbour_entry = match store.lookup(neighbour_ent) {
            Ok(entry) => entry,
            Err(_) => {
                proof {
                    lemma_depth_skip(g, start, visited@, old_stack, advanced);
                    lemma_deep_skip(g, start, visited@, codes, old_stack, advanced);
                }
                continue ;
            },
        };
        let ghost before = visited@;
        let ghost found_before = found@;
        proof {
            vstd::set_lib::lemma_len_subset(before.dom(), store@.dom());
        }
        visited.insert(neighbour_ent, previous, step + 1, PathWeight::zero());
        let accepted = goal.test(neighbour_ent, &neighbour_entry.data);
        stack.push(DepthNode::new(neighbour_ent, neighbour_entry.vertex.get_neighbours(), step + 1));
        proof {
            let record = visited@[neighbour_ent];
            let fresh = stack@.last();
            assert(stack@ =~= old_stack.drop_last().push(advanced).push(fresh));
            lemma_depth_discover(g, start, before, old_stack, advanced, fresh, record);
            lemma_collect(store, goal, before, found_before, neighbour_ent, record, accepted);
            lemma_deep_discover(g, start, before, codes, old_stack, advanced, fresh, record);
            lemma_found_rising_lex(
                store,
                goal,
                before,
                codes,
                found_before,
                neighbour_ent,
                border(codes, old_stack),
            );
            codes = codes.insert(neighbour_ent, border(codes, old_stack));
            vstd::set_lib::lemma_len_subset(visited@.dom(), store@.dom());
        }
        if accepted {
            found.push(neighbour_ent);
            if let Some(limit) = max_results {
                if found.len() >= limit {
                    proof {
                        assert(is_search_tree(g, start, visited@)) by {
                            reveal(depth_state);
                        }
                        assert(found@.last() == neighbour_ent);
                        lemma_depth_full(
                            store,
                            start,
                            goal,
                            max_results,
                            found@,
                            visited@,
                            codes,
                            stack@,
                        );
                    }
                    return Ok(Traversal { found, visited });
                }
            }
        }
    }
    proof {
        assert(stack@ =~= Seq::<DepthNode>::empty());
        lemma_depth_exhausted(store, start, goal, max_results, found@, visited@, codes);
    }
    Ok(Traversal { found, visited })
}

/// Depth-first search from `start_ent` to `end_ent`.
///
/// Gives a path that passes no vertex twice, from the destination back
/// to the source; it need not be a shortest one. Of all such paths it is the
/// first in the order of the dictionary: the one that takes the earlier edge
/// where two of them part. `InvalidEntity` where either vertex is not in the
/// store; `NoPath` where no path leads from the one to the other.
pub fn dfs<V: GraphVertex, C>(
    store: &VertexStore<V, C>,
    start_ent: VertexId,
    end_ent: VertexId,
) -> (r: Result<GraphPath<()>, GraphError>)
    ensures
        match r {
            Ok(path) => path_between(store.graph(), start_ent, end_ent, forward(path))
                && is_first_simple_path(store.graph(), start_ent, forward(path)),
            Err(e) => match e {
                GraphError::InvalidEntity => !store@.contains_key(start_ent) || !store@.contains_key(
                    end_ent,
                ),
                GraphError::NoPath => store@.contains_key(start_ent) && store@.contains_key(end_ent)
                    && !reachable(store.graph(), start_ent, end_ent),
                _ => false,
            },
        },
        store@.contains_key(start_ent) && store@.contains_key(end_ent) && reachable(
            store.graph(),
            start_ent,
            end_ent,
        ) ==> r is Ok,
{
    if !store.contains(start_ent) || !store.contains(end_ent) {
        return Err(GraphError::InvalidEntity);
    }
    let goal = FixedEnd { end: end_ent };
    let traversal = match depth_first(store, start_ent, &goal, Some(1)) {
        Ok(traversal) => traversal,
        Err(e) => {
            return Err(e);
        },
    };
    let ghost g = store.graph();
    let ghost m = traversal.visited@;
    if traversal.found.len() == 0 {
        proof {
            assert forall|q: Seq<VertexId>| path_between(g, start_ent, end_ent, q) implies false by {
                assert(is_path(g, q));
                assert(rejects(store, &goal, q.last()));
            }
        }
        return Err(GraphError::NoPath);
    }
    let end = traversal.found[0];
    proof {
        assert(accepts(store, &goal, traversal.found@[0]));
        lemma_tree_recorded_chain(g, start_ent, m, end);
    }
    let result = traversal.visited.determine_path(end);
    proof {
        if result is Ok {
            assert(forward(result.unwrap()) == tree_path(m, end));
        }
    }
    result
}

/// Depth-first search from `start_ent` to a vertex whose data the end
/// determiner accepts.
///
/// Gives a path to such a vertex that passes no vertex twice, from the
/// destination back to the source: the first such path to that vertex in the
/// order of the dictionary. The end determiner said no to every vertex to
/// which a simple path goes before this one. `InvalidEntity` where
/// `start_ent` is not in the store; `NoPath` where the end determiner said
/// no to every vertex that can be reached.
pub fn dfs_computed_end<V: GraphVertex, C, F: Fn(&C) -> bool>(
    store: &VertexStore<V, C>,
    start_ent: VertexId,
    end_determiner: F,
) -> (r: Result<GraphPath<()>, GraphError>)
    requires
        forall|c: &C| call_requires(end_determiner, (c,)),
    ensures
        match r {
            Ok(path) => is_first_simple_path(store.graph(), start_ent, forward(path))
                && forward(path).last() == destination(path) && is_end(
                store,
                end_determiner,
                destination(path),
            ) && forall|q: Seq<VertexId>|
                #[trigger] is_path(store.graph(), q) && q[0] == start_ent && q.no_duplicates()
                    && goes_before(store.graph(), q, forward(path)) ==> is_no_end(
                    store,
                    end_determiner,
                    q.last(),
                ),
            Err(e) => match e {
                GraphError::InvalidEntity => !store@.contains_key(start_ent),
                GraphError::NoPath => store@.contains_key(start_ent) && forall|q: Seq<VertexId>|
                    #[trigger] is_path(store.graph(), q) && q[0] == start_ent ==> is_no_end(
                        store,
                        end_determiner,
                        q.last(),
                    ),
                _ => false,
            },
        },
        store@.contains_key(start_ent) && (exists|q: Seq<VertexId>|
            #[trigger] is_path(store.graph(), q) && q[0] == start_ent && !is_no_end(
                store,
                end_determiner,
                q.last(),
            )) ==> r is Ok,
{
    let goal = ComputedEnd { end_determiner };
    let traversal = match depth_first(store, start_ent, &goal, Some(1)) {
        Ok(traversal) => traversal,
        Err(e) => {
            return Err(e);
        },
    };
    let ghost g = store.graph();
    let ghost m = traversal.visited@;
    if traversal.found.len() == 0 {
        proof {
            assert forall|q: Seq<VertexId>|
                #[trigger] is_path(g, q) && q[0] == start_ent implies is_no_end(
                store,
                end_determiner,
                q.last(),
            ) by {
                assert(rejects(store, &goal, q.last()));
            }
        }
        return Err(GraphError::NoPath);
    }
    let end = traversal.found[0];
    proof {
        assert(accepts(store, &goal, traversal.found@[0]));
        lemma_tree_recorded_chain(g, start_ent, m, end);
    }
    let result = traversal.visited.determine_path(end);
    proof {
        if result is Ok {
            let path = result.unwrap();
            assert(forward(path) == tree_path(m, end));
            assert(traversal.found@.last() == end);
            assert forall|q: Seq<VertexId>|
                #[trigger] is_path(g, q) && q[0] == start_ent && q.no_duplicates() && goes_before(
                    g,
                    q,
                    forward(path),
                ) implies is_no_end(store, end_determiner, q.last()) by {
                if traversal.found@.contains(q.last()) {
                    assert(q.last() == end);
                }
            }
        }
    }
    result
}

/// What `dfs_multiple_end` promises of its paths.
pub open spec fn reached_ends<V: GraphVertex, C, F: Fn(&C) -> bool>(
    store: &VertexStore<V, C>,
    start: VertexId,
    end_determiner: F,
    max_ends: Option<usize>,
    paths: Seq<GraphPath<()>>,
) -> bool {
    let g = store.graph();
    &&& max_ends is Some ==> paths.len() <= max_ends.unwrap()
    &&& forall|i: int|
        0 <= i < paths.len() ==> is_first_simple_path(g, start, forward(#[trigger] paths[i]))
            && forward(paths[i]).last() == destination(paths[i]) && is_end(
            store,
            end_determiner,
            destination(paths[i]),
        )
    &&& forall|i: int, j: int|
        0 <= i < j < paths.len() ==> destination(#[trigger] paths[i]) != destination(
            #[trigger] paths[j],
        ) && goes_before(g, forward(paths[i]), forward(paths[j]))
    &&& forall|q: Seq<VertexId>|
        #[trigger] is_path(g, q) && q[0] == start && (is_full(paths.len(), max_ends)
            ==> paths.len() > 0 && q.no_duplicates() && goes_before(g, q, forward(paths.last())))
            ==> is_no_end(store, end_determiner, q.last()) || exists|i: int|
            0 <= i < paths.len() && destination(#[trigger] paths[i]) == q.last()
}

/// Depth-first search from `start_ent` to the vertices whose data the end
/// determiner accepts, up to `max_ends` of them.
///
/// Gives for each such vertex the first simple path to it, each from its
/// destination back to the source, and in the order of these paths. Where
/// fewer than `max_ends` paths come back, the end determiner said no to
/// every other vertex that can be reached; where `max_ends` come back, to
/// every other vertex to which a simple path goes before the last of them.
/// `InvalidEntity` where `start_ent` is not in the store.
pub fn dfs_multiple_end<V: GraphVertex, C, F: Fn(&C) -> bool>(
    store: &VertexStore<V, C>,
    start_ent: VertexId,
    end_determiner: F,
    max_ends: Option<usize>,
) -> (r: Result<Vec<GraphPath<()>>, GraphError>)
    requires
        forall|c: &C| call_requires(end_determiner, (c,)),
    ensures
        match r {
            Ok(paths) => store@.contains_key(start_ent) && reached_ends(
                store,
                start_ent,
                end_determiner,
                max_ends,
                paths@,
            ),
            Err(e) => e == GraphError::InvalidEntity && !store@.contains_key(start_ent),
        },
{
    let goal = ComputedEnd { end_determiner };
    let traversal = match depth_first(store, start_ent, &goal, max_ends) {
        Ok(traversal) => traversal,
        Err(e) => {
            return Err(e);
        },
    };
    let ghost g = store.graph();
    let ghost m = traversal.visited@;
    let ghost found = traversal.found@;
    let result = recorded_paths(&traversal.visited, &traversal.found, Ghost(g), Ghost(start_ent));
    proof {
        let paths = result.unwrap()@;
        assert forall|i: int| 0 <= i < paths.len() implies is_first_simple_path(
            g,
            start_ent,
            forward(#[trigger] paths[i]),
        ) && forward(paths[i]).last() == destination(paths[i]) && is_end(
            store,
            end_determiner,
            destination(paths[i]),
        ) && destination(paths[i]) == found[i] && forward(paths[i]) == tree_path(m, found[i]) by {
            assert(m.contains_key(found[i]));
            assert(accepts(store, &goal, found[i]));
            lemma_tree_recorded_chain(g, start_ent, m, found[i]);
        }
        assert forall|q: Seq<VertexId>|
            #[trigger] is_path(g, q) && q[0] == start_ent && (is_full(paths.len(), max_ends)
                ==> paths.len() > 0 && q.no_duplicates() && goes_before(
                g,
                q,
                forward(paths.last()),
            )) implies is_no_end(store, end_determiner, q.last()) || exists|i: int|
            0 <= i < paths.len() && destination(#[trigger] paths[i]) == q.last() by {
            if paths.len() > 0 {
                assert(forward(paths[paths.len() - 1]) == tree_path(m, found[paths.len() - 1]));
            }
            if found.contains(q.last()) {
                let i = choose|i: int| 0 <= i < found.len() && found[i] == q.last();
                assert(destination(paths[i]) == q.last());
            } else {
                assert(rejects(store, &goal, q.last()));
            }
        }
    }
    result
}

} // verus!
