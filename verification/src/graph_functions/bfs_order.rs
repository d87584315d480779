//! Why a breadth-first traversal comes to the vertices in the order of
//! their first paths.
use vstd::prelude::*;
use crate::graph_functions::bfs::{expanded_upto, layer_busy};
use crate::graph_functions::frontier::{expanded, lemma_frontier, within_limit};
use crate::graph_functions::order::{
    first_index, lemma_first_index, lemma_first_index_is, lemma_precedes_extended,
    lemma_precedes_irreflexive, lemma_precedes_last, lemma_precedes_split,
    lemma_precedes_transitive, lemma_turns_push, precedes, turns,
};
use crate::graph_vertex::is_first_edge_to;
use crate::model::{
    has_edge, hops, is_path, is_search_tree, lemma_path_drop_last, lemma_tree_chain,
};
use crate::store::Graph;
use crate::types::VertexId;
use crate::visited::{chain_from, recorded_chain, start_record, VisitedRecord};

verus! {

/// The codes fit the records: the code of the start vertex is empty, and
/// the code of every other recorded vertex is the code of its predecessor
/// with the turn from the predecessor to it at the end.
pub open spec fn codes_fit(
    g: Graph,
    start: VertexId,
    m: Map<VertexId, VisitedRecord>,
    codes: Map<VertexId, Seq<int>>,
) -> bool {
    &&& codes.dom() == m.dom()
    &&& codes[start] == Seq::<int>::empty()
    &&& forall|v: VertexId| #[trigger] m.contains_key(v) ==> codes[v].len() == m[v].step
    &&& forall|v: VertexId| #[trigger]
        m.contains_key(v) && v != start ==> codes[v] == codes[m[v].predecessor.unwrap()].push(
            first_index(g[m[v].predecessor.unwrap()], v),
        )
}

/// What the codes are in a breadth-first traversal: they fit the records,
/// no predecessor is queued, no path of as many edges to a recorded vertex
/// comes before the one that the records describe, and the queued vertices
/// stand in the order of their codes.
pub open spec fn coded(
    g: Graph,
    start: VertexId,
    m: Map<VertexId, VisitedRecord>,
    codes: Map<VertexId, Seq<int>>,
    queue: Seq<VertexId>,
) -> bool {
    &&& codes_fit(g, start, m, codes)
    &&& forall|v: VertexId| #[trigger]
        m.contains_key(v) && v != start ==> !queue.contains(m[v].predecessor.unwrap())
    &&& forall|q: Seq<VertexId>|
        #[trigger] is_path(g, q) && q[0] == start && m.contains_key(q.last()) && hops(q)
            == m[q.last()].step ==> !precedes(turns(g, q), codes[q.last()])
    &&& forall|a: int, b: int|
        0 <= a < b < queue.len() ==> precedes(codes[#[trigger] queue[a]], codes[#[trigger] queue[b]])
}

/// The codes between two expansions: every recorded vertex that is not
/// queued comes before every queued one.
#[verifier::opaque]
pub open spec fn lex_idle(
    g: Graph,
    start: VertexId,
    m: Map<VertexId, VisitedRecord>,
    codes: Map<VertexId, Seq<int>>,
    queue: Seq<VertexId>,
) -> bool {
    &&& coded(g, start, m, codes, queue)
    &&& forall|v: VertexId, k: int|
        #[trigger] m.contains_key(v) && !queue.contains(v) && 0 <= k < queue.len() ==> precedes(
            codes[v],
            codes[#[trigger] queue[k]],
        )
}

/// The codes while `u` is expanded and its first `i` edges were looked at:
/// `u` comes after every other vertex that is not queued and before every
/// queued one, and the vertices reached from `u` were reached over one of
/// its first `i` edges.
#[verifier::opaque]
pub open spec fn lex_busy(
    g: Graph,
    start: VertexId,
    m: Map<VertexId, VisitedRecord>,
    codes: Map<VertexId, Seq<int>>,
    queue: Seq<VertexId>,
    u: VertexId,
    i: int,
) -> bool {
    &&& coded(g, start, m, codes, queue)
    &&& m.contains_key(u)
    &&& !queue.contains(u)
    &&& forall|v: VertexId| #[trigger]
        m.contains_key(v) && !queue.contains(v) && v != u ==> precedes(codes[v], codes[u])
    &&& forall|k: int| 0 <= k < queue.len() ==> precedes(codes[u], codes[#[trigger] queue[k]])
    &&& forall|v: VertexId| #[trigger]
        m.contains_key(v) && v != start && m[v].predecessor == Some(u) ==> codes[v].last() < i
}

/// The codes of the found vertices rise.
pub open spec fn rising_codes(codes: Map<VertexId, Seq<int>>, found: Seq<VertexId>) -> bool {
    forall|a: int, b: int|
        0 <= a < b < found.len() ==> precedes(codes[#[trigger] found[a]], codes[#[trigger] found[b]])
}

/// A traversal begins with the empty code for the start vertex.
pub proof fn lemma_lex_start(g: Graph, start: VertexId, m: Map<VertexId, VisitedRecord>)
    requires
        g.contains_key(start),
        m == Map::<VertexId, VisitedRecord>::empty().insert(start, start_record()),
    ensures
        lex_idle(
            g,
            start,
            m,
            Map::<VertexId, Seq<int>>::empty().insert(start, Seq::<int>::empty()),
            seq![start],
        ),
{
    reveal(lex_idle);
    let codes = Map::<VertexId, Seq<int>>::empty().insert(start, Seq::<int>::empty());
    let queue = seq![start];
    assert(codes.dom() =~= m.dom());
    assert(queue[0] == start);
    assert forall|q: Seq<VertexId>|
        #[trigger] is_path(g, q) && q[0] == start && m.contains_key(q.last()) && hops(q)
            == m[q.last()].step implies !precedes(turns(g, q), codes[q.last()]) by {
        assert(turns(g, q) =~= Seq::<int>::empty());
        lemma_precedes_irreflexive(Seq::<int>::empty());
    }
}

/// Taking the first vertex off the queue.
pub proof fn lemma_lex_pop(
    g: Graph,
    start: VertexId,
    m: Map<VertexId, VisitedRecord>,
    codes: Map<VertexId, Seq<int>>,
    queue: Seq<VertexId>,
)
    requires
        lex_idle(g, start, m, codes, queue),
        queue.len() > 0,
        m.contains_key(queue[0]),
    ensures
        lex_busy(g, start, m, codes, queue.drop_first(), queue[0], 0),
{
    reveal(lex_idle);
    reveal(lex_busy);
    let rest = queue.drop_first();
    let u = queue[0];
    assert forall|k: int| 0 <= k < rest.len() implies precedes(codes[u], codes[#[trigger] rest[k]]) by {
        assert(rest[k] == queue[k + 1]);
    }
    assert(!rest.contains(u)) by {
        if rest.contains(u) {
            let k = choose|k: int| 0 <= k < rest.len() && rest[k] == u;
            assert(precedes(codes[u], codes[rest[k]]));
            lemma_precedes_irreflexive(codes[u]);
        }
    }
    assert forall|v: VertexId| rest.contains(v) implies queue.contains(v) by {
        let k = choose|k: int| 0 <= k < rest.len() && rest[k] == v;
        assert(queue[k + 1] == v);
    }
    assert forall|v: VertexId| #[trigger]
        m.contains_key(v) && !rest.contains(v) && v != u implies precedes(codes[v], codes[u]) by {
        if queue.contains(v) {
            let k = choose|k: int| 0 <= k < queue.len() && queue[k] == v;
            assert(rest[k - 1] == v);
        }
    }
    assert forall|a: int, b: int| 0 <= a < b < rest.len() implies precedes(
        codes[#[trigger] rest[a]],
        codes[#[trigger] rest[b]],
    ) by {
        assert(rest[a] == queue[a + 1]);
        assert(rest[b] == queue[b + 1]);
    }
    assert forall|v: VertexId| #[trigger]
        m.contains_key(v) && v != start && m[v].predecessor == Some(u) implies codes[v].last()
        < 0 by {
        assert(queue.contains(u));
    }
}

/// Looking at one more edge of `u` without recording a vertex.
pub proof fn lemma_lex_skip(
    g: Graph,
    start: VertexId,
    m: Map<VertexId, VisitedRecord>,
    codes: Map<VertexId, Seq<int>>,
    queue: Seq<VertexId>,
    u: VertexId,
    i: int,
)
    requires
        lex_busy(g, start, m, codes, queue, u, i),
    ensures
        lex_busy(g, start, m, codes, queue, u, i + 1),
{
    reveal(lex_busy);
}

/// The expansion of `u` is over.
pub proof fn lemma_lex_done(
    g: Graph,
    start: VertexId,
    m: Map<VertexId, VisitedRecord>,
    codes: Map<VertexId, Seq<int>>,
    queue: Seq<VertexId>,
    u: VertexId,
    i: int,
)
    requires
        lex_busy(g, start, m, codes, queue, u, i),
    ensures
        lex_idle(g, start, m, codes, queue),
{
    reveal(lex_idle);
    reveal(lex_busy);
    assert forall|v: VertexId, k: int|
        #[trigger] m.contains_key(v) && !queue.contains(v) && 0 <= k < queue.len() implies precedes(
        codes[v],
        codes[#[trigger] queue[k]],
    ) by {
        if v != u {
            lemma_precedes_transitive(codes[v], codes[u], codes[queue[k]]);
        }
    }
}

/// While `u` is expanded and its first `i` edges were looked at, every
/// path from the start vertex of one edge more than `u` is steps away, that
/// comes before the path over `u` and an edge of `u` at a position up to
/// `i`, ends at a recorded vertex.
pub proof fn lemma_lex_reach(
    g: Graph,
    start: VertexId,
    m: Map<VertexId, VisitedRecord>,
    codes: Map<VertexId, Seq<int>>,
    queue: Seq<VertexId>,
    u: VertexId,
    i: int,
    max_steps: Option<u64>,
    t: int,
    q: Seq<VertexId>,
)
    requires
        layer_busy(g, start, m, queue, u, max_steps),
        lex_busy(g, start, m, codes, queue, u, i),
        expanded_upto(g, m, u, i),
        g.contains_key(u),
        within_limit(m[u].step as nat + 1, max_steps),
        t <= i,
        is_path(g, q),
        q[0] == start,
        hops(q) == m[u].step + 1,
        precedes(turns(g, q), codes[u].push(t)),
    ensures
        m.contains_key(q.last()),
{
    reveal(layer_busy);
    reveal(lex_busy);
    let q1 = q.drop_last();
    lemma_path_drop_last(g, q);
    lemma_frontier(g, start, m, queue.to_set().insert(u), max_steps, m[u].step as nat, q1);
    let x = q1.last();
    let y = q.last();
    assert(m.contains_key(x));
    assert(m[x].step <= hops(q1));
    assert(has_edge(g, x, y));
    lemma_first_index(g[x], y);
    let j = first_index(g[x], y);
    lemma_turns_push(g, q);
    assert(q[q.len() - 2] == x);
    assert(turns(g, q) == turns(g, q1).push(j));
    if m[x].step < m[u].step || (!queue.contains(x) && x != u) {
        assert(!queue.to_set().insert(u).contains(x)) by {
            if queue.contains(x) {
                let k = choose|k: int| 0 <= k < queue.len() && queue[k] == x;
                assert(m[queue[k]].step >= m[u].step);
            }
        }
        assert(expanded(g, m, x));
        assert(g.contains_key(g[x][j].0));
    } else {
        assert(m[x].step == m[u].step);
        assert(turns(g, q1).len() == hops(q1));
        assert(!precedes(turns(g, q1), codes[x]));
        lemma_precedes_split(turns(g, q1), codes[u], j, t);
        if x == u {
            assert(turns(g, q1) == codes[u] && j < t);
            assert(g.contains_key(g[u][j].0));
        } else {
            let k = choose|k: int| 0 <= k < queue.len() && queue[k] == x;
            assert(precedes(codes[u], codes[queue[k]]));
            if precedes(turns(g, q1), codes[u]) {
                lemma_precedes_transitive(turns(g, q1), codes[u], codes[x]);
            }
        }
    }
}

/// Recording a neighbour of `u` that was not recorded, reached over the
/// `i`-th edge of `u`: its code is the code of `u` with `i` at the end, and
/// every vertex recorded before comes before it.
pub proof fn lemma_lex_discover(
    g: Graph,
    start: VertexId,
    before: Map<VertexId, VisitedRecord>,
    codes: Map<VertexId, Seq<int>>,
    queue: Seq<VertexId>,
    u: VertexId,
    i: int,
    max_steps: Option<u64>,
    record: VisitedRecord,
)
    requires
        layer_busy(g, start, before, queue, u, max_steps),
        lex_busy(g, start, before, codes, queue, u, i),
        expanded_upto(g, before, u, i),
        within_limit(before[u].step as nat + 1, max_steps),
        g.contains_key(u),
        0 <= i < g[u].len(),
        g.contains_key(g[u][i].0),
        !before.contains_key(g[u][i].0),
        record.predecessor == Some(u),
        record.step == before[u].step + 1,
    ensures
        lex_busy(
            g,
            start,
            before.insert(g[u][i].0, record),
            codes.insert(g[u][i].0, codes[u].push(i)),
            queue.push(g[u][i].0),
            u,
            i + 1,
        ),
        forall|v: VertexId| #[trigger]
            before.contains_key(v) ==> precedes(codes[v], codes[u].push(i)),
{
    reveal(layer_busy);
    reveal(lex_busy);
    let n = g[u][i].0;
    let m = before.insert(n, record);
    let code = codes[u].push(i);
    let codes2 = codes.insert(n, code);
    let queue2 = queue.push(n);
    assert(codes2.dom() =~= m.dom());
    assert(n != u && n != start);
    // the edge at i is the first edge from u to n
    assert(is_first_edge_to(g[u], n, i)) by {
        assert forall|j: int| 0 <= j < i implies (#[trigger] g[u][j]).0 != n by {
            if g[u][j].0 == n {
                assert(before.contains_key(g[u][j].0));
            }
        }
    }
    lemma_first_index_is(g[u], n, i);
    // every vertex recorded before comes before the new one
    assert forall|v: VertexId| #[trigger] before.contains_key(v) implies precedes(
        codes[v],
        code,
    ) by {
        if before[v].step <= before[u].step {
        } else {
            // one step beyond u: queued, and reached from u or from an earlier vertex
            if !queue.contains(v) && v != u {
                assert(precedes(codes[v], codes[u]));
            }
            let p = before[v].predecessor.unwrap();
            assert(before.contains_key(p));
            assert(before[p].step == before[u].step);
            if p == u {
                assert(codes[v].last() < i);
                assert(codes[v] == codes[u].push(first_index(g[u], v)));
                lemma_precedes_last(codes[u], first_index(g[u], v), i);
            } else {
                assert(precedes(codes[p], codes[u]));
                lemma_precedes_extended(codes[p], codes[u], first_index(g[p], v), i);
            }
        }
    }
    assert forall|v: VertexId| queue2.contains(v) implies v == n || queue.contains(v) by {
        let k = choose|k: int| 0 <= k < queue2.len() && queue2[k] == v;
        if k < queue.len() {
            assert(queue[k] == v);
        }
    }
    assert forall|v: VertexId| #[trigger] m.contains_key(v) && v != start implies codes2[v]
        == codes2[m[v].predecessor.unwrap()].push(first_index(g[m[v].predecessor.unwrap()], v))
        && !queue2.contains(m[v].predecessor.unwrap()) by {
        if v != n {
            assert(before.contains_key(v));
            assert(before.contains_key(before[v].predecessor.unwrap()));
        }
    }
    assert(codes_fit(g, start, m, codes2));
    assert forall|q: Seq<VertexId>|
        #[trigger] is_path(g, q) && q[0] == start && m.contains_key(q.last()) && hops(q)
            == m[q.last()].step implies !precedes(turns(g, q), codes2[q.last()]) by {
        if q.last() == n {
            if precedes(turns(g, q), code) {
                lemma_lex_reach(g, start, before, codes, queue, u, i, max_steps, i, q);
            }
        } else {
            assert(before.contains_key(q.last()));
        }
    }
    assert forall|a: int, b: int| 0 <= a < b < queue2.len() implies precedes(
        codes2[#[trigger] queue2[a]],
        codes2[#[trigger] queue2[b]],
    ) by {
        assert(queue2[a] == queue[a]);
        assert(before.contains_key(queue[a]));
        if b < queue.len() {
            assert(queue2[b] == queue[b]);
            assert(before.contains_key(queue[b]));
        }
    }
    assert forall|k: int| 0 <= k < queue2.len() implies precedes(
        codes2[u],
        codes2[#[trigger] queue2[k]],
    ) by {
        if k < queue.len() {
            assert(queue2[k] == queue[k]);
            assert(before.contains_key(queue[k]));
        }
    }
    assert forall|v: VertexId| #[trigger]
        m.contains_key(v) && !queue2.contains(v) && v != u implies precedes(
        codes2[v],
        codes2[u],
    ) by {
        assert(queue2[queue2.len() - 1] == n);
        assert(v != n);
        if queue.contains(v) {
            let k = choose|k: int| 0 <= k < queue.len() && queue[k] == v;
            assert(queue2[k] == v);
        }
    }
    assert forall|v: VertexId| #[trigger] m.contains_key(v) implies codes2[v].len()
        == m[v].step by {
        if v != n {
            assert(before.contains_key(v));
        }
    }
    assert forall|v: VertexId| #[trigger]
        m.contains_key(v) && v != start && m[v].predecessor == Some(u) implies codes2[v].last() < i
        + 1 by {
        if v != n {
            assert(before.contains_key(v));
        }
    }
}

/// A vertex found after every recorded vertex keeps the codes of the found
/// vertices rising.
pub proof fn lemma_rising_codes_push(
    codes: Map<VertexId, Seq<int>>,
    found: Seq<VertexId>,
    n: VertexId,
    code: Seq<int>,
)
    requires
        rising_codes(codes, found),
        forall|a: int| 0 <= a < found.len() ==> #[trigger] found[a] != n && precedes(codes[found[a]], code),
    ensures
        rising_codes(codes.insert(n, code), found.push(n)),
        rising_codes(codes.insert(n, code), found),
{
    let f = found.push(n);
    let c2 = codes.insert(n, code);
    assert forall|a: int, b: int| 0 <= a < b < f.len() implies precedes(
        c2[#[trigger] f[a]],
        c2[#[trigger] f[b]],
    ) by {
        assert(f[a] == found[a]);
        if b < found.len() {
            assert(f[b] == found[b]);
        }
    }
}

/// The path that the records describe for a recorded vertex, from the
/// start vertex to it.
pub open spec fn tree_path(m: Map<VertexId, VisitedRecord>, v: VertexId) -> Seq<VertexId> {
    recorded_chain(m, v).unwrap().reverse()
}

/// The chain of a vertex does not depend on the fuel, once there is enough.
proof fn lemma_chain_fuel(
    g: Graph,
    start: VertexId,
    m: Map<VertexId, VisitedRecord>,
    v: VertexId,
    f1: nat,
    f2: nat,
)
    requires
        is_search_tree(g, start, m),
        m.contains_key(v),
        f1 >= m[v].step,
        f2 >= m[v].step,
    ensures
        chain_from(m, v, f1) == chain_from(m, v, f2),
    decreases f1,
{
    if v != start {
        let p = m[v].predecessor.unwrap();
        lemma_chain_fuel(g, start, m, p, (f1 - 1) as nat, (f2 - 1) as nat);
    }
}

/// The code of a recorded vertex is the turns of the path that the records
/// describe for it.
pub proof fn lemma_code_is_turns(
    g: Graph,
    start: VertexId,
    m: Map<VertexId, VisitedRecord>,
    codes: Map<VertexId, Seq<int>>,
    v: VertexId,
)
    requires
        is_search_tree(g, start, m),
        codes_fit(g, start, m, codes),
        m.contains_key(v),
    ensures
        codes[v] == turns(g, tree_path(m, v)),
        is_path(g, tree_path(m, v)),
        tree_path(m, v)[0] == start,
        tree_path(m, v).last() == v,
        hops(tree_path(m, v)) == m[v].step,
    decreases m[v].step,
{
    let fuel = (m.dom().len() - 1) as nat;
    lemma_tree_chain(g, start, m, v, fuel);
    if v == start {
        assert(chain_from(m, v, fuel).unwrap() =~= seq![v]);
        assert(tree_path(m, v) =~= seq![v]);
        assert(turns(g, tree_path(m, v)) =~= Seq::<int>::empty());
    } else {
        let p = m[v].predecessor.unwrap();
        lemma_code_is_turns(g, start, m, codes, p);
        lemma_chain_fuel(g, start, m, p, fuel, (fuel - 1) as nat);
        lemma_tree_chain(g, start, m, p, fuel);
        let cp = chain_from(m, p, fuel).unwrap();
        let cv = chain_from(m, v, fuel).unwrap();
        assert(cv =~= seq![v] + cp);
        assert(tree_path(m, v) =~= tree_path(m, p).push(v));
        let tv = tree_path(m, v);
        lemma_turns_push(g, tv);
        assert(tv.drop_last() =~= tree_path(m, p));
        assert(tv[tv.len() - 2] == p);
    }
}

} // verus!
