//! Why a depth-first traversal comes to the vertices in the order of the
//! dictionary of their first simple paths.
use vstd::prelude::*;
use crate::graph_functions::bfs_order::{codes_fit, lemma_code_is_turns, tree_path};
use crate::graph_functions::dfs::{depth_state, frame_fits, on_stack, DepthNode};
use crate::graph_functions::frontier::expanded;
use crate::graph_functions::order::{
    begins, first_index, lemma_first_index, lemma_first_index_is, lemma_lex_asymmetric,
    lemma_lex_total, lemma_turns_decide, lex_before, lex_lt, parts_below, turns,
};
use crate::graph_vertex::is_first_edge_to;
use crate::model::{has_edge, hops, is_path, is_search_tree};
use crate::store::Graph;
use crate::types::VertexId;
use crate::visited::{start_record, VisitedRecord};

verus! {

/// The code that the next vertex gets, if the topmost frame finds one at
/// its next edge.
pub open spec fn border(codes: Map<VertexId, Seq<int>>, stack: Seq<DepthNode>) -> Seq<int> {
    codes[stack.last().ent].push(stack.last().neighbours_visited as int)
}

/// The codes in a depth-first traversal: they fit the records; the frames
/// are the path from the start vertex to the topmost one, each frame but the
/// topmost having looked at its edges up to the one that leads to the next
/// frame; no simple path to a recorded vertex goes before the one that the
/// records describe; and every recorded vertex that has no frame goes before
/// the border.
#[verifier::opaque]
pub open spec fn deep_state(
    g: Graph,
    start: VertexId,
    m: Map<VertexId, VisitedRecord>,
    codes: Map<VertexId, Seq<int>>,
    stack: Seq<DepthNode>,
) -> bool {
    &&& codes_fit(g, start, m, codes)
    &&& stack.len() > 0 ==> stack[0].ent == start
    &&& forall|j: int| 0 <= j < stack.len() ==> (#[trigger] stack[j]).step == j
    &&& forall|j: int|
        0 <= j < stack.len() - 1 ==> m[stack[j + 1].ent].predecessor == Some(
            (#[trigger] stack[j]).ent,
        ) && stack[j].neighbours_visited == codes[stack[j + 1].ent].last() + 1
    &&& forall|q: Seq<VertexId>|
        #[trigger] is_path(g, q) && q[0] == start && q.no_duplicates() && m.contains_key(q.last())
            ==> !lex_before(turns(g, q), codes[q.last()])
    &&& stack.len() > 0 ==> forall|v: VertexId| #[trigger]
        m.contains_key(v) && !on_stack(stack, v) ==> lex_lt(codes[v], border(codes, stack))
}

/// A traversal begins with the empty code for the start vertex.
pub proof fn lemma_deep_start(
    g: Graph,
    start: VertexId,
    m: Map<VertexId, VisitedRecord>,
    frame: DepthNode,
)
    requires
        g.contains_key(start),
        m == Map::<VertexId, VisitedRecord>::empty().insert(start, start_record()),
        frame.ent == start,
        frame.step == 0,
    ensures
        deep_state(
            g,
            start,
            m,
            Map::<VertexId, Seq<int>>::empty().insert(start, Seq::<int>::empty()),
            seq![frame],
        ),
{
    reveal(deep_state);
    let codes = Map::<VertexId, Seq<int>>::empty().insert(start, Seq::<int>::empty());
    let stack = seq![frame];
    assert(codes.dom() =~= m.dom());
    assert(stack[0].ent == start);
    assert forall|v: VertexId| #[trigger] m.contains_key(v) && !on_stack(stack, v) implies lex_lt(
        codes[v],
        border(codes, stack),
    ) by {
        assert(on_stack(stack, start));
    }
}

/// The turns of a path up to one of its vertices are the first turns of
/// the path; the path up to there is a path, and simple where the path is.
pub proof fn lemma_turns_prefix(g: Graph, q: Seq<VertexId>, k: int)
    requires
        is_path(g, q),
        0 <= k < q.len(),
    ensures
        is_path(g, q.subrange(0, k + 1)),
        q.subrange(0, k + 1)[0] == q[0],
        q.subrange(0, k + 1).last() == q[k],
        turns(g, q.subrange(0, k + 1)) == turns(g, q).subrange(0, k),
        q.no_duplicates() ==> q.subrange(0, k + 1).no_duplicates(),
{
    let p = q.subrange(0, k + 1);
    assert forall|i: int| 0 <= i < p.len() - 1 implies has_edge(g, #[trigger] p[i], p[i + 1]) by {
        assert(p[i] == q[i]);
        assert(p[i + 1] == q[i + 1]);
    }
    assert(turns(g, p) =~= turns(g, q).subrange(0, k)) by {
        assert(turns(g, p).len() == k);
        assert forall|i: int| 0 <= i < k implies turns(g, p)[i] == turns(g, q).subrange(0, k)[i] by {
            assert(p[i] == q[i]);
            assert(p[i + 1] == q[i + 1]);
        }
    }
    if q.no_duplicates() {
        assert forall|a: int, b: int| 0 <= a < p.len() && 0 <= b < p.len() && a != b implies p[a]
            != p[b] by {
            assert(p[a] == q[a]);
            assert(p[b] == q[b]);
        }
    }
}

/// The codes of the frames are the beginnings of the border, and the
/// border holds, for each frame but the topmost, the turn that leads to the
/// next frame.
pub proof fn lemma_stack_prefix(
    g: Graph,
    start: VertexId,
    m: Map<VertexId, VisitedRecord>,
    codes: Map<VertexId, Seq<int>>,
    stack: Seq<DepthNode>,
    j: int,
)
    requires
        depth_state(g, start, m, stack),
        deep_state(g, start, m, codes, stack),
        0 <= j < stack.len(),
    ensures
        border(codes, stack).len() == stack.len(),
        codes[stack[j].ent] == border(codes, stack).subrange(0, j),
        j < stack.len() - 1 ==> border(codes, stack)[j] == stack[j].neighbours_visited - 1,
        j == stack.len() - 1 ==> border(codes, stack)[j] == stack[j].neighbours_visited,
        m.contains_key(stack[j].ent),
    decreases stack.len() - j,
{
    reveal(deep_state);
    reveal(depth_state);
    let b = border(codes, stack);
    let top = stack.len() - 1;
    assert(frame_fits(g, m, stack[top]));
    assert(frame_fits(g, m, stack[j]));
    assert(codes[stack[top].ent].len() == top);
    if j == top {
        assert(codes[stack[j].ent] =~= b.subrange(0, j));
    } else {
        lemma_stack_prefix(g, start, m, codes, stack, j + 1);
        let child = stack[j + 1].ent;
        assert(frame_fits(g, m, stack[j + 1]));
        assert(child != start) by {
            assert(m[child].step == j + 1);
        }
        let t = first_index(g[stack[j].ent], child);
        assert(codes[child] == codes[stack[j].ent].push(t));
        assert(codes[child] == b.subrange(0, j + 1));
        assert(codes[stack[j].ent] =~= b.subrange(0, j)) by {
            assert forall|i: int| 0 <= i < j implies codes[stack[j].ent][i] == b[i] by {
                assert(codes[child][i] == codes[stack[j].ent][i]);
                assert(b.subrange(0, j + 1)[i] == b[i]);
            }
            assert(codes[stack[j].ent].len() == j);
        }
        assert(b[j] == codes[child].last()) by {
            assert(b.subrange(0, j + 1)[j] == b[j]);
        }
    }
}

/// Along a path from a recorded vertex on which no frame is left by an
/// edge beyond those it looked at, every vertex is recorded.
proof fn lemma_deep_along(
    g: Graph,
    start: VertexId,
    m: Map<VertexId, VisitedRecord>,
    stack: Seq<DepthNode>,
    q: Seq<VertexId>,
    p: int,
)
    requires
        depth_state(g, start, m, stack),
        is_path(g, q),
        0 <= p < q.len(),
        m.contains_key(q[p]),
        forall|p1: int, j: int|
            p <= p1 < q.len() - 1 && 0 <= j < stack.len() && #[trigger] q[p1] == (
            #[trigger] stack[j]).ent ==> first_index(g[q[p1]], q[p1 + 1])
                < stack[j].neighbours_visited,
    ensures
        m.contains_key(q.last()),
    decreases q.len() - p,
{
    reveal(depth_state);
    if p < q.len() - 1 {
        let x = q[p];
        let y = q[p + 1];
        assert(has_edge(g, x, y));
        lemma_first_index(g[x], y);
        let e = first_index(g[x], y);
        if on_stack(stack, x) {
            let j = choose|j: int| 0 <= j < stack.len() && (#[trigger] stack[j]).ent == x;
            assert(frame_fits(g, m, stack[j]));
            assert(q[p] == stack[j].ent);
            assert(e < stack[j].neighbours_visited);
            assert(g.contains_key(g[x][e].0));
        } else {
            assert(expanded(g, m, x));
            assert(g.contains_key(g[x][e].0));
        }
        lemma_deep_along(g, start, m, stack, q, p + 1);
    }
}

/// A path from the start vertex to a vertex that is not recorded leaves a
/// frame by an edge that the frame has not looked at yet.
proof fn lemma_deep_exit(
    g: Graph,
    start: VertexId,
    m: Map<VertexId, VisitedRecord>,
    stack: Seq<DepthNode>,
    q: Seq<VertexId>,
)
    requires
        depth_state(g, start, m, stack),
        is_path(g, q),
        q[0] == start,
        !m.contains_key(q.last()),
    ensures
        exists|p: int, j: int|
            0 <= p < q.len() - 1 && 0 <= j < stack.len() && #[trigger] q[p] == (
            #[trigger] stack[j]).ent && first_index(g[q[p]], q[p + 1])
                >= stack[j].neighbours_visited,
{
    if !(exists|p: int, j: int|
        0 <= p < q.len() - 1 && 0 <= j < stack.len() && #[trigger] q[p] == (#[trigger] stack[j]).ent
            && first_index(g[q[p]], q[p + 1]) >= stack[j].neighbours_visited) {
        assert(m.contains_key(q[0])) by {
            reveal(depth_state);
        }
        lemma_deep_along(g, start, m, stack, q, 0);
    }
}

/// Every simple path from the start vertex that goes before the border
/// ends at a recorded vertex.
pub proof fn lemma_deep_reach(
    g: Graph,
    start: VertexId,
    m: Map<VertexId, VisitedRecord>,
    codes: Map<VertexId, Seq<int>>,
    stack: Seq<DepthNode>,
    q: Seq<VertexId>,
)
    requires
        depth_state(g, start, m, stack),
        deep_state(g, start, m, codes, stack),
        stack.len() > 0,
        is_path(g, q),
        q[0] == start,
        q.no_duplicates(),
        lex_before(turns(g, q), border(codes, stack)),
    ensures
        m.contains_key(q.last()),
{
    if !m.contains_key(q.last()) {
        lemma_deep_exit(g, start, m, stack, q);
        let (p, j) = choose|p: int, j: int|
            0 <= p < q.len() - 1 && 0 <= j < stack.len() && #[trigger] q[p] == (
            #[trigger] stack[j]).ent && first_index(g[q[p]], q[p + 1])
                >= stack[j].neighbours_visited;
        let b = border(codes, stack);
        let tq = turns(g, q);
        let e = first_index(g[q[p]], q[p + 1]);
        let f = stack[j].ent;
        lemma_stack_prefix(g, start, m, codes, stack, j);
        let c = codes[f];
        lemma_turns_prefix(g, q, p);
        let pre = q.subrange(0, p + 1);
        let a = turns(g, pre);
        assert(tq.len() == hops(q));
        assert(tq[p] == e);
        assert(!lex_before(a, c)) by {
            reveal(deep_state);
        }
        lemma_lex_total(a, c);
        lemma_lex_asymmetric(tq, b);
        if a == c {
            assert(p == j);
            assert forall|i: int| 0 <= i < j implies b[i] == tq[i] by {
                assert(b.subrange(0, j)[i] == b[i]);
                assert(tq.subrange(0, p)[i] == tq[i]);
            }
            if b[j] < e {
                assert(parts_below(b, tq, j));
            } else {
                assert(b[j] == e);
                assert(j == stack.len() - 1);
                if tq.len() == b.len() {
                    assert(tq =~= b);
                } else {
                    assert(begins(b, tq));
                }
            }
        } else {
            assert(lex_before(c, a));
            if begins(c, a) {
                // the path passes the vertex of the frame at j already, and again at p
                assert(j < p);
                lemma_turns_prefix(g, q, j);
                let early = q.subrange(0, j + 1);
                assert(turns(g, early) =~= c) by {
                    assert forall|i: int| 0 <= i < j implies turns(g, early)[i] == c[i] by {
                        assert(tq.subrange(0, j)[i] == tq[i]);
                        assert(tq.subrange(0, p)[i] == tq[i]);
                    }
                }
                assert(is_search_tree(g, start, m) && codes_fit(g, start, m, codes)) by {
                    reveal(deep_state);
                    reveal(depth_state);
                }
                lemma_code_is_turns(g, start, m, codes, f);
                lemma_turns_decide(g, early, tree_path(m, f));
                assert(early.last() == f);
                assert(q[j] == f);
                assert(q[p] == f);
            } else {
                let d = choose|d: int| #[trigger] parts_below(c, a, d);
                assert(b.subrange(0, j)[d] == b[d]);
                assert(tq.subrange(0, p)[d] == tq[d]);
                assert forall|i: int| 0 <= i < d implies b[i] == tq[i] by {
                    assert(b.subrange(0, j)[i] == b[i]);
                    assert(tq.subrange(0, p)[i] == tq[i]);
                }
                assert(parts_below(b, tq, d));
            }
        }
    }
}

/// The topmost frame looks at one more edge without recording a vertex.
pub proof fn lemma_deep_skip(
    g: Graph,
    start: VertexId,
    m: Map<VertexId, VisitedRecord>,
    codes: Map<VertexId, Seq<int>>,
    stack: Seq<DepthNode>,
    advanced: DepthNode,
)
    requires
        depth_state(g, start, m, stack),
        deep_state(g, start, m, codes, stack),
        stack.len() > 0,
        advanced.ent == stack.last().ent,
        advanced.step == stack.last().step,
        advanced.neighbours_visited == stack.last().neighbours_visited + 1,
    ensures
        deep_state(g, start, m, codes, stack.drop_last().push(advanced)),
{
    reveal(deep_state);
    let next = stack.drop_last().push(advanced);
    let top = stack.len() - 1;
    assert forall|j: int| 0 <= j < next.len() implies (#[trigger] next[j]).step == j by {
        if j < top {
            assert(next[j] == stack[j]);
        }
    }
    assert forall|j: int| 0 <= j < next.len() - 1 implies m[next[j + 1].ent].predecessor == Some(
        (#[trigger] next[j]).ent,
    ) && next[j].neighbours_visited == codes[next[j + 1].ent].last() + 1 by {
        assert(next[j] == stack[j]);
        assert(next[j + 1].ent == stack[j + 1].ent);
    }
    assert(next[0].ent == stack[0].ent);
    assert forall|v: VertexId| on_stack(next, v) <==> on_stack(stack, v) by {
        if on_stack(next, v) {
            let k = choose|k: int| 0 <= k < next.len() && (#[trigger] next[k]).ent == v;
            assert(stack[k].ent == v);
        }
        if on_stack(stack, v) {
            let k = choose|k: int| 0 <= k < stack.len() && (#[trigger] stack[k]).ent == v;
            assert(next[k].ent == v);
        }
    }
    let b = border(codes, stack);
    let b2 = border(codes, next);
    assert forall|v: VertexId| #[trigger] m.contains_key(v) && !on_stack(next, v) implies lex_lt(
        codes[v],
        b2,
    ) by {
        assert(lex_lt(codes[v], b));
        let k = choose|k: int| #[trigger] parts_below(codes[v], b, k);
        assert(parts_below(codes[v], b2, k));
    }
}

/// The topmost frame has looked at all its edges and leaves the stack.
pub proof fn lemma_deep_drop(
    g: Graph,
    start: VertexId,
    m: Map<VertexId, VisitedRecord>,
    codes: Map<VertexId, Seq<int>>,
    stack: Seq<DepthNode>,
)
    requires
        depth_state(g, start, m, stack),
        deep_state(g, start, m, codes, stack),
        stack.len() > 0,
    ensures
        deep_state(g, start, m, codes, stack.drop_last()),
{
    let rest = stack.drop_last();
    let top = stack.len() - 1;
    if rest.len() > 0 {
        lemma_stack_prefix(g, start, m, codes, stack, top);
        lemma_stack_prefix(g, start, m, codes, stack, top - 1);
    }
    reveal(deep_state);
    assert forall|j: int| 0 <= j < rest.len() implies (#[trigger] rest[j]).step == j by {
        assert(rest[j] == stack[j]);
    }
    assert forall|j: int| 0 <= j < rest.len() - 1 implies m[rest[j + 1].ent].predecessor == Some(
        (#[trigger] rest[j]).ent,
    ) && rest[j].neighbours_visited == codes[rest[j + 1].ent].last() + 1 by {
        assert(rest[j] == stack[j]);
        assert(rest[j + 1] == stack[j + 1]);
    }
    if rest.len() > 0 {
        assert(rest[0] == stack[0]);
        let b = border(codes, stack);
        let b2 = border(codes, rest);
        let f = stack[top].ent;
        let parent = stack[top - 1];
        assert(rest.last() == parent);
        assert(b2.len() == top);
        assert(codes[parent.ent] == b.subrange(0, top - 1));
        assert(b2[top - 1] == parent.neighbours_visited);
        assert(b[top - 1] == parent.neighbours_visited - 1);
        assert forall|i: int| 0 <= i < top - 1 implies b2[i] == b[i] by {
            assert(b.subrange(0, top - 1)[i] == b[i]);
        }
        assert forall|v: VertexId| #[trigger] m.contains_key(v) && !on_stack(rest, v) implies lex_lt(
            codes[v],
            b2,
        ) by {
            if v == f {
                assert(codes[f] == b.subrange(0, top));
                assert(codes[f][top - 1] == b[top - 1]) by {
                    assert(b.subrange(0, top)[top - 1] == b[top - 1]);
                }
                assert forall|i: int| 0 <= i < top - 1 implies codes[f][i] == b2[i] by {
                    assert(b.subrange(0, top)[i] == b[i]);
                }
                assert(parts_below(codes[f], b2, top - 1));
            } else {
                assert(!on_stack(stack, v)) by {
                    if on_stack(stack, v) {
                        let k = choose|k: int| 0 <= k < stack.len() && (#[trigger] stack[k]).ent == v;
                        assert(rest[k].ent == v);
                    }
                }
                assert(lex_lt(codes[v], b));
                let k = choose|k: int| #[trigger] parts_below(codes[v], b, k);
                if k < top - 1 {
                    assert(parts_below(codes[v], b2, k));
                } else if k == top - 1 {
                    assert(parts_below(codes[v], b2, top - 1));
                } else {
                    assert(codes[v][top - 1] == b[top - 1]);
                    assert(parts_below(codes[v], b2, top - 1));
                }
            }
        }
    }
}

/// The topmost frame finds a vertex that was not recorded at its next
/// edge: the vertex gets the border for its code and a frame of its own, and
/// every vertex recorded before goes before it.
pub proof fn lemma_deep_discover(
    g: Graph,
    start: VertexId,
    before: Map<VertexId, VisitedRecord>,
    codes: Map<VertexId, Seq<int>>,
    stack: Seq<DepthNode>,
    advanced: DepthNode,
    fresh: DepthNode,
    record: VisitedRecord,
)
    requires
        depth_state(g, start, before, stack),
        deep_state(g, start, before, codes, stack),
        stack.len() > 0,
        stack.last().neighbours_visited < stack.last().neighbours@.len(),
        advanced.ent == stack.last().ent,
        advanced.step == stack.last().step,
        advanced.neighbours_visited == stack.last().neighbours_visited + 1,
        fresh.ent == stack.last().neighbours@[stack.last().neighbours_visited as int],
        !before.contains_key(fresh.ent),
        g.contains_key(fresh.ent),
        fresh.neighbours_visited == 0,
        fresh.step == stack.last().step + 1,
        record.predecessor == Some(stack.last().ent),
        record.step == fresh.step,
    ensures
        deep_state(
            g,
            start,
            before.insert(fresh.ent, record),
            codes.insert(fresh.ent, border(codes, stack)),
            stack.drop_last().push(advanced).push(fresh),
        ),
        forall|v: VertexId| #[trigger]
            before.contains_key(v) ==> lex_before(codes[v], border(codes, stack)),
        forall|q: Seq<VertexId>|
            #[trigger] is_path(g, q) && q[0] == start && q.no_duplicates() && lex_before(
                turns(g, q),
                border(codes, stack),
            ) ==> before.contains_key(q.last()),
{
    let top = stack.len() - 1;
    let u = stack[top].ent;
    let i = stack[top].neighbours_visited as int;
    let n = fresh.ent;
    let b = border(codes, stack);
    let m = before.insert(n, record);
    let codes2 = codes.insert(n, b);
    let next = stack.drop_last().push(advanced).push(fresh);
    assert forall|q: Seq<VertexId>|
        #[trigger] is_path(g, q) && q[0] == start && q.no_duplicates() && lex_before(
            turns(g, q),
            b,
        ) implies before.contains_key(q.last()) by {
        lemma_deep_reach(g, start, before, codes, stack, q);
    }
    lemma_stack_prefix(g, start, before, codes, stack, top);
    assert forall|v: VertexId| #[trigger] before.contains_key(v) implies lex_before(codes[v], b) by {
        if on_stack(stack, v) {
            let j = choose|j: int| 0 <= j < stack.len() && (#[trigger] stack[j]).ent == v;
            lemma_stack_prefix(g, start, before, codes, stack, j);
            assert forall|k: int| 0 <= k < codes[v].len() implies codes[v][k] == b[k] by {
                assert(b.subrange(0, j)[k] == b[k]);
            }
            assert(begins(codes[v], b));
        } else {
            reveal(deep_state);
        }
    }
    reveal(deep_state);
    reveal(depth_state);
    assert(frame_fits(g, before, stack[top]));
    assert(g[u][i].0 == n);
    assert(is_first_edge_to(g[u], n, i)) by {
        assert forall|j: int| 0 <= j < i implies (#[trigger] g[u][j]).0 != n by {
            if g[u][j].0 == n {
                assert(before.contains_key(g[u][j].0));
            }
        }
    }
    lemma_first_index_is(g[u], n, i);
    assert(codes2.dom() =~= m.dom());
    assert(n != start && n != u);
    assert(codes_fit(g, start, m, codes2)) by {
        assert forall|v: VertexId| #[trigger] m.contains_key(v) && v != start implies codes2[v]
            == codes2[m[v].predecessor.unwrap()].push(
            first_index(g[m[v].predecessor.unwrap()], v),
        ) by {
            if v != n {
                assert(before.contains_key(v));
                assert(before.contains_key(before[v].predecessor.unwrap()));
            }
        }
        assert forall|v: VertexId| #[trigger] m.contains_key(v) implies codes2[v].len()
            == m[v].step by {
            if v != n {
                assert(before.contains_key(v));
            }
        }
    }
    assert forall|j: int| 0 <= j < next.len() implies (#[trigger] next[j]).step == j by {
        if j < top {
            assert(next[j] == stack[j]);
        }
    }
    assert forall|j: int| 0 <= j < next.len() - 1 implies m[next[j + 1].ent].predecessor == Some(
        (#[trigger] next[j]).ent,
    ) && next[j].neighbours_visited == codes2[next[j + 1].ent].last() + 1 by {
        if j < top {
            assert(next[j] == stack[j]);
            assert(next[j + 1].ent == stack[j + 1].ent);
            assert(frame_fits(g, before, stack[j + 1]));
        }
    }
    assert(next[0].ent == stack[0].ent);
    assert forall|q: Seq<VertexId>|
        #[trigger] is_path(g, q) && q[0] == start && q.no_duplicates() && m.contains_key(
            q.last(),
        ) implies !lex_before(turns(g, q), codes2[q.last()]) by {
        if q.last() != n {
            assert(before.contains_key(q.last()));
        }
    }
    let b2 = border(codes2, next);
    assert(b2 == b.push(0));
    assert forall|v: VertexId| #[trigger] m.contains_key(v) && !on_stack(next, v) implies lex_lt(
        codes2[v],
        b2,
    ) by {
        assert(next[next.len() - 1].ent == n);
        assert(v != n);
        assert(!on_stack(stack, v)) by {
            if on_stack(stack, v) {
                let k = choose|k: int| 0 <= k < stack.len() && (#[trigger] stack[k]).ent == v;
                assert(next[k].ent == v);
            }
        }
        assert(before.contains_key(v));
        assert(lex_lt(codes[v], b));
        let k = choose|k: int| #[trigger] parts_below(codes[v], b, k);
        assert(parts_below(codes2[v], b2, k));
    }
}

/// The path that the records describe for a recorded vertex passes no
/// vertex twice.
pub proof fn lemma_tree_path_simple(
    g: Graph,
    start: VertexId,
    m: Map<VertexId, VisitedRecord>,
    codes: Map<VertexId, Seq<int>>,
    v: VertexId,
)
    requires
        is_search_tree(g, start, m),
        codes_fit(g, start, m, codes),
        m.contains_key(v),
    ensures
        tree_path(m, v).no_duplicates(),
        forall|i: int| 0 <= i < tree_path(m, v).len() ==> m.contains_key(#[trigger] tree_path(m, v)[i])
            && m[tree_path(m, v)[i]].step == i,
    decreases m[v].step,
{
    lemma_code_is_turns(g, start, m, codes, v);
    let t = tree_path(m, v);
    if v == start {
        assert(t.len() == 1);
    } else {
        let p = m[v].predecessor.unwrap();
        lemma_tree_path_simple(g, start, m, codes, p);
        lemma_code_is_turns(g, start, m, codes, p);
        lemma_tree_path_extends(g, start, m, v);
        let tp = tree_path(m, p);
        assert forall|i: int| 0 <= i < t.len() implies m.contains_key(#[trigger] t[i]) && m[t[i]].step
            == i by {
            if i < tp.len() {
                assert(t[i] == tp[i]);
            }
        }
    }
}

/// The path that the records describe for a vertex is the path for its
/// predecessor and the vertex itself.
pub proof fn lemma_tree_path_extends(
    g: Graph,
    start: VertexId,
    m: Map<VertexId, VisitedRecord>,
    v: VertexId,
)
    requires
        is_search_tree(g, start, m),
        m.contains_key(v),
        v != start,
    ensures
        tree_path(m, v) == tree_path(m, m[v].predecessor.unwrap()).push(v),
{
    let fuel = (m.dom().len() - 1) as nat;
    let p = m[v].predecessor.unwrap();
    crate::model::lemma_tree_chain(g, start, m, v, fuel);
    crate::model::lemma_tree_chain(g, start, m, p, fuel);
    crate::model::lemma_tree_chain(g, start, m, p, (fuel - 1) as nat);
    lemma_same_chain(g, start, m, p, fuel, (fuel - 1) as nat);
    let cp = crate::visited::chain_from(m, p, fuel).unwrap();
    let cv = crate::visited::chain_from(m, v, fuel).unwrap();
    assert(cv =~= seq![v] + cp);
    assert(tree_path(m, v) =~= tree_path(m, p).push(v));
}

/// The chain of a vertex does not depend on the fuel, once there is enough.
proof fn lemma_same_chain(
    g: Graph,
    start: VertexId,
    m: Map<VertexId, VisitedRecord>,
    v: VertexId,
    f1: nat,
    f2: nat,
)
    requires
        is_search_tree(g, start, m),
        m.contains_key(v),
        f1 >= m[v].step,
        f2 >= m[v].step,
    ensures
        crate::visited::chain_from(m, v, f1) == crate::visited::chain_from(m, v, f2),
    decreases f1,
{
    if v != start {
        let p = m[v].predecessor.unwrap();
        lemma_same_chain(g, start, m, p, (f1 - 1) as nat, (f2 - 1) as nat);
    }
}

} // verus!
