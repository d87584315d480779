//! The order in which a breadth-first search comes to the vertices: paths
//! of fewer edges first, and among paths of equally many edges the one that
//! takes the earlier edge where they first part.
use vstd::prelude::*;
use crate::graph_vertex::{has_edge_to, is_first_edge_to};
use crate::model::{hops, is_path, lemma_path_drop_last};
use crate::store::Graph;
use crate::types::{Edge, VertexId};

verus! {

/// The position of the first edge to `target` among `edges`.
pub open spec fn first_index(edges: Seq<Edge>, target: VertexId) -> int {
    choose|k: int| is_first_edge_to(edges, target, k)
}

/// The turns of a path: for each of its edges, the position of the first
/// edge that leads from its vertex to the next one.
pub open spec fn turns(g: Graph, p: Seq<VertexId>) -> Seq<int> {
    Seq::new(hops(p), |i: int| first_index(g[p[i]], p[i + 1]))
}

/// `a` and `b` agree before position `k`, and there `a` is less.
pub open spec fn parts_below(a: Seq<int>, b: Seq<int>, k: int) -> bool {
    &&& 0 <= k < a.len()
    &&& k < b.len()
    &&& a[k] < b[k]
    &&& forall|j: int| 0 <= j < k ==> a[j] == b[j]
}

/// `a` comes before `b` in the order of the dictionary.
pub open spec fn lex_lt(a: Seq<int>, b: Seq<int>) -> bool {
    exists|k: int| #[trigger] parts_below(a, b, k)
}

/// `a` comes before `b`: it is shorter, or as long and before `b` in the
/// order of the dictionary.
pub open spec fn precedes(a: Seq<int>, b: Seq<int>) -> bool {
    a.len() < b.len() || (a.len() == b.len() && lex_lt(a, b))
}

/// The path `q` comes before the path `p`: it has fewer edges, or as many
/// and takes the earlier edge where the two first part.
pub open spec fn comes_before(g: Graph, q: Seq<VertexId>, p: Seq<VertexId>) -> bool {
    precedes(turns(g, q), turns(g, p))
}

/// Where an edge leads to `target`, the first such edge is found.
pub proof fn lemma_first_index(edges: Seq<Edge>, target: VertexId)
    requires
        has_edge_to(edges, target),
    ensures
        is_first_edge_to(edges, target, first_index(edges, target)),
{
    let some = choose|i: int| 0 <= i < edges.len() && (#[trigger] edges[i]).0 == target;
    lemma_first_below(edges, target, some);
}

/// Below any edge to `target` there is a first one.
proof fn lemma_first_below(edges: Seq<Edge>, target: VertexId, i: int)
    requires
        0 <= i < edges.len(),
        edges[i].0 == target,
    ensures
        exists|k: int| 0 <= k <= i && is_first_edge_to(edges, target, k),
    decreases i,
{
    if exists|j: int| 0 <= j < i && (#[trigger] edges[j]).0 == target {
        let j = choose|j: int| 0 <= j < i && (#[trigger] edges[j]).0 == target;
        lemma_first_below(edges, target, j);
    } else {
        assert(is_first_edge_to(edges, target, i));
    }
}

/// The first edge to a target is at one position only.
pub proof fn lemma_first_index_is(edges: Seq<Edge>, target: VertexId, k: int)
    requires
        is_first_edge_to(edges, target, k),
    ensures
        first_index(edges, target) == k,
{
    let f = first_index(edges, target);
    assert(is_first_edge_to(edges, target, f));
    if f < k {
        assert(edges[f].0 != target);
    }
    if k < f {
        assert(edges[k].0 != target);
    }
}

/// The turns of a path are those of the path without its last vertex,
/// and the turn of its last edge.
pub proof fn lemma_turns_push(g: Graph, p: Seq<VertexId>)
    requires
        p.len() >= 2,
    ensures
        turns(g, p) == turns(g, p.drop_last()).push(
            first_index(g[p[p.len() - 2]], p[p.len() - 1]),
        ),
{
    let q = p.drop_last();
    let t = turns(g, q).push(first_index(g[p[p.len() - 2]], p[p.len() - 1]));
    assert(turns(g, p).len() == t.len());
    assert forall|i: int| 0 <= i < t.len() implies turns(g, p)[i] == t[i] by {
        if i < q.len() - 1 {
            assert(q[i] == p[i]);
            assert(q[i + 1] == p[i + 1]);
        }
    }
    assert(turns(g, p) =~= t);
}

/// No sequence comes before itself.
pub proof fn lemma_precedes_irreflexive(a: Seq<int>)
    ensures
        !precedes(a, a),
{
    if lex_lt(a, a) {
        let k = choose|k: int| #[trigger] parts_below(a, a, k);
    }
}

/// The order is transitive.
pub proof fn lemma_precedes_transitive(a: Seq<int>, b: Seq<int>, c: Seq<int>)
    requires
        precedes(a, b),
        precedes(b, c),
    ensures
        precedes(a, c),
{
    if a.len() == b.len() && b.len() == c.len() {
        let k = choose|k: int| #[trigger] parts_below(a, b, k);
        let l = choose|l: int| #[trigger] parts_below(b, c, l);
        if k <= l {
            assert(parts_below(a, c, k));
        } else {
            assert(parts_below(a, c, l));
        }
    }
}

/// Of two sequences of equal length one comes before the other, or they
/// are the same.
pub proof fn lemma_precedes_total(a: Seq<int>, b: Seq<int>)
    requires
        a.len() == b.len(),
    ensures
        precedes(a, b) || precedes(b, a) || a == b,
    decreases a.len(),
{
    if a.len() > 0 {
        let a1 = a.drop_last();
        let b1 = b.drop_last();
        lemma_precedes_total(a1, b1);
        if precedes(a1, b1) {
            let k = choose|k: int| #[trigger] parts_below(a1, b1, k);
            assert(a1[k] == a[k] && b1[k] == b[k]);
            assert forall|j: int| 0 <= j < k implies a[j] == b[j] by {
                assert(a1[j] == b1[j]);
            }
            assert(parts_below(a, b, k));
        } else if precedes(b1, a1) {
            let k = choose|k: int| #[trigger] parts_below(b1, a1, k);
            assert(a1[k] == a[k] && b1[k] == b[k]);
            assert forall|j: int| 0 <= j < k implies b[j] == a[j] by {
                assert(a1[j] == b1[j]);
            }
            assert(parts_below(b, a, k));
        } else {
            let n = a.len() - 1;
            assert forall|j: int| 0 <= j < n implies a[j] == b[j] by {
                assert(a1[j] == b1[j]);
            }
            if a[n] < b[n] {
                assert(parts_below(a, b, n));
            } else if b[n] < a[n] {
                assert(parts_below(b, a, n));
            } else {
                assert(a =~= b);
            }
        }
    } else {
        assert(a =~= b);
    }
}

/// A sequence that comes before another still does so when both are
/// extended.
pub proof fn lemma_precedes_extended(a: Seq<int>, b: Seq<int>, x: int, y: int)
    requires
        a.len() == b.len(),
        precedes(a, b),
    ensures
        precedes(a.push(x), b.push(y)),
{
    let k = choose|k: int| #[trigger] parts_below(a, b, k);
    assert(parts_below(a.push(x), b.push(y), k));
}

/// Of two extensions of one sequence the one with the lesser last element
/// comes first.
pub proof fn lemma_precedes_last(a: Seq<int>, x: int, y: int)
    requires
        x < y,
    ensures
        precedes(a.push(x), a.push(y)),
{
    assert(parts_below(a.push(x), a.push(y), a.len() as int));
}

/// Where an extended sequence comes before another of the same length,
/// the sequences without their last elements stand in the same order, or
/// are the same and the last elements decide.
pub proof fn lemma_precedes_split(a: Seq<int>, b: Seq<int>, x: int, y: int)
    requires
        a.len() == b.len(),
        precedes(a.push(x), b.push(y)),
    ensures
        precedes(a, b) || (a == b && x < y),
{
    let k = choose|k: int| #[trigger] parts_below(a.push(x), b.push(y), k);
    if k < a.len() {
        assert forall|j: int| 0 <= j < k implies a[j] == b[j] by {
            assert(a.push(x)[j] == b.push(y)[j]);
        }
        assert(a.push(x)[k] == a[k]);
        assert(b.push(y)[k] == b[k]);
        assert(parts_below(a, b, k));
    } else {
        assert forall|j: int| 0 <= j < a.len() implies a[j] == b[j] by {
            assert(a.push(x)[j] == b.push(y)[j]);
        }
        assert(a =~= b);
        assert(a.push(x)[k] == x);
        assert(b.push(y)[k] == y);
    }
}

/// Two paths from the same vertex with the same turns are the same path.
pub proof fn lemma_turns_decide(g: Graph, p: Seq<VertexId>, q: Seq<VertexId>)
    requires
        is_path(g, p),
        is_path(g, q),
        p[0] == q[0],
        turns(g, p) == turns(g, q),
    ensures
        p == q,
    decreases p.len(),
{
    assert(turns(g, p).len() == hops(p));
    assert(turns(g, q).len() == hops(q));
    assert(p.len() == q.len());
    if p.len() >= 2 {
        let p1 = p.drop_last();
        let q1 = q.drop_last();
        lemma_path_drop_last(g, p);
        lemma_path_drop_last(g, q);
        lemma_turns_push(g, p);
        lemma_turns_push(g, q);
        let tp = turns(g, p1);
        let tq = turns(g, q1);
        let xp = first_index(g[p[p.len() - 2]], p[p.len() - 1]);
        let xq = first_index(g[q[q.len() - 2]], q[q.len() - 1]);
        assert(tp.push(xp) == tq.push(xq));
        assert(tp.len() == tq.len());
        assert(tp =~= tq) by {
            assert forall|j: int| 0 <= j < tp.len() implies tp[j] == tq[j] by {
                assert(tp.push(xp)[j] == tp[j]);
                assert(tq.push(xq)[j] == tq[j]);
            }
        }
        assert(xp == xq) by {
            assert(tp.push(xp)[tp.len() as int] == xp);
            assert(tq.push(xq)[tq.len() as int] == xq);
        }
        lemma_turns_decide(g, p1, q1);
        assert(p[p.len() - 2] == p1.last());
        assert(q[q.len() - 2] == q1.last());
        lemma_first_index(g[p1.last()], p.last());
        lemma_first_index(g[q1.last()], q.last());
        assert(p.last() == q.last());
        assert(p =~= p1.push(p.last()));
        assert(q =~= q1.push(q.last()));
    } else {
        assert(p =~= q);
    }
}

/// `p` is a path from `start`, and no path from `start` to the same
/// vertex comes before it.
pub open spec fn is_first_path(g: Graph, start: VertexId, p: Seq<VertexId>) -> bool {
    &&& is_path(g, p)
    &&& p[0] == start
    &&& forall|q: Seq<VertexId>|
        #[trigger] is_path(g, q) && q[0] == start && q.last() == p.last() ==> !comes_before(g, q, p)
}

/// The first of the paths from `start` to `v`.
pub open spec fn first_path(g: Graph, start: VertexId, v: VertexId) -> Seq<VertexId> {
    choose|p: Seq<VertexId>| is_first_path(g, start, p) && p.last() == v
}

/// There is one first path to a vertex at most.
pub proof fn lemma_first_path_is(g: Graph, start: VertexId, p: Seq<VertexId>)
    requires
        is_first_path(g, start, p),
    ensures
        first_path(g, start, p.last()) == p,
{
    let f = first_path(g, start, p.last());
    assert(is_first_path(g, start, f) && f.last() == p.last());
    assert(!comes_before(g, p, f));
    assert(!comes_before(g, f, p));
    assert(turns(g, p).len() == hops(p));
    assert(turns(g, f).len() == hops(f));
    lemma_precedes_total(turns(g, p), turns(g, f));
    lemma_turns_decide(g, p, f);
}

/// No path to the same vertex has fewer edges than the first path.
pub proof fn lemma_first_path_is_shortest(
    g: Graph,
    start: VertexId,
    p: Seq<VertexId>,
    q: Seq<VertexId>,
)
    requires
        is_first_path(g, start, p),
        is_path(g, q),
        q[0] == start,
        q.last() == p.last(),
    ensures
        hops(p) <= hops(q),
{
    assert(!comes_before(g, q, p));
    assert(turns(g, p).len() == hops(p));
    assert(turns(g, q).len() == hops(q));
}

/// `a` is the beginning of `b`, and `b` goes on.
pub open spec fn begins(a: Seq<int>, b: Seq<int>) -> bool {
    a.len() < b.len() && forall|j: int| 0 <= j < a.len() ==> a[j] == b[j]
}

/// `a` comes before `b` in the order of the dictionary, whatever their
/// lengths: `b` goes on from `a`, or `a` is less where the two first part.
pub open spec fn lex_before(a: Seq<int>, b: Seq<int>) -> bool {
    begins(a, b) || lex_lt(a, b)
}

/// The path `q` goes before the path `p`: `p` goes on from `q`, or `q`
/// takes the earlier edge where the two first part.
pub open spec fn goes_before(g: Graph, q: Seq<VertexId>, p: Seq<VertexId>) -> bool {
    lex_before(turns(g, q), turns(g, p))
}

/// `p` is a path from `start` that passes no vertex twice, and no such
/// path from `start` to the same vertex goes before it.
pub open spec fn is_first_simple_path(g: Graph, start: VertexId, p: Seq<VertexId>) -> bool {
    &&& is_path(g, p)
    &&& p[0] == start
    &&& p.no_duplicates()
    &&& forall|q: Seq<VertexId>|
        #[trigger] is_path(g, q) && q[0] == start && q.no_duplicates() && q.last() == p.last()
            ==> !goes_before(g, q, p)
}

/// Of two sequences, the first no longer than the second, one comes before
/// the other in the order of the dictionary, or they are the same.
proof fn lemma_lex_total_shorter(a: Seq<int>, b: Seq<int>)
    requires
        a.len() <= b.len(),
    ensures
        lex_before(a, b) || lex_before(b, a) || a == b,
{
    let b1 = b.subrange(0, a.len() as int);
    lemma_precedes_total(a, b1);
    if precedes(a, b1) {
        let k = choose|k: int| #[trigger] parts_below(a, b1, k);
        assert(b1[k] == b[k]);
        assert forall|j: int| 0 <= j < k implies a[j] == b[j] by {
            assert(b1[j] == b[j]);
        }
        assert(parts_below(a, b, k));
    } else if precedes(b1, a) {
        let k = choose|k: int| #[trigger] parts_below(b1, a, k);
        assert(b1[k] == b[k]);
        assert forall|j: int| 0 <= j < k implies b[j] == a[j] by {
            assert(b1[j] == b[j]);
        }
        assert(parts_below(b, a, k));
    } else {
        assert forall|j: int| 0 <= j < a.len() implies a[j] == b[j] by {
            assert(b1[j] == b[j]);
        }
        if a.len() == b.len() {
            assert(a =~= b);
        }
    }
}

/// Of two sequences one comes before the other in the order of the
/// dictionary, or they are the same.
pub proof fn lemma_lex_total(a: Seq<int>, b: Seq<int>)
    ensures
        lex_before(a, b) || lex_before(b, a) || a == b,
{
    if a.len() <= b.len() {
        lemma_lex_total_shorter(a, b);
    } else {
        lemma_lex_total_shorter(b, a);
    }
}

/// No sequence comes before one that comes before it.
pub proof fn lemma_lex_asymmetric(a: Seq<int>, b: Seq<int>)
    requires
        lex_before(a, b),
    ensures
        !lex_before(b, a),
        a != b,
{
    if lex_lt(b, a) {
        let l = choose|l: int| #[trigger] parts_below(b, a, l);
        if lex_lt(a, b) {
            let k = choose|k: int| #[trigger] parts_below(a, b, k);
            if k < l {
            } else if l < k {
            }
        }
    }
    if lex_lt(a, b) {
        let k = choose|k: int| #[trigger] parts_below(a, b, k);
    }
}

} // verus!
