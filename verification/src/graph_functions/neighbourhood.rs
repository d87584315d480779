//! Which vertices lie near a vertex: within a number of steps, at a number
//! of steps, or within a distance.
use vstd::prelude::*;
use crate::graph_functions::bfs::{breadth_first, lemma_tree_path_is_first};
use crate::graph_functions::bfs_order::tree_path;
use crate::graph_functions::order::{comes_before, first_path};
use crate::graph_functions::frontier::{rejects, shortest_steps, within_limit};
use crate::graph_functions::dijkstra::no_negative_edge_in_reach;
use crate::graph_functions::estimates::{allowed_estimates, bare};
use crate::graph_functions::goal::{EveryVertex, NoEstimate};
use crate::graph_functions::weighted::{best_first, rising_weights, surveyed, within_cap};
use crate::graph_vertex::GraphVertex;
use crate::model::{
    has_negative_edge, has_walk, hops, is_cheapest, is_path, is_search_tree, is_walk,
    lemma_tree_recorded_chain, lemma_tree_walk, path_between, Stop,
};
use crate::store::{Graph, VertexStore};
use crate::types::{GraphError, NoneValueResponse, PathWeight, VertexId};
use crate::visited::{recorded_chain, VisitedRecord};

verus! {

/// `v` is `d` edges from `start`: some path from `start` to `v` has `d`
/// edges and none has fewer.
pub open spec fn is_distance(g: Graph, start: VertexId, v: VertexId, d: nat) -> bool {
    &&& exists|q: Seq<VertexId>| #[trigger] path_between(g, start, v, q) && hops(q) == d
    &&& forall|q: Seq<VertexId>| #[trigger] path_between(g, start, v, q) ==> d <= hops(q)
}

/// `list` holds, once each, the vertices that paths of at most `max_steps`
/// edges from `start` reach, each with the number of edges that it is from
/// `start`, in the order of the first paths to them: nearest first, and of
/// two that are equally near the one whose path takes the earlier edge where
/// the two paths part.
pub open spec fn step_neighbourhood(
    g: Graph,
    start: VertexId,
    max_steps: nat,
    list: Seq<(VertexId, usize)>,
) -> bool {
    &&& list.len() >= 1
    &&& list[0] == (start, 0usize)
    &&& forall|i: int|
        0 <= i < list.len() ==> is_distance(g, start, (#[trigger] list[i]).0, list[i].1 as nat)
            && list[i].1 <= max_steps
    &&& forall|i: int, j: int|
        0 <= i < j < list.len() ==> (#[trigger] list[i]).0 != (#[trigger] list[j]).0 && list[i].1
            <= list[j].1 && comes_before(
            g,
            first_path(g, start, list[i].0),
            first_path(g, start, list[j].0),
        )
    &&& forall|q: Seq<VertexId>|
        #[trigger] is_path(g, q) && q[0] == start && hops(q) <= max_steps ==> exists|i: int|
            0 <= i < list.len() && (#[trigger] list[i]).0 == q.last()
}

/// In the records of a breadth-first traversal the step of a vertex is its
/// distance from the start vertex.
proof fn lemma_step_is_distance(
    g: Graph,
    start: VertexId,
    m: Map<VertexId, VisitedRecord>,
    v: VertexId,
)
    requires
        is_search_tree(g, start, m),
        shortest_steps(g, start, m),
        m.contains_key(v),
    ensures
        is_distance(g, start, v, m[v].step as nat),
        m[v].step == 0 <==> v == start,
{
    lemma_tree_recorded_chain(g, start, m, v);
    let p = recorded_chain(m, v).unwrap().reverse();
    assert(path_between(g, start, v, p) && hops(p) == m[v].step);
    assert forall|q: Seq<VertexId>| #[trigger] path_between(g, start, v, q) implies m[v].step
        <= hops(q) by {
        assert(is_path(g, q));
    }
}

/// The vertices within `max_steps` edges of `start_ent`, each with its
/// number of edges from `start_ent`: once each, in the order of the first
/// paths to them, `start_ent` itself with 0 at the head. `InvalidEntity` where `start_ent` is not in
/// the store.
pub fn within_steps<V: GraphVertex, C>(
    store: &VertexStore<V, C>,
    start_ent: VertexId,
    max_steps: usize,
) -> (r: Result<Vec<(VertexId, usize)>, GraphError>)
    ensures
        match r {
            Ok(list) => store@.contains_key(start_ent) && step_neighbourhood(
                store.graph(),
                start_ent,
                max_steps as nat,
                list@,
            ),
            Err(e) => e == GraphError::InvalidEntity && !store@.contains_key(start_ent),
        },
        max_steps == 0 && r is Ok ==> r.unwrap()@ == seq![(start_ent, 0usize)],
{
    let goal = EveryVertex;
    let traversal = match breadth_first(store, start_ent, &goal, None, Some(max_steps as u64)) {
        Ok(traversal) => traversal,
        Err(e) => {
            return Err(e);
        },
    };
    let ghost g = store.graph();
    let ghost m = traversal.visited@;
    let ghost found = traversal.found@;
    let mut list: Vec<(VertexId, usize)> = Vec::new();
    let mut i: usize = 0;
    while i < traversal.found.len()
        invariant
            m == traversal.visited@,
            found == traversal.found@,
            forall|k: int|
                0 <= k < found.len() ==> m.contains_key(#[trigger] found[k]) && m[found[k]].step
                    <= max_steps,
            i <= found.len(),
            list@.len() == i,
            forall|k: int|
                0 <= k < i ==> (#[trigger] list@[k]).0 == found[k] && list@[k].1
                    == m[found[k]].step,
        decreases traversal.found.len() - i,
    {
        let v = traversal.found[i];
        let step = match traversal.visited.get(v) {
            Some(record) => record.step,
            None => 0,
        };
        list.push((v, step as usize));
        i += 1;
    }
    proof {
        let l = list@;
        assert forall|q: Seq<VertexId>|
            #[trigger] is_path(g, q) && q[0] == start_ent && hops(q) <= max_steps implies exists|i: int|
            0 <= i < l.len() && (#[trigger] l[i]).0 == q.last() by {
            assert(within_limit(hops(q), Some(max_steps as u64)));
            assert(!rejects(store, &goal, q.last()));
            let k = choose|k: int| 0 <= k < found.len() && found[k] == q.last();
            assert(l[k].0 == q.last());
        }
        let first = seq![start_ent];
        assert(is_path(g, first) && first[0] == start_ent && hops(first) <= max_steps);
        let s = choose|k: int| 0 <= k < l.len() && (#[trigger] l[k]).0 == first.last();
        assert forall|k: int| 0 <= k < l.len() implies is_distance(
            g,
            start_ent,
            (#[trigger] l[k]).0,
            l[k].1 as nat,
        ) && l[k].1 <= max_steps && (l[k].1 == 0 <==> l[k].0 == start_ent) by {
            lemma_step_is_distance(g, start_ent, m, found[k]);
        }
        assert forall|a: int, b: int| 0 <= a < b < l.len() implies (#[trigger] l[a]).0 != (
        #[trigger] l[b]).0 && l[a].1 <= l[b].1 && comes_before(
            g,
            first_path(g, start_ent, l[a].0),
            first_path(g, start_ent, l[b].0),
        ) by {
            assert(found[a] != found[b]);
            assert(m[found[a]].step <= m[found[b]].step);
            assert(comes_before(g, tree_path(m, found[a]), tree_path(m, found[b])));
            lemma_tree_path_is_first(
                store,
                start_ent,
                &goal,
                None,
                Some(max_steps as u64),
                found,
                m,
                found[a],
            );
            lemma_tree_path_is_first(
                store,
                start_ent,
                &goal,
                None,
                Some(max_steps as u64),
                found,
                m,
                found[b],
            );
        }
        if s > 0 {
            assert(l[0].1 <= l[s].1);
        }
        assert(l[0] == (start_ent, 0usize));
        if max_steps == 0 {
            if l.len() >= 2 {
                assert(l[1].0 == start_ent);
            }
            assert(l =~= seq![(start_ent, 0usize)]);
        }
    }
    Ok(list)
}

/// The vertices exactly `steps` edges from `start_ent`, once each, in the
/// order of the first paths to them. `InvalidEntity` where `start_ent` is
/// not in the store.
pub fn at_step<V: GraphVertex, C>(
    store: &VertexStore<V, C>,
    start_ent: VertexId,
    steps: usize,
) -> (r: Result<Vec<VertexId>, GraphError>)
    ensures
        match r {
            Ok(list) => store@.contains_key(start_ent) && (forall|v: VertexId|
                list@.contains(v) <==> is_distance(store.graph(), start_ent, v, steps as nat))
                && forall|i: int, j: int|
                0 <= i < j < list@.len() ==> #[trigger] list@[i] != #[trigger] list@[j]
                    && comes_before(
                    store.graph(),
                    first_path(store.graph(), start_ent, list@[i]),
                    first_path(store.graph(), start_ent, list@[j]),
                ),
            Err(e) => e == GraphError::InvalidEntity && !store@.contains_key(start_ent),
        },
{
    let near = match within_steps(store, start_ent, steps) {
        Ok(near) => near,
        Err(e) => {
            return Err(e);
        },
    };
    let ghost g = store.graph();
    let mut list: Vec<VertexId> = Vec::new();
    let ghost mut places: Seq<int> = Seq::empty();
    let mut i: usize = 0;
    while i < near.len()
        invariant
            i <= near@.len(),
            places.len() == list@.len(),
            forall|k: int|
                0 <= k < list@.len() ==> 0 <= #[trigger] places[k] < i && near@[places[k]] == (
                    list@[k],
                    steps,
                ),
            forall|a: int, b: int|
                0 <= a < b < list@.len() ==> #[trigger] places[a] < #[trigger] places[b],
            forall|j: int|
                0 <= j < i && (#[trigger] near@[j]).1 == steps ==> list@.contains(near@[j].0),
        decreases near.len() - i,
    {
        let (v, step) = near[i];
        if step == steps {
            let ghost before = list@;
            list.push(v);
            proof {
                places = places.push(i as int);
                assert(list@[list@.len() - 1] == v);
                assert forall|j: int|
                    0 <= j < i + 1 && (#[trigger] near@[j]).1 == steps implies list@.contains(
                    near@[j].0,
                ) by {
                    if j < i {
                        let k = choose|k: int| 0 <= k < before.len() && before[k] == near@[j].0;
                        assert(list@[k] == near@[j].0);
                    }
                }
            }
        }
        i += 1;
    }
    proof {
        assert forall|v: VertexId| list@.contains(v) <==> is_distance(
            g,
            start_ent,
            v,
            steps as nat,
        ) by {
            if list@.contains(v) {
                let k = choose|k: int| 0 <= k < list@.len() && list@[k] == v;
                let j = places[k];
                assert(is_distance(g, start_ent, near@[j].0, near@[j].1 as nat));
            }
            if is_distance(g, start_ent, v, steps as nat) {
                let q = choose|q: Seq<VertexId>| #[trigger]
                    path_between(g, start_ent, v, q) && hops(q) == steps;
                assert(is_path(g, q));
                let j = choose|j: int| 0 <= j < near@.len() && (#[trigger] near@[j]).0 == q.last();
                assert(is_distance(g, start_ent, near@[j].0, near@[j].1 as nat));
                let q2 = choose|q2: Seq<VertexId>| #[trigger]
                    path_between(g, start_ent, v, q2) && hops(q2) == near@[j].1;
                assert(near@[j].1 == steps);
            }
        }
        assert forall|a: int, b: int| 0 <= a < b < list@.len() implies #[trigger] list@[a]
            != #[trigger] list@[b] && comes_before(
            g,
            first_path(g, start_ent, list@[a]),
            first_path(g, start_ent, list@[b]),
        ) by {
            assert(places[a] < places[b]);
            assert(near@[places[a]].0 != near@[places[b]].0);
        }
    }
    Ok(list)
}

/// The weight of a walk of finite weight `d` that crosses no edge of
/// unknown weight.
pub open spec fn finite_weight(d: u64) -> PathWeight {
    PathWeight { infinite_crossings: 0, finite_sum: d }
}

/// `list` holds, once each and nearest first, the vertices that walks of at
/// most `max_distance` from `start` reach, each with the least weight of a
/// walk to it; edges of unknown weight are not walked.
pub open spec fn distance_neighbourhood(
    g: Graph,
    start: VertexId,
    max_distance: u64,
    list: Seq<(VertexId, u64)>,
) -> bool {
    &&& forall|i: int|
        0 <= i < list.len() ==> has_walk(
            g,
            NoneValueResponse::Impassable,
            start,
            (#[trigger] list[i]).0,
            finite_weight(list[i].1),
        ) && is_cheapest(
            g,
            NoneValueResponse::Impassable,
            start,
            list[i].0,
            finite_weight(list[i].1),
        ) && list[i].1 <= max_distance
    &&& forall|i: int, j: int|
        0 <= i < j < list.len() ==> (#[trigger] list[i]).0 != (#[trigger] list[j]).0 && list[i].1
            <= list[j].1
    &&& forall|w: Seq<Stop>|
        #[trigger] is_walk(g, NoneValueResponse::Impassable, start, w) && w.last().1.spec_le(
            finite_weight(max_distance),
        ) ==> !has_negative_edge(g, w.last().0) && exists|i: int|
            0 <= i < list.len() && (#[trigger] list[i]).0 == w.last().0
}

/// The vertices that walks of weight at most `max_distance` from
/// `start_ent` reach, each with the least weight of a walk to it, once each
/// and nearest first. Edges of unknown weight are not walked. `InvalidEntity` where `start_ent`
/// is not in the store; `NegativeWeight` as soon as an edge of negative
/// weight is read.
pub fn within_distance<V: GraphVertex, C>(
    store: &VertexStore<V, C>,
    start_ent: VertexId,
    max_distance: u64,
) -> (r: Result<Vec<(VertexId, u64)>, GraphError>)
    ensures
        match r {
            Ok(list) => store@.contains_key(start_ent) && distance_neighbourhood(
                store.graph(),
                start_ent,
                max_distance,
                list@,
            ),
            Err(e) => match e {
                GraphError::InvalidEntity => !store@.contains_key(start_ent),
                GraphError::NegativeWeight => store@.contains_key(start_ent)
                    && !no_negative_edge_in_reach(
                    store.graph(),
                    NoneValueResponse::Impassable,
                    start_ent,
                ),
                _ => false,
            },
        },
{
    let goal = EveryVertex;
    let estimator = NoEstimate;
    let policy = NoneValueResponse::Impassable;
    let cap = PathWeight::finite(max_distance);
    let traversal = match best_first(store, start_ent, &goal, &estimator, policy, None, Some(cap)) {
        Ok(traversal) => traversal,
        Err(e) => {
            return Err(e);
        },
    };
    let ghost g = store.graph();
    let ghost m = traversal.visited@;
    let ghost found = traversal.found@;
    let ghost allowed = allowed_estimates(store, &estimator);
    assert(bare(allowed));
    let mut list: Vec<(VertexId, u64)> = Vec::new();
    let mut i: usize = 0;
    while i < traversal.found.len()
        invariant
            m == traversal.visited@,
            found == traversal.found@,
            forall|k: int| 0 <= k < found.len() ==> m.contains_key(#[trigger] found[k]),
            i <= found.len(),
            list@.len() == i,
            forall|k: int|
                0 <= k < i ==> (#[trigger] list@[k]).0 == found[k] && list@[k].1
                    == m[found[k]].weight.finite_sum,
        decreases traversal.found.len() - i,
    {
        let v = traversal.found[i];
        let distance = match traversal.visited.get(v) {
            Some(record) => record.weight.finite_sum,
            None => 0,
        };
        list.push((v, distance));
        i += 1;
    }
    proof {
        let l = list@;
        assert forall|k: int| 0 <= k < l.len() implies has_walk(
            g,
            policy,
            start_ent,
            (#[trigger] l[k]).0,
            finite_weight(l[k].1),
        ) && is_cheapest(g, policy, start_ent, l[k].0, finite_weight(l[k].1)) && l[k].1
            <= max_distance by {
            assert(m.contains_key(found[k]));
            assert(within_cap(m[found[k]].weight, Some(cap)));
            assert(m[found[k]].weight == finite_weight(l[k].1));
            lemma_tree_walk(g, policy, start_ent, m, found[k]);
        }
        assert forall|a: int, b: int| 0 <= a < b < l.len() implies (#[trigger] l[a]).0 != (
        #[trigger] l[b]).0 && l[a].1 <= l[b].1 by {
            assert(found[a] != found[b]);
            assert(rising_weights(m, found));
            assert(m[found[a]].weight.spec_le(m[found[b]].weight));
            assert(within_cap(m[found[a]].weight, Some(cap)));
            assert(within_cap(m[found[b]].weight, Some(cap)));
        }
        assert forall|w: Seq<Stop>|
            #[trigger] is_walk(g, policy, start_ent, w) && w.last().1.spec_le(
                finite_weight(max_distance),
            ) implies !has_negative_edge(g, w.last().0) && exists|i: int|
            0 <= i < l.len() && (#[trigger] l[i]).0 == w.last().0 by {
            assert(surveyed(g, policy, allowed, Some(cap), None, found, m, w.last().1));
            assert(!crate::graph_functions::frontier::rejects(store, &goal, w.last().0));
            let k = choose|k: int| 0 <= k < found.len() && found[k] == w.last().0;
            assert(l[k].0 == w.last().0);
        }
    }
    Ok(list)
}

} // verus!
