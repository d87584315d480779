//! Dijkstra's search: always expand the recorded vertex of least weight.
use vstd::prelude::*;
use crate::graph_functions::bfs::{is_end, is_no_end};
use crate::graph_functions::frontier::{accepts, destination, is_full, rejects};
use crate::graph_functions::estimates::{allowed_estimates, bare};
use crate::graph_functions::goal::{ComputedEnd, FixedEnd, NoEstimate};
use crate::graph_functions::weighted::{
    best_first, is_cheapest_walk_to, recorded_walk, recorded_walks, rising_weights, surveyed,
    total_distance, within_cap,
};
use crate::graph_vertex::GraphVertex;
use crate::model::{has_negative_edge, is_cheapest, is_walk, Stop};
use crate::store::{Graph, VertexStore};
use crate::types::{GraphError, GraphPath, NoneValueResponse, PathWeight, VertexId};

verus! {

/// No vertex that a walk from `start` reaches has an edge of negative
/// weight.
pub open spec fn no_negative_edge_in_reach(g: Graph, policy: NoneValueResponse, start: VertexId) -> bool {
    forall|w: Seq<Stop>| #[trigger] is_walk(g, policy, start, w) ==> !has_negative_edge(g, w.last().0)
}

/// Some walk from `start` ends at `end`.
pub open spec fn can_walk_to(g: Graph, policy: NoneValueResponse, start: VertexId, end: VertexId) -> bool {
    exists|w: Seq<Stop>| #[trigger] is_walk(g, policy, start, w) && w.last().0 == end
}

/// No vertex that a walk from `start` of less weight than `d` reaches has
/// an edge of negative weight.
pub open spec fn no_negative_edge_nearer(
    g: Graph,
    policy: NoneValueResponse,
    start: VertexId,
    d: PathWeight,
) -> bool {
    forall|w: Seq<Stop>|
        #[trigger] is_walk(g, policy, start, w) && w.last().1.spec_lt(d) ==> !has_negative_edge(
            g,
            w.last().0,
        )
}

/// What `dijkstra_search` promises of the path it gives: it is a walk from
/// `start` to `end` of least weight, and no vertex that a walk of less
/// weight reaches has an edge of negative weight.
pub open spec fn is_dijkstra_path(
    g: Graph,
    policy: NoneValueResponse,
    start: VertexId,
    end: VertexId,
    path: GraphPath<PathWeight>,
) -> bool {
    is_cheapest_walk_to(g, policy, start, end, path) && no_negative_edge_nearer(
        g,
        policy,
        start,
        total_distance(path),
    )
}

/// Dijkstra's search from `start_ent` to `end_ent`. An edge of unknown
/// weight is treated as `none_response` says.
///
/// Gives a walk of least weight, from the destination back to the source,
/// each vertex with the weight of the walk up to it. `InvalidEntity` where
/// either vertex is not in the store; `NegativeWeight` as soon as an edge of
/// negative weight is read, which happens at the latest when a vertex that
/// has one is nearer than the destination; `NoPath` where no walk leads
/// from the one to the other.
pub fn dijkstra_search<V: GraphVertex, C>(
    store: &VertexStore<V, C>,
    start_ent: VertexId,
    end_ent: VertexId,
    none_response: NoneValueResponse,
) -> (r: Result<GraphPath<PathWeight>, GraphError>)
    ensures
        match r {
            Ok(path) => is_dijkstra_path(store.graph(), none_response, start_ent, end_ent, path),
            Err(e) => match e {
                GraphError::InvalidEntity => !store@.contains_key(start_ent) || !store@.contains_key(
                    end_ent,
                ),
                GraphError::NoPath => store@.contains_key(start_ent) && store@.contains_key(end_ent)
                    && !can_walk_to(store.graph(), none_response, start_ent, end_ent)
                    && no_negative_edge_in_reach(store.graph(), none_response, start_ent),
                GraphError::NegativeWeight => store@.contains_key(start_ent) && store@.contains_key(
                    end_ent,
                ) && !no_negative_edge_in_reach(store.graph(), none_response, start_ent),
                GraphError::InvalidPath => false,
            },
        },
        store@.contains_key(start_ent) && store@.contains_key(end_ent) && can_walk_to(
            store.graph(),
            none_response,
            start_ent,
            end_ent,
        ) && no_negative_edge_in_reach(store.graph(), none_response, start_ent) ==> r is Ok,
{
    if !store.contains(start_ent) || !store.contains(end_ent) {
        return Err(GraphError::InvalidEntity);
    }
    let goal = FixedEnd { end: end_ent };
    let estimator = NoEstimate;
    let traversal = match best_first(store, start_ent, &goal, &estimator, none_response, Some(1), None) {
        Ok(traversal) => traversal,
        Err(e) => {
            return Err(e);
        },
    };
    let ghost g = store.graph();
    let ghost m = traversal.visited@;
    let ghost found = traversal.found@;
    let ghost allowed = allowed_estimates(store, &estimator);
    assert(bare(allowed));
    if traversal.found.len() == 0 {
        proof {
            assert forall|w: Seq<Stop>| #[trigger]
                is_walk(g, none_response, start_ent, w) implies w.last().0 != end_ent
                && !has_negative_edge(g, w.last().0) by {
                assert(surveyed(g, none_response, allowed, None, Some(1usize), found, m, w.last().1));
                assert(rejects(store, &goal, w.last().0));
            }
        }
        return Err(GraphError::NoPath);
    }
    let end = traversal.found[0];
    proof {
        assert(accepts(store, &goal, found[0]));
        assert(found.last() == end);
        assert forall|w: Seq<Stop>|
            #[trigger] is_walk(g, none_response, start_ent, w) && w.last().1.spec_lt(
                m[end].weight,
            ) implies !has_negative_edge(g, w.last().0) by {
            assert(surveyed(g, none_response, allowed, None, Some(1usize), found, m, w.last().1));
        }
    }
    recorded_walk(&traversal.visited, end, Ghost(g), Ghost(none_response), Ghost(start_ent))
}

/// Dijkstra's search from `start_ent` to the nearest vertex whose data the
/// end determiner accepts. An edge of unknown weight is treated as
/// `none_response` says.
///
/// Gives a walk of least weight to that vertex, from the destination back
/// to the source, each vertex with the weight of the walk up to it; the end
/// determiner said no to every vertex that a walk of less weight reaches.
/// `InvalidEntity` where `start_ent` is not in the store; `NegativeWeight`
/// as soon as an edge of negative weight is read; `NoPath` where the end
/// determiner said no to every vertex that a walk reaches.
pub fn dijkstra_computed_end<V: GraphVertex, C, F: Fn(&C) -> bool>(
    store: &VertexStore<V, C>,
    start_ent: VertexId,
    end_determiner: F,
    none_response: NoneValueResponse,
) -> (r: Result<GraphPath<PathWeight>, GraphError>)
    requires
        forall|c: &C| call_requires(end_determiner, (c,)),
    ensures
        match r {
            Ok(path) => is_cheapest_walk_to(
                store.graph(),
                none_response,
                start_ent,
                destination(path),
                path,
            ) && is_end(store, end_determiner, destination(path)) && forall|w: Seq<Stop>|
                #[trigger] is_walk(store.graph(), none_response, start_ent, w) && w.last().1.spec_lt(
                    total_distance(path),
                ) ==> is_no_end(store, end_determiner, w.last().0) && !has_negative_edge(
                    store.graph(),
                    w.last().0,
                ),
            Err(e) => match e {
                GraphError::InvalidEntity => !store@.contains_key(start_ent),
                GraphError::NoPath => store@.contains_key(start_ent) && forall|w: Seq<Stop>|
                    #[trigger] is_walk(store.graph(), none_response, start_ent, w) ==> is_no_end(
                        store,
                        end_determiner,
                        w.last().0,
                    ) && !has_negative_edge(store.graph(), w.last().0),
                GraphError::NegativeWeight => store@.contains_key(start_ent)
                    && !no_negative_edge_in_reach(store.graph(), none_response, start_ent),
                GraphError::InvalidPath => false,
            },
        },
        store@.contains_key(start_ent) && no_negative_edge_in_reach(
            store.graph(),
            none_response,
            start_ent,
        ) && (exists|w: Seq<Stop>|
            #[trigger] is_walk(store.graph(), none_response, start_ent, w) && !is_no_end(
                store,
                end_determiner,
                w.last().0,
            )) ==> r is Ok,
{
    let goal = ComputedEnd { end_determiner };
    let estimator = NoEstimate;
    let traversal = match best_first(store, start_ent, &goal, &estimator, none_response, Some(1), None) {
        Ok(traversal) => traversal,
        Err(e) => {
            return Err(e);
        },
    };
    let ghost g = store.graph();
    let ghost m = traversal.visited@;
    let ghost found = traversal.found@;
    let ghost allowed = allowed_estimates(store, &estimator);
    assert(bare(allowed));
    if traversal.found.len() == 0 {
        proof {
            assert forall|w: Seq<Stop>| #[trigger]
                is_walk(g, none_response, start_ent, w) implies is_no_end(
                store,
                end_determiner,
                w.last().0,
            ) && !has_negative_edge(g, w.last().0) by {
                assert(surveyed(g, none_response, allowed, None, Some(1usize), found, m, w.last().1));
                assert(rejects(store, &goal, w.last().0));
            }
        }
        return Err(GraphError::NoPath);
    }
    let end = traversal.found[0];
    proof {
        assert(accepts(store, &goal, found[0]));
        assert(found.last() == end);
        assert forall|w: Seq<Stop>|
            #[trigger] is_walk(g, none_response, start_ent, w) && w.last().1.spec_lt(
                m[end].weight,
            ) implies is_no_end(store, end_determiner, w.last().0) && !has_negative_edge(
            g,
            w.last().0,
        ) by {
            assert(surveyed(g, none_response, allowed, None, Some(1usize), found, m, w.last().1));
            if found.contains(w.last().0) {
                assert(w.last().0 == end);
                assert(is_cheapest(g, none_response, start_ent, end, m[end].weight));
                crate::types::lemma_weight_total(w.last().1, m[end].weight);
            }
        }
    }
    recorded_walk(&traversal.visited, end, Ghost(g), Ghost(none_response), Ghost(start_ent))
}

/// What `dijkstra_multiple_end` promises of its paths.
pub open spec fn cheapest_ends<V: GraphVertex, C, F: Fn(&C) -> bool>(
    store: &VertexStore<V, C>,
    start: VertexId,
    end_determiner: F,
    policy: NoneValueResponse,
    max_ends: Option<usize>,
    max_distance: Option<PathWeight>,
    paths: Seq<GraphPath<PathWeight>>,
) -> bool {
    let g = store.graph();
    &&& max_ends is Some ==> paths.len() <= max_ends.unwrap()
    &&& forall|i: int|
        0 <= i < paths.len() ==> is_cheapest_walk_to(
            g,
            policy,
            start,
            destination(paths[i]),
            #[trigger] paths[i],
        ) && within_cap(total_distance(paths[i]), max_distance) && is_end(
            store,
            end_determiner,
            destination(paths[i]),
        )
    &&& forall|i: int, j: int|
        0 <= i < j < paths.len() ==> destination(#[trigger] paths[i]) != destination(
            #[trigger] paths[j],
        ) && total_distance(paths[i]).spec_le(total_distance(paths[j]))
    &&& forall|w: Seq<Stop>|
        #[trigger] is_walk(g, policy, start, w) && (if is_full(paths.len(), max_ends) {
            paths.len() > 0 && w.last().1.spec_lt(total_distance(paths.last()))
        } else {
            within_cap(w.last().1, max_distance)
        }) ==> !has_negative_edge(g, w.last().0) && (is_no_end(store, end_determiner, w.last().0)
            || exists|i: int| 0 <= i < paths.len() && destination(#[trigger] paths[i]) == w.last().0)
}

/// Dijkstra's search from `start_ent` to the vertices whose data the end
/// determiner accepts, up to `max_ends` of them, and never over a walk that
/// weighs more than `max_distance`. An edge of unknown weight is treated as
/// `none_response` says.
///
/// Gives one walk of least weight for each such vertex, each from its
/// destination back to the source, the lightest first. Where fewer than `max_ends` paths come
/// back, the end determiner said no to every other vertex that a walk within
/// `max_distance` reaches; where `max_ends` come back, to every other vertex
/// that a walk of less weight than the last of them reaches. `InvalidEntity`
/// where `start_ent` is not in the store; `NegativeWeight` as soon as an
/// edge of negative weight is read.
pub fn dijkstra_multiple_end<V: GraphVertex, C, F: Fn(&C) -> bool>(
    store: &VertexStore<V, C>,
    start_ent: VertexId,
    end_determiner: F,
    none_response: NoneValueResponse,
    max_ends: Option<usize>,
    max_distance: Option<PathWeight>,
) -> (r: Result<Vec<GraphPath<PathWeight>>, GraphError>)
    requires
        forall|c: &C| call_requires(end_determiner, (c,)),
    ensures
        match r {
            Ok(paths) => store@.contains_key(start_ent) && cheapest_ends(
                store,
                start_ent,
                end_determiner,
                none_response,
                max_ends,
                max_distance,
                paths@,
            ),
            Err(e) => match e {
                GraphError::InvalidEntity => !store@.contains_key(start_ent),
                GraphError::NegativeWeight => store@.contains_key(start_ent)
                    && !no_negative_edge_in_reach(store.graph(), none_response, start_ent),
                _ => false,
            },
        },
{
    let goal = ComputedEnd { end_determiner };
    let estimator = NoEstimate;
    let traversal = match best_first(
        store,
        start_ent,
        &goal,
        &estimator,
        none_response,
        max_ends,
        max_distance,
    ) {
        Ok(traversal) => traversal,
        Err(e) => {
            return Err(e);
        },
    };
    let ghost g = store.graph();
    let ghost m = traversal.visited@;
    let ghost found = traversal.found@;
    let ghost allowed = allowed_estimates(store, &estimator);
    assert(bare(allowed));
    let result = recorded_walks(
        &traversal.visited,
        &traversal.found,
        Ghost(g),
        Ghost(none_response),
        Ghost(start_ent),
    );
    proof {
        let paths = result.unwrap()@;
        assert forall|i: int| 0 <= i < paths.len() implies is_cheapest_walk_to(
            g,
            none_response,
            start_ent,
            destination(paths[i]),
            #[trigger] paths[i],
        ) && within_cap(total_distance(paths[i]), max_distance) && is_end(
            store,
            end_determiner,
            destination(paths[i]),
        ) && destination(paths[i]) == found[i] && total_distance(paths[i]) == m[found[i]].weight by {
            assert(m.contains_key(found[i]));
            assert(accepts(store, &goal, found[i]));
        }
        assert forall|i: int, j: int| 0 <= i < j < paths.len() implies destination(
            #[trigger] paths[i],
        ) != destination(#[trigger] paths[j]) && total_distance(paths[i]).spec_le(
            total_distance(paths[j]),
        ) by {
            assert(rising_weights(m, found));
            assert(m[found[i]].weight.spec_le(m[found[j]].weight));
        }
        assert forall|w: Seq<Stop>|
            #[trigger] is_walk(g, none_response, start_ent, w) && (if is_full(
                paths.len(),
                max_ends,
            ) {
                paths.len() > 0 && w.last().1.spec_lt(total_distance(paths.last()))
            } else {
                within_cap(w.last().1, max_distance)
            }) implies !has_negative_edge(g, w.last().0) && (is_no_end(
            store,
            end_determiner,
            w.last().0,
        ) || exists|i: int| 0 <= i < paths.len() && destination(#[trigger] paths[i]) == w.last().0) by {
            if paths.len() > 0 {
                assert(total_distance(paths[paths.len() - 1]) == m[found[paths.len() - 1]].weight);
            }
            assert(surveyed(g, none_response, allowed, max_distance, max_ends, found, m, w.last().1));
            if found.contains(w.last().0) {
                let i = choose|i: int| 0 <= i < found.len() && found[i] == w.last().0;
                assert(destination(paths[i]) == w.last().0);
            } else {
                assert(rejects(store, &goal, w.last().0));
            }
        }
    }
    result
}

} // verus!
