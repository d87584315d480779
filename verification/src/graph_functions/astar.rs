//! A* search: expand the recorded vertex for which the weight so far and
//! the estimate of what remains are least together.
use vstd::prelude::*;
use crate::graph_functions::bfs::{is_end, is_no_end};
use crate::graph_functions::dijkstra::{
    can_walk_to, is_dijkstra_path, no_negative_edge_in_reach, no_negative_edge_nearer,
};
use crate::graph_functions::frontier::{accepts, destination, is_full, rejects};
use crate::graph_functions::estimates::{
    allowed_estimates, bare, is_cheapest_plain, is_clear, is_consistent,
};
use crate::graph_functions::goal::{ComputedEnd, DataEstimate, EndEstimate, FixedEnd};
use crate::graph_functions::weighted::{
    cheapest_first, only_estimate, rivals,
    best_first, is_cheapest_walk_to, is_walk_to, lemma_cheapest_walks_weigh_the_same, recorded_walk,
    recorded_walks, rising_weights, surveyed, total_distance, within_cap,
};
use crate::graph_vertex::GraphVertex;
use crate::visited::VisitedRecord;
use crate::model::{has_negative_edge, is_cheapest, is_walk, lemma_walk_end, Stop};
use crate::store::{Graph, VertexStore};
use crate::types::{
    lemma_priority_order, GraphError, GraphPath, Heuristic, NoneValueResponse, PathWeight, VertexId,
};

verus! {

/// The function of two data never gives an estimate other than nothing.
pub open spec fn never_estimates<C, F: Fn(&C, &C) -> Heuristic>(heuristic_determiner: F) -> bool {
    forall|a: &C, b: &C, h: Heuristic| #[trigger]
        call_ensures(heuristic_determiner, (a, b), h) ==> h == Heuristic::spec_none()
}

/// The function of one datum never gives an estimate other than nothing.
pub open spec fn never_estimates_alone<C, F: Fn(&C) -> Heuristic>(heuristic_determiner: F) -> bool {
    forall|a: &C, h: Heuristic| #[trigger]
        call_ensures(heuristic_determiner, (a,), h) ==> h == Heuristic::spec_none()
}

/// The estimates that the function of two data can make for the vertices
/// of the store, for the destination `end`.
pub open spec fn estimates_toward<V, C, F: Fn(&C, &C) -> Heuristic>(
    store: &VertexStore<V, C>,
    heuristic_determiner: F,
    end: VertexId,
) -> Set<(VertexId, Heuristic)> {
    Set::new(
        |p: (VertexId, Heuristic)|
            store@.contains_key(p.0) && call_ensures(
                heuristic_determiner,
                (&store@[p.0].data, &store@[end].data),
                p.1,
            ),
    )
}

/// The estimates that the function of one datum can make for the vertices
/// of the store.
pub open spec fn estimates_alone<V, C, F: Fn(&C) -> Heuristic>(
    store: &VertexStore<V, C>,
    heuristic_determiner: F,
) -> Set<(VertexId, Heuristic)> {
    Set::new(
        |p: (VertexId, Heuristic)|
            store@.contains_key(p.0) && call_ensures(
                heuristic_determiner,
                (&store@[p.0].data,),
                p.1,
            ),
    )
}

/// The function of one datum estimates nothing for every vertex that the
/// end determiner can accept, or cannot reject.
pub open spec fn ends_unestimated<V, C, FH: Fn(&C) -> Heuristic, FE: Fn(&C) -> bool>(
    store: &VertexStore<V, C>,
    heuristic_determiner: FH,
    end_determiner: FE,
) -> bool {
    forall|v: VertexId, h: Heuristic| #[trigger]
        estimates_alone(store, heuristic_determiner).contains((v, h)) && (is_end(
            store,
            end_determiner,
            v,
        ) || !is_no_end(store, end_determiner, v)) ==> h == Heuristic::spec_none()
}

/// No walk from `start` whose weight has not saturated, and that stays
/// within the cap, to a vertex that the end determiner cannot reject and
/// that is none of `earlier`, weighs less than `d`.
pub open spec fn is_nearest_end<V: GraphVertex, C, FE: Fn(&C) -> bool>(
    store: &VertexStore<V, C>,
    end_determiner: FE,
    policy: NoneValueResponse,
    start: VertexId,
    cap: Option<PathWeight>,
    earlier: Seq<VertexId>,
    d: PathWeight,
) -> bool {
    forall|w: Seq<Stop>|
        #[trigger] is_walk(store.graph(), policy, start, w) && is_clear(w.last().1) && within_cap(
            w.last().1,
            cap,
        ) && !is_no_end(store, end_determiner, w.last().0) && !earlier.contains(w.last().0)
            ==> d.spec_le(w.last().1)
}

/// No walk from `start` to `v` whose weight has not saturated weighs less
/// than `d`.
pub open spec fn is_cheapest_clear(
    g: Graph,
    policy: NoneValueResponse,
    start: VertexId,
    v: VertexId,
    d: PathWeight,
) -> bool {
    forall|w: Seq<Stop>|
        #[trigger] is_walk(g, policy, start, w) && w.last().0 == v && is_clear(w.last().1)
            ==> d.spec_le(w.last().1)
}

/// What `a_star_search` promises of the path it gives: it is a walk from
/// `start` to `end`; where the estimate is always nothing, `exact`, a walk
/// of least weight, and no vertex that a walk of less weight reaches has an
/// edge of negative weight; and where the estimate is consistent,
/// `consistent`, a walk that weighs no more than any walk whose weight has
/// not saturated.
pub open spec fn is_a_star_path(
    g: Graph,
    policy: NoneValueResponse,
    start: VertexId,
    end: VertexId,
    exact: bool,
    consistent: bool,
    path: GraphPath<PathWeight>,
) -> bool {
    &&& is_walk_to(g, policy, start, end, path)
    &&& exact ==> is_cheapest_walk_to(g, policy, start, end, path) && no_negative_edge_nearer(
        g,
        policy,
        start,
        total_distance(path),
    )
    &&& consistent ==> is_cheapest_clear(g, policy, start, end, total_distance(path))
}

/// A* search from `start_ent` to `end_ent`. The estimate for a vertex is
/// made once, when the vertex is first reached, from its data and the data
/// of `end_ent`. An edge of unknown weight is treated as `none_response`
/// says.
///
/// Gives a walk from the destination back to the source, each vertex with
/// the weight of the walk up to it. Where the estimate is always nothing the
/// walk is one of least weight. Where the estimate is consistent (there is
/// one for every vertex, and over no edge does it fall by more than the edge
/// adds) the walk weighs no more than any walk to the destination whose
/// weight has not saturated. `InvalidEntity` where either vertex is not in
/// the store; `NegativeWeight` as soon as an edge of negative weight is
/// read; `NoPath` where no walk leads from the one to the other.
pub fn a_star_search<V: GraphVertex, C, F: Fn(&C, &C) -> Heuristic>(
    store: &VertexStore<V, C>,
    start_ent: VertexId,
    end_ent: VertexId,
    heuristic_determiner: F,
    none_response: NoneValueResponse,
) -> (r: Result<GraphPath<PathWeight>, GraphError>)
    requires
        forall|a: &C, b: &C| call_requires(heuristic_determiner, (a, b)),
    ensures
        match r {
            Ok(path) => is_a_star_path(
                store.graph(),
                none_response,
                start_ent,
                end_ent,
                never_estimates(heuristic_determiner),
                is_consistent(
                    store.graph(),
                    none_response,
                    estimates_toward(store, heuristic_determiner, end_ent),
                ),
                path,
            ),
            Err(e) => match e {
                GraphError::InvalidEntity => !store@.contains_key(start_ent) || !store@.contains_key(
                    end_ent,
                ),
                GraphError::NoPath => store@.contains_key(start_ent) && store@.contains_key(end_ent)
                    && !can_walk_to(store.graph(), none_response, start_ent, end_ent)
                    && no_negative_edge_in_reach(store.graph(), none_response, start_ent),
                GraphError::NegativeWeight => store@.contains_key(start_ent) && store@.contains_key(
                    end_ent,
                ) && !no_negative_edge_in_reach(store.graph(), none_response, start_ent),
                GraphError::InvalidPath => false,
            },
        },
        store@.contains_key(start_ent) && store@.contains_key(end_ent) && can_walk_to(
            store.graph(),
            none_response,
            start_ent,
            end_ent,
        ) && no_negative_edge_in_reach(store.graph(), none_response, start_ent) ==> r is Ok,
{
    if !store.contains(start_ent) {
        return Err(GraphError::InvalidEntity);
    }
    let end_entry = match store.lookup(end_ent) {
        Ok(entry) => entry,
        Err(e) => {
            return Err(e);
        },
    };
    let goal = FixedEnd { end: end_ent };
    let estimator = EndEstimate { heuristic_determiner, end_data: &end_entry.data };
    let traversal = match best_first(store, start_ent, &goal, &estimator, none_response, Some(1), None) {
        Ok(traversal) => traversal,
        Err(e) => {
            return Err(e);
        },
    };
    let ghost g = store.graph();
    let ghost m = traversal.visited@;
    let ghost found = traversal.found@;
    let ghost allowed = allowed_estimates(store, &estimator);
    let ghost exact = bare(allowed);
    if traversal.found.len() == 0 {
        proof {
            assert forall|w: Seq<Stop>| #[trigger]
                is_walk(g, none_response, start_ent, w) implies w.last().0 != end_ent
                && !has_negative_edge(g, w.last().0) by {
                assert(surveyed(g, none_response, allowed, None, Some(1usize), found, m, w.last().1));
                assert(rejects(store, &goal, w.last().0));
            }
        }
        return Err(GraphError::NoPath);
    }
    let end = traversal.found[0];
    proof {
        assert(accepts(store, &goal, found[0]));
        assert(found.last() == end);
        assert(allowed =~= estimates_toward(store, heuristic_determiner, end_ent));
        if never_estimates(heuristic_determiner) {
            assert(exact);
            assert forall|w: Seq<Stop>|
                #[trigger] is_walk(g, none_response, start_ent, w) && w.last().1.spec_lt(
                    m[end].weight,
                ) implies !has_negative_edge(g, w.last().0) by {
                assert(surveyed(g, none_response, allowed, None, Some(1usize), found, m, w.last().1));
            }
        }
        if is_consistent(g, none_response, allowed) {
            assert(is_cheapest_plain(g, none_response, start_ent, allowed, end, m[end].weight));
        }
    }
    recorded_walk(&traversal.visited, end, Ghost(g), Ghost(none_response), Ghost(start_ent))
}

/// With an estimate that is always nothing, `a_star_search` gives a path of
/// the same total distance as `dijkstra_search` does for the same store,
/// vertices and policy: both give a walk of least weight, and two such walks
/// weigh the same.
pub proof fn lemma_no_estimate_same_distance<V: GraphVertex, C, F: Fn(&C, &C) -> Heuristic>(
    store: &VertexStore<V, C>,
    start_ent: VertexId,
    end_ent: VertexId,
    heuristic_determiner: F,
    none_response: NoneValueResponse,
    by_a_star: GraphPath<PathWeight>,
    by_dijkstra: GraphPath<PathWeight>,
)
    requires
        never_estimates(heuristic_determiner),
        is_a_star_path(
            store.graph(),
            none_response,
            start_ent,
            end_ent,
            never_estimates(heuristic_determiner),
            is_consistent(
                store.graph(),
                none_response,
                estimates_toward(store, heuristic_determiner, end_ent),
            ),
            by_a_star,
        ),
        is_dijkstra_path(store.graph(), none_response, start_ent, end_ent, by_dijkstra),
    ensures
        total_distance(by_a_star) == total_distance(by_dijkstra),
{
    lemma_cheapest_walks_weigh_the_same(
        store.graph(),
        none_response,
        start_ent,
        end_ent,
        by_a_star,
        by_dijkstra,
    );
}

/// Where the estimate is consistent, and nothing for every vertex that
/// can be an end, the `i`-th vertex that a search found is the nearest end
/// that was not found before it.
proof fn lemma_found_is_nearest<V: GraphVertex, C, FH: Fn(&C) -> Heuristic, FE: Fn(&C) -> bool>(
    store: &VertexStore<V, C>,
    start: VertexId,
    heuristic_determiner: FH,
    goal: &ComputedEnd<FE>,
    policy: NoneValueResponse,
    max_ends: Option<usize>,
    cap: Option<PathWeight>,
    found: Seq<VertexId>,
    m: Map<VertexId, VisitedRecord>,
    i: int,
)
    requires
        cheapest_first(
            store,
            start,
            goal,
            policy,
            estimates_alone(store, heuristic_determiner),
            max_ends,
            cap,
            found,
            m,
        ),
        is_consistent(store.graph(), policy, estimates_alone(store, heuristic_determiner)),
        ends_unestimated(store, heuristic_determiner, goal.end_determiner),
        0 <= i < found.len(),
    ensures
        is_nearest_end(
            store,
            goal.end_determiner,
            policy,
            start,
            cap,
            found.subrange(0, i),
            m[found[i]].weight,
        ),
{
    let g = store.graph();
    let allowed = estimates_alone(store, heuristic_determiner);
    let nothing = Heuristic::spec_none();
    let f = found[i];
    assert(m.contains_key(f) && accepts(store, goal, f));
    assert(m[f].estimate == nothing);
    assert forall|w: Seq<Stop>|
        #[trigger] is_walk(g, policy, start, w) && is_clear(w.last().1) && within_cap(
            w.last().1,
            cap,
        ) && !is_no_end(store, goal.end_determiner, w.last().0) && !found.subrange(0, i).contains(
            w.last().0,
        ) implies m[f].weight.spec_le(w.last().1) by {
        let y = w.last().0;
        lemma_walk_end(g, policy, start, w);
        let h0 = choose|h: Heuristic| allowed.contains((y, h));
        assert(allowed.contains((y, h0)));
        assert(only_estimate(allowed, y, nothing));
        assert forall|j: int| 0 <= j < i implies #[trigger] found[j] != y by {
            assert(found.subrange(0, i)[j] == found[j]);
        }
        assert(rivals(store, goal, g, policy, start, cap, allowed, found, i, w, nothing));
        lemma_priority_order(m[f].weight, w.last().1, nothing);
    }
}

/// A* search from `start_ent` to a vertex whose data the end determiner
/// accepts. The estimate for a vertex is made once, when the vertex is first
/// reached, from its data. An edge of unknown weight is treated as
/// `none_response` says.
///
/// Gives a walk to such a vertex, from the destination back to the source,
/// each vertex with the weight of the walk up to it. Where the estimate is
/// always nothing the walk is one of least weight, and the end determiner
/// said no to every vertex that a walk of less weight reaches. Where the
/// estimate is consistent the walk weighs no more than any walk to its
/// destination whose weight has not saturated; and where it is also nothing
/// for every vertex that can be an end, no more than any such walk to a
/// vertex that the end determiner cannot reject.
/// `InvalidEntity` where `start_ent` is not in the store; `NegativeWeight`
/// as soon as an edge of negative weight is read; `NoPath` where the end
/// determiner said no to every vertex that a walk reaches.
pub fn a_star_computed_end<V: GraphVertex, C, FH: Fn(&C) -> Heuristic, FE: Fn(&C) -> bool>(
    store: &VertexStore<V, C>,
    start_ent: VertexId,
    heuristic_determiner: FH,
    end_determiner: FE,
    none_response: NoneValueResponse,
) -> (r: Result<GraphPath<PathWeight>, GraphError>)
    requires
        forall|c: &C| call_requires(heuristic_determiner, (c,)),
        forall|c: &C| call_requires(end_determiner, (c,)),
    ensures
        match r {
            Ok(path) => is_walk_to(
                store.graph(),
                none_response,
                start_ent,
                destination(path),
                path,
            ) && is_end(store, end_determiner, destination(path)) && (never_estimates_alone(
                heuristic_determiner,
            ) ==> is_cheapest_walk_to(
                store.graph(),
                none_response,
                start_ent,
                destination(path),
                path,
            ) && forall|w: Seq<Stop>|
                #[trigger] is_walk(store.graph(), none_response, start_ent, w) && w.last().1.spec_lt(
                    total_distance(path),
                ) ==> is_no_end(store, end_determiner, w.last().0) && !has_negative_edge(
                    store.graph(),
                    w.last().0,
                )) && (is_consistent(
                store.graph(),
                none_response,
                estimates_alone(store, heuristic_determiner),
            ) ==> is_cheapest_clear(
                store.graph(),
                none_response,
                start_ent,
                destination(path),
                total_distance(path),
            ) && (ends_unestimated(store, heuristic_determiner, end_determiner) ==> is_nearest_end(
                store,
                end_determiner,
                none_response,
                start_ent,
                None,
                Seq::<VertexId>::empty(),
                total_distance(path),
            ))),
            Err(e) => match e {
                GraphError::InvalidEntity => !store@.contains_key(start_ent),
                GraphError::NoPath => store@.contains_key(start_ent) && forall|w: Seq<Stop>|
                    #[trigger] is_walk(store.graph(), none_response, start_ent, w) ==> is_no_end(
                        store,
                        end_determiner,
                        w.last().0,
                    ) && !has_negative_edge(store.graph(), w.last().0),
                GraphError::NegativeWeight => store@.contains_key(start_ent)
                    && !no_negative_edge_in_reach(store.graph(), none_response, start_ent),
                GraphError::InvalidPath => false,
            },
        },
        store@.contains_key(start_ent) && no_negative_edge_in_reach(
            store.graph(),
            none_response,
            start_ent,
        ) && (exists|w: Seq<Stop>|
            #[trigger] is_walk(store.graph(), none_response, start_ent, w) && !is_no_end(
                store,
                end_determiner,
                w.last().0,
            )) ==> r is Ok,
{
    let goal = ComputedEnd { end_determiner };
    let estimator = DataEstimate { heuristic_determiner };
    let traversal = match best_first(store, start_ent, &goal, &estimator, none_response, Some(1), None) {
        Ok(traversal) => traversal,
        Err(e) => {
            return Err(e);
        },
    };
    let ghost g = store.graph();
    let ghost m = traversal.visited@;
    let ghost found = traversal.found@;
    let ghost allowed = allowed_estimates(store, &estimator);
    let ghost exact = bare(allowed);
    if traversal.found.len() == 0 {
        proof {
            assert forall|w: Seq<Stop>| #[trigger]
                is_walk(g, none_response, start_ent, w) implies is_no_end(
                store,
                end_determiner,
                w.last().0,
            ) && !has_negative_edge(g, w.last().0) by {
                assert(surveyed(g, none_response, allowed, None, Some(1usize), found, m, w.last().1));
                assert(rejects(store, &goal, w.last().0));
            }
        }
        return Err(GraphError::NoPath);
    }
    let end = traversal.found[0];
    proof {
        assert(accepts(store, &goal, found[0]));
        assert(found.last() == end);
        assert(allowed =~= estimates_alone(store, heuristic_determiner));
        if is_consistent(g, none_response, allowed) {
            assert(is_cheapest_plain(g, none_response, start_ent, allowed, end, m[end].weight));
            if ends_unestimated(store, heuristic_determiner, end_determiner) {
                lemma_found_is_nearest(
                    store,
                    start_ent,
                    heuristic_determiner,
                    &goal,
                    none_response,
                    Some(1usize),
                    None,
                    found,
                    m,
                    0,
                );
                assert(found.subrange(0, 0) =~= Seq::<VertexId>::empty());
            }
        }
        if never_estimates_alone(heuristic_determiner) {
            assert(exact);
            assert forall|w: Seq<Stop>|
                #[trigger] is_walk(g, none_response, start_ent, w) && w.last().1.spec_lt(
                    m[end].weight,
                ) implies is_no_end(store, end_determiner, w.last().0) && !has_negative_edge(
                g,
                w.last().0,
            ) by {
                assert(surveyed(g, none_response, allowed, None, Some(1usize), found, m, w.last().1));
                if found.contains(w.last().0) {
                    assert(w.last().0 == end);
                    assert(is_cheapest(g, none_response, start_ent, end, m[end].weight));
                    crate::types::lemma_weight_total(w.last().1, m[end].weight);
                }
            }
        }
    }
    recorded_walk(&traversal.visited, end, Ghost(g), Ghost(none_response), Ghost(start_ent))
}

/// The destinations of the first `i` paths.
pub open spec fn ends_before(paths: Seq<GraphPath<PathWeight>>, i: int) -> Seq<VertexId> {
    Seq::new(i as nat, |j: int| destination(paths[j]))
}

/// What `a_star_multiple_ends` promises of its paths. `exact` says that the
/// estimate is always nothing, `consistent` that it is consistent, and
/// `unestimated_ends` that it is nothing for every vertex that can be an end.
pub open spec fn estimated_ends<V: GraphVertex, C, F: Fn(&C) -> bool>(
    store: &VertexStore<V, C>,
    start: VertexId,
    end_determiner: F,
    policy: NoneValueResponse,
    exact: bool,
    consistent: bool,
    unestimated_ends: bool,
    max_ends: Option<usize>,
    max_distance: Option<PathWeight>,
    paths: Seq<GraphPath<PathWeight>>,
) -> bool {
    let g = store.graph();
    &&& max_ends is Some ==> paths.len() <= max_ends.unwrap()
    &&& consistent && unestimated_ends ==> forall|i: int|
        0 <= i < paths.len() ==> is_nearest_end(
            store,
            end_determiner,
            policy,
            start,
            max_distance,
            ends_before(paths, i),
            total_distance(#[trigger] paths[i]),
        )
    &&& forall|i: int|
        0 <= i < paths.len() ==> is_walk_to(
            g,
            policy,
            start,
            destination(paths[i]),
            #[trigger] paths[i],
        ) && within_cap(total_distance(paths[i]), max_distance) && is_end(
            store,
            end_determiner,
            destination(paths[i]),
        ) && (exact ==> is_cheapest(g, policy, start, destination(paths[i]), total_distance(paths[i])))
            && (consistent ==> is_cheapest_clear(
            g,
            policy,
            start,
            destination(paths[i]),
            total_distance(paths[i]),
        ))
    &&& forall|i: int, j: int|
        0 <= i < j < paths.len() ==> destination(#[trigger] paths[i]) != destination(
            #[trigger] paths[j],
        ) && (exact ==> total_distance(paths[i]).spec_le(total_distance(paths[j])))
    &&& forall|w: Seq<Stop>|
        #[trigger] is_walk(g, policy, start, w) && (if is_full(paths.len(), max_ends) {
            exact && paths.len() > 0 && w.last().1.spec_lt(total_distance(paths.last()))
        } else {
            (exact || max_distance is None) && within_cap(w.last().1, max_distance)
        }) ==> !has_negative_edge(g, w.last().0) && (is_no_end(store, end_determiner, w.last().0)
            || exists|i: int| 0 <= i < paths.len() && destination(#[trigger] paths[i]) == w.last().0)
}

/// A* search from `start_ent` to the vertices whose data the end determiner
/// accepts, up to `max_ends` of them, and never over a walk that weighs more
/// than `max_distance`. The estimate for a vertex is made once, when the
/// vertex is first reached, from its data. An edge of unknown weight is
/// treated as `none_response` says.
///
/// Gives one walk for each such vertex, each from its destination back to
/// the source. Where the estimate is always nothing each is a walk of least
/// weight, and the lightest comes first. Where the estimate is consistent
/// each weighs no more than any walk to its destination whose weight has not
/// saturated; and where it is also nothing for every vertex that can be an
/// end, no more than any such walk within `max_distance` to a vertex that
/// the end determiner cannot reject and that is not the destination of an
/// earlier path. Where fewer than `max_ends` paths come back, and the estimate is
/// always nothing or there is no `max_distance`, the end determiner said no
/// to every other vertex that a walk within `max_distance` reaches; where
/// `max_ends` come back and the estimate is always nothing, to every other
/// vertex that a walk of less weight than the last of them reaches.
/// `InvalidEntity` where `start_ent` is not in the store; `NegativeWeight`
/// as soon as an edge of negative weight is read.
pub fn a_star_multiple_ends<V: GraphVertex, C, FH: Fn(&C) -> Heuristic, FE: Fn(&C) -> bool>(
    store: &VertexStore<V, C>,
    start_ent: VertexId,
    heuristic_determiner: FH,
    end_determiner: FE,
    none_response: NoneValueResponse,
    max_ends: Option<usize>,
    max_distance: Option<PathWeight>,
) -> (r: Result<Vec<GraphPath<PathWeight>>, GraphError>)
    requires
        forall|c: &C| call_requires(heuristic_determiner, (c,)),
        forall|c: &C| call_requires(end_determiner, (c,)),
    ensures
        match r {
            Ok(paths) => store@.contains_key(start_ent) && estimated_ends(
                store,
                start_ent,
                end_determiner,
                none_response,
                never_estimates_alone(heuristic_determiner),
                is_consistent(
                    store.graph(),
                    none_response,
                    estimates_alone(store, heuristic_determiner),
                ),
                ends_unestimated(store, heuristic_determiner, end_determiner),
                max_ends,
                max_distance,
                paths@,
            ),
            Err(e) => match e {
                GraphError::InvalidEntity => !store@.contains_key(start_ent),
                GraphError::NegativeWeight => store@.contains_key(start_ent)
                    && !no_negative_edge_in_reach(store.graph(), none_response, start_ent),
                _ => false,
            },
        },
{
    let goal = ComputedEnd { end_determiner };
    let estimator = DataEstimate { heuristic_determiner };
    let traversal = match best_first(
        store,
        start_ent,
        &goal,
        &estimator,
        none_response,
        max_ends,
        max_distance,
    ) {
        Ok(traversal) => traversal,
        Err(e) => {
            return Err(e);
        },
    };
    let ghost g = store.graph();
    let ghost m = traversal.visited@;
    let ghost found = traversal.found@;
    let ghost allowed = allowed_estimates(store, &estimator);
    let ghost known = bare(allowed);
    let result = recorded_walks(
        &traversal.visited,
        &traversal.found,
        Ghost(g),
        Ghost(none_response),
        Ghost(start_ent),
    );
    proof {
        let paths = result.unwrap()@;
        let exact = never_estimates_alone(heuristic_determiner);
        let consistent = is_consistent(g, none_response, estimates_alone(store, heuristic_determiner));
        assert(allowed =~= estimates_alone(store, heuristic_determiner));
        let unestimated = ends_unestimated(store, heuristic_determiner, end_determiner);
        assert(estimated_ends(
            store,
            start_ent,
            end_determiner,
            none_response,
            exact,
            consistent,
            unestimated,
            max_ends,
            max_distance,
            paths,
        )) by {
            assert(exact ==> known);
            if consistent && unestimated {
                assert forall|i: int| 0 <= i < paths.len() implies is_nearest_end(
                    store,
                    end_determiner,
                    none_response,
                    start_ent,
                    max_distance,
                    ends_before(paths, i),
                    total_distance(#[trigger] paths[i]),
                ) by {
                    lemma_found_is_nearest(
                        store,
                        start_ent,
                        heuristic_determiner,
                        &goal,
                        none_response,
                        max_ends,
                        max_distance,
                        found,
                        m,
                        i,
                    );
                    assert(ends_before(paths, i) =~= found.subrange(0, i)) by {
                        assert forall|j: int| 0 <= j < i implies ends_before(paths, i)[j]
                            == found.subrange(0, i)[j] by {
                            assert(is_walk_to(
                                g,
                                none_response,
                                start_ent,
                                found[j],
                                paths[j],
                            ));
                        }
                    }
                    assert(is_walk_to(g, none_response, start_ent, found[i], paths[i]));
                    assert(total_distance(paths[i]) == m[found[i]].weight);
                }
            }
            assert forall|i: int| 0 <= i < paths.len() implies is_walk_to(
                g,
                none_response,
                start_ent,
                destination(paths[i]),
                #[trigger] paths[i],
            ) && within_cap(total_distance(paths[i]), max_distance) && is_end(
                store,
                end_determiner,
                destination(paths[i]),
            ) && destination(paths[i]) == found[i] && total_distance(paths[i])
                == m[found[i]].weight && (exact ==> is_cheapest(
                g,
                none_response,
                start_ent,
                destination(paths[i]),
                total_distance(paths[i]),
            )) && (consistent ==> is_cheapest_clear(
                g,
                none_response,
                start_ent,
                destination(paths[i]),
                total_distance(paths[i]),
            )) by {
                assert(m.contains_key(found[i]));
                assert(accepts(store, &goal, found[i]));
                if consistent {
                    assert(is_cheapest_plain(
                        g,
                        none_response,
                        start_ent,
                        allowed,
                        found[i],
                        m[found[i]].weight,
                    ));
                }
            }
            assert forall|i: int, j: int| 0 <= i < j < paths.len() implies destination(
                #[trigger] paths[i],
            ) != destination(#[trigger] paths[j]) && (exact ==> total_distance(paths[i]).spec_le(
                total_distance(paths[j]),
            )) by {
                if exact {
                    assert(rising_weights(m, found));
                    assert(m[found[i]].weight.spec_le(m[found[j]].weight));
                }
            }
            assert forall|w: Seq<Stop>|
                #[trigger] is_walk(g, none_response, start_ent, w) && (if is_full(
                    paths.len(),
                    max_ends,
                ) {
                    exact && paths.len() > 0 && w.last().1.spec_lt(total_distance(paths.last()))
                } else {
                    (exact || max_distance is None) && within_cap(w.last().1, max_distance)
                }) implies !has_negative_edge(g, w.last().0) && (is_no_end(
                store,
                end_determiner,
                w.last().0,
            ) || exists|i: int|
                0 <= i < paths.len() && destination(#[trigger] paths[i]) == w.last().0) by {
                if paths.len() > 0 {
                    assert(total_distance(paths[paths.len() - 1]) == m[found[paths.len()
                        - 1]].weight);
                }
                assert(surveyed(g, none_response, allowed, max_distance, max_ends, found, m, w.last().1));
                if found.contains(w.last().0) {
                    let i = choose|i: int| 0 <= i < found.len() && found[i] == w.last().0;
                    assert(destination(paths[i]) == w.last().0);
                } else {
                    assert(rejects(store, &goal, w.last().0));
                }
            }
        }
    }
    result
}

} // verus!
