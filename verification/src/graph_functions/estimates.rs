//! Estimates that fit the edges: what it means for an estimate to be
//! consistent, and why the priorities then rise along every walk.
use vstd::prelude::*;
use crate::graph_functions::goal::Estimator;
use crate::model::{is_walk, lemma_walk_rising, steps_along, weighted_step, Stop};
use crate::store::{Graph, VertexStore};
use crate::types::{
    lemma_priority_order, pair_le, Heuristic, NoneValueResponse, PathWeight, VertexId,
};

verus! {

/// What an edge adds to a walk, as a pair (crossings, sum); `None` where
/// the edge cannot be walked.
pub open spec fn edge_gain(w: Option<i64>, policy: NoneValueResponse) -> Option<(nat, nat)> {
    match w {
        Some(x) => if x < 0 {
            None
        } else {
            Some((0nat, x as nat))
        },
        None => match policy {
            NoneValueResponse::Impassable => None,
            NoneValueResponse::Infinity => Some((1nat, 0nat)),
            NoneValueResponse::Value(x) => Some((0nat, x as nat)),
        },
    }
}

/// What an estimate adds to a weight, as a pair (crossings, sum).
pub open spec fn estimate_gain(h: Heuristic) -> (nat, nat) {
    match h {
        Heuristic::Finite(x) => (0nat, x as nat),
        Heuristic::Infinite => (1nat, 0nat),
    }
}

/// The order of pairs (crossings, sum): by the first, then by the second.
pub open spec fn gain_le(a: (nat, nat), b: (nat, nat)) -> bool {
    a.0 < b.0 || (a.0 == b.0 && a.1 <= b.1)
}

/// The weight has not saturated: neither its crossings nor its sum stand
/// at their greatest value.
pub open spec fn is_clear(d: PathWeight) -> bool {
    d.infinite_crossings < u64::MAX && d.finite_sum < u64::MAX
}

/// The estimates that an estimator can make for the vertices of a store.
pub open spec fn allowed_estimates<V, C, E: Estimator<C>>(
    store: &VertexStore<V, C>,
    estimator: &E,
) -> Set<(VertexId, Heuristic)> {
    Set::new(
        |p: (VertexId, Heuristic)| store@.contains_key(p.0) && estimator.verdict(
            p.0,
            &store@[p.0].data,
            p.1,
        ),
    )
}

/// No estimate is anything but nothing.
pub open spec fn bare(allowed: Set<(VertexId, Heuristic)>) -> bool {
    forall|v: VertexId, h: Heuristic| #[trigger] allowed.contains((v, h)) ==> h == Heuristic::spec_none()
}

/// The estimates are consistent: there is one for every vertex, and over
/// no edge does the estimate fall by more than the edge adds.
pub open spec fn is_consistent(
    g: Graph,
    policy: NoneValueResponse,
    allowed: Set<(VertexId, Heuristic)>,
) -> bool {
    &&& forall|v: VertexId| #[trigger] g.contains_key(v) ==> exists|h: Heuristic| allowed.contains((v, h))
    &&& forall|u: VertexId, k: int, hu: Heuristic, hv: Heuristic|
        g.contains_key(u) && 0 <= k < g[u].len() && g.contains_key(g[u][k].0) && edge_gain(
            g[u][k].1,
            policy,
        ) is Some && #[trigger] allowed.contains((u, hu)) && #[trigger] allowed.contains(
            (g[u][k].0, hv),
        ) ==> gain_le(
            estimate_gain(hu),
            (
                edge_gain(g[u][k].1, policy).unwrap().0 + estimate_gain(hv).0,
                edge_gain(g[u][k].1, policy).unwrap().1 + estimate_gain(hv).1,
            ),
        )
}

/// The estimates can be relied on: they are all nothing, or consistent.
pub open spec fn sound(
    g: Graph,
    policy: NoneValueResponse,
    allowed: Set<(VertexId, Heuristic)>,
) -> bool {
    bare(allowed) || is_consistent(g, policy, allowed)
}

/// A weight of which a search with these estimates can be sure: any
/// weight where the estimates are all nothing, else one that has not
/// saturated.
pub open spec fn plain(allowed: Set<(VertexId, Heuristic)>, d: PathWeight) -> bool {
    bare(allowed) || is_clear(d)
}

/// No walk from `start` to `v` of which the search can be sure weighs less
/// than `d`.
pub open spec fn is_cheapest_plain(
    g: Graph,
    policy: NoneValueResponse,
    start: VertexId,
    allowed: Set<(VertexId, Heuristic)>,
    v: VertexId,
    d: PathWeight,
) -> bool {
    forall|w: Seq<Stop>|
        #[trigger] is_walk(g, policy, start, w) && w.last().0 == v && plain(allowed, w.last().1)
            ==> d.spec_le(w.last().1)
}

/// A weight that has not saturated after an edge had not saturated before
/// it, and the edge added to it what it adds.
pub proof fn lemma_extend_clear(d: PathWeight, w: Option<i64>, policy: NoneValueResponse)
    requires
        d.spec_extend(w, policy) is Some,
        is_clear(d.spec_extend(w, policy).unwrap()),
    ensures
        is_clear(d),
        edge_gain(w, policy) is Some,
        d.spec_extend(w, policy).unwrap().infinite_crossings == d.infinite_crossings + edge_gain(
            w,
            policy,
        ).unwrap().0,
        d.spec_extend(w, policy).unwrap().finite_sum == d.finite_sum + edge_gain(
            w,
            policy,
        ).unwrap().1,
{
}

/// Along a walk to a weight that has not saturated, no weight has
/// saturated.
pub proof fn lemma_walk_clear(
    g: Graph,
    policy: NoneValueResponse,
    start: VertexId,
    w: Seq<Stop>,
    i: int,
    j: int,
)
    requires
        is_walk(g, policy, start, w),
        0 <= i <= j < w.len(),
        is_clear(w[j].1),
    ensures
        is_clear(w[i].1),
    decreases j - i,
{
    if i < j {
        assert(weighted_step(g, policy, w[j - 1], w[j]));
        let k = choose|k: int| #[trigger] steps_along(g, policy, w[j - 1], w[j], k);
        lemma_extend_clear(w[j - 1].1, g[w[j - 1].0][k].1, policy);
        lemma_walk_clear(g, policy, start, w, i, j - 1);
    }
}

/// The order of the pairs by which a queue orders is transitive.
pub proof fn lemma_pair_le_trans(a: (u128, u128), b: (u128, u128), c: (u128, u128))
    requires
        pair_le(a, b),
        pair_le(b, c),
    ensures
        pair_le(a, c),
{
}

/// Along a walk of which the search can be sure, the priorities rise: the
/// weight at a stop with an estimate for its vertex is no greater than the
/// weight at a later stop with an estimate for that one's vertex, as long as
/// one stop has one estimate.
pub proof fn lemma_priorities_rise(
    g: Graph,
    policy: NoneValueResponse,
    start: VertexId,
    allowed: Set<(VertexId, Heuristic)>,
    w: Seq<Stop>,
    i: int,
    j: int,
    hi: Heuristic,
    hj: Heuristic,
)
    requires
        is_walk(g, policy, start, w),
        0 <= i <= j < w.len(),
        sound(g, policy, allowed),
        plain(allowed, w[j].1),
        bare(allowed) ==> hi == Heuristic::spec_none() && hj == Heuristic::spec_none(),
        !bare(allowed) ==> allowed.contains((w[i].0, hi)) && allowed.contains((w[j].0, hj)),
        i == j ==> hi == hj,
    ensures
        pair_le(w[i].1.spec_priority(hi), w[j].1.spec_priority(hj)),
    decreases j - i,
{
    if bare(allowed) {
        lemma_walk_rising(g, policy, start, w, i, j);
        lemma_priority_order(w[i].1, w[j].1, Heuristic::spec_none());
    } else if i < j {
        let mid = i + 1;
        assert(weighted_step(g, policy, w[i], w[mid]));
        let k = choose|k: int| #[trigger] steps_along(g, policy, w[i], w[mid], k);
        let hm = if mid == j {
            hj
        } else {
            choose|h: Heuristic| allowed.contains((w[mid].0, h))
        };
        assert(allowed.contains((w[mid].0, hm)));
        lemma_walk_clear(g, policy, start, w, mid, j);
        lemma_extend_clear(w[i].1, g[w[i].0][k].1, policy);
        assert(allowed.contains((g[w[i].0][k].0, hm)));
        assert(pair_le(w[i].1.spec_priority(hi), w[mid].1.spec_priority(hm)));
        lemma_priorities_rise(g, policy, start, allowed, w, mid, j, hm, hj);
        lemma_pair_le_trans(
            w[i].1.spec_priority(hi),
            w[mid].1.spec_priority(hm),
            w[j].1.spec_priority(hj),
        );
    }
}

} // verus!
