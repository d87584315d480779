//! Value types shared by every search: errors, weights, estimates and paths.
use vstd::prelude::*;

verus! {

/// Identifier of a vertex. The store owns the identifiers; a search only
/// compares them for equality and uses them as keys.
pub type VertexId = u64;

/// One outgoing edge of a vertex: its target and its weight. A weight of
/// `None` is an edge whose weight is unknown.
pub type Edge = (VertexId, Option<i64>);

/// Why a search did not produce a result.
#[derive(Debug, Clone, Copy, PartialEq, Eq, Structural)]
pub enum GraphError {
    /// The frontier was exhausted without reaching a destination.
    NoPath,
    /// The start or the end vertex is not in the store.
    InvalidEntity,
    /// A finite edge weight below zero was read.
    NegativeWeight,
    /// The predecessor records do not lead back to a start vertex.
    InvalidPath,
}

impl GraphError {
    /// The sentence that describes the error.
    pub open spec fn spec_message(self) -> Seq<char> {
        match self {
            GraphError::NoPath => "no path could be found between the provided vertices"@,
            GraphError::InvalidEntity => "the provided entity is not a valid GraphVertex"@,
            GraphError::NegativeWeight => "a provided edge weight was negative"@,
            GraphError::InvalidPath => "the provided set of (vertex, previous vertex) pairs does not result in a valid path"@,
        }
    }

    /// A sentence that describes the error.
    pub fn message(&self) -> (text: &'static str)
        ensures
            text@ == self.spec_message(),
    {
        match self {
            GraphError::NoPath => "no path could be found between the provided vertices",
            GraphError::InvalidEntity => "the provided entity is not a valid GraphVertex",
            GraphError::NegativeWeight => "a provided edge weight was negative",
            GraphError::InvalidPath => "the provided set of (vertex, previous vertex) pairs does not result in a valid path",
        }
    }
}

/// What a weighted search does with an edge whose weight is unknown.
#[derive(Debug, Clone, Copy, PartialEq, Eq, Structural)]
pub enum NoneValueResponse {
    /// The edge is not there.
    Impassable,
    /// The edge is taken, and counted as one crossing of an unknown edge.
    Infinity,
    /// The edge is taken with the given finite weight.
    Value(u64),
}

/// Cumulative cost of a walk: how many edges of unknown weight it crosses,
/// and the sum of its finite weights. Fewer crossings always win; the finite
/// sum decides between equal crossings.
///
/// Both fields saturate. A weight whose crossings can no longer be counted is
/// the greatest weight, `PathWeight::top()`.
#[derive(Debug, Clone, Copy, PartialEq, Eq, Structural)]
pub struct PathWeight {
    pub infinite_crossings: u64,
    pub finite_sum: u64,
}

/// An estimate of the cost that remains: finite, or infinite.
#[derive(Debug, Clone, Copy, PartialEq, Eq, Structural)]
pub enum Heuristic {
    Finite(u64),
    Infinite,
}

impl PathWeight {
    /// The weight of the empty walk.
    pub open spec fn spec_zero() -> PathWeight {
        PathWeight { infinite_crossings: 0, finite_sum: 0 }
    }

    /// The greatest weight.
    pub open spec fn spec_top() -> PathWeight {
        PathWeight { infinite_crossings: u64::MAX, finite_sum: u64::MAX }
    }

    /// `self` is at most `other`: lexicographic on crossings, then sum.
    pub open spec fn spec_le(self, other: PathWeight) -> bool {
        self.infinite_crossings < other.infinite_crossings || (self.infinite_crossings
            == other.infinite_crossings && self.finite_sum <= other.finite_sum)
    }

    /// `self` is strictly below `other`.
    pub open spec fn spec_lt(self, other: PathWeight) -> bool {
        self.infinite_crossings < other.infinite_crossings || (self.infinite_crossings
            == other.infinite_crossings && self.finite_sum < other.finite_sum)
    }

    /// The weight after one more edge of finite weight `w`.
    pub open spec fn spec_add_finite(self, w: u64) -> PathWeight {
        PathWeight {
            infinite_crossings: self.infinite_crossings,
            finite_sum: if self.finite_sum + w > u64::MAX {
                u64::MAX
            } else {
                (self.finite_sum + w) as u64
            },
        }
    }

    /// The weight after one more edge of unknown weight.
    pub open spec fn spec_add_crossing(self) -> PathWeight {
        if self.infinite_crossings + 1 >= u64::MAX {
            PathWeight::spec_top()
        } else {
            PathWeight {
                infinite_crossings: (self.infinite_crossings + 1) as u64,
                finite_sum: self.finite_sum,
            }
        }
    }

    /// The weight with an estimate added: a finite estimate adds to the sum,
    /// an infinite one counts as a crossing.
    pub open spec fn spec_add_heuristic(self, h: Heuristic) -> PathWeight {
        match h {
            Heuristic::Finite(x) => self.spec_add_finite(x),
            Heuristic::Infinite => self.spec_add_crossing(),
        }
    }

    /// The weight with an estimate added, without saturation, as the pair
    /// (crossings, sum) by which a queue orders.
    pub open spec fn spec_priority(self, h: Heuristic) -> (u128, u128) {
        match h {
            Heuristic::Finite(x) => (
                self.infinite_crossings as u128,
                (self.finite_sum + x) as u128,
            ),
            Heuristic::Infinite => ((self.infinite_crossings + 1) as u128, self.finite_sum as u128),
        }
    }

    /// The weight after an edge of weight `w` under the policy `policy`, or
    /// `None` where the edge cannot be walked: its weight is negative, or
    /// unknown under `Impassable`.
    pub open spec fn spec_extend(self, w: Option<i64>, policy: NoneValueResponse) -> Option<
        PathWeight,
    > {
        match w {
            Some(x) => if x < 0 {
                None
            } else {
                Some(self.spec_add_finite(x as u64))
            },
            None => match policy {
                NoneValueResponse::Impassable => None,
                NoneValueResponse::Infinity => Some(self.spec_add_crossing()),
                NoneValueResponse::Value(x) => Some(self.spec_add_finite(x)),
            },
        }
    }

    /// The weight of the empty walk.
    pub fn zero() -> (r: PathWeight)
        ensures
            r == PathWeight::spec_zero(),
    {
        PathWeight { infinite_crossings: 0, finite_sum: 0 }
    }

    /// The greatest weight.
    pub fn top() -> (r: PathWeight)
        ensures
            r == PathWeight::spec_top(),
    {
        PathWeight { infinite_crossings: u64::MAX, finite_sum: u64::MAX }
    }

    /// A weight without crossings.
    pub fn finite(sum: u64) -> (r: PathWeight)
        ensures
            r == (PathWeight { infinite_crossings: 0, finite_sum: sum }),
    {
        PathWeight { infinite_crossings: 0, finite_sum: sum }
    }

    /// Whether `self` is at most `other`.
    pub fn le(&self, other: &PathWeight) -> (r: bool)
        ensures
            r == self.spec_le(*other),
    {
        self.infinite_crossings < other.infinite_crossings || (self.infinite_crossings
            == other.infinite_crossings && self.finite_sum <= other.finite_sum)
    }

    /// Whether `self` is strictly below `other`.
    pub fn lt(&self, other: &PathWeight) -> (r: bool)
        ensures
            r == self.spec_lt(*other),
    {
        self.infinite_crossings < other.infinite_crossings || (self.infinite_crossings
            == other.infinite_crossings && self.finite_sum < other.finite_sum)
    }

    /// The weight after one more edge of finite weight `w`; the sum
    /// saturates.
    pub fn add_finite(&self, w: u64) -> (r: PathWeight)
        ensures
            r == self.spec_add_finite(w),
    {
        let sum: u64 = if self.finite_sum > u64::MAX - w {
            u64::MAX
        } else {
            self.finite_sum + w
        };
        PathWeight { infinite_crossings: self.infinite_crossings, finite_sum: sum }
    }

    /// The weight after one more edge of unknown weight; once the crossings
    /// can no longer be counted, the greatest weight.
    pub fn add_crossing(&self) -> (r: PathWeight)
        ensures
            r == self.spec_add_crossing(),
    {
        if self.infinite_crossings >= u64::MAX - 1 {
            PathWeight::top()
        } else {
            PathWeight {
                infinite_crossings: self.infinite_crossings + 1,
                finite_sum: self.finite_sum,
            }
        }
    }

    /// The weight with an estimate added.
    pub fn add_heuristic(&self, h: Heuristic) -> (r: PathWeight)
        ensures
            r == self.spec_add_heuristic(h),
    {
        match h {
            Heuristic::Finite(x) => self.add_finite(x),
            Heuristic::Infinite => self.add_crossing(),
        }
    }

    /// The weight with an estimate added, without saturation, as the pair
    /// (crossings, sum) by which a queue orders.
    pub fn priority(&self, h: Heuristic) -> (r: (u128, u128))
        ensures
            r == self.spec_priority(h),
    {
        match h {
            Heuristic::Finite(x) => (self.infinite_crossings as u128, self.finite_sum as u128 + x as u128),
            Heuristic::Infinite => (self.infinite_crossings as u128 + 1, self.finite_sum as u128),
        }
    }

    /// The weight after an edge, as `spec_extend` says it.
    pub fn extend(&self, w: Option<i64>, policy: NoneValueResponse) -> (r: Option<PathWeight>)
        ensures
            r == self.spec_extend(w, policy),
    {
        match w {
            Some(x) => if x < 0 {
                None
            } else {
                Some(self.add_finite(x as u64))
            },
            None => match policy {
                NoneValueResponse::Impassable => None,
                NoneValueResponse::Infinity => Some(self.add_crossing()),
                NoneValueResponse::Value(x) => Some(self.add_finite(x)),
            },
        }
    }
}

impl Heuristic {
    /// The estimate that adds nothing.
    pub open spec fn spec_none() -> Heuristic {
        Heuristic::Finite(0)
    }

    /// The estimate that adds nothing.
    pub fn none() -> (r: Heuristic)
        ensures
            r == Heuristic::spec_none(),
    {
        Heuristic::Finite(0)
    }
}

/// The order on weights is transitive.
pub proof fn lemma_weight_le_trans(a: PathWeight, b: PathWeight, c: PathWeight)
    requires
        a.spec_le(b),
        b.spec_le(c),
    ensures
        a.spec_le(c),
{
}

/// Any two weights are comparable, and `lt` is the negation of the reversed `le`.
pub proof fn lemma_weight_total(a: PathWeight, b: PathWeight)
    ensures
        a.spec_le(b) || b.spec_le(a),
        a.spec_lt(b) <==> !b.spec_le(a),
        a.spec_le(b) && b.spec_le(a) ==> a == b,
{
}

/// Walking an edge never lowers a weight, and keeps the order of two weights.
pub proof fn lemma_extend_monotone(
    a: PathWeight,
    b: PathWeight,
    w: Option<i64>,
    policy: NoneValueResponse,
)
    requires
        a.spec_le(b),
        a.spec_extend(w, policy) is Some,
    ensures
        b.spec_extend(w, policy) is Some,
        a.spec_le(a.spec_extend(w, policy).unwrap()),
        a.spec_extend(w, policy).unwrap().spec_le(b.spec_extend(w, policy).unwrap()),
{
}

/// The order of the pairs by which a queue orders: by the first, then by
/// the second.
pub open spec fn pair_le(a: (u128, u128), b: (u128, u128)) -> bool {
    a.0 < b.0 || (a.0 == b.0 && a.1 <= b.1)
}

/// With the same estimate, priorities stand as the weights do.
pub proof fn lemma_priority_order(a: PathWeight, b: PathWeight, h: Heuristic)
    ensures
        pair_le(a.spec_priority(h), b.spec_priority(h)) <==> a.spec_le(b),
{
}

/// The empty walk weighs least, the top weight most.
pub proof fn lemma_weight_bounds(a: PathWeight)
    ensures
        PathWeight::spec_zero().spec_le(a),
        a.spec_le(PathWeight::spec_top()),
{
}

/// A path as a search returns it: the vertices from the destination back to
/// the source, each with a payload.
pub struct GraphPath<D> {
    path: Vec<(VertexId, D)>,
}

impl<D> View for GraphPath<D> {
    type V = Seq<(VertexId, D)>;

    closed spec fn view(&self) -> Seq<(VertexId, D)> {
        self.path@
    }
}

impl<D> GraphPath<D> {
    /// The vertices of the path, destination first.
    pub open spec fn vertices(&self) -> Seq<VertexId> {
        self@.map_values(|node: (VertexId, D)| node.0)
    }

    /// A path of the given nodes, destination first.
    pub fn new(path: Vec<(VertexId, D)>) -> (r: Self)
        ensures
            r@ == path@,
    {
        Self { path }
    }

    /// The path that stays at `start_ent`.
    pub fn single(start_ent: VertexId, val: D) -> (r: Self)
        ensures
            r@ == seq![(start_ent, val)],
    {
        let mut path = Vec::new();
        path.push((start_ent, val));
        Self { path }
    }

    /// The number of nodes.
    pub fn len(&self) -> (r: usize)
        ensures
            r == self@.len(),
    {
        self.path.len()
    }

    /// The nodes of the path, destination first.
    pub fn nodes(&self) -> (r: &Vec<(VertexId, D)>)
        ensures
            r@ == self@,
    {
        &self.path
    }

    /// Gives the nodes up, destination first.
    pub fn into_nodes(self) -> (r: Vec<(VertexId, D)>)
        ensures
            r@ == self@,
    {
        self.path
    }

    /// The vertices of the path without their payloads, destination first.
    pub fn vertex_ids(&self) -> (r: Vec<VertexId>)
        ensures
            r@ == self.vertices(),
    {
        let mut out: Vec<VertexId> = Vec::new();
        let mut i: usize = 0;
        while i < self.path.len()
            invariant
                i <= self.path.len(),
                out@ == self.vertices().subrange(0, i as int),
            decreases self.path.len() - i,
        {
            out.push(self.path[i].0);
            assert(out@ == self.vertices().subrange(0, i + 1));
            i += 1;
        }
        assert(out@ == self.vertices());
        out
    }
}

} // verus!
