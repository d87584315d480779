//! How a search decides that a vertex is a destination.
use vstd::prelude::*;
use crate::types::{Heuristic, VertexId};

verus! {

/// A test for destinations.
pub trait Goal<C> {
    /// The test may be made on this vertex and these data.
    spec fn admits(&self, id: VertexId, data: &C) -> bool;

    /// The test can give the answer `answer` for this vertex and these data.
    spec fn verdict(&self, id: VertexId, data: &C, answer: bool) -> bool;

    /// Whether the vertex is a destination.
    fn test(&self, id: VertexId, data: &C) -> (answer: bool)
        requires
            self.admits(id, data),
        ensures
            self.verdict(id, data, answer),
    ;
}

/// The goal of a search for one given vertex.
pub struct FixedEnd {
    pub end: VertexId,
}

impl<C> Goal<C> for FixedEnd {
    open spec fn admits(&self, id: VertexId, data: &C) -> bool {
        true
    }

    open spec fn verdict(&self, id: VertexId, data: &C, answer: bool) -> bool {
        answer == (id == self.end)
    }

    fn test(&self, id: VertexId, data: &C) -> (answer: bool) {
        id == self.end
    }
}

/// The goal of a search for a vertex whose data a function accepts.
pub struct ComputedEnd<F> {
    pub end_determiner: F,
}

impl<C, F: Fn(&C) -> bool> Goal<C> for ComputedEnd<F> {
    open spec fn admits(&self, id: VertexId, data: &C) -> bool {
        call_requires(self.end_determiner, (data,))
    }

    open spec fn verdict(&self, id: VertexId, data: &C, answer: bool) -> bool {
        call_ensures(self.end_determiner, (data,), answer)
    }

    fn test(&self, id: VertexId, data: &C) -> (answer: bool) {
        (self.end_determiner)(data)
    }
}

/// The goal that every vertex meets.
pub struct EveryVertex;

impl<C> Goal<C> for EveryVertex {
    open spec fn admits(&self, id: VertexId, data: &C) -> bool {
        true
    }

    open spec fn verdict(&self, id: VertexId, data: &C, answer: bool) -> bool {
        answer
    }

    fn test(&self, id: VertexId, data: &C) -> (answer: bool) {
        true
    }
}

/// An estimate of what remains from a vertex to the destination.
pub trait Estimator<C> {
    /// The estimate may be made for this vertex and these data.
    spec fn admits(&self, id: VertexId, data: &C) -> bool;

    /// The estimate can come out as `h` for this vertex and these data.
    spec fn verdict(&self, id: VertexId, data: &C, h: Heuristic) -> bool;

    /// The estimate for the vertex.
    fn estimate(&self, id: VertexId, data: &C) -> (h: Heuristic)
        requires
            self.admits(id, data),
        ensures
            self.verdict(id, data, h),
    ;
}

/// The estimator of a search without estimates.
pub struct NoEstimate;

impl<C> Estimator<C> for NoEstimate {
    open spec fn admits(&self, id: VertexId, data: &C) -> bool {
        true
    }

    open spec fn verdict(&self, id: VertexId, data: &C, h: Heuristic) -> bool {
        h == Heuristic::spec_none()
    }

    fn estimate(&self, id: VertexId, data: &C) -> (h: Heuristic) {
        Heuristic::none()
    }
}

/// The estimator of a search for one given vertex: a function of the data
/// of a vertex and the data of the destination.
pub struct EndEstimate<'a, C, F> {
    pub heuristic_determiner: F,
    pub end_data: &'a C,
}

impl<'a, C, F: Fn(&C, &C) -> Heuristic> Estimator<C> for EndEstimate<'a, C, F> {
    open spec fn admits(&self, id: VertexId, data: &C) -> bool {
        call_requires(self.heuristic_determiner, (data, self.end_data))
    }

    open spec fn verdict(&self, id: VertexId, data: &C, h: Heuristic) -> bool {
        call_ensures(self.heuristic_determiner, (data, self.end_data), h)
    }

    fn estimate(&self, id: VertexId, data: &C) -> (h: Heuristic) {
        (self.heuristic_determiner)(data, self.end_data)
    }
}

/// The estimator of a search whose destination is not known beforehand: a
/// function of the data of a vertex.
pub struct DataEstimate<F> {
    pub heuristic_determiner: F,
}

impl<C, F: Fn(&C) -> Heuristic> Estimator<C> for DataEstimate<F> {
    open spec fn admits(&self, id: VertexId, data: &C) -> bool {
        call_requires(self.heuristic_determiner, (data,))
    }

    open spec fn verdict(&self, id: VertexId, data: &C, h: Heuristic) -> bool {
        call_ensures(self.heuristic_determiner, (data,), h)
    }

    fn estimate(&self, id: VertexId, data: &C) -> (h: Heuristic) {
        (self.heuristic_determiner)(data)
    }
}

} // verus!
