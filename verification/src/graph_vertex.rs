//! What a search needs from a vertex: its outgoing edges, in a fixed order.
use vstd::prelude::*;
use crate::types::{Edge, VertexId};

verus! {

/// A vertex that can list its outgoing edges.
pub trait GraphVertex {
    /// The outgoing edges, in the order in which they are enumerated.
    spec fn edges(&self) -> Seq<Edge>;

    /// The targets of the outgoing edges, in order.
    fn get_neighbours(&self) -> (r: Vec<VertexId>)
        ensures
            r@ == edge_targets(self.edges()),
    ;

    /// The outgoing edges with their weights, in order.
    fn get_neighbours_with_weight(&self) -> (r: Vec<Edge>)
        ensures
            r@ == self.edges(),
    ;
}

/// The targets of a sequence of edges.
pub open spec fn edge_targets(edges: Seq<Edge>) -> Seq<VertexId> {
    edges.map_values(|e: Edge| e.0)
}

/// Some edge of `edges` leads to `target`.
pub open spec fn has_edge_to(edges: Seq<Edge>, target: VertexId) -> bool {
    exists|i: int| 0 <= i < edges.len() && (#[trigger] edges[i]).0 == target
}

/// `i` is the first position in `edges` of an edge to `target`.
pub open spec fn is_first_edge_to(edges: Seq<Edge>, target: VertexId, i: int) -> bool {
    &&& 0 <= i < edges.len()
    &&& edges[i].0 == target
    &&& forall|j: int| 0 <= j < i ==> (#[trigger] edges[j]).0 != target
}

/// A vertex that keeps its edges in a vector.
pub struct StandardGraphVertex {
    neighbours: Vec<Edge>,
}

impl View for StandardGraphVertex {
    type V = Seq<Edge>;

    closed spec fn view(&self) -> Seq<Edge> {
        self.neighbours@
    }
}

impl StandardGraphVertex {
    /// A vertex without edges.
    pub fn new() -> (r: Self)
        ensures
            r@ == Seq::<Edge>::empty(),
    {
        Self { neighbours: Vec::new() }
    }

    /// A vertex with the given edges.
    pub fn new_with_edges(edges: Vec<Edge>) -> (r: Self)
        ensures
            r@ == edges@,
    {
        Self { neighbours: edges }
    }

    /// The first position of an edge to `other_vertex`, if there is one.
    pub fn find_edge(&self, other_vertex: VertexId) -> (r: Option<usize>)
        ensures
            match r {
                Some(i) => is_first_edge_to(self@, other_vertex, i as int),
                None => !has_edge_to(self@, other_vertex),
            },
    {
        let mut i: usize = 0;
        while i < self.neighbours.len()
            invariant
                i <= self.neighbours.len(),
                forall|j: int| 0 <= j < i ==> (#[trigger] self@[j]).0 != other_vertex,
            decreases self.neighbours.len() - i,
        {
            if self.neighbours[i].0 == other_vertex {
                return Some(i);
            }
            i += 1;
        }
        None
    }

    /// Adds an edge to `other_vertex` unless there is one already. Returns
    /// whether there was one.
    pub fn add_edge(&mut self, other_vertex: VertexId, weight: Option<i64>) -> (exists: bool)
        ensures
            exists == has_edge_to(old(self)@, other_vertex),
            exists ==> final(self)@ == old(self)@,
            !exists ==> final(self)@ == old(self)@.push((other_vertex, weight)),
    {
        let exists = self.find_edge(other_vertex).is_some();
        if !exists {
            self.neighbours.push((other_vertex, weight));
        }
        exists
    }

    /// Removes the first edge to `other_vertex`; the last edge takes its
    /// place. Returns whether there was such an edge.
    pub fn remove_edge(&mut self, other_vertex: VertexId) -> (removed: bool)
        ensures
            removed == has_edge_to(old(self)@, other_vertex),
            !removed ==> final(self)@ == old(self)@,
            removed ==> exists|i: int| #[trigger]
                is_first_edge_to(old(self)@, other_vertex, i) && final(self)@ == old(self)@.update(
                    i,
                    old(self)@.last(),
                ).drop_last(),
    {
        match self.find_edge(other_vertex) {
            Some(pos) => {
                self.neighbours.swap_remove(pos);
                assert(is_first_edge_to(old(self)@, other_vertex, pos as int));
                assert(self@ =~= old(self)@.update(pos as int, old(self)@.last()).drop_last());
                true
            },
            None => false,
        }
    }

    /// Gives the first edge to `other_vertex` the weight `new_weight`.
    /// Returns whether there was such an edge.
    pub fn change_weight_of(&mut self, other_vertex: VertexId, new_weight: Option<i64>) -> (changed:
        bool)
        ensures
            changed == has_edge_to(old(self)@, other_vertex),
            !changed ==> final(self)@ == old(self)@,
            changed ==> exists|i: int| #[trigger]
                is_first_edge_to(old(self)@, other_vertex, i) && final(self)@ == old(self)@.update(
                    i,
                    (other_vertex, new_weight),
                ),
    {
        match self.find_edge(other_vertex) {
            Some(pos) => {
                self.neighbours[pos] = (other_vertex, new_weight);
                assert(is_first_edge_to(old(self)@, other_vertex, pos as int));
                assert(self@ =~= old(self)@.update(pos as int, (other_vertex, new_weight)));
                true
            },
            None => false,
        }
    }
}

impl GraphVertex for StandardGraphVertex {
    open spec fn edges(&self) -> Seq<Edge> {
        self@
    }

    fn get_neighbours(&self) -> (r: Vec<VertexId>) {
        let mut out: Vec<VertexId> = Vec::new();
        let mut i: usize = 0;
        while i < self.neighbours.len()
            invariant
                i <= self.neighbours.len(),
                out@ == edge_targets(self@).subrange(0, i as int),
            decreases self.neighbours.len() - i,
        {
            out.push(self.neighbours[i].0);
            assert(out@ == edge_targets(self@).subrange(0, i + 1));
            i += 1;
        }
        assert(out@ == edge_targets(self@));
        out
    }

    fn get_neighbours_with_weight(&self) -> (r: Vec<Edge>) {
        let mut out: Vec<Edge> = Vec::new();
        let mut i: usize = 0;
        while i < self.neighbours.len()
            invariant
                i <= self.neighbours.len(),
                out@ == self@.subrange(0, i as int),
            decreases self.neighbours.len() - i,
        {
            out.push(self.neighbours[i]);
            assert(out@ == self@.subrange(0, i + 1));
            i += 1;
        }
        assert(out@ == self@);
        out
    }
}

} // verus!
