//! The vertex store: which vertices exist, their edges and their data.
use vstd::prelude::*;
use std::collections::HashMap;
use crate::graph_vertex::GraphVertex;
use crate::types::{Edge, GraphError, VertexId};

verus! {

broadcast use vstd::std_specs::hash::group_hash_axioms;

/// A graph as the contracts see it: each vertex of the store with its
/// outgoing edges in order.
pub type Graph = Map<VertexId, Seq<Edge>>;

/// A vertex of the store together with the data attached to it.
pub struct StoreEntry<V, C> {
    pub vertex: V,
    pub data: C,
}

/// A snapshot of the vertices that a search can visit. An edge to an
/// identifier that is not in the store cannot be walked.
pub struct VertexStore<V, C> {
    entries: HashMap<VertexId, StoreEntry<V, C>>,
}

impl<V, C> View for VertexStore<V, C> {
    type V = Map<VertexId, StoreEntry<V, C>>;

    closed spec fn view(&self) -> Map<VertexId, StoreEntry<V, C>> {
        self.entries@
    }
}

impl<V, C> VertexStore<V, C> {
    /// An empty store.
    pub fn new() -> (r: Self)
        ensures
            r@ == Map::<VertexId, StoreEntry<V, C>>::empty(),
    {
        Self { entries: HashMap::new() }
    }

    /// The store never holds more than finitely many vertices.
    pub proof fn lemma_finite(&self)
        ensures
            self@.dom().finite(),
    {
    }

    /// Puts a vertex and its data under `id`, in place of what was there.
    pub fn insert(&mut self, id: VertexId, vertex: V, data: C)
        ensures
            final(self)@ == old(self)@.insert(id, (StoreEntry { vertex, data })),
    {
        self.entries.insert(id, StoreEntry { vertex, data });
    }

    /// Whether `id` is a vertex of the store.
    pub fn contains(&self, id: VertexId) -> (r: bool)
        ensures
            r == self@.contains_key(id),
    {
        self.entries.contains_key(&id)
    }

    /// The number of vertices.
    pub fn len(&self) -> (r: usize)
        ensures
            r == self@.dom().len(),
            self@.dom().finite(),
    {
        self.entries.len()
    }

    /// The vertex and the data under `id`, or `InvalidEntity` where the
    /// store has no such vertex.
    pub fn lookup(&self, id: VertexId) -> (r: Result<&StoreEntry<V, C>, GraphError>)
        ensures
            match r {
                Ok(entry) => self@.contains_key(id) && *entry == self@[id],
                Err(e) => !self@.contains_key(id) && e == GraphError::InvalidEntity,
            },
    {
        match self.entries.get(&id) {
            Some(entry) => Ok(entry),
            None => Err(GraphError::InvalidEntity),
        }
    }
}

impl<V: GraphVertex, C> VertexStore<V, C> {
    /// The graph that the store describes.
    pub open spec fn graph(&self) -> Graph {
        Map::new(|id: VertexId| self@.contains_key(id), |id: VertexId| self@[id].vertex.edges())
    }
}

} // verus!
