//! A directed, weighted edge. Every edge carries a globally unique,
//! monotonically increasing `id`, assigned by the graph store at insertion;
//! the id lets a traversal treat parallel edges between the same endpoints
//! as distinct.

use vstd::prelude::*;

verus! {

#[derive(Clone, Copy, Debug, PartialEq, Eq, Structural, Hash)]
pub struct Edge {
    pub id: usize,
    pub origin_key: i32,
    pub destiny_key: i32,
    pub weight: i64,
}

impl Edge {
    /// Builds an edge. The id is chosen by the graph store, which owns the
    /// edge-id counter.
    pub fn new(origin_vertice: i32, destiny_vertice: i32, weight: i64, id: usize) -> (e: Edge)
        ensures
            e == (Edge { id, origin_key: origin_vertice, destiny_key: destiny_vertice, weight }),
    {
        Edge { id, destiny_key: destiny_vertice, origin_key: origin_vertice, weight }
    }

    pub fn get_destiny_key(&self) -> (r: i32)
        ensures
            r == self.destiny_key,
    {
        self.destiny_key
    }

    pub fn get_origin_key(&self) -> (r: i32)
        ensures
            r == self.origin_key,
    {
        self.origin_key
    }

    pub fn get_id(&self) -> (r: usize)
        ensures
            r == self.id,
    {
        self.id
    }

    pub fn get_weight(&self) -> (r: i64)
        ensures
            r == self.weight,
    {
        self.weight
    }

    /// The deterministic traversal order of a vertex's outgoing edges:
    /// by destination key, then by edge id for parallel-edge tie-break.
    pub open spec fn order_before_spec(self, other: Edge) -> bool {
        self.destiny_key < other.destiny_key || (self.destiny_key == other.destiny_key && self.id
            <= other.id)
    }

    pub fn order_before(&self, other: &Edge) -> (r: bool)
        ensures
            r == self.order_before_spec(*other),
    {
        self.destiny_key < other.destiny_key || (self.destiny_key == other.destiny_key && self.id
            <= other.id)
    }
}

} // verus!
