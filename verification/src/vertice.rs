//! A vertex of the directed graph: its integer key, the ordered collection
//! of its outgoing edges (parallel edges permitted), and the symmetric
//! collection of its incoming edges for reverse queries. Queries hand out
//! copies or immutable views, never live mutable aliases.

use crate::edge::Edge;
use vstd::prelude::*;

verus! {

/// The outgoing edges of `s` whose destination is `d`, in stored order.
pub open spec fn edges_to_spec(s: Seq<Edge>, d: i32) -> Seq<Edge>
    decreases s.len(),
{
    if s.len() == 0 {
        Seq::empty()
    } else {
        let rest = edges_to_spec(s.drop_last(), d);
        if s.last().destiny_key == d {
            rest.push(s.last())
        } else {
            rest
        }
    }
}

/// The incoming edges of `s` whose origin is `d`, in stored order.
pub open spec fn edges_from_spec(s: Seq<Edge>, d: i32) -> Seq<Edge>
    decreases s.len(),
{
    if s.len() == 0 {
        Seq::empty()
    } else {
        let rest = edges_from_spec(s.drop_last(), d);
        if s.last().origin_key == d {
            rest.push(s.last())
        } else {
            rest
        }
    }
}

/// The edges of `s` that survive a removal by (origin, destination, weight)
/// match: only edges equal on all three are deleted, parallel edges with a
/// different weight stay.
pub open spec fn remove_matching_spec(s: Seq<Edge>, origin: i32, destiny: i32, weight: i64) -> Seq<
    Edge,
>
    decreases s.len(),
{
    if s.len() == 0 {
        Seq::empty()
    } else {
        let rest = remove_matching_spec(s.drop_last(), origin, destiny, weight);
        let e = s.last();
        if e.origin_key == origin && e.destiny_key == destiny && e.weight == weight {
            rest
        } else {
            rest.push(e)
        }
    }
}

/// Every edge that survives a removal was already stored before it.
pub proof fn lemma_remove_matching_elements(s: Seq<Edge>, o: i32, d: i32, w: i64)
    ensures
        forall|k: int|
            0 <= k < remove_matching_spec(s, o, d, w).len() ==> exists|i: int|
                0 <= i < s.len() && s[i] == #[trigger] remove_matching_spec(s, o, d, w)[k],
    decreases s.len(),
{
    if s.len() > 0 {
        let rest = remove_matching_spec(s.drop_last(), o, d, w);
        lemma_remove_matching_elements(s.drop_last(), o, d, w);
        assert forall|k: int| 0 <= k < remove_matching_spec(s, o, d, w).len() implies exists|i: int|
            0 <= i < s.len() && s[i] == #[trigger] remove_matching_spec(s, o, d, w)[k] by {
            if k < rest.len() {
                let i = choose|i: int| 0 <= i < s.drop_last().len() && s.drop_last()[i] == rest[k];
                assert(s[i] == remove_matching_spec(s, o, d, w)[k]);
            } else {
                assert(remove_matching_spec(s, o, d, w)[k] == s.last());
                assert(s[s.len() - 1] == remove_matching_spec(s, o, d, w)[k]);
            }
        }
    }
}

/// A removal keeps edge ids pairwise distinct.
pub proof fn lemma_remove_matching_distinct_ids(s: Seq<Edge>, o: i32, d: i32, w: i64)
    requires
        forall|i: int, j: int| 0 <= i < j < s.len() ==> s[i].id != s[j].id,
    ensures
        forall|i: int, j: int|
            0 <= i < j < remove_matching_spec(s, o, d, w).len() ==> remove_matching_spec(
                s,
                o,
                d,
                w,
            )[i].id != remove_matching_spec(s, o, d, w)[j].id,
    decreases s.len(),
{
    if s.len() > 0 {
        let r = remove_matching_spec(s, o, d, w);
        let rest = remove_matching_spec(s.drop_last(), o, d, w);
        assert(forall|i: int, j: int|
            0 <= i < j < s.drop_last().len() ==> s.drop_last()[i].id != s.drop_last()[j].id);
        lemma_remove_matching_distinct_ids(s.drop_last(), o, d, w);
        lemma_remove_matching_elements(s.drop_last(), o, d, w);
        assert forall|i: int, j: int| 0 <= i < j < r.len() implies r[i].id != r[j].id by {
            if j < rest.len() {
                assert(r[i] == rest[i] && r[j] == rest[j]);
            } else {
                assert(r[j] == s.last());
                assert(r[i] == rest[i]);
                let m = choose|m: int|
                    0 <= m < s.drop_last().len() && s.drop_last()[m] == rest[i];
                assert(s[m].id != s[s.len() - 1].id);
            }
        }
    }
}

pub struct Vertice {
    pub key: i32,
    pub edges: Vec<Edge>,
    pub back_edges: Vec<Edge>,
}

impl Vertice {
    /// Every stored outgoing edge really leaves this vertex, and every
    /// stored incoming edge really enters it.
    pub open spec fn wf(self) -> bool {
        &&& forall|i: int| 0 <= i < self.edges@.len() ==> (#[trigger] self.edges@[i]).origin_key
            == self.key
        &&& forall|i: int|
            0 <= i < self.back_edges@.len() ==> (#[trigger] self.back_edges@[i]).destiny_key
                == self.key
    }

    pub fn new(vertice_key: i32) -> (v: Vertice)
        ensures
            v.key == vertice_key,
            v.edges@ == Seq::<Edge>::empty(),
            v.back_edges@ == Seq::<Edge>::empty(),
            v.wf(),
    {
        Vertice { key: vertice_key, edges: Vec::new(), back_edges: Vec::new() }
    }

    pub fn key(&self) -> (r: i32)
        ensures
            r == self.key,
    {
        self.key
    }

    /// Appends an outgoing edge. Parallel edges to the same destination are
    /// kept side by side, in insertion order.
    pub fn add_edge(&mut self, edge: Edge)
        requires
            edge.origin_key == old(self).key,
        ensures
            final(self).key == old(self).key,
            final(self).edges@ == old(self).edges@.push(edge),
            final(self).back_edges@ == old(self).back_edges@,
            old(self).wf() ==> final(self).wf(),
    {
        self.edges.push(edge);
    }

    /// Appends an incoming edge to the reverse adjacency.
    pub fn add_back_edge(&mut self, edge: Edge)
        requires
            edge.destiny_key == old(self).key,
        ensures
            final(self).key == old(self).key,
            final(self).back_edges@ == old(self).back_edges@.push(edge),
            final(self).edges@ == old(self).edges@,
            old(self).wf() ==> final(self).wf(),
    {
        self.back_edges.push(edge);
    }

    /// The outgoing edges that lead to `destiny_key`, or `None` when there
    /// is no such edge.
    pub fn get_edges_to(&self, destiny_key: i32) -> (r: Option<Vec<Edge>>)
        ensures
            match r {
                Some(v) => v@ == edges_to_spec(self.edges@, destiny_key) && v@.len() > 0,
                None => edges_to_spec(self.edges@, destiny_key).len() == 0,
            },
    {
        let mut out: Vec<Edge> = Vec::new();
        let mut i: usize = 0;
        while i < self.edges.len()
            invariant
                0 <= i <= self.edges@.len(),
                out@ == edges_to_spec(self.edges@.take(i as int), destiny_key),
            decreases self.edges@.len() - i,
        {
            let e = self.edges[i];
            proof {
                assert(self.edges@.take(i + 1).drop_last() =~= self.edges@.take(i as int));
                assert(self.edges@.take(i + 1).last() == self.edges@[i as int]);
            }
            if e.destiny_key == destiny_key {
                out.push(e);
            }
            i = i + 1;
        }
        proof {
            assert(self.edges@.take(self.edges@.len() as int) =~= self.edges@);
        }
        if out.len() == 0 {
            None
        } else {
            Some(out)
        }
    }

    /// Whether at least one outgoing edge leads to `destiny_key`.
    pub fn has_edge_to(&self, destiny_key: i32) -> (r: bool)
        ensures
            r == exists|i: int|
                0 <= i < self.edges@.len() && (#[trigger] self.edges@[i]).destiny_key
                    == destiny_key,
    {
        let mut i: usize = 0;
        while i < self.edges.len()
            invariant
                0 <= i <= self.edges@.len(),
                forall|j: int| 0 <= j < i ==> (#[trigger] self.edges@[j]).destiny_key != destiny_key,
            decreases self.edges@.len() - i,
        {
            if self.edges[i].destiny_key == destiny_key {
                return true;
            }
            i = i + 1;
        }
        false
    }

    /// Deletes the outgoing edges that match `e` on origin, destination and
    /// weight; parallel edges with another weight are left intact.
    pub fn remove_edge(&mut self, e: Edge)
        ensures
            final(self).key == old(self).key,
            final(self).edges@ == remove_matching_spec(
                old(self).edges@,
                e.origin_key,
                e.destiny_key,
                e.weight,
            ),
            final(self).back_edges@ == old(self).back_edges@,
            old(self).wf() ==> final(self).wf(),
    {
        let n = self.edges.len();
        let mut out: Vec<Edge> = Vec::new();
        let mut i: usize = 0;
        while i < n
            invariant
                0 <= i <= n,
                n == self.edges@.len(),
                self.edges@ == old(self).edges@,
                out@ == remove_matching_spec(
                    self.edges@.take(i as int),
                    e.origin_key,
                    e.destiny_key,
                    e.weight,
                ),
                forall|j: int|
                    0 <= j < out@.len() ==> old(self).wf() ==> (#[trigger] out@[j]).origin_key
                        == self.key,
            decreases n - i,
        {
            let cur = self.edges[i];
            proof {
                assert(self.edges@.take(i + 1).drop_last() =~= self.edges@.take(i as int));
                assert(self.edges@.take(i + 1).last() == self.edges@[i as int]);
            }
            if !(cur.origin_key == e.origin_key && cur.destiny_key == e.destiny_key && cur.weight
                == e.weight) {
                out.push(cur);
            }
            i = i + 1;
        }
        proof {
            assert(self.edges@.take(n as int) =~= self.edges@);
        }
        self.edges = out;
    }

    /// Deletes the incoming edges that match `e` on origin, destination and
    /// weight, mirroring `remove_edge` on the reverse adjacency.
    pub fn remove_back_edge(&mut self, e: Edge)
        ensures
            final(self).key == old(self).key,
            final(self).back_edges@ == remove_matching_spec(
                old(self).back_edges@,
                e.origin_key,
                e.destiny_key,
                e.weight,
            ),
            final(self).edges@ == old(self).edges@,
            old(self).wf() ==> final(self).wf(),
    {
        let n = self.back_edges.len();
        let mut out: Vec<Edge> = Vec::new();
        let mut i: usize = 0;
        while i < n
            invariant
                0 <= i <= n,
                n == self.back_edges@.len(),
                self.back_edges@ == old(self).back_edges@,
                out@ == remove_matching_spec(
                    self.back_edges@.take(i as int),
                    e.origin_key,
                    e.destiny_key,
                    e.weight,
                ),
                forall|j: int|
                    0 <= j < out@.len() ==> old(self).wf() ==> (#[trigger] out@[j]).destiny_key
                        == self.key,
            decreases n - i,
        {
            let cur = self.back_edges[i];
            proof {
                assert(self.back_edges@.take(i + 1).drop_last() =~= self.back_edges@.take(i as int));
                assert(self.back_edges@.take(i + 1).last() == self.back_edges@[i as int]);
            }
            if !(cur.origin_key == e.origin_key && cur.destiny_key == e.destiny_key && cur.weight
                == e.weight) {
                out.push(cur);
            }
            i = i + 1;
        }
        proof {
            assert(self.back_edges@.take(n as int) =~= self.back_edges@);
        }
        self.back_edges = out;
    }

    /// A copy of all outgoing edges, in stored order.
    pub fn edges_vec(&self) -> (r: Vec<Edge>)
        ensures
            r@ == self.edges@,
    {
        clone_edges(&self.edges)
    }

    /// A copy of all outgoing edges, in stored order.
    pub fn get_Edges_clone(&self) -> (r: Vec<Edge>)
        ensures
            r@ == self.edges@,
    {
        clone_edges(&self.edges)
    }

    /// An immutable view of the outgoing edges.
    pub fn get_Edges_ref(&self) -> (r: &Vec<Edge>)
        ensures
            r@ == self.edges@,
    {
        &self.edges
    }

    /// An immutable view of the outgoing edges.
    pub fn edges_vec_ref(&self) -> (r: &Vec<Edge>)
        ensures
            r@ == self.edges@,
    {
        &self.edges
    }

    /// A copy of all incoming edges, in stored order.
    pub fn back_edges_hashmap(&self) -> (r: Vec<Edge>)
        ensures
            r@ == self.back_edges@,
    {
        clone_edges(&self.back_edges)
    }

    /// Copies of the outgoing edges and of the incoming edges.
    pub fn get_all_edges_tuple(&self) -> (r: (Vec<Edge>, Vec<Edge>))
        ensures
            r.0@ == self.edges@,
            r.1@ == self.back_edges@,
    {
        (clone_edges(&self.edges), clone_edges(&self.back_edges))
    }

    /// The outgoing edges to `destiny_key` followed by the incoming edges
    /// from `destiny_key`.
    pub fn get_all_edges(&self, destiny_key: i32) -> (r: Vec<Edge>)
        ensures
            r@ == edges_to_spec(self.edges@, destiny_key) + edges_from_spec(
                self.back_edges@,
                destiny_key,
            ),
    {
        let mut out: Vec<Edge> = Vec::new();
        let mut i: usize = 0;
        while i < self.edges.len()
            invariant
                0 <= i <= self.edges@.len(),
                out@ == edges_to_spec(self.edges@.take(i as int), destiny_key),
            decreases self.edges@.len() - i,
        {
            let e = self.edges[i];
            proof {
                assert(self.edges@.take(i + 1).drop_last() =~= self.edges@.take(i as int));
                assert(self.edges@.take(i + 1).last() == self.edges@[i as int]);
            }
            if e.destiny_key == destiny_key {
                out.push(e);
            }
            i = i + 1;
        }
        proof {
            assert(self.edges@.take(self.edges@.len() as int) =~= self.edges@);
        }
        let ghost fwd = out@;
        let mut j: usize = 0;
        while j < self.back_edges.len()
            invariant
                0 <= j <= self.back_edges@.len(),
                out@ == fwd + edges_from_spec(self.back_edges@.take(j as int), destiny_key),
            decreases self.back_edges@.len() - j,
        {
            let e = self.back_edges[j];
            proof {
                assert(self.back_edges@.take(j + 1).drop_last() =~= self.back_edges@.take(j as int));
                assert(self.back_edges@.take(j + 1).last() == self.back_edges@[j as int]);
            }
            if e.origin_key == destiny_key {
                out.push(e);
            }
            j = j + 1;
        }
        proof {
            assert(self.back_edges@.take(self.back_edges@.len() as int) =~= self.back_edges@);
        }
        out
    }
}

/// A field-for-field copy of a vector of edges.
pub fn clone_edges(v: &Vec<Edge>) -> (r: Vec<Edge>)
    ensures
        r@ == v@,
{
    let mut out: Vec<Edge> = Vec::new();
    let mut i: usize = 0;
    while i < v.len()
        invariant
            0 <= i <= v@.len(),
            out@ == v@.take(i as int),
        decreases v@.len() - i,
    {
        out.push(v[i]);
        proof {
            assert(out@ =~= v@.take(i + 1));
        }
        i = i + 1;
    }
    proof {
        assert(v@.take(v@.len() as int) =~= v@);
    }
    out
}

} // verus!
