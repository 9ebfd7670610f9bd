//! The graph store: sole owner of an index-keyed arena of vertices. It
//! exposes creation, lookup and adjacency queries; every query returns a
//! copy or an immutable view, never a live mutable alias. The store owns
//! the edge-id counter, so edge ids are unique across the whole graph's
//! lifetime. The declared vertex/edge counts given at construction are
//! advisory metadata and are not reconciled with the actual contents.

use crate::edge::Edge;
use crate::vertice::{clone_edges, edges_to_spec, lemma_remove_matching_distinct_ids,
    lemma_remove_matching_elements, remove_matching_spec, Vertice};
use vstd::prelude::*;

verus! {

/// The predecessor keys of `k`: for each vertex in stored order, the origin
/// of each of its outgoing edges whose destination is `k`.
pub open spec fn preds_spec(s: Seq<Vertice>, k: i32) -> Seq<i32>
    decreases s.len(),
{
    if s.len() == 0 {
        Seq::empty()
    } else {
        preds_spec(s.drop_last(), k) + edges_to_spec(s.last().edges@, k).map_values(
            |e: Edge| e.origin_key,
        )
    }
}

pub struct DiGraph {
    pub vertices_num: u32,
    pub edges_num: u32,
    pub vertices: Vec<Vertice>,
    pub next_edge_id: usize,
}

/// Whether some vertex of `s` has key `k`.
pub open spec fn contains_key_seq(s: Seq<Vertice>, k: i32) -> bool {
    exists|i: int| 0 <= i < s.len() && (#[trigger] s[i]).key == k
}

/// The index of the vertex of `s` with key `k`.
pub open spec fn index_of_seq(s: Seq<Vertice>, k: i32) -> int {
    choose|i: int| 0 <= i < s.len() && (#[trigger] s[i]).key == k
}

impl DiGraph {
    pub open spec fn contains_key_spec(self, k: i32) -> bool {
        contains_key_seq(self.vertices@, k)
    }

    pub open spec fn index_of_spec(self, k: i32) -> int {
        index_of_seq(self.vertices@, k)
    }

    /// The unique vertex whose key is `k` (meaningful under `wf` when the
    /// key is present).
    pub open spec fn vertice_spec(self, k: i32) -> Vertice {
        self.vertices@[self.index_of_spec(k)]
    }

    /// The outgoing adjacency of `k`, empty when `k` is absent.
    pub open spec fn edges_of_spec(self, k: i32) -> Seq<Edge> {
        if self.contains_key_spec(k) {
            self.vertice_spec(k).edges@
        } else {
            Seq::empty()
        }
    }

    /// The incoming adjacency of `k`, empty when `k` is absent.
    pub open spec fn back_of_spec(self, k: i32) -> Seq<Edge> {
        if self.contains_key_spec(k) {
            self.vertice_spec(k).back_edges@
        } else {
            Seq::empty()
        }
    }

    pub open spec fn keys_spec(self) -> Seq<i32> {
        self.vertices@.map_values(|v: Vertice| v.key)
    }

    pub open spec fn keys_unique(self) -> bool {
        forall|i: int, j: int|
            0 <= i < j < self.vertices@.len() ==> (#[trigger] self.vertices@[i]).key != (
            #[trigger] self.vertices@[j]).key
    }

    /// Edge ids are unique across the whole graph.
    pub open spec fn ids_unique(self) -> bool {
        forall|i1: int, j1: int, i2: int, j2: int|
            0 <= i1 < self.vertices@.len() && 0 <= j1 < self.vertices@[i1].edges@.len() && 0 <= i2
                < self.vertices@.len() && 0 <= j2 < self.vertices@[i2].edges@.len() && !(i1 == i2
                && j1 == j2) ==> (#[trigger] self.vertices@[i1].edges@[j1]).id != (
            #[trigger] self.vertices@[i2].edges@[j2]).id
    }

    /// Every stored edge id was allocated below the current counter.
    pub open spec fn ids_below_counter(self) -> bool {
        forall|i: int, j: int|
            0 <= i < self.vertices@.len() && 0 <= j < self.vertices@[i].edges@.len() ==> (
            #[trigger] self.vertices@[i].edges@[j]).id < self.next_edge_id
    }

    /// Every stored edge's destination exists as a vertex (its origin is the
    /// owning vertex by the vertex's own invariant).
    pub open spec fn endpoints_exist(self) -> bool {
        forall|i: int, j: int|
            0 <= i < self.vertices@.len() && 0 <= j < self.vertices@[i].edges@.len()
                ==> self.contains_key_spec(
                (#[trigger] self.vertices@[i].edges@[j]).destiny_key,
            )
    }

    pub open spec fn wf(self) -> bool {
        &&& self.keys_unique()
        &&& forall|i: int| 0 <= i < self.vertices@.len() ==> (#[trigger] self.vertices@[i]).wf()
        &&& self.ids_unique()
        &&& self.ids_below_counter()
        &&& self.endpoints_exist()
    }

    /// Under unique keys, any index holding key `k` is the index the spec
    /// functions denote.
    pub proof fn lemma_index_unique(self, i: int, k: i32)
        requires
            self.keys_unique(),
            0 <= i < self.vertices@.len(),
            self.vertices@[i].key == k,
        ensures
            self.contains_key_spec(k),
            self.index_of_spec(k) == i,
            self.vertice_spec(k) == self.vertices@[i],
    {
        assert(self.contains_key_spec(k));
        let j = self.index_of_spec(k);
        assert(0 <= j < self.vertices@.len() && self.vertices@[j].key == k);
        if i != j {
            assert(self.vertices@[i].key != self.vertices@[j].key);
        }
    }

    pub fn new(vertice_num: u32, edge_num: u32) -> (g: DiGraph)
        ensures
            g.vertices_num == vertice_num,
            g.edges_num == edge_num,
            g.vertices@ == Seq::<Vertice>::empty(),
            g.next_edge_id == 0,
            g.wf(),
    {
        DiGraph { vertices_num: vertice_num, edges_num: edge_num, vertices: Vec::new(), next_edge_id: 0 }
    }

    /// The declared (advisory) vertex count given at construction.
    pub fn get_vertices_length(&self) -> (r: u32)
        ensures
            r == self.vertices_num,
    {
        self.vertices_num
    }

    /// The declared (advisory) edge count given at construction.
    pub fn get_edges_lenght(&self) -> (r: u32)
        ensures
            r == self.edges_num,
    {
        self.edges_num
    }

    /// The number of vertices actually stored.
    pub fn vertex_count(&self) -> (r: usize)
        ensures
            r == self.vertices@.len(),
    {
        self.vertices.len()
    }

    /// The current edge-id counter: the id the next inserted edge will get.
    pub fn edge_id_counter(&self) -> (r: usize)
        ensures
            r == self.next_edge_id,
    {
        self.next_edge_id
    }

    fn find_index(&self, key: i32) -> (r: Option<usize>)
        ensures
            match r {
                Some(i) => 0 <= i < self.vertices@.len() && self.vertices@[i as int].key == key,
                None => !self.contains_key_spec(key),
            },
    {
        let mut i: usize = 0;
        while i < self.vertices.len()
            invariant
                0 <= i <= self.vertices@.len(),
                forall|j: int| 0 <= j < i ==> (#[trigger] self.vertices@[j]).key != key,
            decreases self.vertices@.len() - i,
        {
            if self.vertices[i].key() == key {
                return Some(i);
            }
            i = i + 1;
        }
        None
    }

    /// Whether a vertex with the given key exists.
    pub fn vertice_exists(&self, vert_key: i32) -> (r: bool)
        ensures
            r == self.contains_key_spec(vert_key),
    {
        match self.find_index(vert_key) {
            Some(i) => {
                proof {
                    assert(self.contains_key_spec(vert_key));
                }
                true
            },
            None => false,
        }
    }

    /// The keys of all stored vertices, in stored (insertion) order.
    pub fn get_vertice_key_array(&self) -> (r: Vec<i32>)
        ensures
            r@ == self.keys_spec(),
    {
        let mut out: Vec<i32> = Vec::new();
        let mut i: usize = 0;
        while i < self.vertices.len()
            invariant
                0 <= i <= self.vertices@.len(),
                out@ == self.vertices@.take(i as int).map_values(|v: Vertice| v.key),
            decreases self.vertices@.len() - i,
        {
            out.push(self.vertices[i].key());
            proof {
                assert(self.vertices@.take(i + 1).map_values(|v: Vertice| v.key) =~= self.vertices@
                    .take(i as int).map_values(|v: Vertice| v.key).push(self.vertices@[i as int].key));
            }
            i = i + 1;
        }
        proof {
            assert(self.vertices@.take(self.vertices@.len() as int) =~= self.vertices@);
        }
        out
    }

    /// A copy of the vertex with the given key, or `None` when absent.
    pub fn get_vertice_cloneRef(&self, vertice_key: i32) -> (r: Option<Vertice>)
        requires
            self.wf(),
        ensures
            match r {
                Some(v) => {
                    &&& self.contains_key_spec(vertice_key)
                    &&& v.key == vertice_key
                    &&& v.edges@ == self.edges_of_spec(vertice_key)
                    &&& v.back_edges@ == self.back_of_spec(vertice_key)
                    &&& v.wf()
                },
                None => !self.contains_key_spec(vertice_key),
            },
    {
        match self.find_index(vertice_key) {
            Some(i) => {
                proof {
                    self.lemma_index_unique(i as int, vertice_key);
                }
                let v = &self.vertices[i];
                Some(
                    Vertice {
                        key: v.key,
                        edges: clone_edges(&v.edges),
                        back_edges: clone_edges(&v.back_edges),
                    },
                )
            },
            None => None,
        }
    }

    /// Creates a vertex with the given key; a no-op when the key exists.
    pub fn add_vertice(&mut self, vertice_key: i32)
        requires
            old(self).wf(),
        ensures
            final(self).wf(),
            final(self).contains_key_spec(vertice_key),
            old(self).contains_key_spec(vertice_key) ==> *final(self) == *old(self),
            !old(self).contains_key_spec(vertice_key) ==> (final(self).vertices@.len() == old(
                self,
            ).vertices@.len() + 1 && final(self).vertices@.last().key == vertice_key
                && final(self).vertices@.last().edges@.len() == 0
                && final(self).vertices@.last().back_edges@.len() == 0 && final(self).vertices@.take(
                old(self).vertices@.len() as int,
            ) == old(self).vertices@),
            final(self).vertices_num == old(self).vertices_num,
            final(self).edges_num == old(self).edges_num,
            final(self).next_edge_id == old(self).next_edge_id,
            forall|k: i32|
                #[trigger] final(self).contains_key_spec(k) <==> (old(self).contains_key_spec(k) || k
                    == vertice_key),
            forall|k: i32|
                old(self).contains_key_spec(k) ==> #[trigger] final(self).edges_of_spec(k) == old(
                    self,
                ).edges_of_spec(k) && #[trigger] final(self).back_of_spec(k) == old(self).back_of_spec(k),
            !old(self).contains_key_spec(vertice_key) ==> final(self).edges_of_spec(
                vertice_key,
            ) == Seq::<Edge>::empty() && final(self).back_of_spec(vertice_key) == Seq::<Edge>::empty(),
    {
        match self.find_index(vertice_key) {
            Some(i) => {
                proof {
                    assert(self.contains_key_spec(vertice_key));
                }
            },
            None => {
                let v = Vertice::new(vertice_key);
                let ghost pre = *self;
                self.vertices.push(v);
                proof {
                    let n = pre.vertices@.len() as int;
                    assert(self.vertices@.take(n) =~= pre.vertices@);
                    assert forall|k: i32| pre.contains_key_spec(k) implies #[trigger] self.contains_key_spec(
                        k,
                    ) by {
                        let i = choose|i: int|
                            0 <= i < pre.vertices@.len() && (#[trigger] pre.vertices@[i]).key == k;
                        assert(self.vertices@[i].key == k);
                    }
                    assert forall|k: i32| self.contains_key_spec(k) implies (
                    pre.contains_key_spec(k) || k == vertice_key) by {
                        let i = choose|i: int|
                            0 <= i < self.vertices@.len() && (#[trigger] self.vertices@[i]).key
                                == k;
                        if i < n {
                            assert(pre.vertices@[i].key == k);
                        }
                    }
                    assert(self.vertices@[n].key == vertice_key);
                    self.lemma_index_unique(n, vertice_key);
                    assert forall|k: i32| pre.contains_key_spec(k) implies #[trigger] self.edges_of_spec(
                        k,
                    ) == pre.edges_of_spec(k) && #[trigger] self.back_of_spec(k)
                        == pre.back_of_spec(k) by {
                        let i = choose|i: int|
                            0 <= i < pre.vertices@.len() && (#[trigger] pre.vertices@[i]).key == k;
                        pre.lemma_index_unique(i, k);
                        self.lemma_index_unique(i, k);
                    }
                    assert(self.wf());
                }
            },
        }
    }

    /// Inserts a fresh edge `(origin, destiny, weight)`: missing endpoints
    /// are auto-created, the edge gets the next id, it is appended to the
    /// origin's forward adjacency and to the destination's backward
    /// adjacency, and nothing else changes.
    #[verifier::rlimit(100)]
    #[verifier::spinoff_prover]
    pub fn add_edge(&mut self, origin_vert: i32, destiny_vert: i32, weight: i64)
        requires
            old(self).wf(),
            old(self).next_edge_id < usize::MAX,
        ensures
            final(self).wf(),
            add_edge_spec(*old(self), *final(self), origin_vert, destiny_vert, weight),
    {
        let ghost pre = *old(self);
        self.add_vertice(origin_vert);
        let ghost g1 = *self;
        self.add_vertice(destiny_vert);
        let ghost mid = *self;
        proof {
            assert forall|k: i32|
                (#[trigger] mid.edges_of_spec(k)) == pre.edges_of_spec(k) && mid.back_of_spec(k)
                    == pre.back_of_spec(k) by {
                if pre.contains_key_spec(k) {
                    assert(g1.edges_of_spec(k) == pre.edges_of_spec(k));
                    assert(g1.contains_key_spec(k));
                } else if g1.contains_key_spec(k) {
                    assert(k == origin_vert);
                    assert(g1.edges_of_spec(k) == Seq::<Edge>::empty());
                    assert(g1.back_of_spec(k) == Seq::<Edge>::empty());
                } else if mid.contains_key_spec(k) {
                    assert(k == destiny_vert);
                    assert(mid.edges_of_spec(k) == Seq::<Edge>::empty());
                    assert(mid.back_of_spec(k) == Seq::<Edge>::empty());
                }
            }
            assert forall|k: i32| #[trigger] mid.contains_key_spec(k) <==> (pre.contains_key_spec(
                k,
            ) || k == origin_vert || k == destiny_vert) by {}
        }
        let eid = self.next_edge_id;
        let e = Edge::new(origin_vert, destiny_vert, weight, eid);
        let idx_o = match self.find_index(origin_vert) {
            Some(i) => i,
            None => {
                proof {
                    assert(false);
                }
                unreached()
            },
        };
        proof {
            self.lemma_index_unique(idx_o as int, origin_vert);
        }
        let ghost io = idx_o as int;
        let mut vo = self.vertices.remove(idx_o);
        vo.add_edge(e);
        if origin_vert == destiny_vert {
            vo.add_back_edge(e);
        }
        self.vertices.insert(idx_o, vo);
        let ghost m1 = *self;
        proof {
            assert(m1.vertices@ =~= mid.vertices@.update(io, m1.vertices@[io]));
            lemma_update_vertex(mid, m1, io);
            m1.lemma_index_unique(io, origin_vert);
            mid.lemma_index_unique(io, origin_vert);
            assert(m1.vertices@[io].edges@ == mid.vertices@[io].edges@.push(e));
            assert(m1.edges_of_spec(origin_vert) == mid.edges_of_spec(origin_vert).push(e));
            if origin_vert == destiny_vert {
                assert(m1.back_of_spec(destiny_vert) == mid.back_of_spec(destiny_vert).push(e));
            } else {
                assert(m1.back_of_spec(origin_vert) == mid.back_of_spec(origin_vert));
            }
        }
        if origin_vert != destiny_vert {
            proof {
                assert(m1.contains_key_spec(destiny_vert));
            }
            let idx_d = match self.find_index(destiny_vert) {
                Some(i) => i,
                None => {
                    proof {
                        assert(false);
                    }
                    unreached()
                },
            };
            proof {
                self.lemma_index_unique(idx_d as int, destiny_vert);
            }
            let ghost id2 = idx_d as int;
            let mut vd = self.vertices.remove(idx_d);
            vd.add_back_edge(e);
            self.vertices.insert(idx_d, vd);
            proof {
                assert(self.vertices@ =~= m1.vertices@.update(id2, self.vertices@[id2]));
                lemma_update_vertex(m1, *self, id2);
                self.lemma_index_unique(id2, destiny_vert);
                assert(self.edges_of_spec(destiny_vert) == m1.edges_of_spec(destiny_vert));
            }
        }
        let ghost m2 = *self;
        self.next_edge_id = self.next_edge_id + 1;
        proof {
            let post = *self;
            assert(post.vertices@ == m2.vertices@);
            // the counter change does not touch the adjacency model
            assert forall|k: i32| (#[trigger] post.contains_key_spec(k)) == m2.contains_key_spec(
                k,
            ) by {
                assert(contains_key_seq(post.vertices@, k) == contains_key_seq(m2.vertices@, k));
            }
            assert forall|k: i32| (#[trigger] post.edges_of_spec(k)) == m2.edges_of_spec(k) by {
                assert(contains_key_seq(post.vertices@, k) == contains_key_seq(m2.vertices@, k));
                assert(index_of_seq(post.vertices@, k) == index_of_seq(m2.vertices@, k));
            }
            assert forall|k: i32| (#[trigger] post.back_of_spec(k)) == m2.back_of_spec(k) by {
                assert(contains_key_seq(post.vertices@, k) == contains_key_seq(m2.vertices@, k));
                assert(index_of_seq(post.vertices@, k) == index_of_seq(m2.vertices@, k));
            }
            assert forall|k: i32| #[trigger] post.contains_key_spec(k) <==> (
            pre.contains_key_spec(k) || k == origin_vert || k == destiny_vert) by {
                assert(post.contains_key_spec(k) == m2.contains_key_spec(k));
                assert(m2.contains_key_spec(k) == m1.contains_key_spec(k));
                assert(m1.contains_key_spec(k) == mid.contains_key_spec(k));
            }
            if origin_vert != destiny_vert {
                assert(m2.edges_of_spec(origin_vert) == m1.edges_of_spec(origin_vert));
            }
            assert(post.edges_of_spec(origin_vert) == mid.edges_of_spec(origin_vert).push(e));
            assert(post.back_of_spec(destiny_vert) == mid.back_of_spec(destiny_vert).push(e));
            assert forall|k: i32| k != origin_vert implies #[trigger] post.edges_of_spec(k)
                == pre.edges_of_spec(k) by {
                assert(m1.edges_of_spec(k) == mid.edges_of_spec(k));
                assert(m2.edges_of_spec(k) == m1.edges_of_spec(k));
            }
            assert forall|k: i32| k != destiny_vert implies #[trigger] post.back_of_spec(k)
                == pre.back_of_spec(k) by {
                assert(m1.back_of_spec(k) == mid.back_of_spec(k));
                assert(m2.back_of_spec(k) == m1.back_of_spec(k));
            }
            // well-formedness, via the pointwise shape of the new arena
            let n = post.vertices@.len() as int;
            assert forall|i: int|
                0 <= i < n implies (#[trigger] post.vertices@[i]).key == mid.vertices@[i].key && (
                #[trigger] post.vertices@[i]).wf() by {
                assert(m1.vertices@ == mid.vertices@.update(io, m1.vertices@[io]));
            }
            assert forall|i: int|
                0 <= i < n && i != io implies (#[trigger] post.vertices@[i]).edges@
                    == mid.vertices@[i].edges@ by {
                assert(m1.vertices@ == mid.vertices@.update(io, m1.vertices@[io]));
            }
            assert(post.vertices@[io].edges@ == mid.vertices@[io].edges@.push(e));
            lemma_wf_after_append(mid, post, io, e);
        }
    }

    /// Deletes every edge between `origin` and `destiny` whose weight equals
    /// `weight`, from the forward and from the backward adjacency; other
    /// parallel edges, and everything else, stay. A no-op when none match.
    #[verifier::rlimit(80)]
    pub fn remove_edge(&mut self, origin_vert: i32, destiny_vert: i32, weight: i64)
        requires
            old(self).wf(),
        ensures
            final(self).wf(),
            remove_edge_spec(*old(self), *final(self), origin_vert, destiny_vert, weight),
    {
        let ghost pre = *old(self);
        let e = Edge::new(origin_vert, destiny_vert, weight, 0);
        let found = self.find_index(origin_vert);
        match found {
            Some(idx_o) => {
                proof {
                    self.lemma_index_unique(idx_o as int, origin_vert);
                }
                let ghost io = idx_o as int;
                let mut vo = self.vertices.remove(idx_o);
                vo.remove_edge(e);
                if origin_vert == destiny_vert {
                    vo.remove_back_edge(e);
                }
                self.vertices.insert(idx_o, vo);
                let ghost m1 = *self;
                proof {
                    assert(m1.vertices@ =~= pre.vertices@.update(io, m1.vertices@[io]));
                    lemma_update_vertex(pre, m1, io);
                    m1.lemma_index_unique(io, origin_vert);
                }
                if origin_vert != destiny_vert {
                    match self.find_index(destiny_vert) {
                        Some(idx_d) => {
                            proof {
                                self.lemma_index_unique(idx_d as int, destiny_vert);
                            }
                            let ghost id2 = idx_d as int;
                            let mut vd = self.vertices.remove(idx_d);
                            vd.remove_back_edge(e);
                            self.vertices.insert(idx_d, vd);
                            proof {
                                assert(self.vertices@ =~= m1.vertices@.update(
                                    id2,
                                    self.vertices@[id2],
                                ));
                                lemma_update_vertex(m1, *self, id2);
                                self.lemma_index_unique(id2, destiny_vert);
                            }
                        },
                        None => {
                            proof {
                                assert(!pre.contains_key_spec(destiny_vert));
                                assert(pre.back_of_spec(destiny_vert) == Seq::<Edge>::empty());
                            }
                        },
                    }
                }
                proof {
                    let post = *self;
                    lemma_remove_matching_elements(
                        pre.edges_of_spec(origin_vert),
                        origin_vert,
                        destiny_vert,
                        weight,
                    );
                    assert(forall|i: int, j: int|
                        0 <= i < j < pre.edges_of_spec(origin_vert).len() ==> pre.edges_of_spec(
                            origin_vert,
                        )[i].id != pre.edges_of_spec(origin_vert)[j].id) by {
                        pre.lemma_index_unique(
                            pre.index_of_spec(origin_vert),
                            origin_vert,
                        );
                    }
                    lemma_remove_matching_distinct_ids(
                        pre.edges_of_spec(origin_vert),
                        origin_vert,
                        destiny_vert,
                        weight,
                    );
                    let n = post.vertices@.len() as int;
                    assert forall|i: int, j: int|
                        0 <= i < n && 0 <= j < post.vertices@[i].edges@.len() implies exists|
                        i0: int,
                        j0: int,
                    |
                        0 <= i0 < n && 0 <= j0 < pre.vertices@[i0].edges@.len() && (i == i0 || i0
                            == io) && (i != io ==> j == j0) && pre.vertices@[i0].edges@[j0] == (
                        #[trigger] post.vertices@[i].edges@[j]) by {
                        if i == io {
                            let k = choose|k: int|
                                0 <= k < pre.edges_of_spec(origin_vert).len()
                                    && pre.edges_of_spec(origin_vert)[k]
                                    == post.vertices@[io].edges@[j];
                            assert(pre.vertices@[io].edges@[k] == post.vertices@[i].edges@[j]);
                        } else {
                            assert(post.vertices@[i].key == pre.vertices@[i].key);
                            assert(post.vertices@[i].key != origin_vert);
                            pre.lemma_index_unique(i, pre.vertices@[i].key);
                            post.lemma_index_unique(i, post.vertices@[i].key);
                            assert(post.edges_of_spec(post.vertices@[i].key) == pre.edges_of_spec(
                                pre.vertices@[i].key,
                            ));
                            assert(pre.vertices@[i].edges@[j] == post.vertices@[i].edges@[j]);
                        }
                    }
                    assert(post.ids_unique()) by {
                        assert forall|i1: int, j1: int, i2: int, j2: int|
                            0 <= i1 < n && 0 <= j1 < post.vertices@[i1].edges@.len() && 0 <= i2 < n
                                && 0 <= j2 < post.vertices@[i2].edges@.len() && !(i1 == i2 && j1
                                == j2) implies (post.vertices@[i1].edges@[j1]).id != (
                        post.vertices@[i2].edges@[j2]).id by {
                            if i1 == io && i2 == io {
                                assert(post.vertices@[io].edges@ == remove_matching_spec(
                                    pre.edges_of_spec(origin_vert),
                                    origin_vert,
                                    destiny_vert,
                                    weight,
                                ));
                            }
                        }
                    }
                    assert(post.ids_below_counter());
                    assert(post.endpoints_exist());
                    assert(post.wf());
                }
            },
            None => {
                proof {
                    assert(!pre.contains_key_spec(origin_vert));
                }
            },
        }
    }

    /// The keys of the direct successors of `vertice_key` (one entry per
    /// outgoing edge, in stored order), or `None` when the vertex is absent.
    pub fn get_sucessor(&self, vertice_key: i32) -> (r: Option<Vec<i32>>)
        requires
            self.wf(),
        ensures
            match r {
                Some(v) => self.contains_key_spec(vertice_key) && v@ == self.edges_of_spec(
                    vertice_key,
                ).map_values(|e: Edge| e.destiny_key),
                None => !self.contains_key_spec(vertice_key),
            },
    {
        match self.find_index(vertice_key) {
            Some(i) => {
                proof {
                    self.lemma_index_unique(i as int, vertice_key);
                }
                let vert = &self.vertices[i];
                let mut out: Vec<i32> = Vec::new();
                let mut j: usize = 0;
                while j < vert.edges.len()
                    invariant
                        0 <= j <= vert.edges@.len(),
                        out@ == vert.edges@.take(j as int).map_values(|e: Edge| e.destiny_key),
                    decreases vert.edges@.len() - j,
                {
                    out.push(vert.edges[j].destiny_key);
                    proof {
                        assert(vert.edges@.take(j + 1).map_values(|e: Edge| e.destiny_key)
                            =~= vert.edges@.take(j as int).map_values(|e: Edge| e.destiny_key).push(
                            vert.edges@[j as int].destiny_key,
                        ));
                    }
                    j = j + 1;
                }
                proof {
                    assert(vert.edges@.take(vert.edges@.len() as int) =~= vert.edges@);
                }
                Some(out)
            },
            None => None,
        }
    }

    /// A copy of the outgoing edges of `vertice_key`, or `None` when absent.
    pub fn get_edges(&self, vertice_key: i32) -> (r: Option<Vec<Edge>>)
        requires
            self.wf(),
        ensures
            match r {
                Some(v) => self.contains_key_spec(vertice_key) && v@ == self.edges_of_spec(
                    vertice_key,
                ),
                None => !self.contains_key_spec(vertice_key),
            },
    {
        match self.find_index(vertice_key) {
            Some(i) => {
                proof {
                    self.lemma_index_unique(i as int, vertice_key);
                }
                Some(clone_edges(&self.vertices[i].edges))
            },
            None => None,
        }
    }

    /// A copy of the incoming edges of `vertice_key` (the backward
    /// adjacency), or `None` when absent.
    pub fn get_edges_to(&self, vertice_key: i32) -> (r: Option<Vec<Edge>>)
        requires
            self.wf(),
        ensures
            match r {
                Some(v) => self.contains_key_spec(vertice_key) && v@ == self.back_of_spec(
                    vertice_key,
                ),
                None => !self.contains_key_spec(vertice_key),
            },
    {
        match self.find_index(vertice_key) {
            Some(i) => {
                proof {
                    self.lemma_index_unique(i as int, vertice_key);
                }
                Some(clone_edges(&self.vertices[i].back_edges))
            },
            None => None,
        }
    }

    /// The keys of the direct predecessors of `vertice_key`, found by
    /// scanning every vertex's forward adjacency in stored order; `None`
    /// when the vertex is absent.
    pub fn get_predecessor(&self, vertice_key: i32) -> (r: Option<Vec<i32>>)
        requires
            self.wf(),
        ensures
            match r {
                Some(v) => self.contains_key_spec(vertice_key) && v@ == preds_spec(
                    self.vertices@,
                    vertice_key,
                ),
                None => !self.contains_key_spec(vertice_key),
            },
    {
        if !self.vertice_exists(vertice_key) {
            return None;
        }
        let mut out: Vec<i32> = Vec::new();
        let mut i: usize = 0;
        while i < self.vertices.len()
            invariant
                0 <= i <= self.vertices@.len(),
                out@ == preds_spec(self.vertices@.take(i as int), vertice_key),
            decreases self.vertices@.len() - i,
        {
            let vert = &self.vertices[i];
            let ghost base = out@;
            let mut j: usize = 0;
            while j < vert.edges.len()
                invariant
                    0 <= j <= vert.edges@.len(),
                    out@ == base + edges_to_spec(vert.edges@.take(j as int), vertice_key)
                        .map_values(|e: Edge| e.origin_key),
                decreases vert.edges@.len() - j,
            {
                let e = vert.edges[j];
                proof {
                    assert(vert.edges@.take(j + 1).drop_last() =~= vert.edges@.take(j as int));
                    assert(vert.edges@.take(j + 1).last() == vert.edges@[j as int]);
                    if e.destiny_key == vertice_key {
                        assert(edges_to_spec(vert.edges@.take(j + 1), vertice_key).map_values(
                            |e2: Edge| e2.origin_key,
                        ) =~= edges_to_spec(vert.edges@.take(j as int), vertice_key).map_values(
                            |e2: Edge| e2.origin_key,
                        ).push(e.origin_key));
                    }
                }
                if e.destiny_key == vertice_key {
                    out.push(e.origin_key);
                }
                j = j + 1;
            }
            proof {
                assert(vert.edges@.take(vert.edges@.len() as int) =~= vert.edges@);
                assert(self.vertices@.take(i + 1).drop_last() =~= self.vertices@.take(i as int));
                assert(self.vertices@.take(i + 1).last() == self.vertices@[i as int]);
            }
            i = i + 1;
        }
        proof {
            assert(self.vertices@.take(self.vertices@.len() as int) =~= self.vertices@);
        }
        Some(out)
    }
}

/// What `add_edge` does: the counter advances by one, the endpoints exist
/// afterwards, the fresh edge is appended to the origin's forward adjacency
/// and to the destination's backward adjacency, and every other vertex and
/// adjacency is untouched.
pub open spec fn add_edge_spec(
    pre: DiGraph,
    post: DiGraph,
    origin: i32,
    destiny: i32,
    weight: i64,
) -> bool {
    let e = Edge { id: pre.next_edge_id, origin_key: origin, destiny_key: destiny, weight };
    &&& post.next_edge_id == pre.next_edge_id + 1
    &&& post.vertices_num == pre.vertices_num
    &&& post.edges_num == pre.edges_num
    &&& forall|k: i32|
        #[trigger] post.contains_key_spec(k) <==> (pre.contains_key_spec(k) || k == origin || k
            == destiny)
    &&& post.edges_of_spec(origin) == pre.edges_of_spec(origin).push(e)
    &&& post.back_of_spec(destiny) == pre.back_of_spec(destiny).push(e)
    &&& forall|k: i32| k != origin ==> #[trigger] post.edges_of_spec(k) == pre.edges_of_spec(k)
    &&& forall|k: i32| k != destiny ==> #[trigger] post.back_of_spec(k) == pre.back_of_spec(k)
}

/// What `remove_edge` does: exactly the matching-weight edges between the
/// pair leave both adjacencies; no vertex is created or deleted and no other
/// adjacency changes.
pub open spec fn remove_edge_spec(
    pre: DiGraph,
    post: DiGraph,
    origin: i32,
    destiny: i32,
    weight: i64,
) -> bool {
    &&& !pre.contains_key_spec(origin) ==> post == pre
    &&& pre.contains_key_spec(origin) ==> remove_edge_present_spec(
        pre,
        post,
        origin,
        destiny,
        weight,
    )
}

/// The removal equations, for a present origin vertex.
pub open spec fn remove_edge_present_spec(
    pre: DiGraph,
    post: DiGraph,
    origin: i32,
    destiny: i32,
    weight: i64,
) -> bool {
    &&& post.next_edge_id == pre.next_edge_id
    &&& post.vertices_num == pre.vertices_num
    &&& post.edges_num == pre.edges_num
    &&& forall|k: i32| #[trigger] post.contains_key_spec(k) <==> pre.contains_key_spec(k)
    &&& post.edges_of_spec(origin) == remove_matching_spec(
        pre.edges_of_spec(origin),
        origin,
        destiny,
        weight,
    )
    &&& post.back_of_spec(destiny) == remove_matching_spec(
        pre.back_of_spec(destiny),
        origin,
        destiny,
        weight,
    )
    &&& forall|k: i32| k != origin ==> #[trigger] post.edges_of_spec(k) == pre.edges_of_spec(k)
    &&& forall|k: i32| k != destiny ==> #[trigger] post.back_of_spec(k) == pre.back_of_spec(k)
}

/// A graph stays well-formed when one fresh edge, carrying the old counter
/// value as id, is appended to the adjacency of its origin vertex while the
/// counter moves past it.
pub proof fn lemma_wf_after_append(mid: DiGraph, post: DiGraph, io: int, e: Edge)
    requires
        mid.wf(),
        0 <= io < mid.vertices@.len(),
        post.vertices@.len() == mid.vertices@.len(),
        post.next_edge_id > mid.next_edge_id,
        e.id == mid.next_edge_id,
        contains_key_seq(post.vertices@, e.destiny_key),
        forall|i: int|
            0 <= i < post.vertices@.len() ==> (#[trigger] post.vertices@[i]).key
                == mid.vertices@[i].key,
        forall|i: int| 0 <= i < post.vertices@.len() ==> (#[trigger] post.vertices@[i]).wf(),
        post.vertices@[io].edges@ == mid.vertices@[io].edges@.push(e),
        forall|i: int|
            0 <= i < post.vertices@.len() && i != io ==> (#[trigger] post.vertices@[i]).edges@
                == mid.vertices@[i].edges@,
    ensures
        post.wf(),
{
    let n = post.vertices@.len() as int;
    assert(post.keys_unique());
    assert forall|k: i32| contains_key_seq(mid.vertices@, k) implies contains_key_seq(
        post.vertices@,
        k,
    ) by {
        let i = choose|i: int|
            0 <= i < mid.vertices@.len() && (#[trigger] mid.vertices@[i]).key == k;
        assert(post.vertices@[i].key == k);
    }
    let m = mid.vertices@[io].edges@.len() as int;
    assert forall|i: int, j: int|
        0 <= i < n && 0 <= j < post.vertices@[i].edges@.len() implies ((i == io && j == m
            && (#[trigger] post.vertices@[i].edges@[j]) == e) || (0 <= j
            < mid.vertices@[i].edges@.len() && post.vertices@[i].edges@[j]
            == mid.vertices@[i].edges@[j])) by {
        if i == io {
            assert(post.vertices@[io].edges@ == mid.vertices@[io].edges@.push(e));
        }
    }
    assert(post.ids_unique()) by {
        assert forall|i1: int, j1: int, i2: int, j2: int|
            0 <= i1 < n && 0 <= j1 < post.vertices@[i1].edges@.len() && 0 <= i2 < n && 0 <= j2
                < post.vertices@[i2].edges@.len() && !(i1 == i2 && j1 == j2) implies (
        post.vertices@[i1].edges@[j1]).id != (post.vertices@[i2].edges@[j2]).id by {
            assert(mid.ids_below_counter());
            assert(mid.ids_unique());
        }
    }
    assert(post.ids_below_counter());
    assert(post.endpoints_exist()) by {
        assert forall|i: int, j: int|
            0 <= i < n && 0 <= j < post.vertices@[i].edges@.len() implies contains_key_seq(
            post.vertices@,
            (post.vertices@[i].edges@[j]).destiny_key,
        ) by {
            if !(i == io && j == m) {
                assert(contains_key_seq(mid.vertices@, mid.vertices@[i].edges@[j].destiny_key));
            }
        }
    }
}

/// Immediately after an insertion, the origin's outgoing adjacency holds an
/// edge to the given destination with the given weight, and edge ids remain
/// unique across the whole graph.
pub proof fn lemma_inserted_edge_present(
    pre: DiGraph,
    post: DiGraph,
    origin: i32,
    destiny: i32,
    weight: i64,
)
    requires
        pre.wf(),
        post.wf(),
        add_edge_spec(pre, post, origin, destiny, weight),
    ensures
        exists|j: int|
            0 <= j < post.edges_of_spec(origin).len() && (#[trigger] post.edges_of_spec(origin)[
            j]).destiny_key == destiny && post.edges_of_spec(origin)[j].weight == weight,
        post.ids_unique(),
{
    let n = post.edges_of_spec(origin).len() as int;
    assert(post.edges_of_spec(origin)[n - 1].destiny_key == destiny);
    assert(post.edges_of_spec(origin)[n - 1].weight == weight);
}

/// Replacing one vertex by another with the same key leaves the key set,
/// and every other vertex's adjacency, unchanged.
pub proof fn lemma_update_vertex(pre: DiGraph, post: DiGraph, io: int)
    requires
        pre.keys_unique(),
        0 <= io < pre.vertices@.len(),
        post.vertices@.len() == pre.vertices@.len(),
        post.vertices@[io].key == pre.vertices@[io].key,
        forall|j: int|
            0 <= j < pre.vertices@.len() && j != io ==> post.vertices@[j] == pre.vertices@[j],
    ensures
        post.keys_unique(),
        forall|k: i32| #[trigger] post.contains_key_spec(k) <==> pre.contains_key_spec(k),
        forall|k: i32|
            k != pre.vertices@[io].key ==> #[trigger] post.edges_of_spec(k) == pre.edges_of_spec(k)
                && #[trigger] post.back_of_spec(k) == pre.back_of_spec(k),
        post.index_of_spec(pre.vertices@[io].key) == io,
        pre.index_of_spec(pre.vertices@[io].key) == io,
{
    assert(forall|j: int|
        0 <= j < post.vertices@.len() ==> (#[trigger] post.vertices@[j]).key
            == pre.vertices@[j].key);
    assert(post.keys_unique());
    assert forall|k: i32| #[trigger] post.contains_key_spec(k) <==> pre.contains_key_spec(k) by {
        if post.contains_key_spec(k) {
            let i = choose|i: int|
                0 <= i < post.vertices@.len() && (#[trigger] post.vertices@[i]).key == k;
            assert(pre.vertices@[i].key == k);
        }
        if pre.contains_key_spec(k) {
            let i = choose|i: int|
                0 <= i < pre.vertices@.len() && (#[trigger] pre.vertices@[i]).key == k;
            assert(post.vertices@[i].key == k);
        }
    }
    assert forall|k: i32| k != pre.vertices@[io].key implies #[trigger] post.edges_of_spec(k)
        == pre.edges_of_spec(k) && #[trigger] post.back_of_spec(k) == pre.back_of_spec(k) by {
        if pre.contains_key_spec(k) {
            let i = choose|i: int|
                0 <= i < pre.vertices@.len() && (#[trigger] pre.vertices@[i]).key == k;
            pre.lemma_index_unique(i, k);
            assert(i != io);
            assert(post.vertices@[i].key == k);
            post.lemma_index_unique(i, k);
        }
    }
    post.lemma_index_unique(io, pre.vertices@[io].key);
    pre.lemma_index_unique(io, pre.vertices@[io].key);
}

} // verus!
