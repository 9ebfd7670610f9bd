//! The depth-first traversal engine. A run owns its own auxiliary state
//! (`DfsStruct`): per-vertex discovery and finish timestamps, the discovery
//! forest's parent map, and one classification per edge id. Vertices move
//! `Unvisited -> Discovered -> Finished` and never back; the traversal uses
//! an explicit stack, visits a vertex's outgoing edges sorted by destination
//! key then by edge id, and starts a fresh exploration at the smallest
//! unvisited key until every vertex is finished. Timestamps come from one
//! global counter that advances on each discovery and each finish.

use crate::edge::Edge;
use crate::graph::{contains_key_seq, DiGraph};
use crate::vertice::Vertice;
use std::collections::HashMap;
use vstd::prelude::*;

verus! {

broadcast use vstd::std_specs::hash::group_hash_axioms;

/// The classification of an edge relative to the discovery forest.
#[derive(Clone, Copy, Debug, PartialEq, Eq, Structural, Hash)]
pub enum DfsClassification {
    Tree,
    Back,
    Forward,
    Cross,
}

/// Whether some stored edge of the arena carries the id.
pub open spec fn graph_has_edge_id(s: Seq<Vertice>, id: usize) -> bool {
    exists|i: int, j: int|
        0 <= i < s.len() && 0 <= j < (#[trigger] s[i]).edges@.len() && (#[trigger] s[i].edges@[j]).id
            == id
}

/// How many vertices of `s` have a key missing from `m`.
pub open spec fn num_missing<V>(s: Seq<Vertice>, m: Map<i32, V>) -> nat
    decreases s.len(),
{
    if s.len() == 0 {
        0
    } else {
        num_missing(s.drop_last(), m) + if m.contains_key(s.last().key) {
            0nat
        } else {
            1nat
        }
    }
}

/// How many edges of the row have an id missing from `m`.
pub open spec fn row_unmarked<V>(es: Seq<Edge>, m: Map<usize, V>) -> nat
    decreases es.len(),
{
    if es.len() == 0 {
        0
    } else {
        row_unmarked(es.drop_last(), m) + if m.contains_key(es.last().id) {
            0nat
        } else {
            1nat
        }
    }
}

/// How many stored edges of the arena have an id missing from `m`.
pub open spec fn num_unmarked<V>(s: Seq<Vertice>, m: Map<usize, V>) -> nat
    decreases s.len(),
{
    if s.len() == 0 {
        0
    } else {
        num_unmarked(s.drop_last(), m) + row_unmarked(s.last().edges@, m)
    }
}

/// Adding a key to the map never raises the missing count, and strictly
/// lowers it when some vertex carries that key.
pub proof fn lemma_num_missing_insert<V>(s: Seq<Vertice>, m: Map<i32, V>, k: i32, t: V)
    requires
        !m.contains_key(k),
    ensures
        num_missing(s, m.insert(k, t)) <= num_missing(s, m),
        contains_key_seq(s, k) ==> num_missing(s, m.insert(k, t)) < num_missing(s, m),
    decreases s.len(),
{
    if s.len() > 0 {
        lemma_num_missing_insert(s.drop_last(), m, k, t);
        if contains_key_seq(s, k) && s.last().key != k {
            let i = choose|i: int| 0 <= i < s.len() && (#[trigger] s[i]).key == k;
            assert(s.drop_last()[i] == s[i]);
            assert(contains_key_seq(s.drop_last(), k));
        }
    }
}

/// Marking one more id never raises the unmarked count of a row, and
/// strictly lowers it when the row holds that id.
pub proof fn lemma_row_unmarked_insert<V>(es: Seq<Edge>, m: Map<usize, V>, id: usize, t: V)
    requires
        !m.contains_key(id),
    ensures
        row_unmarked(es, m.insert(id, t)) <= row_unmarked(es, m),
        (exists|j: int| 0 <= j < es.len() && (#[trigger] es[j]).id == id) ==> row_unmarked(
            es,
            m.insert(id, t),
        ) < row_unmarked(es, m),
    decreases es.len(),
{
    if es.len() > 0 {
        lemma_row_unmarked_insert(es.drop_last(), m, id, t);
        if (exists|j: int| 0 <= j < es.len() && (#[trigger] es[j]).id == id) && es.last().id != id {
            let j = choose|j: int| 0 <= j < es.len() && (#[trigger] es[j]).id == id;
            assert(es.drop_last()[j] == es[j]);
            assert(exists|j2: int|
                0 <= j2 < es.drop_last().len() && (#[trigger] es.drop_last()[j2]).id == id);
        }
    }
}

/// Marking one more id never raises the arena's unmarked count, and
/// strictly lowers it when some stored edge carries that id.
pub proof fn lemma_num_unmarked_insert<V>(s: Seq<Vertice>, m: Map<usize, V>, id: usize, t: V)
    requires
        !m.contains_key(id),
    ensures
        num_unmarked(s, m.insert(id, t)) <= num_unmarked(s, m),
        graph_has_edge_id(s, id) ==> num_unmarked(s, m.insert(id, t)) < num_unmarked(s, m),
    decreases s.len(),
{
    if s.len() > 0 {
        lemma_num_unmarked_insert(s.drop_last(), m, id, t);
        lemma_row_unmarked_insert(s.last().edges@, m, id, t);
        if graph_has_edge_id(s, id) {
            let (i, j) = choose|i: int, j: int|
                0 <= i < s.len() && 0 <= j < (#[trigger] s[i]).edges@.len() && (
                #[trigger] s[i].edges@[j]).id == id;
            if i < s.len() - 1 {
                assert(s.drop_last()[i] == s[i]);
                assert(graph_has_edge_id(s.drop_last(), id));
            } else {
                assert(exists|j2: int|
                    0 <= j2 < s.last().edges@.len() && (#[trigger] s.last().edges@[j2]).id == id);
            }
        }
    }
}

/// Every discovered vertex is a vertex of the graph, and only discovered
/// vertices finish.
pub open spec fn statuses_ok(g: DiGraph, disc: Map<i32, u128>, fin: Map<i32, u128>) -> bool {
    &&& forall|v: i32| #[trigger] disc.contains_key(v) ==> g.contains_key_spec(v)
    &&& forall|v: i32| #[trigger] fin.contains_key(v) ==> disc.contains_key(v)
}

/// All timestamps lie below the clock, and each vertex finishes after it is
/// discovered. The clock is the total number of stamps handed out.
pub open spec fn times_ok(disc: Map<i32, u128>, fin: Map<i32, u128>) -> bool {
    let clock = disc.len() + fin.len() as int;
    &&& forall|v: i32| disc.contains_key(v) ==> 0 <= (#[trigger] disc[v]) < clock
    &&& forall|v: i32| fin.contains_key(v) ==> 0 <= (#[trigger] fin[v]) < clock
    &&& forall|v: i32| #[trigger] fin.contains_key(v) ==> disc.contains_key(v) && disc[v] < fin[v]
    // the stamps come from one strictly increasing counter, so they are
    // pairwise distinct across both maps
    &&& forall|v1: i32, v2: i32|
        disc.contains_key(v1) && disc.contains_key(v2) && v1 != v2 ==> (#[trigger] disc[v1]) != (
        #[trigger] disc[v2])
    &&& forall|v1: i32, v2: i32|
        fin.contains_key(v1) && fin.contains_key(v2) && v1 != v2 ==> (#[trigger] fin[v1]) != (
        #[trigger] fin[v2])
    &&& forall|v1: i32, v2: i32|
        disc.contains_key(v1) && fin.contains_key(v2) ==> (#[trigger] disc[v1]) != (
        #[trigger] fin[v2])
}

/// Every recorded parent is a discovered vertex with an edge to its child,
/// discovered before the child.
pub open spec fn fathers_ok(g: DiGraph, disc: Map<i32, u128>, fathers: Map<i32, i32>) -> bool {
    forall|v: i32|
        #[trigger] fathers.contains_key(v) ==> {
            let u = fathers[v];
            &&& g.contains_key_spec(u)
            &&& disc.contains_key(u)
            &&& (exists|j: int|
                0 <= j < g.edges_of_spec(u).len() && (#[trigger] g.edges_of_spec(u)[
                j]).destiny_key == v)
            &&& disc.contains_key(v) ==> disc[u] < disc[v]
        }
}

/// Every classified id belongs to some stored edge.
pub open spec fn cls_ok(g: DiGraph, cls: Map<usize, DfsClassification>) -> bool {
    forall|id: usize| #[trigger] cls.contains_key(id) ==> graph_has_edge_id(g.vertices@, id)
}

/// A finished vertex has every outgoing edge classified.
pub open spec fn finished_cls_ok(
    g: DiGraph,
    fin: Map<i32, u128>,
    cls: Map<usize, DfsClassification>,
) -> bool {
    forall|v: i32, j: int|
        #[trigger] fin.contains_key(v) && 0 <= j < g.edges_of_spec(v).len() ==> cls.contains_key(
            (#[trigger] g.edges_of_spec(v)[j]).id,
        )
}

/// Each classification value agrees with the traversal that produced it. A
/// Tree edge recorded its destination's parent; a Back edge leads to a
/// vertex discovered no later than its origin; Forward and Cross lead to a
/// finished vertex, split by the order of the two discoveries. Conversely,
/// every parent entry comes from a Tree-classified edge.
pub open spec fn cls_consistent(
    g: DiGraph,
    disc: Map<i32, u128>,
    fin: Map<i32, u128>,
    fathers: Map<i32, i32>,
    cls: Map<usize, DfsClassification>,
) -> bool {
    &&& forall|i: int, j: int|
        0 <= i < g.vertices@.len() && 0 <= j < (#[trigger] g.vertices@[i]).edges@.len()
            && cls.contains_key((#[trigger] g.vertices@[i].edges@[j]).id) ==> {
            let e = g.vertices@[i].edges@[j];
            &&& disc.contains_key(e.origin_key)
            &&& match cls[e.id] {
                DfsClassification::Tree => fathers.contains_key(e.destiny_key) && fathers[
                    e.destiny_key
                ] == e.origin_key,
                DfsClassification::Back => disc.contains_key(e.destiny_key) && disc[e.destiny_key]
                    <= disc[e.origin_key],
                DfsClassification::Forward => fin.contains_key(e.destiny_key) && disc.contains_key(
                    e.destiny_key,
                ) && disc[e.origin_key] < disc[e.destiny_key],
                DfsClassification::Cross => fin.contains_key(e.destiny_key) && disc.contains_key(
                    e.destiny_key,
                ) && disc[e.destiny_key] < disc[e.origin_key],
            }
        }
    &&& forall|v: i32|
        #[trigger] fathers.contains_key(v) ==> exists|i: int, j: int|
            0 <= i < g.vertices@.len() && 0 <= j < g.vertices@[i].edges@.len() && (
            #[trigger] g.vertices@[i].edges@[j]).destiny_key == v
                && g.vertices@[i].edges@[j].origin_key == fathers[v] && cls.contains_key(
                g.vertices@[i].edges@[j].id,
            ) && cls[g.vertices@[i].edges@[j].id] == DfsClassification::Tree
}

/// A Back edge leads to a live ancestor: unless it is a self-loop, its
/// destination (the ancestor) finishes strictly after its origin, so the
/// origin's interval nests inside the destination's.
pub open spec fn back_ancestor_ok(
    g: DiGraph,
    fin: Map<i32, u128>,
    cls: Map<usize, DfsClassification>,
) -> bool {
    forall|i: int, j: int|
        0 <= i < g.vertices@.len() && 0 <= j < (#[trigger] g.vertices@[i]).edges@.len()
            && cls.contains_key((#[trigger] g.vertices@[i].edges@[j]).id) && cls[g.vertices@[
        i].edges@[j].id] == DfsClassification::Back ==> {
            let e = g.vertices@[i].edges@[j];
            e.destiny_key == e.origin_key || (fin.contains_key(e.destiny_key) ==> (
            fin.contains_key(e.origin_key) && fin[e.origin_key] < fin[e.destiny_key]))
        }
}

/// During a run, the destination of every Back edge whose origin is still
/// open sits below that origin on the stack.
pub open spec fn back_open_on_stack(
    g: DiGraph,
    fin: Map<i32, u128>,
    cls: Map<usize, DfsClassification>,
    stack: Seq<i32>,
) -> bool {
    forall|i: int, j: int|
        0 <= i < g.vertices@.len() && 0 <= j < (#[trigger] g.vertices@[i]).edges@.len()
            && cls.contains_key((#[trigger] g.vertices@[i].edges@[j]).id) && cls[g.vertices@[
        i].edges@[j].id] == DfsClassification::Back && g.vertices@[i].edges@[j].destiny_key
            != g.vertices@[i].edges@[j].origin_key && !fin.contains_key(
            g.vertices@[i].edges@[j].origin_key,
        ) ==> exists|t1: int, t2: int|
            0 <= t1 < t2 < stack.len() && stack[t1] == g.vertices@[i].edges@[j].destiny_key
                && stack[t2] == g.vertices@[i].edges@[j].origin_key
}

/// Back-edge stack witnesses survive any step that adds no Back
/// classification and only extends the stack.
proof fn lemma_back_stack_preserved(
    g: DiGraph,
    fin: Map<i32, u128>,
    cls0: Map<usize, DfsClassification>,
    cls1: Map<usize, DfsClassification>,
    stack0: Seq<i32>,
    stack1: Seq<i32>,
)
    requires
        back_open_on_stack(g, fin, cls0, stack0),
        forall|id: usize|
            #[trigger] cls1.contains_key(id) && cls1[id] == DfsClassification::Back
                ==> cls0.contains_key(id) && cls0[id] == DfsClassification::Back,
        stack0.len() <= stack1.len(),
        forall|t: int| 0 <= t < stack0.len() ==> #[trigger] stack1[t] == stack0[t],
    ensures
        back_open_on_stack(g, fin, cls1, stack1),
{
    assert forall|i2: int, j2: int|
        0 <= i2 < g.vertices@.len() && 0 <= j2 < (#[trigger] g.vertices@[i2]).edges@.len()
            && cls1.contains_key((#[trigger] g.vertices@[i2].edges@[j2]).id) && cls1[g.vertices@[
        i2].edges@[j2].id] == DfsClassification::Back && g.vertices@[i2].edges@[j2].destiny_key
            != g.vertices@[i2].edges@[j2].origin_key && !fin.contains_key(
            g.vertices@[i2].edges@[j2].origin_key,
        ) implies exists|t1: int, t2: int|
        0 <= t1 < t2 < stack1.len() && stack1[t1] == g.vertices@[i2].edges@[j2].destiny_key
            && stack1[t2] == g.vertices@[i2].edges@[j2].origin_key by {
        let e2 = g.vertices@[i2].edges@[j2];
        assert(cls0.contains_key(e2.id) && cls0[e2.id] == DfsClassification::Back);
        let (t1, t2) = choose|t1: int, t2: int|
            0 <= t1 < t2 < stack0.len() && stack0[t1] == e2.destiny_key && stack0[t2]
                == e2.origin_key;
        assert(stack1[t1] == e2.destiny_key && stack1[t2] == e2.origin_key);
    }
}

/// Back-edge stack witnesses survive finishing and popping the top vertex.
proof fn lemma_back_stack_pop(
    g: DiGraph,
    fin0: Map<i32, u128>,
    fin1: Map<i32, u128>,
    cls: Map<usize, DfsClassification>,
    stack0: Seq<i32>,
    stack1: Seq<i32>,
    u: i32,
)
    requires
        back_open_on_stack(g, fin0, cls, stack0),
        forall|x: i32| #[trigger] fin0.contains_key(x) ==> fin1.contains_key(x),
        fin1.contains_key(u),
        stack0.len() > 0,
        stack1.len() == stack0.len() - 1,
        forall|t: int| 0 <= t < stack1.len() ==> #[trigger] stack1[t] == stack0[t],
        stack0[stack0.len() - 1] == u,
    ensures
        back_open_on_stack(g, fin1, cls, stack1),
{
    assert forall|i2: int, j2: int|
        0 <= i2 < g.vertices@.len() && 0 <= j2 < (#[trigger] g.vertices@[i2]).edges@.len()
            && cls.contains_key((#[trigger] g.vertices@[i2].edges@[j2]).id) && cls[g.vertices@[
        i2].edges@[j2].id] == DfsClassification::Back && g.vertices@[i2].edges@[j2].destiny_key
            != g.vertices@[i2].edges@[j2].origin_key && !fin1.contains_key(
            g.vertices@[i2].edges@[j2].origin_key,
        ) implies exists|t1: int, t2: int|
        0 <= t1 < t2 < stack1.len() && stack1[t1] == g.vertices@[i2].edges@[j2].destiny_key
            && stack1[t2] == g.vertices@[i2].edges@[j2].origin_key by {
        let e2 = g.vertices@[i2].edges@[j2];
        assert(e2.origin_key != u);
        assert(!fin0.contains_key(e2.origin_key));
        let (t1, t2) = choose|t1: int, t2: int|
            0 <= t1 < t2 < stack0.len() && stack0[t1] == e2.destiny_key && stack0[t2]
                == e2.origin_key;
        assert(t2 != stack0.len() - 1);
        assert(stack1[t1] == e2.destiny_key && stack1[t2] == e2.origin_key);
    }
}

/// The parenthesis property: the [discovery, finish] intervals of two
/// finished vertices are either disjoint or one nests inside the other.
pub open spec fn parenthesis_ok(disc: Map<i32, u128>, fin: Map<i32, u128>) -> bool {
    forall|v1: i32, v2: i32|
        #[trigger] fin.contains_key(v1) && #[trigger] fin.contains_key(v2) && v1 != v2 ==> ((fin[
            v1
        ] < disc[v2]) || (fin[v2] < disc[v1]) || (disc[v1] < disc[v2] && fin[v2] < fin[v1]) || (
        disc[v2] < disc[v1] && fin[v1] < fin[v2]))
}

/// A still-open (discovered, unfinished) vertex relates to every finished
/// one: the finished interval either closed before the open vertex was
/// discovered, or opened after it.
pub open spec fn open_vs_closed_ok(disc: Map<i32, u128>, fin: Map<i32, u128>) -> bool {
    forall|u: i32, w: i32|
        #[trigger] disc.contains_key(u) && !fin.contains_key(u) && #[trigger] fin.contains_key(w)
            ==> (fin[w] < disc[u] || disc[u] < disc[w])
}

/// The clock of a run fits comfortably below the timestamp type's maximum:
/// both maps are hash maps, so each holds at most `usize::MAX` entries.
proof fn lemma_clock_bound(d: DfsStruct)
    ensures
        0 <= d.clock_spec() < u128::MAX,
{
    broadcast use vstd::std_specs::hash::group_hash_axioms;

    assert(d.tempo_descoberta@.len() == vstd::std_specs::hash::spec_hash_map_len(
        &d.tempo_descoberta,
    ));
    assert(d.tempo_termino@.len() == vstd::std_specs::hash::spec_hash_map_len(&d.tempo_termino));
}

/// Two run states with the same timestamp maps agree on every vertex's
/// status.
proof fn lemma_status_eq(d0: DfsStruct, d1: DfsStruct)
    requires
        d1.tempo_descoberta@ == d0.tempo_descoberta@,
        d1.tempo_termino@ == d0.tempo_termino@,
    ensures
        forall|v: i32| #[trigger] d1.visited_spec(v) == d0.visited_spec(v),
        forall|v: i32| #[trigger] d1.finished_spec(v) == d0.finished_spec(v),
{
}

/// The auxiliary state of one depth-first run.
pub struct DfsStruct {
    pub tempo_descoberta: HashMap<i32, u128>,
    pub tempo_termino: HashMap<i32, u128>,
    pub fathers: HashMap<i32, i32>,
    pub classifications: HashMap<usize, DfsClassification>,
    pub roots: Vec<i32>,
}

impl DfsStruct {
    /// Discovered: the vertex carries a discovery timestamp.
    pub open spec fn visited_spec(self, key: i32) -> bool {
        self.tempo_descoberta@.contains_key(key)
    }

    /// Finished: the vertex carries a finish timestamp.
    pub open spec fn finished_spec(self, key: i32) -> bool {
        self.tempo_termino@.contains_key(key)
    }

    /// The global timestamp counter: one tick per discovery or finish.
    pub open spec fn clock_spec(self) -> int {
        self.tempo_descoberta@.len() + self.tempo_termino@.len() as int
    }

    /// The run's state is consistent with the graph it walks.
    pub open spec fn wf(self, g: DiGraph) -> bool {
        &&& statuses_ok(g, self.tempo_descoberta@, self.tempo_termino@)
        &&& times_ok(self.tempo_descoberta@, self.tempo_termino@)
        &&& fathers_ok(g, self.tempo_descoberta@, self.fathers@)
        &&& cls_ok(g, self.classifications@)
        &&& finished_cls_ok(g, self.tempo_termino@, self.classifications@)
        &&& cls_consistent(
            g,
            self.tempo_descoberta@,
            self.tempo_termino@,
            self.fathers@,
            self.classifications@,
        )
        &&& parenthesis_ok(self.tempo_descoberta@, self.tempo_termino@)
        &&& open_vs_closed_ok(self.tempo_descoberta@, self.tempo_termino@)
        &&& back_ancestor_ok(g, self.tempo_termino@, self.classifications@)
    }

    /// A fresh run: nothing discovered, nothing finished, nothing classified.
    pub fn new(_graph: &DiGraph) -> (d: DfsStruct)
        ensures
            d.tempo_descoberta@ == Map::<i32, u128>::empty(),
            d.tempo_termino@ == Map::<i32, u128>::empty(),
            d.fathers@ == Map::<i32, i32>::empty(),
            d.classifications@ == Map::<usize, DfsClassification>::empty(),
            d.roots@ == Seq::<i32>::empty(),
    {
        DfsStruct {
            tempo_descoberta: HashMap::new(),
            tempo_termino: HashMap::new(),
            fathers: HashMap::new(),
            classifications: HashMap::new(),
            roots: Vec::new(),
        }
    }

    /// Whether the vertex has been discovered.
    pub fn already_visited(&self, key: i32) -> (r: bool)
        ensures
            r == self.visited_spec(key),
    {
        self.tempo_descoberta.contains_key(&key)
    }

    /// Whether the vertex's exploration has finished.
    pub fn already_explored(&self, key: i32) -> (r: bool)
        ensures
            r == self.finished_spec(key),
    {
        self.tempo_termino.contains_key(&key)
    }

    /// Whether the edge id was already processed and classified.
    pub fn is_aresta_marked(&self, id: usize) -> (r: bool)
        ensures
            r == self.classifications@.contains_key(id),
    {
        self.classifications.contains_key(&id)
    }

    fn clock(&self) -> (r: u128)
        ensures
            r == self.clock_spec(),
    {
        (self.tempo_descoberta.len() as u128) + (self.tempo_termino.len() as u128)
    }

    /// Marks the vertex Discovered, stamping it with the current clock.
    pub fn start_exploring(&mut self, key: i32)
        requires
            !old(self).visited_spec(key),
        ensures
            final(self).tempo_descoberta@ == old(self).tempo_descoberta@.insert(
                key,
                old(self).clock_spec() as u128,
            ),
            final(self).tempo_termino@ == old(self).tempo_termino@,
            final(self).fathers@ == old(self).fathers@,
            final(self).classifications@ == old(self).classifications@,
            final(self).clock_spec() == old(self).clock_spec() + 1,
            final(self).roots@ == old(self).roots@,
    {
        let t = self.clock();
        self.tempo_descoberta.insert(key, t);
    }

    /// Marks the vertex Finished, stamping it with the current clock.
    pub fn finish_exploring(&mut self, key: i32)
        requires
            !old(self).finished_spec(key),
        ensures
            final(self).tempo_termino@ == old(self).tempo_termino@.insert(
                key,
                old(self).clock_spec() as u128,
            ),
            final(self).tempo_descoberta@ == old(self).tempo_descoberta@,
            final(self).fathers@ == old(self).fathers@,
            final(self).classifications@ == old(self).classifications@,
            final(self).clock_spec() == old(self).clock_spec() + 1,
            final(self).roots@ == old(self).roots@,
    {
        let t = self.clock();
        self.tempo_termino.insert(key, t);
    }

    /// Records the classification of one edge by its id.
    pub fn classificate_aresta(&mut self, aresta: &Edge, class: DfsClassification)
        ensures
            final(self).classifications@ == old(self).classifications@.insert(aresta.id, class),
            final(self).tempo_descoberta@ == old(self).tempo_descoberta@,
            final(self).tempo_termino@ == old(self).tempo_termino@,
            final(self).fathers@ == old(self).fathers@,
            final(self).roots@ == old(self).roots@,
    {
        self.classifications.insert(aresta.id, class);
    }

    /// The smallest vertex key of the graph not yet discovered, or `-1` when
    /// every vertex is discovered. (A graph may own a vertex whose key is
    /// `-1`; the contract states exactly which of the two was returned.)
    pub fn get_unexplored_vertice(&self, graph: &DiGraph) -> (r: i32)
        ensures
            (forall|k: i32| #[trigger] graph.contains_key_spec(k) ==> self.visited_spec(k)) ==> r
                == -1,
            !(forall|k: i32| #[trigger] graph.contains_key_spec(k) ==> self.visited_spec(k)) ==> {
                &&& graph.contains_key_spec(r)
                &&& !self.visited_spec(r)
                &&& forall|k: i32|
                    #[trigger] graph.contains_key_spec(k) && !self.visited_spec(k) ==> r <= k
            },
    {
        match self.min_unvisited(graph) {
            Some(k) => k,
            None => -1,
        }
    }

    /// The smallest undiscovered vertex key, if any.
    fn min_unvisited(&self, graph: &DiGraph) -> (r: Option<i32>)
        ensures
            match r {
                Some(k) => {
                    &&& graph.contains_key_spec(k)
                    &&& !self.visited_spec(k)
                    &&& forall|k2: i32|
                        #[trigger] graph.contains_key_spec(k2) && !self.visited_spec(k2) ==> k
                            <= k2
                },
                None => forall|k: i32|
                    #[trigger] graph.contains_key_spec(k) ==> self.visited_spec(k),
            },
    {
        let mut best: Option<i32> = None;
        let mut i: usize = 0;
        while i < graph.vertices.len()
            invariant
                0 <= i <= graph.vertices@.len(),
                match best {
                    Some(b) => {
                        &&& graph.contains_key_spec(b)
                        &&& !self.visited_spec(b)
                        &&& forall|j: int|
                            0 <= j < i && !self.visited_spec(
                                (#[trigger] graph.vertices@[j]).key,
                            ) ==> b <= graph.vertices@[j].key
                    },
                    None => forall|j: int|
                        0 <= j < i ==> self.visited_spec((#[trigger] graph.vertices@[j]).key),
                },
            decreases graph.vertices@.len() - i,
        {
            let k = graph.vertices[i].key;
            proof {
                assert(graph.vertices@[i as int].key == k);
            }
            if !self.already_visited(k) {
                match best {
                    Some(b) => {
                        if k < b {
                            best = Some(k);
                        }
                    },
                    None => {
                        best = Some(k);
                    },
                }
            }
            i = i + 1;
        }
        proof {
            match best {
                Some(b) => {
                    assert forall|k2: i32|
                        #[trigger] graph.contains_key_spec(k2) && !self.visited_spec(
                            k2,
                        ) implies b <= k2 by {
                        let j = choose|j: int|
                            0 <= j < graph.vertices@.len() && (#[trigger] graph.vertices@[j]).key
                                == k2;
                        assert(!self.visited_spec(graph.vertices@[j].key));
                    }
                },
                None => {
                    assert forall|k2: i32| #[trigger] graph.contains_key_spec(
                        k2,
                    ) implies self.visited_spec(k2) by {
                        let j = choose|j: int|
                            0 <= j < graph.vertices@.len() && (#[trigger] graph.vertices@[j]).key
                                == k2;
                    }
                },
            }
        }
        best
    }
}

/// The missing count never rises along a submap extension, and strictly
/// falls when the extension covers a key that some vertex carries.
pub proof fn lemma_num_missing_submap<V>(s: Seq<Vertice>, m1: Map<i32, V>, m2: Map<i32, V>, k: i32)
    requires
        m1.submap_of(m2),
    ensures
        num_missing(s, m2) <= num_missing(s, m1),
        (m2.contains_key(k) && !m1.contains_key(k) && contains_key_seq(s, k)) ==> num_missing(
            s,
            m2,
        ) < num_missing(s, m1),
    decreases s.len(),
{
    if s.len() > 0 {
        lemma_num_missing_submap(s.drop_last(), m1, m2, k);
        if m2.contains_key(k) && !m1.contains_key(k) && contains_key_seq(s, k) && s.last().key
            != k {
            let i = choose|i: int| 0 <= i < s.len() && (#[trigger] s[i]).key == k;
            assert(s.drop_last()[i] == s[i]);
            assert(contains_key_seq(s.drop_last(), k));
        }
    }
}

/// The first unprocessed outgoing edge in traversal order: the unclassified
/// edge least by (destination key, edge id), if any edge is unclassified.
fn find_min_unmarked(edges: &Vec<Edge>, d: &DfsStruct) -> (r: Option<usize>)
    ensures
        match r {
            Some(j) => {
                &&& 0 <= j < edges@.len()
                &&& !d.classifications@.contains_key(edges@[j as int].id)
                &&& forall|j2: int|
                    0 <= j2 < edges@.len() && !d.classifications@.contains_key(
                        (#[trigger] edges@[j2]).id,
                    ) ==> edges@[j as int].order_before_spec(edges@[j2])
            },
            None => forall|j: int|
                0 <= j < edges@.len() ==> d.classifications@.contains_key(
                    (#[trigger] edges@[j]).id,
                ),
        },
{
    let mut best: Option<usize> = None;
    let mut i: usize = 0;
    while i < edges.len()
        invariant
            0 <= i <= edges@.len(),
            match best {
                Some(j) => {
                    &&& 0 <= j < i
                    &&& !d.classifications@.contains_key(edges@[j as int].id)
                    &&& forall|j2: int|
                        0 <= j2 < i && !d.classifications@.contains_key(
                            (#[trigger] edges@[j2]).id,
                        ) ==> edges@[j as int].order_before_spec(edges@[j2])
                },
                None => forall|j: int|
                    0 <= j < i ==> d.classifications@.contains_key((#[trigger] edges@[j]).id),
            },
        decreases edges@.len() - i,
    {
        let e = edges[i];
        if !d.is_aresta_marked(e.id) {
            match best {
                Some(j) => {
                    let b = edges[j];
                    if !b.order_before(&e) {
                        proof {
                            assert(e.order_before_spec(b) || b.order_before_spec(e));
                        }
                        best = Some(i);
                    }
                },
                None => {
                    best = Some(i);
                },
            }
        }
        i = i + 1;
    }
    best
}

/// Discovering an unvisited vertex keeps the run consistent.
proof fn lemma_wf_after_discover(g: DiGraph, d0: DfsStruct, d1: DfsStruct, u: i32)
    requires
        d0.wf(g),
        g.contains_key_spec(u),
        !d0.visited_spec(u),
        d1.tempo_descoberta@ == d0.tempo_descoberta@.insert(u, d0.clock_spec() as u128),
        d1.tempo_termino@ == d0.tempo_termino@,
        d1.fathers@ == d0.fathers@,
        d1.classifications@ == d0.classifications@,
        d1.clock_spec() == d0.clock_spec() + 1,
    ensures
        d1.wf(g),
{
    lemma_clock_bound(d0);
    let disc0 = d0.tempo_descoberta@;
    let disc1 = d1.tempo_descoberta@;
    let fin = d0.tempo_termino@;
    assert forall|v: i32| #[trigger] disc1.contains_key(v) implies g.contains_key_spec(v) by {
        if v != u {
            assert(disc0.contains_key(v));
        }
    }
    assert(times_ok(disc1, fin)) by {
        assert forall|v: i32| disc1.contains_key(v) implies 0 <= (#[trigger] disc1[v])
            < disc1.len() + fin.len() as int by {
            if v != u {
                assert(disc0.contains_key(v));
                assert(disc0[v] < disc0.len() + fin.len() as int);
            }
        }
        assert forall|v: i32| #[trigger] fin.contains_key(v) implies disc1.contains_key(v)
            && disc1[v] < fin[v] by {
            assert(disc0.contains_key(v) && disc0[v] < fin[v]);
            assert(v != u);
        }
        assert forall|v1: i32, v2: i32|
            disc1.contains_key(v1) && disc1.contains_key(v2) && v1 != v2 implies (
        #[trigger] disc1[v1]) != (#[trigger] disc1[v2]) by {
            if v1 == u {
                assert(disc0.contains_key(v2));
                assert(disc0[v2] < d0.clock_spec());
            } else if v2 == u {
                assert(disc0.contains_key(v1));
                assert(disc0[v1] < d0.clock_spec());
            } else {
                assert(disc0.contains_key(v1) && disc0.contains_key(v2));
            }
        }
        assert forall|v1: i32, v2: i32|
            disc1.contains_key(v1) && fin.contains_key(v2) implies (#[trigger] disc1[v1]) != (
        #[trigger] fin[v2]) by {
            assert(fin.contains_key(v2) ==> fin[v2] < d0.clock_spec());
            if v1 != u {
                assert(disc0.contains_key(v1));
            }
        }
    }
    assert(fathers_ok(g, disc1, d0.fathers@)) by {
        assert forall|v: i32| #[trigger] d0.fathers@.contains_key(v) implies {
            let w = d0.fathers@[v];
            &&& g.contains_key_spec(w)
            &&& disc1.contains_key(w)
            &&& (exists|j: int|
                0 <= j < g.edges_of_spec(w).len() && (#[trigger] g.edges_of_spec(w)[
                j]).destiny_key == v)
            &&& disc1.contains_key(v) ==> disc1[w] < disc1[v]
        } by {
            let w = d0.fathers@[v];
            assert(disc0.contains_key(w));
            assert(w != u);
            if disc1.contains_key(v) {
                if v == u {
                    assert(disc0[w] < d0.clock_spec());
                } else {
                    assert(disc0.contains_key(v));
                }
            }
        }
    }
    assert(cls_consistent(g, disc1, fin, d0.fathers@, d0.classifications@)) by {
        assert forall|i: int, j: int|
            0 <= i < g.vertices@.len() && 0 <= j < (#[trigger] g.vertices@[i]).edges@.len()
                && d0.classifications@.contains_key(
                (#[trigger] g.vertices@[i].edges@[j]).id,
            ) implies {
            let e = g.vertices@[i].edges@[j];
            &&& disc1.contains_key(e.origin_key)
            &&& match d0.classifications@[e.id] {
                DfsClassification::Tree => d0.fathers@.contains_key(e.destiny_key)
                    && d0.fathers@[e.destiny_key] == e.origin_key,
                DfsClassification::Back => disc1.contains_key(e.destiny_key) && disc1[
                    e.destiny_key
                ] <= disc1[e.origin_key],
                DfsClassification::Forward => fin.contains_key(e.destiny_key)
                    && disc1.contains_key(e.destiny_key) && disc1[e.origin_key] < disc1[
                    e.destiny_key
                ],
                DfsClassification::Cross => fin.contains_key(e.destiny_key) && disc1.contains_key(
                    e.destiny_key,
                ) && disc1[e.destiny_key] < disc1[e.origin_key],
            }
        } by {
            let e = g.vertices@[i].edges@[j];
            assert(disc0.contains_key(e.origin_key));
            assert(e.origin_key != u);
            match d0.classifications@[e.id] {
                DfsClassification::Tree => {},
                DfsClassification::Back => {
                    assert(disc0.contains_key(e.destiny_key));
                    assert(e.destiny_key != u);
                },
                DfsClassification::Forward => {
                    assert(disc0.contains_key(e.destiny_key));
                    assert(e.destiny_key != u);
                },
                DfsClassification::Cross => {
                    assert(disc0.contains_key(e.destiny_key));
                    assert(e.destiny_key != u);
                },
            }
        }
    }
    assert(parenthesis_ok(disc1, fin)) by {
        assert forall|v1: i32, v2: i32|
            #[trigger] fin.contains_key(v1) && #[trigger] fin.contains_key(v2) && v1
                != v2 implies ((fin[v1] < disc1[v2]) || (fin[v2] < disc1[v1]) || (disc1[v1]
                < disc1[v2] && fin[v2] < fin[v1]) || (disc1[v2] < disc1[v1] && fin[v1] < fin[
            v2])) by {
            assert(disc0.contains_key(v1) && disc0.contains_key(v2));
            assert(v1 != u && v2 != u);
        }
    }
    assert(open_vs_closed_ok(disc1, fin)) by {
        assert forall|x: i32, w: i32|
            #[trigger] disc1.contains_key(x) && !fin.contains_key(x) && #[trigger] fin.contains_key(
                w,
            ) implies (fin[w] < disc1[x] || disc1[x] < disc1[w]) by {
            assert(disc0.contains_key(w));
            assert(w != u);
            if x == u {
                assert(fin[w] < d0.clock_spec());
            } else {
                assert(disc0.contains_key(x));
            }
        }
    }
}

/// Classifying one more non-Tree edge, with the state the traversal saw
/// when it chose the classification, keeps the run consistent.
proof fn lemma_wf_after_classify(
    g: DiGraph,
    d0: DfsStruct,
    d1: DfsStruct,
    i: int,
    j: int,
    cls: DfsClassification,
)
    requires
        d0.wf(g),
        g.wf(),
        0 <= i < g.vertices@.len(),
        0 <= j < g.vertices@[i].edges@.len(),
        !d0.classifications@.contains_key(g.vertices@[i].edges@[j].id),
        d0.visited_spec(g.vertices@[i].edges@[j].origin_key),
        !(cls is Tree),
        cls is Back ==> d0.visited_spec(g.vertices@[i].edges@[j].destiny_key)
            && !d0.finished_spec(g.vertices@[i].edges@[j].destiny_key)
            && d0.tempo_descoberta@[g.vertices@[i].edges@[j].destiny_key]
            <= d0.tempo_descoberta@[g.vertices@[i].edges@[j].origin_key],
        cls is Forward ==> d0.finished_spec(g.vertices@[i].edges@[j].destiny_key)
            && d0.tempo_descoberta@[g.vertices@[i].edges@[j].origin_key]
            < d0.tempo_descoberta@[g.vertices@[i].edges@[j].destiny_key],
        cls is Cross ==> d0.finished_spec(g.vertices@[i].edges@[j].destiny_key)
            && d0.tempo_descoberta@[g.vertices@[i].edges@[j].destiny_key]
            < d0.tempo_descoberta@[g.vertices@[i].edges@[j].origin_key],
        d1.classifications@ == d0.classifications@.insert(g.vertices@[i].edges@[j].id, cls),
        d1.tempo_descoberta@ == d0.tempo_descoberta@,
        d1.tempo_termino@ == d0.tempo_termino@,
        d1.fathers@ == d0.fathers@,
    ensures
        d1.wf(g),
{
    let e = g.vertices@[i].edges@[j];
    let cls0 = d0.classifications@;
    let cls1 = d1.classifications@;
    assert(graph_has_edge_id(g.vertices@, e.id)) by {
        assert(0 <= i < g.vertices@.len() && 0 <= j < g.vertices@[i].edges@.len()
            && g.vertices@[i].edges@[j].id == e.id);
    }
    assert forall|id2: usize| #[trigger] cls1.contains_key(id2) implies graph_has_edge_id(
        g.vertices@,
        id2,
    ) by {
        if id2 != e.id {
            assert(cls0.contains_key(id2));
        }
    }
    assert forall|v: i32, j2: int|
        #[trigger] d1.tempo_termino@.contains_key(v) && 0 <= j2 < g.edges_of_spec(v).len() implies
        cls1.contains_key((#[trigger] g.edges_of_spec(v)[j2]).id) by {
        assert(cls0.contains_key(g.edges_of_spec(v)[j2].id));
    }
    assert(cls_consistent(g, d0.tempo_descoberta@, d0.tempo_termino@, d0.fathers@, cls1)) by {
        assert forall|i2: int, j2: int|
            0 <= i2 < g.vertices@.len() && 0 <= j2 < (#[trigger] g.vertices@[i2]).edges@.len()
                && cls1.contains_key((#[trigger] g.vertices@[i2].edges@[j2]).id) implies {
            let e2 = g.vertices@[i2].edges@[j2];
            &&& d0.tempo_descoberta@.contains_key(e2.origin_key)
            &&& match cls1[e2.id] {
                DfsClassification::Tree => d0.fathers@.contains_key(e2.destiny_key)
                    && d0.fathers@[e2.destiny_key] == e2.origin_key,
                DfsClassification::Back => d0.tempo_descoberta@.contains_key(e2.destiny_key)
                    && d0.tempo_descoberta@[e2.destiny_key] <= d0.tempo_descoberta@[e2.origin_key],
                DfsClassification::Forward => d0.tempo_termino@.contains_key(e2.destiny_key)
                    && d0.tempo_descoberta@.contains_key(e2.destiny_key)
                    && d0.tempo_descoberta@[e2.origin_key] < d0.tempo_descoberta@[e2.destiny_key],
                DfsClassification::Cross => d0.tempo_termino@.contains_key(e2.destiny_key)
                    && d0.tempo_descoberta@.contains_key(e2.destiny_key)
                    && d0.tempo_descoberta@[e2.destiny_key] < d0.tempo_descoberta@[e2.origin_key],
            }
        } by {
            let e2 = g.vertices@[i2].edges@[j2];
            if e2.id == e.id {
                assert(i2 == i && j2 == j);
                assert(e2 == e);
                if cls is Forward || cls is Cross {
                    assert(d0.tempo_descoberta@.contains_key(e.destiny_key));
                }
            } else {
                assert(cls0.contains_key(e2.id));
                assert(cls1[e2.id] == cls0[e2.id]);
            }
        }
    }
    assert forall|v: i32| #[trigger] d1.fathers@.contains_key(v) implies exists|i2: int, j2: int|
        0 <= i2 < g.vertices@.len() && 0 <= j2 < g.vertices@[i2].edges@.len() && (
        #[trigger] g.vertices@[i2].edges@[j2]).destiny_key == v
            && g.vertices@[i2].edges@[j2].origin_key == d1.fathers@[v] && cls1.contains_key(
            g.vertices@[i2].edges@[j2].id,
        ) && cls1[g.vertices@[i2].edges@[j2].id] == DfsClassification::Tree by {
        assert(d0.fathers@.contains_key(v));
        let (i2, j2) = choose|i2: int, j2: int|
            0 <= i2 < g.vertices@.len() && 0 <= j2 < g.vertices@[i2].edges@.len() && (
            #[trigger] g.vertices@[i2].edges@[j2]).destiny_key == v
                && g.vertices@[i2].edges@[j2].origin_key == d0.fathers@[v] && cls0.contains_key(
                g.vertices@[i2].edges@[j2].id,
            ) && cls0[g.vertices@[i2].edges@[j2].id] == DfsClassification::Tree;
        assert(g.vertices@[i2].edges@[j2].id != e.id);
        assert(cls1.contains_key(g.vertices@[i2].edges@[j2].id) && cls1[g.vertices@[i2].edges@[
        j2].id] == DfsClassification::Tree);
    }
    assert(back_ancestor_ok(g, d0.tempo_termino@, cls1)) by {
        assert forall|i2: int, j2: int|
            0 <= i2 < g.vertices@.len() && 0 <= j2 < (#[trigger] g.vertices@[i2]).edges@.len()
                && cls1.contains_key((#[trigger] g.vertices@[i2].edges@[j2]).id) && cls1[
            g.vertices@[i2].edges@[j2].id] == DfsClassification::Back implies {
            let e2 = g.vertices@[i2].edges@[j2];
            e2.destiny_key == e2.origin_key || (d0.tempo_termino@.contains_key(e2.destiny_key)
                ==> (d0.tempo_termino@.contains_key(e2.origin_key)
                && d0.tempo_termino@[e2.origin_key] < d0.tempo_termino@[e2.destiny_key]))
        } by {
            let e2 = g.vertices@[i2].edges@[j2];
            if e2.id == e.id {
                assert(i2 == i && j2 == j);
                assert(cls is Back);
                assert(!d0.finished_spec(e.destiny_key));
            } else {
                assert(cls0.contains_key(e2.id));
                assert(cls1[e2.id] == cls0[e2.id]);
            }
        }
    }
}

/// Recording the tree parent of a still-unvisited vertex together with the
/// Tree classification of the discovering edge keeps the run consistent.
proof fn lemma_wf_after_tree(g: DiGraph, d0: DfsStruct, d1: DfsStruct, i: int, j: int)
    requires
        d0.wf(g),
        g.wf(),
        0 <= i < g.vertices@.len(),
        0 <= j < g.vertices@[i].edges@.len(),
        !d0.classifications@.contains_key(g.vertices@[i].edges@[j].id),
        d0.visited_spec(g.vertices@[i].edges@[j].origin_key),
        !d0.visited_spec(g.vertices@[i].edges@[j].destiny_key),
        !d0.fathers@.contains_key(g.vertices@[i].edges@[j].destiny_key),
        d1.fathers@ == d0.fathers@.insert(
            g.vertices@[i].edges@[j].destiny_key,
            g.vertices@[i].edges@[j].origin_key,
        ),
        d1.classifications@ == d0.classifications@.insert(
            g.vertices@[i].edges@[j].id,
            DfsClassification::Tree,
        ),
        d1.tempo_descoberta@ == d0.tempo_descoberta@,
        d1.tempo_termino@ == d0.tempo_termino@,
    ensures
        d1.wf(g),
{
    let e = g.vertices@[i].edges@[j];
    let dest = e.destiny_key;
    let u = e.origin_key;
    let disc = d0.tempo_descoberta@;
    let cls0 = d0.classifications@;
    let cls1 = d1.classifications@;
    assert(g.vertices@[i].key == u) by {
        assert(g.vertices@[i].wf());
    }
    g.lemma_index_unique(i, u);
    assert(g.contains_key_spec(u));
    assert(g.edges_of_spec(u) == g.vertices@[i].edges@);
    assert(graph_has_edge_id(g.vertices@, e.id)) by {
        assert(0 <= i < g.vertices@.len() && 0 <= j < g.vertices@[i].edges@.len()
            && g.vertices@[i].edges@[j].id == e.id);
    }
    assert(fathers_ok(g, disc, d1.fathers@)) by {
        assert forall|v: i32| #[trigger] d1.fathers@.contains_key(v) implies {
            let w = d1.fathers@[v];
            &&& g.contains_key_spec(w)
            &&& disc.contains_key(w)
            &&& (exists|j2: int|
                0 <= j2 < g.edges_of_spec(w).len() && (#[trigger] g.edges_of_spec(w)[
                j2]).destiny_key == v)
            &&& disc.contains_key(v) ==> disc[w] < disc[v]
        } by {
            if v != dest {
                assert(d0.fathers@.contains_key(v));
                assert(d1.fathers@[v] == d0.fathers@[v]);
            } else {
                assert(d1.fathers@[dest] == u);
                assert(!disc.contains_key(dest));
                assert(g.edges_of_spec(u)[j].destiny_key == dest);
            }
        }
    }
    assert forall|id2: usize| #[trigger] cls1.contains_key(id2) implies graph_has_edge_id(
        g.vertices@,
        id2,
    ) by {
        if id2 != e.id {
            assert(cls0.contains_key(id2));
        }
    }
    assert forall|v: i32, j2: int|
        #[trigger] d1.tempo_termino@.contains_key(v) && 0 <= j2 < g.edges_of_spec(v).len() implies
        cls1.contains_key((#[trigger] g.edges_of_spec(v)[j2]).id) by {
        assert(cls0.contains_key(g.edges_of_spec(v)[j2].id));
    }
    assert(cls_consistent(g, disc, d0.tempo_termino@, d1.fathers@, cls1)) by {
        assert forall|i2: int, j2: int|
            0 <= i2 < g.vertices@.len() && 0 <= j2 < (#[trigger] g.vertices@[i2]).edges@.len()
                && cls1.contains_key((#[trigger] g.vertices@[i2].edges@[j2]).id) implies {
            let e2 = g.vertices@[i2].edges@[j2];
            &&& disc.contains_key(e2.origin_key)
            &&& match cls1[e2.id] {
                DfsClassification::Tree => d1.fathers@.contains_key(e2.destiny_key)
                    && d1.fathers@[e2.destiny_key] == e2.origin_key,
                DfsClassification::Back => disc.contains_key(e2.destiny_key) && disc[
                    e2.destiny_key
                ] <= disc[e2.origin_key],
                DfsClassification::Forward => d0.tempo_termino@.contains_key(e2.destiny_key)
                    && disc.contains_key(e2.destiny_key) && disc[e2.origin_key] < disc[
                    e2.destiny_key
                ],
                DfsClassification::Cross => d0.tempo_termino@.contains_key(e2.destiny_key)
                    && disc.contains_key(e2.destiny_key) && disc[e2.destiny_key] < disc[
                    e2.origin_key
                ],
            }
        } by {
            let e2 = g.vertices@[i2].edges@[j2];
            if e2.id == e.id {
                assert(i2 == i && j2 == j);
                assert(e2 == e);
                assert(d1.fathers@[dest] == u);
            } else {
                assert(cls0.contains_key(e2.id));
                assert(cls1[e2.id] == cls0[e2.id]);
                if cls0[e2.id] == DfsClassification::Tree {
                    assert(d0.fathers@.contains_key(e2.destiny_key));
                    assert(e2.destiny_key != dest);
                    assert(d1.fathers@[e2.destiny_key] == d0.fathers@[e2.destiny_key]);
                }
            }
        }
    }
    assert forall|v: i32| #[trigger] d1.fathers@.contains_key(v) implies exists|i2: int, j2: int|
        0 <= i2 < g.vertices@.len() && 0 <= j2 < g.vertices@[i2].edges@.len() && (
        #[trigger] g.vertices@[i2].edges@[j2]).destiny_key == v
            && g.vertices@[i2].edges@[j2].origin_key == d1.fathers@[v] && cls1.contains_key(
            g.vertices@[i2].edges@[j2].id,
        ) && cls1[g.vertices@[i2].edges@[j2].id] == DfsClassification::Tree by {
        if v == dest {
            assert(0 <= i < g.vertices@.len() && 0 <= j < g.vertices@[i].edges@.len()
                && g.vertices@[i].edges@[j].destiny_key == dest
                && g.vertices@[i].edges@[j].origin_key == d1.fathers@[dest] && cls1.contains_key(
                g.vertices@[i].edges@[j].id,
            ) && cls1[g.vertices@[i].edges@[j].id] == DfsClassification::Tree);
        } else {
            assert(d0.fathers@.contains_key(v));
            let (i2, j2) = choose|i2: int, j2: int|
                0 <= i2 < g.vertices@.len() && 0 <= j2 < g.vertices@[i2].edges@.len() && (
                #[trigger] g.vertices@[i2].edges@[j2]).destiny_key == v
                    && g.vertices@[i2].edges@[j2].origin_key == d0.fathers@[v]
                    && cls0.contains_key(g.vertices@[i2].edges@[j2].id) && cls0[g.vertices@[
                i2].edges@[j2].id] == DfsClassification::Tree;
            assert(g.vertices@[i2].edges@[j2].id != e.id);
            assert(d1.fathers@[v] == d0.fathers@[v]);
            assert(cls1.contains_key(g.vertices@[i2].edges@[j2].id) && cls1[g.vertices@[i2].edges@[
            j2].id] == DfsClassification::Tree);
        }
    }
    assert(back_ancestor_ok(g, d0.tempo_termino@, cls1)) by {
        assert forall|i2: int, j2: int|
            0 <= i2 < g.vertices@.len() && 0 <= j2 < (#[trigger] g.vertices@[i2]).edges@.len()
                && cls1.contains_key((#[trigger] g.vertices@[i2].edges@[j2]).id) && cls1[
            g.vertices@[i2].edges@[j2].id] == DfsClassification::Back implies {
            let e2 = g.vertices@[i2].edges@[j2];
            e2.destiny_key == e2.origin_key || (d0.tempo_termino@.contains_key(e2.destiny_key)
                ==> (d0.tempo_termino@.contains_key(e2.origin_key)
                && d0.tempo_termino@[e2.origin_key] < d0.tempo_termino@[e2.destiny_key]))
        } by {
            let e2 = g.vertices@[i2].edges@[j2];
            if e2.id == e.id {
                assert(i2 == i && j2 == j);
                assert(cls1[e.id] == DfsClassification::Tree);
                assert(false);
            } else {
                assert(cls0.contains_key(e2.id));
                assert(cls1[e2.id] == cls0[e2.id]);
            }
        }
    }
}

/// Finishing the most recently discovered open vertex, all of whose
/// outgoing edges are classified, keeps the run consistent.
proof fn lemma_wf_after_finish(g: DiGraph, d0: DfsStruct, d1: DfsStruct, u: i32)
    requires
        d0.wf(g),
        d0.visited_spec(u),
        !d0.finished_spec(u),
        forall|j: int|
            0 <= j < g.edges_of_spec(u).len() ==> d0.classifications@.contains_key(
                (#[trigger] g.edges_of_spec(u)[j]).id,
            ),
        // the finishing vertex is the most recently discovered open one
        forall|x: i32|
            d0.visited_spec(x) && !d0.finished_spec(x) && x != u ==> (
            #[trigger] d0.tempo_descoberta@[x]) < d0.tempo_descoberta@[u],
        // every Back edge into the finishing vertex left an already-finished
        // origin behind
        forall|i: int, j: int|
            0 <= i < g.vertices@.len() && 0 <= j < (#[trigger] g.vertices@[i]).edges@.len()
                && d0.classifications@.contains_key((#[trigger] g.vertices@[i].edges@[j]).id)
                && d0.classifications@[g.vertices@[i].edges@[j].id] == DfsClassification::Back
                && g.vertices@[i].edges@[j].destiny_key == u && g.vertices@[i].edges@[j].origin_key
                != u ==> d0.finished_spec(g.vertices@[i].edges@[j].origin_key),
        d1.tempo_termino@ == d0.tempo_termino@.insert(u, d0.clock_spec() as u128),
        d1.tempo_descoberta@ == d0.tempo_descoberta@,
        d1.fathers@ == d0.fathers@,
        d1.classifications@ == d0.classifications@,
        d1.clock_spec() == d0.clock_spec() + 1,
    ensures
        d1.wf(g),
{
    lemma_clock_bound(d0);
    let disc = d0.tempo_descoberta@;
    let fin0 = d0.tempo_termino@;
    let fin1 = d1.tempo_termino@;
    assert forall|v: i32| #[trigger] fin1.contains_key(v) implies disc.contains_key(v) by {
        if v != u {
            assert(fin0.contains_key(v));
        }
    }
    assert(times_ok(disc, fin1)) by {
        assert forall|v: i32| disc.contains_key(v) implies 0 <= (#[trigger] disc[v]) < disc.len()
            + fin1.len() as int by {
            assert(disc[v] < disc.len() + fin0.len() as int);
        }
        assert forall|v: i32| fin1.contains_key(v) implies 0 <= (#[trigger] fin1[v]) < disc.len()
            + fin1.len() as int by {
            if v != u {
                assert(fin0.contains_key(v));
                assert(fin0[v] < disc.len() + fin0.len() as int);
            }
        }
        assert forall|v: i32| #[trigger] fin1.contains_key(v) implies disc.contains_key(v)
            && disc[v] < fin1[v] by {
            if v != u {
                assert(fin0.contains_key(v));
                assert(disc[v] < fin0[v]);
            } else {
                assert(disc.contains_key(u));
                assert(disc[u] < d0.clock_spec());
            }
        }
        assert forall|v1: i32, v2: i32|
            fin1.contains_key(v1) && fin1.contains_key(v2) && v1 != v2 implies (
        #[trigger] fin1[v1]) != (#[trigger] fin1[v2]) by {
            if v1 == u {
                assert(fin0.contains_key(v2));
                assert(fin0[v2] < d0.clock_spec());
            } else if v2 == u {
                assert(fin0.contains_key(v1));
                assert(fin0[v1] < d0.clock_spec());
            } else {
                assert(fin0.contains_key(v1) && fin0.contains_key(v2));
            }
        }
        assert forall|v1: i32, v2: i32|
            disc.contains_key(v1) && fin1.contains_key(v2) implies (#[trigger] disc[v1]) != (
        #[trigger] fin1[v2]) by {
            assert(disc[v1] < d0.clock_spec());
            if v2 != u {
                assert(fin0.contains_key(v2));
            }
        }
    }
    assert(finished_cls_ok(g, fin1, d0.classifications@)) by {
        assert forall|v: i32, j: int|
            #[trigger] fin1.contains_key(v) && 0 <= j < g.edges_of_spec(v).len() implies
            d0.classifications@.contains_key((#[trigger] g.edges_of_spec(v)[j]).id) by {
            if v != u {
                assert(fin0.contains_key(v));
            }
        }
    }
    assert(cls_consistent(g, disc, fin1, d0.fathers@, d0.classifications@)) by {
        assert forall|i2: int, j2: int|
            0 <= i2 < g.vertices@.len() && 0 <= j2 < (#[trigger] g.vertices@[i2]).edges@.len()
                && d0.classifications@.contains_key(
                (#[trigger] g.vertices@[i2].edges@[j2]).id,
            ) implies {
            let e2 = g.vertices@[i2].edges@[j2];
            &&& disc.contains_key(e2.origin_key)
            &&& match d0.classifications@[e2.id] {
                DfsClassification::Tree => d0.fathers@.contains_key(e2.destiny_key)
                    && d0.fathers@[e2.destiny_key] == e2.origin_key,
                DfsClassification::Back => disc.contains_key(e2.destiny_key) && disc[
                    e2.destiny_key
                ] <= disc[e2.origin_key],
                DfsClassification::Forward => fin1.contains_key(e2.destiny_key)
                    && disc.contains_key(e2.destiny_key) && disc[e2.origin_key] < disc[
                    e2.destiny_key
                ],
                DfsClassification::Cross => fin1.contains_key(e2.destiny_key) && disc.contains_key(
                    e2.destiny_key,
                ) && disc[e2.destiny_key] < disc[e2.origin_key],
            }
        } by {
            let e2 = g.vertices@[i2].edges@[j2];
            match d0.classifications@[e2.id] {
                DfsClassification::Forward => {
                    assert(fin0.contains_key(e2.destiny_key));
                },
                DfsClassification::Cross => {
                    assert(fin0.contains_key(e2.destiny_key));
                },
                _ => {},
            }
        }
    }
    assert(parenthesis_ok(disc, fin1)) by {
        assert forall|v1: i32, v2: i32|
            #[trigger] fin1.contains_key(v1) && #[trigger] fin1.contains_key(v2) && v1
                != v2 implies ((fin1[v1] < disc[v2]) || (fin1[v2] < disc[v1]) || (disc[v1]
                < disc[v2] && fin1[v2] < fin1[v1]) || (disc[v2] < disc[v1] && fin1[v1] < fin1[
            v2])) by {
            if v1 != u && v2 != u {
                assert(fin0.contains_key(v1) && fin0.contains_key(v2));
            } else if v1 == u {
                assert(fin0.contains_key(v2));
                assert(d0.visited_spec(u) && !d0.finished_spec(u));
                assert(fin0[v2] < disc[u] || disc[u] < disc[v2]);
                if disc[u] < disc[v2] {
                    assert(fin0[v2] < d0.clock_spec());
                }
            } else {
                assert(fin0.contains_key(v1));
                assert(fin0[v1] < disc[u] || disc[u] < disc[v1]);
                if disc[u] < disc[v1] {
                    assert(fin0[v1] < d0.clock_spec());
                }
            }
        }
    }
    assert(open_vs_closed_ok(disc, fin1)) by {
        assert forall|x: i32, w: i32|
            #[trigger] disc.contains_key(x) && !fin1.contains_key(x) && #[trigger] fin1.contains_key(
                w,
            ) implies (fin1[w] < disc[x] || disc[x] < disc[w]) by {
            assert(x != u);
            if w != u {
                assert(fin0.contains_key(w));
            } else {
                assert(d0.visited_spec(x) && !d0.finished_spec(x));
                assert(disc[x] < disc[u]);
            }
        }
    }
    assert forall|v: i32| #[trigger] d0.fathers@.contains_key(v) implies {
        let w = d0.fathers@[v];
        &&& g.contains_key_spec(w)
        &&& disc.contains_key(w)
        &&& (exists|j2: int|
            0 <= j2 < g.edges_of_spec(w).len() && (#[trigger] g.edges_of_spec(w)[j2]).destiny_key
                == v)
        &&& disc.contains_key(v) ==> disc[w] < disc[v]
    } by {
        assert(d0.fathers@.contains_key(v));
    }
    assert(back_ancestor_ok(g, fin1, d0.classifications@)) by {
        assert forall|i2: int, j2: int|
            0 <= i2 < g.vertices@.len() && 0 <= j2 < (#[trigger] g.vertices@[i2]).edges@.len()
                && d0.classifications@.contains_key((#[trigger] g.vertices@[i2].edges@[j2]).id)
                && d0.classifications@[g.vertices@[i2].edges@[j2].id]
                == DfsClassification::Back implies {
            let e2 = g.vertices@[i2].edges@[j2];
            e2.destiny_key == e2.origin_key || (fin1.contains_key(e2.destiny_key) ==> (
            fin1.contains_key(e2.origin_key) && fin1[e2.origin_key] < fin1[e2.destiny_key]))
        } by {
            let e2 = g.vertices@[i2].edges@[j2];
            if e2.destiny_key != e2.origin_key && fin1.contains_key(e2.destiny_key) {
                if e2.destiny_key == u {
                    assert(d0.finished_spec(e2.origin_key));
                    assert(fin0.contains_key(e2.origin_key));
                    assert(fin0[e2.origin_key] < d0.clock_spec());
                } else {
                    assert(fin0.contains_key(e2.destiny_key));
                    assert(fin0.contains_key(e2.origin_key));
                    assert(e2.origin_key != u);
                }
            }
        }
    }
}

impl DiGraph {
    /// One exhaustive exploration from `search_key`: runs the explicit-stack
    /// traversal until the stack drains, discovering, classifying and
    /// finishing; afterwards every discovered vertex is finished.
    #[verifier::rlimit(100)]
    fn explore_dfs_vertice(&self, search_key: i32, dfs_data: &mut DfsStruct)
        requires
            self.wf(),
            old(dfs_data).wf(*self),
            self.contains_key_spec(search_key),
            !old(dfs_data).visited_spec(search_key),
            forall|v: i32|
                #[trigger] old(dfs_data).visited_spec(v) ==> old(dfs_data).finished_spec(v),
            forall|v: i32|
                #[trigger] old(dfs_data).fathers@.contains_key(v)
                    ==> old(dfs_data).visited_spec(v),
        ensures
            final(dfs_data).wf(*self),
            final(dfs_data).visited_spec(search_key),
            final(dfs_data).finished_spec(search_key),
            forall|v: i32|
                #[trigger] final(dfs_data).visited_spec(v) ==> final(dfs_data).finished_spec(v),
            forall|v: i32|
                #[trigger] final(dfs_data).fathers@.contains_key(v)
                    ==> final(dfs_data).visited_spec(v),
            forall|v: i32|
                #[trigger] final(dfs_data).fathers@.contains_key(v) && !old(
                    dfs_data,
                ).fathers@.contains_key(v) ==> !old(dfs_data).visited_spec(v) && v != search_key,
            forall|v: i32|
                #[trigger] final(dfs_data).visited_spec(v) && !old(dfs_data).visited_spec(v) ==> (v
                    == search_key || final(dfs_data).fathers@.contains_key(v)),
            final(dfs_data).roots@ == old(dfs_data).roots@,
            old(dfs_data).tempo_descoberta@.submap_of(final(dfs_data).tempo_descoberta@),
            old(dfs_data).tempo_termino@.submap_of(final(dfs_data).tempo_termino@),
            old(dfs_data).classifications@.submap_of(final(dfs_data).classifications@),
            old(dfs_data).fathers@.submap_of(final(dfs_data).fathers@),
    {
        let mut stack: Vec<i32> = Vec::new();
        stack.push(search_key);
        proof {
            assert(stack@[0] == search_key);
            assert(stack@.contains(search_key));
            assert(stack@ =~= seq![search_key]);
            assert(back_open_on_stack(
                *self,
                dfs_data.tempo_termino@,
                dfs_data.classifications@,
                stack@,
            )) by {
                assert forall|i2: int, j2: int|
                    0 <= i2 < self.vertices@.len() && 0 <= j2 < (
                    #[trigger] self.vertices@[i2]).edges@.len()
                        && dfs_data.classifications@.contains_key(
                        (#[trigger] self.vertices@[i2].edges@[j2]).id,
                    ) && dfs_data.classifications@[self.vertices@[i2].edges@[j2].id]
                        == DfsClassification::Back && self.vertices@[i2].edges@[j2].destiny_key
                        != self.vertices@[i2].edges@[j2].origin_key
                        && !dfs_data.tempo_termino@.contains_key(
                        self.vertices@[i2].edges@[j2].origin_key,
                    ) implies exists|t1: int, t2: int|
                    0 <= t1 < t2 < stack@.len() && stack@[t1] == self.vertices@[i2].edges@[
                    j2].destiny_key && stack@[t2] == self.vertices@[i2].edges@[j2].origin_key by {
                    let e2 = self.vertices@[i2].edges@[j2];
                    assert(dfs_data.tempo_descoberta@.contains_key(e2.origin_key));
                    assert(dfs_data.visited_spec(e2.origin_key));
                    assert(dfs_data.finished_spec(e2.origin_key));
                    assert(false);
                }
            }
        }
        while stack.len() > 0
            invariant
                self.wf(),
                dfs_data.wf(*self),
                forall|t: int|
                    0 <= t < stack@.len() ==> self.contains_key_spec(#[trigger] stack@[t]),
                forall|t: int|
                    0 <= t < stack@.len() ==> !dfs_data.finished_spec(#[trigger] stack@[t]),
                forall|t: int|
                    0 <= t < stack@.len() - 1 ==> dfs_data.visited_spec(#[trigger] stack@[t]),
                forall|t1: int, t2: int| 0 <= t1 < t2 < stack@.len() ==> stack@[t1] != stack@[t2],
                forall|t1: int, t2: int|
                    0 <= t1 < t2 < stack@.len() && dfs_data.visited_spec(#[trigger] stack@[t1])
                        && dfs_data.visited_spec(#[trigger] stack@[t2])
                        ==> dfs_data.tempo_descoberta@[stack@[t1]]
                        < dfs_data.tempo_descoberta@[stack@[t2]],
                forall|t: int|
                    0 <= t < stack@.len() ==> ((#[trigger] stack@[t]) == search_key
                        || dfs_data.fathers@.contains_key(stack@[t])),
                forall|v: i32|
                    #[trigger] dfs_data.visited_spec(v) && !dfs_data.finished_spec(v)
                        ==> stack@.contains(v),
                dfs_data.visited_spec(search_key) || stack@.contains(search_key),
                !dfs_data.visited_spec(search_key) ==> stack@ == seq![search_key],
                forall|v: i32|
                    #[trigger] dfs_data.fathers@.contains_key(v) ==> (dfs_data.visited_spec(v) || (
                    stack@.len() > 0 && v == stack@[stack@.len() - 1])),
                back_open_on_stack(
                    *self,
                    dfs_data.tempo_termino@,
                    dfs_data.classifications@,
                    stack@,
                ),
                forall|v: i32|
                    #[trigger] dfs_data.fathers@.contains_key(v) && !old(
                        dfs_data,
                    ).fathers@.contains_key(v) ==> !old(dfs_data).visited_spec(v) && v
                        != search_key,
                forall|v: i32|
                    #[trigger] dfs_data.visited_spec(v) && !old(dfs_data).visited_spec(v) ==> (v
                        == search_key || dfs_data.fathers@.contains_key(v)),
                dfs_data.roots@ == old(dfs_data).roots@,
                old(dfs_data).tempo_descoberta@.submap_of(dfs_data.tempo_descoberta@),
                old(dfs_data).tempo_termino@.submap_of(dfs_data.tempo_termino@),
                old(dfs_data).classifications@.submap_of(dfs_data.classifications@),
                old(dfs_data).fathers@.submap_of(dfs_data.fathers@),
            decreases
                    num_missing(self.vertices@, dfs_data.tempo_termino@),
                    num_unmarked(self.vertices@, dfs_data.classifications@),
        {
            let u = stack[stack.len() - 1];
            let ghost top = stack@.len() - 1;
            let ghost d0 = *dfs_data;
            if !dfs_data.already_visited(u) {
                dfs_data.start_exploring(u);
                proof {
                    lemma_wf_after_discover(*self, d0, *dfs_data, u);
                    lemma_clock_bound(d0);
                    assert(stack@[top] == u);
                    assert forall|v: i32|
                        #[trigger] dfs_data.visited_spec(v) && !dfs_data.finished_spec(
                            v,
                        ) implies stack@.contains(v) by {
                        if v == u {
                            assert(stack@[top] == u);
                        } else {
                            assert(d0.visited_spec(v));
                            assert(!d0.finished_spec(v));
                        }
                    }
                    assert forall|t1: int, t2: int|
                        0 <= t1 < t2 < stack@.len() && dfs_data.visited_spec(#[trigger] stack@[t1])
                            && dfs_data.visited_spec(
                            #[trigger] stack@[t2],
                        ) implies dfs_data.tempo_descoberta@[stack@[t1]]
                        < dfs_data.tempo_descoberta@[stack@[t2]] by {
                        assert(stack@[t1] != u);
                        assert(d0.visited_spec(stack@[t1]));
                        if t2 == top {
                            assert(d0.tempo_descoberta@[stack@[t1]] < d0.clock_spec());
                        } else {
                            assert(stack@[t2] != u);
                            assert(d0.visited_spec(stack@[t2]));
                        }
                    }
                    assert forall|v: i32|
                        #[trigger] dfs_data.visited_spec(v) && !old(
                            dfs_data,
                        ).visited_spec(v) implies (v == search_key
                        || dfs_data.fathers@.contains_key(v)) by {
                        if v != u {
                            assert(d0.visited_spec(v));
                        } else {
                            assert(stack@[top] == search_key || dfs_data.fathers@.contains_key(
                                stack@[top],
                            ));
                        }
                    }
                }
            }
            proof {
                assert(dfs_data.visited_spec(u));
            }
            let arestas = match self.get_edges(u) {
                Some(a) => a,
                None => {
                    proof {
                        assert(false);
                    }
                    unreached()
                },
            };
            match find_min_unmarked(&arestas, dfs_data) {
                Some(j) => {
                    let e = arestas[j];
                    let ghost iu = self.index_of_spec(u);
                    proof {
                        assert(self.contains_key_spec(u));
                        assert(self.edges_of_spec(u) == arestas@);
                        assert(0 <= iu < self.vertices@.len() && self.vertices@[iu].key == u);
                        assert(self.vertices@[iu].edges@[j as int] == e);
                        assert(self.vertices@[iu].wf());
                        assert(e.origin_key == u);
                        assert(graph_has_edge_id(self.vertices@, e.id));
                        assert(self.contains_key_spec(e.destiny_key));
                    }
                    let dest = e.destiny_key;
                    if !dfs_data.already_visited(dest) {
                        let ghost d_a = *dfs_data;
                        proof {
                            assert(!d_a.fathers@.contains_key(dest));
                        }
                        dfs_data.fathers.insert(dest, u);
                        dfs_data.classificate_aresta(&e, DfsClassification::Tree);
                        proof {
                            assert(dfs_data.fathers@ == d_a.fathers@.insert(dest, u));
                            assert(dfs_data.classifications@ == d_a.classifications@.insert(
                                e.id,
                                DfsClassification::Tree,
                            ));
                            lemma_wf_after_tree(*self, d_a, *dfs_data, iu, j as int);
                            lemma_num_unmarked_insert(
                                self.vertices@,
                                d_a.classifications@,
                                e.id,
                                DfsClassification::Tree,
                            );
                            lemma_status_eq(d_a, *dfs_data);
                            assert(old(dfs_data).classifications@.submap_of(
                                dfs_data.classifications@,
                            )) by {
                                assert forall|k2: usize|
                                    #[trigger] old(dfs_data).classifications@.dom().contains(
                                        k2,
                                    ) implies dfs_data.classifications@.dom().contains(k2)
                                    && old(dfs_data).classifications@[k2]
                                    == dfs_data.classifications@[k2] by {
                                    assert(d_a.classifications@.contains_key(k2));
                                    assert(k2 != e.id);
                                }
                            }
                        }
                        let ghost stack0 = stack@;
                        stack.push(dest);
                        proof {
                            assert forall|t1: int, t2: int|
                                0 <= t1 < t2 < stack@.len() implies stack@[t1] != stack@[t2] by {
                                if t2 == stack@.len() - 1 {
                                    assert(stack@[t1] == stack0[t1]);
                                    assert(dfs_data.visited_spec(stack0[t1]));
                                } else {
                                    assert(stack@[t1] == stack0[t1] && stack@[t2] == stack0[t2]);
                                }
                            }
                            assert forall|t1: int, t2: int|
                                0 <= t1 < t2 < stack@.len() && dfs_data.visited_spec(
                                    #[trigger] stack@[t1],
                                ) && dfs_data.visited_spec(
                                    #[trigger] stack@[t2],
                                ) implies dfs_data.tempo_descoberta@[stack@[t1]]
                                < dfs_data.tempo_descoberta@[stack@[t2]] by {
                                if t2 == stack@.len() - 1 {
                                    assert(stack@[t2] == dest);
                                    assert(!dfs_data.visited_spec(dest));
                                } else {
                                    assert(stack@[t1] == stack0[t1] && stack@[t2] == stack0[t2]);
                                    assert(d_a.visited_spec(stack0[t1]) && d_a.visited_spec(
                                        stack0[t2],
                                    ));
                                }
                            }
                            assert forall|v: i32|
                                #[trigger] dfs_data.visited_spec(v) && !dfs_data.finished_spec(
                                    v,
                                ) implies stack@.contains(v) by {
                                assert(d_a.visited_spec(v));
                                assert(!d_a.finished_spec(v));
                                assert(stack0.contains(v));
                                let t = choose|t: int| 0 <= t < stack0.len() && stack0[t] == v;
                                assert(stack@[t] == v);
                            }
                            assert(old(dfs_data).fathers@.submap_of(dfs_data.fathers@)) by {
                                assert forall|k: i32|
                                    #[trigger] old(dfs_data).fathers@.dom().contains(
                                        k,
                                    ) implies dfs_data.fathers@.dom().contains(k)
                                    && old(dfs_data).fathers@[k] == dfs_data.fathers@[k] by {
                                    assert(d_a.fathers@.contains_key(k));
                                    assert(k != dest);
                                }
                            }
                            assert(dfs_data.visited_spec(search_key)) by {
                                if !dfs_data.visited_spec(search_key) {
                                    assert(!d_a.visited_spec(search_key));
                                    assert(stack0 == seq![search_key]);
                                    assert(stack0[0] == u);
                                    assert(dfs_data.visited_spec(u));
                                    assert(false);
                                }
                            }
                            assert forall|v: i32|
                                #[trigger] dfs_data.fathers@.contains_key(v) implies (
                            dfs_data.visited_spec(v) || (stack@.len() > 0 && v == stack@[stack@.len()
                                - 1])) by {
                                if v != dest {
                                    assert(d_a.fathers@.contains_key(v));
                                    if !d_a.visited_spec(v) {
                                        assert(v == stack0[stack0.len() - 1]);
                                        assert(d_a.visited_spec(u));
                                        assert(false);
                                    }
                                } else {
                                    assert(stack@[stack@.len() - 1] == dest);
                                }
                            }
                            assert forall|v: i32|
                                #[trigger] dfs_data.fathers@.contains_key(v) && !old(
                                    dfs_data,
                                ).fathers@.contains_key(v) implies !old(dfs_data).visited_spec(v)
                                && v != search_key by {
                                if v != dest {
                                    assert(d_a.fathers@.contains_key(v));
                                } else {
                                    assert(!dfs_data.visited_spec(dest));
                                    if old(dfs_data).visited_spec(dest) {
                                        assert(dfs_data.visited_spec(dest));
                                    }
                                    assert(dfs_data.visited_spec(search_key));
                                }
                            }
                            assert forall|v: i32|
                                #[trigger] dfs_data.visited_spec(v) && !old(
                                    dfs_data,
                                ).visited_spec(v) implies (v == search_key
                                || dfs_data.fathers@.contains_key(v)) by {
                                assert(d_a.visited_spec(v));
                            }
                            lemma_back_stack_preserved(
                                *self,
                                dfs_data.tempo_termino@,
                                d_a.classifications@,
                                dfs_data.classifications@,
                                stack0,
                                stack@,
                            );
                        }
                    } else if !dfs_data.already_explored(dest) {
                        proof {
                            assert(dfs_data.tempo_descoberta@[dest]
                                <= dfs_data.tempo_descoberta@[u]) by {
                                assert(stack@.contains(dest));
                                let t = choose|t: int| 0 <= t < stack@.len() && stack@[t] == dest;
                                if t < top {
                                    assert(dfs_data.visited_spec(stack@[t])
                                        && dfs_data.visited_spec(stack@[top]));
                                } else {
                                    assert(dest == u);
                                }
                            }
                        }
                        let ghost d_a = *dfs_data;
                        dfs_data.classificate_aresta(&e, DfsClassification::Back);
                        proof {
                            lemma_wf_after_classify(
                                *self,
                                d_a,
                                *dfs_data,
                                iu,
                                j as int,
                                DfsClassification::Back,
                            );
                            assert(back_open_on_stack(
                                *self,
                                dfs_data.tempo_termino@,
                                dfs_data.classifications@,
                                stack@,
                            )) by {
                                assert forall|i2: int, j2: int|
                                    0 <= i2 < self.vertices@.len() && 0 <= j2 < (
                                    #[trigger] self.vertices@[i2]).edges@.len()
                                        && dfs_data.classifications@.contains_key(
                                        (#[trigger] self.vertices@[i2].edges@[j2]).id,
                                    ) && dfs_data.classifications@[self.vertices@[i2].edges@[
                                    j2].id] == DfsClassification::Back
                                        && self.vertices@[i2].edges@[j2].destiny_key
                                        != self.vertices@[i2].edges@[j2].origin_key
                                        && !dfs_data.tempo_termino@.contains_key(
                                        self.vertices@[i2].edges@[j2].origin_key,
                                    ) implies exists|t1: int, t2: int|
                                    0 <= t1 < t2 < stack@.len() && stack@[t1] == self.vertices@[
                                    i2].edges@[j2].destiny_key && stack@[t2] == self.vertices@[
                                    i2].edges@[j2].origin_key by {
                                    let e2 = self.vertices@[i2].edges@[j2];
                                    if e2.id == e.id {
                                        assert(i2 == iu && j2 == j as int);
                                        assert(e2 == e);
                                        assert(dfs_data.visited_spec(dest)
                                            && !dfs_data.finished_spec(dest));
                                        assert(stack@.contains(dest));
                                        let t = choose|t: int|
                                            0 <= t < stack@.len() && stack@[t] == dest;
                                        assert(stack@[top] == u);
                                        assert(t != top);
                                        assert(0 <= t < top < stack@.len() && stack@[t]
                                            == e2.destiny_key && stack@[top] == e2.origin_key);
                                    } else {
                                        assert(d_a.classifications@.contains_key(e2.id)
                                            && d_a.classifications@[e2.id]
                                            == DfsClassification::Back);
                                        let (t1, t2) = choose|t1: int, t2: int|
                                            0 <= t1 < t2 < stack@.len() && stack@[t1]
                                                == e2.destiny_key && stack@[t2] == e2.origin_key;
                                    }
                                }
                            }
                            lemma_num_unmarked_insert(
                                self.vertices@,
                                d_a.classifications@,
                                e.id,
                                DfsClassification::Back,
                            );
                            lemma_status_eq(d_a, *dfs_data);
                            assert(old(dfs_data).classifications@.submap_of(
                                dfs_data.classifications@,
                            )) by {
                                assert forall|k2: usize|
                                    #[trigger] old(dfs_data).classifications@.dom().contains(
                                        k2,
                                    ) implies dfs_data.classifications@.dom().contains(k2)
                                    && old(dfs_data).classifications@[k2]
                                    == dfs_data.classifications@[k2] by {
                                    assert(d_a.classifications@.contains_key(k2));
                                    assert(k2 != e.id);
                                }
                            }
                        }
                    } else {
                        let du = match dfs_data.tempo_descoberta.get(&u) {
                            Some(t) => *t,
                            None => {
                                proof {
                                    assert(false);
                                }
                                unreached()
                            },
                        };
                        let dv = match dfs_data.tempo_descoberta.get(&dest) {
                            Some(t) => *t,
                            None => {
                                proof {
                                    assert(false);
                                }
                                unreached()
                            },
                        };
                        proof {
                            assert(dfs_data.tempo_descoberta@[u] == du
                                && dfs_data.tempo_descoberta@[dest] == dv);
                            if !(du < dv) && dv == du {
                                assert(u == dest);
                                assert(stack@[top] == u);
                                assert(!dfs_data.finished_spec(u));
                                assert(false);
                            }
                        }
                        let cls = if du < dv {
                            DfsClassification::Forward
                        } else {
                            DfsClassification::Cross
                        };
                        let ghost d_a = *dfs_data;
                        dfs_data.classificate_aresta(&e, cls);
                        proof {
                            lemma_wf_after_classify(*self, d_a, *dfs_data, iu, j as int, cls);
                            lemma_back_stack_preserved(
                                *self,
                                dfs_data.tempo_termino@,
                                d_a.classifications@,
                                dfs_data.classifications@,
                                stack@,
                                stack@,
                            );
                            lemma_num_unmarked_insert(
                                self.vertices@,
                                d_a.classifications@,
                                e.id,
                                cls,
                            );
                            lemma_status_eq(d_a, *dfs_data);
                            assert(old(dfs_data).classifications@.submap_of(
                                dfs_data.classifications@,
                            )) by {
                                assert forall|k2: usize|
                                    #[trigger] old(dfs_data).classifications@.dom().contains(
                                        k2,
                                    ) implies dfs_data.classifications@.dom().contains(k2)
                                    && old(dfs_data).classifications@[k2]
                                    == dfs_data.classifications@[k2] by {
                                    assert(d_a.classifications@.contains_key(k2));
                                    assert(k2 != e.id);
                                }
                            }
                        }
                    }
                },
                None => {
                    let ghost d1 = *dfs_data;
                    proof {
                        assert forall|x: i32|
                            dfs_data.visited_spec(x) && !dfs_data.finished_spec(x) && x
                                != u implies (#[trigger] dfs_data.tempo_descoberta@[x])
                            < dfs_data.tempo_descoberta@[u] by {
                            assert(stack@.contains(x));
                            let t = choose|t: int| 0 <= t < stack@.len() && stack@[t] == x;
                            assert(t < top);
                            assert(dfs_data.visited_spec(stack@[t]) && dfs_data.visited_spec(
                                stack@[top],
                            ));
                        }
                        assert forall|i2: int, j2: int|
                            0 <= i2 < self.vertices@.len() && 0 <= j2 < (
                            #[trigger] self.vertices@[i2]).edges@.len()
                                && dfs_data.classifications@.contains_key(
                                (#[trigger] self.vertices@[i2].edges@[j2]).id,
                            ) && dfs_data.classifications@[self.vertices@[i2].edges@[j2].id]
                                == DfsClassification::Back && self.vertices@[i2].edges@[
                            j2].destiny_key == u && self.vertices@[i2].edges@[j2].origin_key
                                != u implies dfs_data.finished_spec(
                            self.vertices@[i2].edges@[j2].origin_key,
                        ) by {
                            let e2 = self.vertices@[i2].edges@[j2];
                            if !dfs_data.finished_spec(e2.origin_key) {
                                let (t1, t2) = choose|t1: int, t2: int|
                                    0 <= t1 < t2 < stack@.len() && stack@[t1] == e2.destiny_key
                                        && stack@[t2] == e2.origin_key;
                                assert(stack@[t1] == u);
                                assert(stack@[top] == u);
                                assert(t1 < top);
                                assert(stack@[t1] != stack@[top]);
                                assert(false);
                            }
                        }
                        lemma_num_missing_insert(
                            self.vertices@,
                            dfs_data.tempo_termino@,
                            u,
                            dfs_data.clock_spec() as u128,
                        );
                    }
                    dfs_data.finish_exploring(u);
                    proof {
                        assert forall|j2: int|
                            0 <= j2 < self.edges_of_spec(u).len() implies d1.classifications@.contains_key(
                            (#[trigger] self.edges_of_spec(u)[j2]).id,
                        ) by {
                            assert(arestas@[j2] == self.edges_of_spec(u)[j2]);
                        }
                        lemma_wf_after_finish(*self, d1, *dfs_data, u);
                    }
                    let ghost stack_pre = stack@;
                    let _popped = stack.pop();
                    proof {
                        assert(stack_pre[stack_pre.len() - 1] == u);
                        assert forall|v: i32|
                            #[trigger] dfs_data.visited_spec(v) && !dfs_data.finished_spec(
                                v,
                            ) implies stack@.contains(v) by {
                            assert(v != u);
                            assert(d1.visited_spec(v));
                            assert(!d1.finished_spec(v));
                            assert(stack_pre.contains(v));
                            let t = choose|t: int| 0 <= t < stack_pre.len() && stack_pre[t] == v;
                            assert(t < stack_pre.len() - 1);
                            assert(stack@[t] == v);
                            assert(stack@.contains(v));
                        }
                        assert forall|t1: int, t2: int|
                            0 <= t1 < t2 < stack@.len() && dfs_data.visited_spec(
                                #[trigger] stack@[t1],
                            ) && dfs_data.visited_spec(
                                #[trigger] stack@[t2],
                            ) implies dfs_data.tempo_descoberta@[stack@[t1]]
                            < dfs_data.tempo_descoberta@[stack@[t2]] by {
                            assert(stack@[t1] == stack_pre[t1] && stack@[t2] == stack_pre[t2]);
                            assert(d1.visited_spec(stack_pre[t1]) && d1.visited_spec(
                                stack_pre[t2],
                            ));
                        }
                        assert(dfs_data.visited_spec(search_key) || stack@.contains(search_key))
                            by {
                            if !dfs_data.visited_spec(search_key) {
                                assert(!d1.visited_spec(search_key));
                                assert(search_key != u);
                                assert(stack_pre.contains(search_key));
                                let t = choose|t: int|
                                    0 <= t < stack_pre.len() && stack_pre[t] == search_key;
                                assert(t < stack_pre.len() - 1);
                                assert(stack@[t] == search_key);
                            }
                        }
                        assert(dfs_data.visited_spec(search_key) || stack@ == seq![search_key])
                            by {
                            if !dfs_data.visited_spec(search_key) {
                                assert(!d1.visited_spec(search_key));
                                assert(stack_pre == seq![search_key]);
                                assert(u == search_key);
                                assert(d1.visited_spec(u));
                                assert(false);
                            }
                        }
                        assert forall|v: i32|
                            #[trigger] dfs_data.fathers@.contains_key(v) implies (
                        dfs_data.visited_spec(v) || (stack@.len() > 0 && v == stack@[stack@.len()
                            - 1])) by {
                            assert(d1.fathers@.contains_key(v));
                            if !d1.visited_spec(v) {
                                assert(v == stack_pre[stack_pre.len() - 1]);
                                assert(d1.visited_spec(u));
                                assert(false);
                            }
                        }
                        assert forall|v: i32|
                            #[trigger] dfs_data.visited_spec(v) && !old(
                                dfs_data,
                            ).visited_spec(v) implies (v == search_key
                            || dfs_data.fathers@.contains_key(v)) by {
                            assert(d1.visited_spec(v));
                        }
                        lemma_back_stack_pop(
                            *self,
                            d1.tempo_termino@,
                            dfs_data.tempo_termino@,
                            dfs_data.classifications@,
                            stack_pre,
                            stack@,
                            u,
                        );
                    }
                },
            }
        }
    }

    /// Runs depth-first explorations until every vertex is finished: first
    /// from `search_key` when that vertex exists and then, repeatedly, from
    /// the smallest still-unvisited key. Afterwards every vertex carries a
    /// discovery and a finish timestamp and every edge id carries exactly
    /// one classification (one entry in the classification map).
    pub fn dfs_search(&self, search_key: i32) -> (d: DfsStruct)
        requires
            self.wf(),
        ensures
            d.wf(*self),
            forall|v: i32|
                #[trigger] self.contains_key_spec(v) ==> d.visited_spec(v) && d.finished_spec(v),
            forall|v: i32| #[trigger] d.visited_spec(v) ==> self.contains_key_spec(v),
            forall|id: usize|
                #[trigger] d.classifications@.contains_key(id) <==> graph_has_edge_id(
                    self.vertices@,
                    id,
                ),
            // the discovery forest: every discovered vertex is a recorded
            // root or has exactly one parent entry, and never both
            forall|v: i32|
                #[trigger] d.visited_spec(v) ==> (d.fathers@.contains_key(v) || d.roots@.contains(
                    v,
                )),
            forall|t: int|
                0 <= t < d.roots@.len() ==> d.visited_spec(#[trigger] d.roots@[t])
                    && !d.fathers@.contains_key(d.roots@[t]),
            // the traversal roots are pinned: the run starts at `search_key`
            // when that vertex exists, and every later exploration starts at
            // the smallest key still unvisited, so the recorded roots after
            // the first are strictly ascending
            self.contains_key_spec(search_key) ==> d.roots@.len() >= 1 && d.roots@[0]
                == search_key,
            forall|t1: int, t2: int|
                (if self.contains_key_spec(search_key) {
                    1int
                } else {
                    0int
                }) <= t1 < t2 < d.roots@.len() ==> (#[trigger] d.roots@[t1]) < (
                #[trigger] d.roots@[t2]),
    {
        let mut dfs_data = DfsStruct::new(self);
        if self.vertice_exists(search_key) {
            dfs_data.roots.push(search_key);
            proof {
                assert(dfs_data.roots@[0] == search_key);
                assert(dfs_data.wf(*self));
            }
            let ghost mid0 = dfs_data;
            self.explore_dfs_vertice(search_key, &mut dfs_data);
            proof {
                assert(dfs_data.roots@ == mid0.roots@);
                assert forall|v: i32| #[trigger] dfs_data.visited_spec(v) implies (
                dfs_data.fathers@.contains_key(v) || dfs_data.roots@.contains(v)) by {
                    if !dfs_data.fathers@.contains_key(v) {
                        assert(!mid0.visited_spec(v));
                        assert(v == search_key);
                        assert(dfs_data.roots@[0] == search_key);
                    }
                }
                assert forall|t: int| 0 <= t < dfs_data.roots@.len() implies dfs_data.visited_spec(
                    #[trigger] dfs_data.roots@[t],
                ) && !dfs_data.fathers@.contains_key(dfs_data.roots@[t]) by {
                    assert(t == 0);
                    assert(dfs_data.roots@[0] == search_key);
                    if dfs_data.fathers@.contains_key(search_key) {
                        assert(!mid0.fathers@.contains_key(search_key));
                        assert(search_key != search_key);
                    }
                }
            }
        }
        let mut next = dfs_data.min_unvisited(self);
        while next.is_some()
            invariant
                self.wf(),
                dfs_data.wf(*self),
                forall|v: i32|
                    #[trigger] dfs_data.visited_spec(v) ==> dfs_data.finished_spec(v),
                forall|v: i32|
                    #[trigger] dfs_data.fathers@.contains_key(v) ==> dfs_data.visited_spec(v),
                forall|v: i32|
                    #[trigger] dfs_data.visited_spec(v) ==> (dfs_data.fathers@.contains_key(v)
                        || dfs_data.roots@.contains(v)),
                forall|t: int|
                    0 <= t < dfs_data.roots@.len() ==> dfs_data.visited_spec(
                        #[trigger] dfs_data.roots@[t],
                    ) && !dfs_data.fathers@.contains_key(dfs_data.roots@[t]),
                self.contains_key_spec(search_key) ==> dfs_data.roots@.len() >= 1
                    && dfs_data.roots@[0] == search_key,
                forall|t1: int, t2: int|
                    (if self.contains_key_spec(search_key) {
                        1int
                    } else {
                        0int
                    }) <= t1 < t2 < dfs_data.roots@.len() ==> (#[trigger] dfs_data.roots@[t1]) < (
                    #[trigger] dfs_data.roots@[t2]),
                forall|t: int, k2: i32|
                    (if self.contains_key_spec(search_key) {
                        1int
                    } else {
                        0int
                    }) <= t < dfs_data.roots@.len() && #[trigger] self.contains_key_spec(k2)
                        && !dfs_data.visited_spec(k2) ==> (#[trigger] dfs_data.roots@[t]) < k2,
                match next {
                    Some(k) => self.contains_key_spec(k) && !dfs_data.visited_spec(k) && forall|
                        k2: i32,
                    |
                        #[trigger] self.contains_key_spec(k2) && !dfs_data.visited_spec(k2) ==> k
                            <= k2,
                    None => forall|k: i32|
                        #[trigger] self.contains_key_spec(k) ==> dfs_data.visited_spec(k),
                },
            decreases num_missing(self.vertices@, dfs_data.tempo_descoberta@),
        {
            let k = match next {
                Some(k) => k,
                None => {
                    proof {
                        assert(false);
                    }
                    unreached()
                },
            };
            let ghost pre = dfs_data;
            dfs_data.roots.push(k);
            let ghost rootlen = pre.roots@.len() as int;
            proof {
                lemma_status_eq(pre, dfs_data);
                assert(dfs_data.fathers@ == pre.fathers@);
                assert(dfs_data.classifications@ == pre.classifications@);
                assert(dfs_data.roots@ == pre.roots@.push(k));
                assert(dfs_data.roots@[rootlen] == k);
                assert(!dfs_data.fathers@.contains_key(k));
                assert(dfs_data.wf(*self));
            }
            let ghost mid = dfs_data;
            self.explore_dfs_vertice(k, &mut dfs_data);
            proof {
                lemma_num_missing_submap(
                    self.vertices@,
                    mid.tempo_descoberta@,
                    dfs_data.tempo_descoberta@,
                    k,
                );
                assert(dfs_data.roots@ == mid.roots@);
                assert forall|v: i32| #[trigger] dfs_data.visited_spec(v) implies (
                dfs_data.fathers@.contains_key(v) || dfs_data.roots@.contains(v)) by {
                    if !mid.visited_spec(v) {
                        if !dfs_data.fathers@.contains_key(v) {
                            assert(v == k);
                            assert(dfs_data.roots@[rootlen] == k);
                        }
                    } else {
                        assert(pre.visited_spec(v));
                        if !pre.fathers@.contains_key(v) {
                            assert(pre.roots@.contains(v));
                            let t = choose|t: int|
                                0 <= t < pre.roots@.len() && pre.roots@[t] == v;
                            assert(dfs_data.roots@[t] == v);
                        } else {
                            assert(mid.fathers@.contains_key(v));
                            assert(dfs_data.fathers@.contains_key(v));
                        }
                    }
                }
                assert forall|t: int| 0 <= t < dfs_data.roots@.len() implies dfs_data.visited_spec(
                    #[trigger] dfs_data.roots@[t],
                ) && !dfs_data.fathers@.contains_key(dfs_data.roots@[t]) by {
                    if t < rootlen {
                        assert(pre.roots@[t] == dfs_data.roots@[t]);
                        assert(pre.visited_spec(pre.roots@[t]));
                        assert(mid.visited_spec(pre.roots@[t]));
                        assert(mid.tempo_descoberta@.submap_of(dfs_data.tempo_descoberta@));
                        assert(dfs_data.tempo_descoberta@.dom().contains(pre.roots@[t]));
                        assert(!pre.fathers@.contains_key(pre.roots@[t]));
                        if dfs_data.fathers@.contains_key(dfs_data.roots@[t]) {
                            assert(!mid.fathers@.contains_key(dfs_data.roots@[t]));
                            assert(!mid.visited_spec(dfs_data.roots@[t]));
                            assert(false);
                        }
                    } else {
                        assert(dfs_data.roots@[t] == k);
                        assert(dfs_data.visited_spec(k));
                        if dfs_data.fathers@.contains_key(k) {
                            assert(!mid.fathers@.contains_key(k));
                            assert(k != k);
                        }
                    }
                }
                let ghost lo: int = if self.contains_key_spec(search_key) {
                    1int
                } else {
                    0int
                };
                assert forall|t: int, k2: i32|
                    lo <= t < dfs_data.roots@.len() && #[trigger] self.contains_key_spec(k2)
                        && !dfs_data.visited_spec(k2) implies (#[trigger] dfs_data.roots@[t])
                    < k2 by {
                    assert(mid.tempo_descoberta@.submap_of(dfs_data.tempo_descoberta@));
                    assert(!mid.visited_spec(k2));
                    assert(!pre.visited_spec(k2));
                    if t < rootlen {
                        assert(dfs_data.roots@[t] == pre.roots@[t]);
                    } else {
                        assert(dfs_data.roots@[t] == k);
                        assert(k <= k2);
                        assert(k2 != k);
                    }
                }
                assert forall|t1: int, t2: int|
                    lo <= t1 < t2 < dfs_data.roots@.len() implies (
                #[trigger] dfs_data.roots@[t1]) < (#[trigger] dfs_data.roots@[t2]) by {
                    if t2 < rootlen {
                        assert(dfs_data.roots@[t1] == pre.roots@[t1] && dfs_data.roots@[t2]
                            == pre.roots@[t2]);
                    } else {
                        assert(dfs_data.roots@[t2] == k);
                        assert(dfs_data.roots@[t1] == pre.roots@[t1]);
                        assert(!pre.visited_spec(k));
                        assert(pre.roots@[t1] < k);
                    }
                }
            }
            next = dfs_data.min_unvisited(self);
        }
        proof {
            assert forall|id: usize| graph_has_edge_id(self.vertices@, id) implies
                dfs_data.classifications@.contains_key(id) by {
                let (i, j) = choose|i: int, j: int|
                    0 <= i < self.vertices@.len() && 0 <= j < (
                    #[trigger] self.vertices@[i]).edges@.len() && (
                    #[trigger] self.vertices@[i].edges@[j]).id == id;
                let k = self.vertices@[i].key;
                self.lemma_index_unique(i, k);
                assert(self.contains_key_spec(k));
                assert(dfs_data.finished_spec(k));
                assert(self.edges_of_spec(k) == self.vertices@[i].edges@);
                assert(dfs_data.classifications@.contains_key(self.edges_of_spec(k)[j].id));
            }
        }
        dfs_data
    }
}

/// Tree edges form a forest: following parent links from any discovered
/// vertex strictly descends in discovery time, so no chain of parent links
/// can revisit a vertex.
#[verifier::rlimit(100)]
pub proof fn lemma_tree_paths_ascend(d: DfsStruct, g: DiGraph, path: Seq<i32>)
    requires
        d.wf(g),
        path.len() >= 1,
        forall|t: int| 0 <= t < path.len() ==> d.visited_spec(#[trigger] path[t]),
        forall|t: int|
            0 <= t < path.len() - 1 ==> d.fathers@.contains_key(#[trigger] path[t])
                && d.fathers@[path[t]] == path[t + 1],
    ensures
        forall|t: int|
            0 <= t < path.len() - 1 ==> d.tempo_descoberta@[#[trigger] path[t + 1]]
                < d.tempo_descoberta@[path[t]],
        forall|t1: int, t2: int| 0 <= t1 < t2 < path.len() ==> path[t1] != path[t2],
    decreases path.len(),
{
    if path.len() > 1 {
        lemma_tree_paths_ascend(d, g, path.drop_first());
        assert forall|t1: int, t2: int| 0 <= t1 < t2 < path.len() implies path[t1] != path[t2] by {
            if t1 == 0 {
                lemma_desc_chain(d, path, t2);
            } else {
                assert(path.drop_first()[t1 - 1] != path.drop_first()[t2 - 1]);
            }
        }
    }
}

/// Discovery times strictly fall along a chain of parent links.
proof fn lemma_desc_chain(d: DfsStruct, path: Seq<i32>, t: int)
    requires
        0 < t < path.len(),
        forall|t2: int| 0 <= t2 < path.len() ==> d.visited_spec(#[trigger] path[t2]),
        forall|t2: int|
            0 <= t2 < path.len() - 1 ==> d.fathers@.contains_key(#[trigger] path[t2])
                && d.fathers@[path[t2]] == path[t2 + 1],
        forall|v: i32|
            #[trigger] d.fathers@.contains_key(v) ==> (d.visited_spec(d.fathers@[v]) && (
            d.visited_spec(v) ==> d.tempo_descoberta@[d.fathers@[v]] < d.tempo_descoberta@[v])),
    ensures
        d.tempo_descoberta@[path[t]] < d.tempo_descoberta@[path[0]],
    decreases t,
{
    if t == 1 {
        assert(d.fathers@[path[0]] == path[1]);
    } else {
        lemma_desc_chain(d, path, t - 1);
        assert(d.fathers@[path[t - 1]] == path[t]);
    }
}

} // verus!
