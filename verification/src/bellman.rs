//! The single-source shortest-path solver: Bellman-Ford relaxation over the
//! extended-real domain. A run owns a potential map (the tentative distance
//! of each vertex) and a predecessor map (`-1` as the "none" sentinel). Up
//! to one pass per vertex, every edge is examined and relaxed; a pass that
//! changes nothing is a fixed point and stops the run early. The relaxation
//! does not certify the absence of negative cycles: when every pass changed
//! something, `converged` is false and potentials influenced by a negative
//! cycle are not reliable distances.

use crate::edge::Edge;
use crate::graph::DiGraph;
use crate::infinity::{fits_i64, Infinity};
use std::collections::HashMap;
use vstd::prelude::*;

verus! {

broadcast use vstd::std_specs::hash::group_hash_axioms;

/// The result of one Bellman-Ford run.
pub struct Bellman {
    pub pred: HashMap<i32, i32>,
    pub pot: HashMap<i32, Infinity>,
    pub converged: bool,
}

/// The edge cannot improve its destination: whenever the origin's potential
/// is finite and the candidate sum fits the finite domain, the destination's
/// potential is already at most that sum.
pub open spec fn relaxed_edge(pot: Map<i32, Infinity>, e: Edge) -> bool {
    match pot[e.origin_key] {
        Infinity::Infinite => true,
        Infinity::Number(a) => fits_i64(a + e.weight) ==> (pot.contains_key(e.destiny_key)
            && pot[e.destiny_key].le_spec(Infinity::Number((a + e.weight) as i64))),
    }
}

/// No edge of the graph can improve its destination.
pub open spec fn fixed_point(g: DiGraph, pot: Map<i32, Infinity>) -> bool {
    forall|i: int, j: int|
        0 <= i < g.vertices@.len() && 0 <= j < (#[trigger] g.vertices@[i]).edges@.len()
            ==> relaxed_edge(pot, #[trigger] g.vertices@[i].edges@[j])
}

/// The edge is one of the graph's stored edges.
pub open spec fn edge_in_graph(g: DiGraph, e: Edge) -> bool {
    exists|i: int, j: int|
        0 <= i < g.vertices@.len() && 0 <= j < (#[trigger] g.vertices@[i]).edges@.len() && (
        #[trigger] g.vertices@[i].edges@[j]) == e
}

/// `p` is a directed path of stored edges from `start` to `v`; the empty
/// sequence is the path from `start` to itself.
pub open spec fn is_path_from(g: DiGraph, p: Seq<Edge>, start: i32, v: i32) -> bool {
    &&& forall|k: int| 0 <= k < p.len() ==> edge_in_graph(g, #[trigger] p[k])
    &&& forall|k: int| 0 <= k < p.len() - 1 ==> (#[trigger] p[k]).destiny_key == p[k + 1].origin_key
    &&& if p.len() == 0 {
        v == start
    } else {
        p[0].origin_key == start && p[p.len() - 1].destiny_key == v
    }
}

/// The sum of the path's edge weights, as a mathematical integer.
pub open spec fn path_weight(p: Seq<Edge>) -> int
    decreases p.len(),
{
    if p.len() == 0 {
        0
    } else {
        path_weight(p.drop_last()) + p.last().weight
    }
}

/// One edge out of the source cannot beat the source's initial potential of
/// zero: its destination is already at most the edge's weight, unless the
/// relaxation sum fell below the finite domain.
pub open spec fn edge_dominated(pot: Map<i32, Infinity>, start: i32, e: Edge) -> bool {
    pot[e.destiny_key].le_spec(Infinity::Number(e.weight)) || pot[start].value_spec() + e.weight
        < i64::MIN
}

/// Every edge out of the source is dominated. This holds of every returned
/// result, so a run that never relaxed anything cannot satisfy the contract
/// on a graph with an edge out of its source.
pub open spec fn source_edges_dominated(g: DiGraph, pot: Map<i32, Infinity>, start: i32) -> bool {
    forall|j: int|
        0 <= j < g.edges_of_spec(start).len() ==> edge_dominated(
            pot,
            start,
            #[trigger] g.edges_of_spec(start)[j],
        )
}

/// The recorded predecessor of `v` really reaches `v` by some edge, both
/// potentials are finite, and (except for a self-loop predecessor, which
/// only a negative cycle produces) the edge over-estimates nothing:
/// `pot[v] >= pot[pred[v]] + weight`.
pub open spec fn pred_ok(g: DiGraph, pot: Map<i32, Infinity>, pred: Map<i32, i32>, v: i32) -> bool {
    &&& pred.contains_key(v)
    &&& {
        let u = pred[v];
        &&& g.contains_key_spec(u)
        &&& pot.contains_key(u)
        &&& pot.contains_key(v)
        &&& pot[u] is Number
        &&& pot[v] is Number
        &&& exists|j: int|
            0 <= j < g.edges_of_spec(u).len() && (#[trigger] g.edges_of_spec(u)[j]).destiny_key
                == v && (u != v ==> pot[v].value_spec() >= pot[u].value_spec() + g.edges_of_spec(
                u,
            )[j].weight)
    }
}

/// The safety state the solver maintains throughout a run.
pub open spec fn solver_inv(
    g: DiGraph,
    pot: Map<i32, Infinity>,
    pred: Map<i32, i32>,
    start: i32,
) -> bool {
    &&& forall|k: i32| #[trigger] pot.contains_key(k) <==> (g.contains_key_spec(k) || k == start)
    &&& forall|k: i32| #[trigger] pred.contains_key(k) <==> g.contains_key_spec(k)
    &&& pot.contains_key(start) && pot[start].le_spec(Infinity::Number(0))
    &&& forall|v: i32|
        #[trigger] pot.contains_key(v) && pot[v] is Number && v != start ==> pred_ok(
            g,
            pot,
            pred,
            v,
        )
    // a recorded predecessor (any value but the sentinel) is always backed
    // by a real edge with consistent finite potentials
    &&& forall|v: i32|
        #[trigger] pred.contains_key(v) && pred[v] != -1 ==> pred_ok(g, pot, pred, v)
    // the source's predecessor stays the sentinel unless a relaxation
    // strictly lowered the source's potential below its initial zero
    &&& (pred.contains_key(start) && pred[start] != -1 ==> pot[start].lt_spec(
        Infinity::Number(0),
    ))
    // every finite potential is witnessed by an actual directed path from
    // the source whose edge weights sum to exactly that potential; in
    // particular a vertex unreachable from the source keeps `Infinite`
    &&& forall|v: i32|
        #[trigger] pot.contains_key(v) && pot[v] is Number ==> exists|p: Seq<Edge>|
            #[trigger] is_path_from(g, p, start, v) && path_weight(p) == pot[v].value_spec()
}

impl Bellman {
    pub fn new() -> (b: Bellman)
        ensures
            b.pred@ == Map::<i32, i32>::empty(),
            b.pot@ == Map::<i32, Infinity>::empty(),
            !b.converged,
    {
        Bellman { pred: HashMap::new(), pot: HashMap::new(), converged: false }
    }

    /// The predecessor map: `-1` stands for "none".
    pub fn pred(&self) -> (r: &HashMap<i32, i32>)
        ensures
            r@ == self.pred@,
    {
        &self.pred
    }

    /// The potential map: the tentative or final distance of each vertex.
    pub fn pot(&self) -> (r: &HashMap<i32, Infinity>)
        ensures
            r@ == self.pot@,
    {
        &self.pot
    }

    /// Whether the run stopped at a pass that changed nothing.
    pub fn converged(&self) -> (r: bool)
        ensures
            r == self.converged,
    {
        self.converged
    }
}

/// Bellman-Ford from `start`: initializes the source's potential to zero and
/// every other vertex's to infinity, then relaxes every edge for up to one
/// pass per vertex, stopping early at a fixed point. A relaxation whose
/// candidate sum leaves the `i64` domain is skipped (a machine-limit
/// deviation the contracts state through `fits_i64`).
pub fn find_shortest_path(graph: &DiGraph, start: i32) -> (b: Bellman)
    requires
        graph.wf(),
    ensures
        solver_inv(*graph, b.pot@, b.pred@, start),
        b.converged ==> fixed_point(*graph, b.pot@),
        source_edges_dominated(*graph, b.pot@, start),
{
    let mut data = Bellman::new();
    // initialization: every vertex unreachable, no predecessor
    let keys = graph.get_vertice_key_array();
    let mut i: usize = 0;
    while i < keys.len()
        invariant
            0 <= i <= keys@.len(),
            !data.converged,
            keys@ == graph.keys_spec(),
            forall|k: i32|
                #[trigger] data.pot@.contains_key(k) <==> exists|j: int|
                    0 <= j < i && keys@[j] == k,
            forall|k: i32|
                #[trigger] data.pred@.contains_key(k) <==> exists|j: int|
                    0 <= j < i && keys@[j] == k,
            forall|k: i32| #[trigger] data.pot@.contains_key(k) ==> data.pot@[k] is Infinite,
            forall|k: i32| #[trigger] data.pred@.contains_key(k) ==> data.pred@[k] == -1,
        decreases keys@.len() - i,
    {
        let k = keys[i];
        data.pot.insert(k, Infinity::Infinite);
        data.pred.insert(k, -1);
        i = i + 1;
    }
    proof {
        assert forall|k: i32| #[trigger] data.pot@.contains_key(k) <==> (graph.contains_key_spec(
            k,
        )) by {
            if data.pot@.contains_key(k) {
                let j = choose|j: int| 0 <= j < keys@.len() && keys@[j] == k;
                assert(graph.vertices@[j].key == k);
            }
            if graph.contains_key_spec(k) {
                let j = choose|j: int|
                    0 <= j < graph.vertices@.len() && (#[trigger] graph.vertices@[j]).key == k;
                assert(keys@[j] == k);
            }
        }
        assert forall|k: i32| #[trigger] data.pred@.contains_key(k) <==> (graph.contains_key_spec(
            k,
        )) by {
            if data.pred@.contains_key(k) {
                let j = choose|j: int| 0 <= j < keys@.len() && keys@[j] == k;
                assert(graph.vertices@[j].key == k);
            }
            if graph.contains_key_spec(k) {
                let j = choose|j: int|
                    0 <= j < graph.vertices@.len() && (#[trigger] graph.vertices@[j]).key == k;
                assert(keys@[j] == k);
            }
        }
    }
    let ghost pot_pre = data.pot@;
    data.pot.insert(start, Infinity::Number(0));
    proof {
        assert forall|k: i32| #[trigger] data.pot@.contains_key(k) <==> (graph.contains_key_spec(
            k,
        ) || k == start) by {
            if k != start {
                assert(data.pot@.contains_key(k) == pot_pre.contains_key(k));
            }
        }
        assert(data.pot@[start] == Infinity::Number(0));
        assert forall|v: i32|
            #[trigger] data.pot@.contains_key(v) && data.pot@[v] is Number && v
                != start implies pred_ok(*graph, data.pot@, data.pred@, v) by {
            assert(data.pot@[v] == pot_pre[v]);
            assert(pot_pre.contains_key(v));
            assert(pot_pre[v] is Infinite);
            assert(false);
        }
        assert forall|v: i32|
            #[trigger] data.pot@.contains_key(v) && data.pot@[v] is Number implies exists|
            p: Seq<Edge>,
        |
            #[trigger] is_path_from(*graph, p, start, v) && path_weight(p)
                == data.pot@[v].value_spec() by {
            if v == start {
                assert(is_path_from(*graph, Seq::<Edge>::empty(), start, start));
                assert(path_weight(Seq::<Edge>::empty()) == data.pot@[start].value_spec());
            } else {
                assert(data.pot@[v] == pot_pre[v]);
                assert(pot_pre.contains_key(v));
                assert(pot_pre[v] is Infinite);
                assert(false);
            }
        }
        assert(solver_inv(*graph, data.pot@, data.pred@, start));
    }
    // relaxation: up to one pass per vertex, early stop at a fixed point
    let n = graph.vertex_count();
    let mut pass: usize = 0;
    while pass < n && !data.converged
        invariant
            graph.wf(),
            n == graph.vertices@.len(),
            solver_inv(*graph, data.pot@, data.pred@, start),
            data.converged ==> fixed_point(*graph, data.pot@),
            data.converged ==> pass > 0,
            pass > 0 ==> source_edges_dominated(*graph, data.pot@, start),
        decreases n - pass,
    {
        let changed = relax_pass(graph, &mut data, start);
        if !changed {
            data.converged = true;
        }
        pass = pass + 1;
    }
    proof {
        if pass == 0 {
            assert(graph.vertices@.len() == 0);
            assert(!graph.contains_key_spec(start));
            assert(graph.edges_of_spec(start).len() == 0);
            assert(source_edges_dominated(*graph, data.pot@, start));
        }
    }
    data
}

/// One full pass over every edge of every vertex, in stored order; reports
/// whether any potential changed. A pass that reports no change left the
/// maps untouched and certifies a fixed point.
fn relax_pass(graph: &DiGraph, data: &mut Bellman, start: i32) -> (changed: bool)
    requires
        graph.wf(),
        solver_inv(*graph, old(data).pot@, old(data).pred@, start),
    ensures
        solver_inv(*graph, final(data).pot@, final(data).pred@, start),
        final(data).converged == old(data).converged,
        !changed ==> final(data).pot@ == old(data).pot@ && final(data).pred@ == old(data).pred@
            && fixed_point(*graph, final(data).pot@),
        forall|v: i32|
            #[trigger] final(data).pot@.contains_key(v) ==> final(data).pot@[v].le_spec(
                old(data).pot@[v],
            ),
        source_edges_dominated(*graph, final(data).pot@, start),
{
    let mut changed = false;
    let mut i: usize = 0;
    while i < graph.vertices.len()
        invariant
            graph.wf(),
            0 <= i <= graph.vertices@.len(),
            solver_inv(*graph, data.pot@, data.pred@, start),
            data.converged == old(data).converged,
            !changed ==> data.pot@ == old(data).pot@ && data.pred@ == old(data).pred@,
            !changed ==> forall|i2: int, j2: int|
                0 <= i2 < i && 0 <= j2 < (#[trigger] graph.vertices@[i2]).edges@.len()
                    ==> relaxed_edge(data.pot@, #[trigger] graph.vertices@[i2].edges@[j2]),
            forall|v: i32|
                #[trigger] data.pot@.contains_key(v) ==> data.pot@[v].le_spec(old(data).pot@[v]),
            forall|i2: int|
                0 <= i2 < i && (#[trigger] graph.vertices@[i2]).key == start
                    ==> source_edges_dominated(*graph, data.pot@, start),
        decreases graph.vertices@.len() - i,
    {
        let vert = &graph.vertices[i];
        let u = vert.key;
        proof {
            graph.lemma_index_unique(i as int, u);
        }
        let mut j: usize = 0;
        while j < vert.edges.len()
            invariant
                graph.wf(),
                0 <= i < graph.vertices@.len(),
                0 <= j <= vert.edges@.len(),
                vert == &graph.vertices[i as int],
                u == vert.key,
                solver_inv(*graph, data.pot@, data.pred@, start),
                data.converged == old(data).converged,
                !changed ==> data.pot@ == old(data).pot@ && data.pred@ == old(data).pred@,
                !changed ==> forall|i2: int, j2: int|
                    0 <= i2 < i && 0 <= j2 < (#[trigger] graph.vertices@[i2]).edges@.len()
                        ==> relaxed_edge(data.pot@, #[trigger] graph.vertices@[i2].edges@[j2]),
                !changed ==> forall|j2: int|
                    0 <= j2 < j ==> relaxed_edge(
                        data.pot@,
                        #[trigger] graph.vertices@[i as int].edges@[j2],
                    ),
                forall|v: i32|
                    #[trigger] data.pot@.contains_key(v) ==> data.pot@[v].le_spec(
                        old(data).pot@[v],
                    ),
                forall|i2: int|
                    0 <= i2 < i && (#[trigger] graph.vertices@[i2]).key == start
                        ==> source_edges_dominated(*graph, data.pot@, start),
                u == start ==> forall|j2: int|
                    0 <= j2 < j ==> edge_dominated(
                        data.pot@,
                        start,
                        #[trigger] graph.edges_of_spec(start)[j2],
                    ),
            decreases vert.edges@.len() - j,
        {
            let e = vert.edges[j];
            proof {
                assert(graph.vertices@[i as int].wf());
                assert(e.origin_key == u);
                assert(graph.contains_key_spec(e.destiny_key));
            }
            let w = e.destiny_key;
            let v_d = match data.pot.get(&u) {
                Some(p) => *p,
                None => {
                    proof {
                        assert(false);
                    }
                    unreached()
                },
            };
            match v_d {
                Infinity::Number(a) => {
                    match a.checked_add(e.weight) {
                        Some(s) => {
                            let w_d = match data.pot.get(&w) {
                                Some(p) => *p,
                                None => {
                                    proof {
                                        assert(false);
                                    }
                                    unreached()
                                },
                            };
                            if w_d.gt(&Infinity::Number(s)) {
                                let ghost pot0 = data.pot@;
                                let ghost pred0 = data.pred@;
                                data.pot.insert(w, Infinity::Number(s));
                                data.pred.insert(w, u);
                                changed = true;
                                proof {
                                    lemma_relax_preserves_inv(
                                        *graph,
                                        pot0,
                                        pred0,
                                        data.pot@,
                                        data.pred@,
                                        start,
                                        u,
                                        w,
                                        s,
                                        i as int,
                                        j as int,
                                    );
                                    assert forall|v: i32|
                                        #[trigger] data.pot@.contains_key(
                                            v,
                                        ) implies data.pot@[v].le_spec(old(data).pot@[v]) by {
                                        if v == w {
                                            assert(Infinity::Number(s).lt_spec(pot0[w]));
                                            assert(pot0[w].le_spec(old(data).pot@[w]));
                                        } else {
                                            assert(data.pot@[v] == pot0[v]);
                                        }
                                    }
                                    assert forall|e2: Edge|
                                        edge_dominated(pot0, start, e2) implies edge_dominated(
                                        data.pot@,
                                        start,
                                    e2) by {
                                        if data.pot@[e2.destiny_key] != pot0[e2.destiny_key] {
                                            assert(e2.destiny_key == w);
                                            assert(Infinity::Number(s).lt_spec(pot0[w]));
                                        }
                                        if e2.destiny_key != w && e2.origin_key != w {
                                        }
                                        assert(data.pot@[start].le_spec(pot0[start]));
                                    }
                                }
                            }
                        },
                        None => {
                        },
                    }
                },
                Infinity::Infinite => {
                },
            }
            proof {
                if u == start {
                    assert(graph.edges_of_spec(start) == graph.vertices@[i as int].edges@);
                    assert(edge_dominated(data.pot@, start, e)) by {
                        assert(data.pot@.contains_key(start));
                        assert(data.pot@[start].le_spec(Infinity::Number(0)));
                        assert(data.pot@[start] is Number);
                        let a_now = data.pot@[start].value_spec();
                        if a_now + e.weight < i64::MIN {
                        } else {
                            assert(data.pot@[e.destiny_key].le_spec(Infinity::Number(e.weight)));
                        }
                    }
                    assert forall|j2: int| 0 <= j2 < j + 1 implies edge_dominated(
                        data.pot@,
                        start,
                        #[trigger] graph.edges_of_spec(start)[j2],
                    ) by {
                        if j2 == j {
                            assert(graph.edges_of_spec(start)[j2] == e);
                        }
                    }
                }
            }
            j = j + 1;
        }
        proof {
            if u == start {
                assert(graph.edges_of_spec(start) == graph.vertices@[i as int].edges@);
                assert(source_edges_dominated(*graph, data.pot@, start));
            }
        }
        i = i + 1;
    }
    proof {
        if graph.contains_key_spec(start) {
            let io = graph.index_of_spec(start);
            assert(0 <= io < graph.vertices@.len() && graph.vertices@[io].key == start);
            assert(source_edges_dominated(*graph, data.pot@, start));
        } else {
            assert(graph.edges_of_spec(start).len() == 0);
            assert(source_edges_dominated(*graph, data.pot@, start));
        }
    }
    proof {
        if !changed {
            assert(fixed_point(*graph, data.pot@));
        }
    }
    changed
}

/// At a fixed point, every recorded predecessor edge is tight: some edge
/// from `pred[v]` to `v` accounts for the whole difference of potentials, so
/// walking the predecessor chain from `v` adds weights that sum, step by
/// step, to the potentials along it.
pub proof fn lemma_converged_pred_tight(
    g: DiGraph,
    pot: Map<i32, Infinity>,
    pred: Map<i32, i32>,
    start: i32,
    v: i32,
)
    requires
        g.wf(),
        solver_inv(g, pot, pred, start),
        fixed_point(g, pot),
        pot.contains_key(v),
        pot[v] is Number,
        v != start,
        pred[v] != v,
    ensures
        exists|j: int|
            0 <= j < g.edges_of_spec(pred[v]).len() && (#[trigger] g.edges_of_spec(pred[v])[
            j]).destiny_key == v && pot[v].value_spec() >= pot[pred[v]].value_spec()
                + g.edges_of_spec(pred[v])[j].weight && (fits_i64(
                pot[pred[v]].value_spec() + g.edges_of_spec(pred[v])[j].weight,
            ) ==> pot[v].value_spec() == pot[pred[v]].value_spec() + g.edges_of_spec(pred[v])[
            j].weight),
{
    assert(pred_ok(g, pot, pred, v));
    let u = pred[v];
    let j = choose|j: int|
        0 <= j < g.edges_of_spec(u).len() && (#[trigger] g.edges_of_spec(u)[j]).destiny_key == v
            && (u != v ==> pot[v].value_spec() >= pot[u].value_spec() + g.edges_of_spec(u)[
        j].weight);
    let iu = g.index_of_spec(u);
    assert(0 <= iu < g.vertices@.len() && g.vertices@[iu].key == u);
    assert(g.edges_of_spec(u) == g.vertices@[iu].edges@);
    let e = g.vertices@[iu].edges@[j];
    assert(relaxed_edge(pot, e));
    assert(e.origin_key == u);
    if fits_i64(pot[u].value_spec() + e.weight) {
        assert(pot[v].le_spec(
            Infinity::Number((pot[u].value_spec() + e.weight) as i64),
        ));
    }
    assert(0 <= j < g.edges_of_spec(u).len() && g.edges_of_spec(u)[j].destiny_key == v && pot[
        v].value_spec() >= pot[u].value_spec() + g.edges_of_spec(u)[j].weight && (fits_i64(
        pot[u].value_spec() + g.edges_of_spec(u)[j].weight,
    ) ==> pot[v].value_spec() == pot[u].value_spec() + g.edges_of_spec(u)[j].weight));
}

/// Extending a path from `start` to `u` by a stored edge out of `u` gives a
/// path to that edge's destination, heavier by the edge's weight.
pub proof fn lemma_path_extend(g: DiGraph, p: Seq<Edge>, start: i32, u: i32, e: Edge)
    requires
        is_path_from(g, p, start, u),
        edge_in_graph(g, e),
        e.origin_key == u,
    ensures
        is_path_from(g, p.push(e), start, e.destiny_key),
        path_weight(p.push(e)) == path_weight(p) + e.weight,
{
    let q = p.push(e);
    assert forall|k: int| 0 <= k < q.len() implies edge_in_graph(g, #[trigger] q[k]) by {
        if k < p.len() {
            assert(q[k] == p[k]);
        } else {
            assert(q[k] == e);
        }
    }
    assert forall|k: int| 0 <= k < q.len() - 1 implies (#[trigger] q[k]).destiny_key == q[k
        + 1].origin_key by {
        if k < p.len() - 1 {
            assert(q[k] == p[k] && q[k + 1] == p[k + 1]);
        } else {
            assert(q[k] == p[p.len() - 1] && q[k + 1] == e);
        }
    }
    if p.len() == 0 {
        assert(q[0] == e);
        assert(u == start);
    } else {
        assert(q[0] == p[0]);
    }
    assert(q.drop_last() =~= p);
}

/// Dropping the last edge of a nonempty path leaves a path to that edge's
/// origin.
pub proof fn lemma_path_prefix(g: DiGraph, p: Seq<Edge>, start: i32, v: i32)
    requires
        is_path_from(g, p, start, v),
        p.len() > 0,
    ensures
        is_path_from(g, p.drop_last(), start, p.last().origin_key),
        path_weight(p) == path_weight(p.drop_last()) + p.last().weight,
{
    let q = p.drop_last();
    assert forall|k: int| 0 <= k < q.len() implies edge_in_graph(g, #[trigger] q[k]) by {
        assert(q[k] == p[k]);
    }
    if q.len() > 0 {
        assert(q[0] == p[0]);
        assert(q[q.len() - 1].destiny_key == p[q.len() - 1].destiny_key);
        assert(p[q.len() as int - 1].destiny_key == p[q.len() as int].origin_key);
    } else {
        assert(p[0].origin_key == start);
    }
}

/// At a relaxation fixed point, no path beats a potential: the potential of
/// a path's endpoint is finite and at most the path's weight. The side
/// condition excludes the relaxations the solver must skip because their
/// sum leaves the finite domain.
pub proof fn lemma_fixed_point_bounds_path(
    g: DiGraph,
    pot: Map<i32, Infinity>,
    pred: Map<i32, i32>,
    start: i32,
    p: Seq<Edge>,
    v: i32,
)
    requires
        g.wf(),
        solver_inv(g, pot, pred, start),
        fixed_point(g, pot),
        is_path_from(g, p, start, v),
        forall|k: int|
            0 <= k < p.len() ==> fits_i64(
                pot[(#[trigger] p[k]).origin_key].value_spec() + p[k].weight,
            ),
    ensures
        pot.contains_key(v),
        pot[v] is Number,
        pot[v].value_spec() <= path_weight(p),
    decreases p.len(),
{
    if p.len() == 0 {
        assert(pot[start].le_spec(Infinity::Number(0)));
    } else {
        let e = p.last();
        let u = e.origin_key;
        lemma_path_prefix(g, p, start, v);
        assert forall|k: int| 0 <= k < p.drop_last().len() implies fits_i64(
            pot[(#[trigger] p.drop_last()[k]).origin_key].value_spec() + p.drop_last()[k].weight,
        ) by {
            assert(p.drop_last()[k] == p[k]);
        }
        lemma_fixed_point_bounds_path(g, pot, pred, start, p.drop_last(), u);
        assert(edge_in_graph(g, e));
        let (i, j) = choose|i: int, j: int|
            0 <= i < g.vertices@.len() && 0 <= j < (#[trigger] g.vertices@[i]).edges@.len() && (
            #[trigger] g.vertices@[i].edges@[j]) == e;
        assert(relaxed_edge(pot, g.vertices@[i].edges@[j]));
        assert(fits_i64(pot[u].value_spec() + e.weight));
        assert(e.destiny_key == v);
        assert(pot[v].le_spec(
            Infinity::Number((pot[u].value_spec() + e.weight) as i64),
        ));
    }
}

/// When every closed path from the source back to itself has nonnegative
/// weight (no negative cycle through the source), the source's potential is
/// pinned to zero and its predecessor to the sentinel.
pub proof fn lemma_nonnegative_loops_pin_source(
    g: DiGraph,
    pot: Map<i32, Infinity>,
    pred: Map<i32, i32>,
    start: i32,
)
    requires
        solver_inv(g, pot, pred, start),
        forall|p: Seq<Edge>| #[trigger] is_path_from(g, p, start, start) ==> path_weight(p) >= 0,
    ensures
        pot[start] == Infinity::Number(0),
        pred.contains_key(start) ==> pred[start] == -1,
{
    assert(pot.contains_key(start));
    assert(pot[start].le_spec(Infinity::Number(0)));
    assert(pot[start] is Number);
    let w = choose|p: Seq<Edge>|
        #[trigger] is_path_from(g, p, start, start) && path_weight(p) == pot[start].value_spec();
    assert(path_weight(w) >= 0);
    assert(pot[start].value_spec() == 0);
    if pred.contains_key(start) && pred[start] != -1 {
        assert(pot[start].lt_spec(Infinity::Number(0)));
        assert(false);
    }
}

/// One successful relaxation of the edge `(u, w)` with new finite sum `s`
/// keeps the solver's safety state.
proof fn lemma_relax_preserves_inv(
    g: DiGraph,
    pot0: Map<i32, Infinity>,
    pred0: Map<i32, i32>,
    pot1: Map<i32, Infinity>,
    pred1: Map<i32, i32>,
    start: i32,
    u: i32,
    w: i32,
    s: i64,
    i: int,
    j: int,
)
    requires
        g.wf(),
        solver_inv(g, pot0, pred0, start),
        0 <= i < g.vertices@.len(),
        g.vertices@[i].key == u,
        0 <= j < g.vertices@[i].edges@.len(),
        g.vertices@[i].edges@[j].destiny_key == w,
        pot0.contains_key(u),
        pot0[u] is Number,
        s == pot0[u].value_spec() + g.vertices@[i].edges@[j].weight,
        pot0.contains_key(w),
        Infinity::Number(s).lt_spec(pot0[w]),
        pot1 == pot0.insert(w, Infinity::Number(s)),
        pred1 == pred0.insert(w, u),
    ensures
        solver_inv(g, pot1, pred1, start),
{
    g.lemma_index_unique(i, u);
    assert(g.contains_key_spec(w));
    assert(g.edges_of_spec(u) == g.vertices@[i].edges@);
    let e = g.vertices@[i].edges@[j];
    if w == start {
        assert(pot0[start].le_spec(Infinity::Number(0)));
        assert(pot1[start].le_spec(Infinity::Number(0)));
    }
    // a valid predecessor survives any relaxation of another vertex
    assert forall|v: i32| pred_ok(g, pot0, pred0, v) && v != w implies pred_ok(
        g,
        pot1,
        pred1,
        v,
    ) by {
        let u0 = pred0[v];
        let j0 = choose|j0: int|
            0 <= j0 < g.edges_of_spec(u0).len() && (#[trigger] g.edges_of_spec(u0)[
            j0]).destiny_key == v && (u0 != v ==> pot0[v].value_spec() >= pot0[u0].value_spec()
                + g.edges_of_spec(u0)[j0].weight);
        assert(pred1[v] == u0);
        assert(pot1[v] == pot0[v]);
        if u0 == w {
            assert(pot1[u0].value_spec() < pot0[u0].value_spec());
            assert(0 <= j0 < g.edges_of_spec(u0).len() && g.edges_of_spec(u0)[j0].destiny_key == v
                && (u0 != v ==> pot1[v].value_spec() >= pot1[u0].value_spec() + g.edges_of_spec(
                u0,
            )[j0].weight));
        } else {
            assert(pot1[u0] == pot0[u0]);
            assert(0 <= j0 < g.edges_of_spec(u0).len() && g.edges_of_spec(u0)[j0].destiny_key == v
                && (u0 != v ==> pot1[v].value_spec() >= pot1[u0].value_spec() + g.edges_of_spec(
                u0,
            )[j0].weight));
        }
        assert(pred_ok(g, pot1, pred1, v));
    }
    // the relaxed vertex gets a fresh valid predecessor
    assert(pred_ok(g, pot1, pred1, w)) by {
        assert(g.edges_of_spec(u)[j].destiny_key == w);
        if u != w {
            assert(pot1[u] == pot0[u]);
            assert(pot1[w].value_spec() == pot0[u].value_spec() + g.edges_of_spec(u)[j].weight);
        }
    }
    assert forall|v: i32|
        #[trigger] pot1.contains_key(v) && pot1[v] is Number && v != start implies pred_ok(
        g,
        pot1,
        pred1,
        v,
    ) by {
        if v != w {
            assert(pot0.contains_key(v) && pot0[v] is Number);
            assert(pred_ok(g, pot0, pred0, v));
        }
    }
    assert forall|v: i32| #[trigger] pred1.contains_key(v) && pred1[v] != -1 implies pred_ok(
        g,
        pot1,
        pred1,
        v,
    ) by {
        if v != w {
            assert(pred0.contains_key(v) && pred0[v] == pred1[v]);
            assert(pred_ok(g, pot0, pred0, v));
        }
    }
    assert(pred1.contains_key(start) && pred1[start] != -1 ==> pot1[start].lt_spec(
        Infinity::Number(0),
    )) by {
        if pred1.contains_key(start) && pred1[start] != -1 {
            if w == start {
                assert(pot1[start] == Infinity::Number(s));
                assert(pot0[start].le_spec(Infinity::Number(0)));
            } else {
                assert(pred1[start] == pred0[start]);
                assert(pot1[start] == pot0[start]);
            }
        }
    }
    // every finite potential keeps (or gains) a witnessing path
    assert forall|v: i32| #[trigger] pot1.contains_key(v) && pot1[v] is Number implies exists|
        p: Seq<Edge>,
    | #[trigger] is_path_from(g, p, start, v) && path_weight(p) == pot1[v].value_spec() by {
        if v == w {
            assert(pot0.contains_key(u) && pot0[u] is Number);
            let pu = choose|pu: Seq<Edge>|
                #[trigger] is_path_from(g, pu, start, u) && path_weight(pu)
                    == pot0[u].value_spec();
            assert(edge_in_graph(g, e)) by {
                assert(0 <= i < g.vertices@.len() && 0 <= j < g.vertices@[i].edges@.len()
                    && g.vertices@[i].edges@[j] == e);
            }
            assert(e.origin_key == u) by {
                assert(g.vertices@[i].wf());
            }
            lemma_path_extend(g, pu, start, u, e);
            assert(is_path_from(g, pu.push(e), start, w) && path_weight(pu.push(e))
                == pot1[w].value_spec());
        } else {
            assert(pot0.contains_key(v) && pot0[v] is Number);
            let pv = choose|pv: Seq<Edge>|
                #[trigger] is_path_from(g, pv, start, v) && path_weight(pv)
                    == pot0[v].value_spec();
            assert(is_path_from(g, pv, start, v) && path_weight(pv) == pot1[v].value_spec());
        }
    }
}

} // verus!
