use rust_graph::bellman::find_shortest_path;
use rust_graph::dfs::DfsClassification;
use rust_graph::dfs::DfsStruct;
use rust_graph::DiGraph;
use rust_graph::Infinity;
use rust_graph::Vertice;

#[test]
fn inserted_edge_is_visible_with_weight() {
    let mut g = DiGraph::new(2, 1);
    g.add_edge(1, 2, 7);
    let edges = g.get_edges(1).unwrap();
    assert_eq!(edges.len(), 1);
    assert_eq!(edges[0].get_origin_key(), 1);
    assert_eq!(edges[0].get_destiny_key(), 2);
    assert_eq!(edges[0].get_weight(), 7);
    // the backward adjacency of the destination sees the same edge
    let back = g.get_edges_to(2).unwrap();
    assert_eq!(back.len(), 1);
    assert_eq!(back[0].get_id(), edges[0].get_id());
}

#[test]
fn edge_ids_unique_across_lifetime() {
    let mut g = DiGraph::new(3, 3);
    g.add_edge(1, 2, 1);
    g.add_edge(1, 2, 1);
    g.add_edge(2, 3, 1);
    let mut ids: Vec<usize> = Vec::new();
    for k in g.get_vertice_key_array() {
        for e in g.get_edges(k).unwrap() {
            ids.push(e.get_id());
        }
    }
    ids.sort();
    assert_eq!(ids, vec![0, 1, 2]);
    assert_eq!(g.edge_id_counter(), 3);
}

#[test]
fn parallel_edge_removal_matches_weight_only() {
    let mut g = DiGraph::new(2, 2);
    g.add_edge(1, 2, 5);
    g.add_edge(1, 2, 7);
    g.remove_edge(1, 2, 5);
    let edges = g.get_edges(1).unwrap();
    assert_eq!(edges.len(), 1);
    assert_eq!(edges[0].get_weight(), 7);
    let back = g.get_edges_to(2).unwrap();
    assert_eq!(back.len(), 1);
    assert_eq!(back[0].get_weight(), 7);
    // removing a weight no edge has is a no-op
    g.remove_edge(1, 2, 100);
    assert_eq!(g.get_edges(1).unwrap().len(), 1);
}

#[test]
fn bellman_ford_shortest_distances() {
    let mut g = DiGraph::new(4, 4);
    g.add_edge(1, 2, 1);
    g.add_edge(2, 3, 2);
    g.add_edge(1, 3, 5);
    g.add_edge(3, 4, -1);
    let b = find_shortest_path(&g, 1);
    assert!(b.converged());
    let pot = b.pot();
    assert_eq!(pot[&1], Infinity::Number(0));
    assert_eq!(pot[&2], Infinity::Number(1));
    assert_eq!(pot[&3], Infinity::Number(3));
    assert_eq!(pot[&4], Infinity::Number(2));
    let pred = b.pred();
    assert_eq!(pred[&2], 1);
    assert_eq!(pred[&3], 2);
    assert_eq!(pred[&4], 3);
    assert_eq!(pred[&1], -1);
}

#[test]
fn bellman_ford_unreachable_stays_infinite() {
    let mut g = DiGraph::new(3, 1);
    g.add_edge(1, 2, 4);
    g.add_vertice(9);
    let b = find_shortest_path(&g, 1);
    assert!(b.converged());
    assert_eq!(b.pot()[&9], Infinity::Infinite);
    assert_eq!(b.pred()[&9], -1);
}

#[test]
fn bellman_ford_negative_cycle_does_not_converge() {
    let mut g = DiGraph::new(2, 2);
    g.add_edge(1, 2, 1);
    g.add_edge(2, 1, -3);
    let b = find_shortest_path(&g, 1);
    assert!(!b.converged());
}

#[test]
fn dfs_classifies_tree_and_back() {
    let mut g = DiGraph::new(2, 2);
    g.add_edge(1, 2, 0); // id 0
    g.add_edge(2, 1, 0); // id 1
    let d = g.dfs_search(1);
    assert_eq!(d.classifications[&0], DfsClassification::Tree);
    assert_eq!(d.classifications[&1], DfsClassification::Back);
    assert_eq!(d.fathers[&2], 1);
    assert!(!d.fathers.contains_key(&1));
    assert_eq!(d.roots, vec![1]);
    // the Back edge's origin finishes inside its ancestor's interval
    assert!(d.tempo_termino[&2] < d.tempo_termino[&1]);
    assert!(d.tempo_descoberta[&1] < d.tempo_descoberta[&2]);
}

#[test]
fn dfs_classifies_forward_and_cross_with_timestamps() {
    let mut g = DiGraph::new(3, 4);
    g.add_edge(1, 2, 0); // id 0
    g.add_edge(1, 3, 0); // id 1
    g.add_edge(3, 2, 0); // id 2
    g.add_edge(1, 2, 0); // id 3, parallel to id 0
    let d = g.dfs_search(1);
    assert_eq!(d.classifications[&0], DfsClassification::Tree);
    assert_eq!(d.classifications[&3], DfsClassification::Forward);
    assert_eq!(d.classifications[&1], DfsClassification::Tree);
    assert_eq!(d.classifications[&2], DfsClassification::Cross);
    assert_eq!(d.tempo_descoberta[&1], 0);
    assert_eq!(d.tempo_descoberta[&2], 1);
    assert_eq!(d.tempo_termino[&2], 2);
    assert_eq!(d.tempo_descoberta[&3], 3);
    assert_eq!(d.tempo_termino[&3], 4);
    assert_eq!(d.tempo_termino[&1], 5);
}

#[test]
fn dfs_covers_disconnected_graphs() {
    let mut g = DiGraph::new(4, 2);
    g.add_edge(1, 2, 0);
    g.add_edge(5, 6, 0);
    let d = g.dfs_search(1);
    for k in [1, 2, 5, 6] {
        assert!(d.tempo_descoberta.contains_key(&k));
        assert!(d.tempo_termino.contains_key(&k));
    }
    assert_eq!(d.classifications.len(), 2);
    // one recorded root per exploration, in ascending key order of the picks
    assert_eq!(d.roots, vec![1, 5]);
    for r in &d.roots {
        assert!(!d.fathers.contains_key(r));
    }
}

#[test]
fn dfs_rerun_is_identical() {
    let mut g = DiGraph::new(4, 5);
    g.add_edge(1, 2, 0);
    g.add_edge(2, 3, 0);
    g.add_edge(3, 1, 0);
    g.add_edge(1, 3, 0);
    g.add_edge(4, 1, 0);
    let d1 = g.dfs_search(1);
    let d2 = g.dfs_search(1);
    assert_eq!(d1.tempo_descoberta, d2.tempo_descoberta);
    assert_eq!(d1.tempo_termino, d2.tempo_termino);
    assert_eq!(d1.classifications, d2.classifications);
    assert_eq!(d1.fathers, d2.fathers);
}

#[test]
fn dfs_intervals_nest_or_are_disjoint() {
    let mut g = DiGraph::new(5, 5);
    g.add_edge(1, 2, 0);
    g.add_edge(2, 3, 0);
    g.add_edge(1, 3, 0);
    g.add_edge(3, 1, 0);
    g.add_edge(4, 5, 0);
    let d = g.dfs_search(1);
    let keys = g.get_vertice_key_array();
    for &a in &keys {
        for &b in &keys {
            if a == b {
                continue;
            }
            let (da, fa) = (d.tempo_descoberta[&a], d.tempo_termino[&a]);
            let (db, fb) = (d.tempo_descoberta[&b], d.tempo_termino[&b]);
            let disjoint = fa < db || fb < da;
            let a_in_b = db < da && fa < fb;
            let b_in_a = da < db && fb < fa;
            assert!(disjoint || a_in_b || b_in_a);
        }
    }
}

#[test]
fn dfs_every_edge_classified_exactly_once() {
    let mut g = DiGraph::new(4, 6);
    g.add_edge(1, 2, 0);
    g.add_edge(2, 3, 0);
    g.add_edge(3, 1, 0);
    g.add_edge(3, 3, 0); // self-loop is a back edge
    g.add_edge(4, 2, 0);
    g.add_edge(1, 2, 0);
    let d = g.dfs_search(1);
    assert_eq!(d.classifications.len(), 6);
    for id in 0..6usize {
        assert!(d.classifications.contains_key(&id));
    }
    assert_eq!(d.classifications[&3], DfsClassification::Back);
}

#[test]
fn unexplored_vertice_is_smallest_unvisited() {
    let mut g = DiGraph::new(3, 0);
    g.add_vertice(7);
    g.add_vertice(3);
    g.add_vertice(5);
    let d = DfsStruct::new(&g);
    assert_eq!(d.get_unexplored_vertice(&g), 3);
    let done = g.dfs_search(3);
    assert_eq!(done.get_unexplored_vertice(&g), -1);
}

#[test]
fn store_queries_and_idempotent_creation() {
    let mut g = DiGraph::new(10, 20);
    assert_eq!(g.get_vertices_length(), 10);
    assert_eq!(g.get_edges_lenght(), 20);
    g.add_vertice(1);
    g.add_vertice(1);
    assert_eq!(g.vertex_count(), 1);
    assert!(g.vertice_exists(1));
    assert!(!g.vertice_exists(2));
    g.add_edge(1, 2, 3);
    g.add_edge(1, 2, 4);
    g.add_edge(3, 2, 9);
    assert_eq!(g.get_vertice_key_array(), vec![1, 2, 3]);
    assert_eq!(g.get_sucessor(1).unwrap(), vec![2, 2]);
    assert!(g.get_sucessor(42).is_none());
    assert_eq!(g.get_predecessor(2).unwrap(), vec![1, 1, 3]);
    assert!(g.get_predecessor(42).is_none());
    assert!(g.get_edges(42).is_none());
    let v = g.get_vertice_cloneRef(1).unwrap();
    assert_eq!(v.key(), 1);
    assert_eq!(v.get_Edges_clone().len(), 2);
}

#[test]
fn vertice_adjacency_operations() {
    let mut v = Vertice::new(1);
    let e1 = rust_graph::Edge::new(1, 2, 5, 0);
    let e2 = rust_graph::Edge::new(1, 2, 7, 1);
    let e3 = rust_graph::Edge::new(1, 3, 1, 2);
    v.add_edge(e1);
    v.add_edge(e2);
    v.add_edge(e3);
    assert!(v.has_edge_to(2));
    assert!(!v.has_edge_to(4));
    assert_eq!(v.get_edges_to(2).unwrap().len(), 2);
    assert!(v.get_edges_to(9).is_none());
    assert_eq!(v.edges_vec().len(), 3);
    assert_eq!(v.get_Edges_ref().len(), 3);
    assert_eq!(v.edges_vec_ref().len(), 3);
    v.remove_edge(e1);
    let left = v.edges_vec();
    assert_eq!(left.len(), 2);
    assert!(left.iter().all(|e| e.get_weight() != 5));
    let mut w = Vertice::new(2);
    w.add_back_edge(e1);
    assert_eq!(w.back_edges_hashmap().len(), 1);
    let (out, inc) = w.get_all_edges_tuple();
    assert_eq!(out.len(), 0);
    assert_eq!(inc.len(), 1);
    assert_eq!(w.get_all_edges(1).len(), 1);
}

#[test]
fn infinity_domain_rules() {
    let inf = Infinity::Infinite;
    let two = Infinity::Number(2);
    let five = Infinity::Number(5);
    assert!(inf.gt(&five));
    assert!(!five.gt(&inf));
    assert!(two.lt(&five));
    assert!(five.le(&five));
    assert!(inf.le(&inf));
    assert!(!inf.lt(&inf));
    assert!(inf.is_infinite());
    assert!(two.is_finite());
    assert_eq!(two.unwrap(), 2);
    assert_eq!(two.plus(five), Infinity::Number(7));
    assert_eq!(inf.plus(five), Infinity::Infinite);
    assert_eq!(two.plus(inf), Infinity::Infinite);
}
