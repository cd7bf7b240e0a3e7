use lib::adjacency_list::AdjListGraph;
use lib::directedness::{Directed, Undirected};
use lib::graph::Graph;
use lib::property::{AddEdge, EdgeCount, GraphMut, RemoveEdge, VertexCount};
use lib::vertex_map::VertexMapGraph;

#[test]
fn vertices_are_chosen_by_the_user() {
    let mut g = VertexMapGraph::new(AdjListGraph::<u32, u32, Directed>::new());
    assert_eq!(g.add_vertex_weighted(100, 1), Ok(()));
    assert_eq!(g.add_vertex_weighted(7, 2), Ok(()));
    assert_eq!(g.add_vertex(42), Ok(()));
    assert_eq!(g.backing_vertex(100), Some(0));
    assert_eq!(g.backing_vertex(7), Some(1));
    assert_eq!(g.backing_vertex(42), Some(2));
    assert_eq!(g.backing_vertex(5), None);
    assert_eq!(g.graph.vertex_weight(2), Some(&0));
}

#[test]
fn edges_go_between_the_backing_vertices() {
    let mut g = VertexMapGraph::new(AdjListGraph::<(), u32, Directed>::new());
    g.add_vertex(100).unwrap();
    g.add_vertex(7).unwrap();
    assert_eq!(g.add_edge_weighted(7, 100, 3), Ok(()));
    assert_eq!(g.add_edge_weighted(7, 5, 3), Err(()));
    let ws: Vec<u32> = g.edges_between(7, 100).into_iter().map(|w| *w).collect();
    assert_eq!(ws, vec![3]);
    assert_eq!(g.edges_between(100, 7).len(), 0);
    assert_eq!(g.edges_between(5, 7).len(), 0);
    assert_eq!(g.graph.edges_between(1, 0).len(), 1);
}

#[test]
fn vertices_are_listed_in_backing_order() {
    let mut g = VertexMapGraph::new(AdjListGraph::<u32, (), Directed>::new());
    g.add_vertex_weighted(30, 3).unwrap();
    g.add_vertex_weighted(10, 1).unwrap();
    g.add_vertex_weighted(20, 2).unwrap();
    assert_eq!(g.all_vertices(), vec![30, 10, 20]);
    let weighted: Vec<(usize, u32)> = g.all_vertices_weighted().into_iter().map(|(v, w)| (v, *w)).collect();
    assert_eq!(weighted, vec![(30, 3), (10, 1), (20, 2)]);
    assert_eq!(g.vertex_weight(10), Some(&1));
    assert_eq!(g.vertex_weight(0), None);
    assert!(g.contains_vertex(20));
    assert!(!g.contains_vertex(2));
    assert_eq!(g.vertex_count(), 3);
}

#[test]
fn stored_edges_name_the_chosen_vertices() {
    let mut g = VertexMapGraph::new(AdjListGraph::<(), u32, Directed>::new());
    g.add_vertex(5).unwrap();
    g.add_vertex(9).unwrap();
    g.add_edge_weighted(5, 9, 1).unwrap();
    g.add_edge_weighted(5, 5, 2).unwrap();
    let out: Vec<(usize, u32)> = g.edges_stored_from(5).into_iter().map(|(v, w)| (v, *w)).collect();
    assert_eq!(out, vec![(9, 1), (5, 2)]);
    assert_eq!(g.edges_stored_from(9).len(), 0);
    assert_eq!(g.edges_stored_from(0).len(), 0);
    assert_eq!(g.edge_count(), 2);
    assert!(g.neighbors(5, 9));
    assert!(g.neighbors(9, 5));
    assert!(!g.neighbors(9, 9));
}

#[test]
fn undirected_edges_are_seen_from_both_ends() {
    let mut g = VertexMapGraph::new(AdjListGraph::<(), u32, Undirected>::new());
    g.add_vertex(3).unwrap();
    g.add_vertex(4).unwrap();
    g.add_edge_weighted(3, 4, 8).unwrap();
    assert!(!g.directed());
    let ws: Vec<u32> = g.edges_between(4, 3).into_iter().map(|w| *w).collect();
    assert_eq!(ws, vec![8]);
}

#[test]
fn removing_an_edge_returns_the_chosen_sink() {
    let mut g = VertexMapGraph::new(AdjListGraph::<(), u32, Directed>::new());
    g.add_vertex(40).unwrap();
    g.add_vertex(41).unwrap();
    g.add_edge_weighted(40, 41, 6).unwrap();
    g.add_edge_weighted(40, 40, 7).unwrap();
    assert_eq!(g.remove_edge_at(40, 0), (41, 6));
    assert_eq!(g.edges_between(40, 41).len(), 0);
    assert_eq!(g.edge_count(), 1);
    assert_eq!(g.remove_edge_where(|e: (usize, usize, &u32)| *e.2 == 7), Ok((40, 40, 7)));
    assert_eq!(g.edge_count(), 0);
}

#[test]
fn weights_are_changed_through_the_map() {
    let mut g = VertexMapGraph::new(AdjListGraph::<u32, u32, Directed>::new());
    g.add_vertex_weighted(12, 1).unwrap();
    g.add_vertex_weighted(13, 2).unwrap();
    g.add_edge_weighted(12, 13, 5).unwrap();
    *g.vertex_weight_mut(13) = 20;
    assert_eq!(g.vertex_weight(13), Some(&20));
    assert_eq!(g.graph.vertex_weight(1), Some(&20));
    let positions = g.edges_between_mut(12, 13);
    assert_eq!(positions, vec![(12, 0)]);
    *g.edge_weight_mut(12, 0) = 50;
    let ws: Vec<u32> = g.edges_between(12, 13).into_iter().map(|w| *w).collect();
    assert_eq!(ws, vec![50]);
}

#[test]
fn removing_an_edge_by_weight_between_chosen_vertices() {
    let mut g = VertexMapGraph::new(AdjListGraph::<(), u32, Directed>::new());
    g.add_vertex(70).unwrap();
    g.add_vertex(80).unwrap();
    g.add_edge_weighted(70, 80, 1).unwrap();
    g.add_edge_weighted(70, 80, 2).unwrap();
    g.add_edge_weighted(70, 80, 3).unwrap();
    assert_eq!(g.remove_edge_where_weight(70, 80, |w: &u32| *w >= 2), Ok(2));
    let ws: Vec<u32> = g.edges_between(70, 80).into_iter().map(|w| *w).collect();
    assert_eq!(ws, vec![1, 3]);
    assert_eq!(g.remove_edge_where_weight(70, 80, |w: &u32| *w > 5), Err(()));
    assert_eq!(g.remove_edge_where_weight(80, 70, |_: &u32| true), Err(()));
    assert_eq!(g.remove_edge_where_weight(70, 99, |_: &u32| true), Err(()));
}

#[test]
fn a_cloned_vertex_map_graph_keeps_the_chosen_vertices() {
    let mut g = VertexMapGraph::new(AdjListGraph::<(), u32, Directed>::new());
    g.add_vertex(100).unwrap();
    g.add_vertex(7).unwrap();
    g.add_edge_weighted(7, 100, 3).unwrap();
    let h = g.clone();
    assert_eq!(h.backing_vertex(100), Some(0));
    assert_eq!(h.backing_vertex(7), Some(1));
    assert_eq!(h.edges_between(7, 100).len(), 1);
    g.add_edge_weighted(100, 7, 4).unwrap();
    assert_eq!(h.edge_count(), 1);
}
