use lib::adjacency_list::AdjListGraph;
use lib::directedness::{Directed, Undirected};
use lib::graph::Graph;
use lib::property::{AddEdge, EdgeCount, GraphMut, NewVertex, RemoveEdge, RemoveVertex, VertexCount};

fn weights(v: Vec<&u32>) -> Vec<u32> {
    let mut r: Vec<u32> = v.into_iter().map(|w| *w).collect();
    r.sort();
    r
}

#[test]
fn new_graph_is_empty() {
    let g = AdjListGraph::<u32, u32, Directed>::new();
    assert_eq!(g.all_vertices(), Vec::<usize>::new());
    assert_eq!(g.vertex_count(), 0);
    assert_eq!(g.edge_count(), 0);
    assert!(g.directed());
}

#[test]
fn new_vertices_are_numbered_in_order() {
    let mut g = AdjListGraph::<u32, u32, Directed>::new();
    assert_eq!(g.new_vertex_weighted(10), Ok(0));
    assert_eq!(g.new_vertex_weighted(11), Ok(1));
    assert_eq!(g.new_vertex_weighted(12), Ok(2));
    assert_eq!(g.all_vertices(), vec![0, 1, 2]);
    assert_eq!(g.vertex_weight(1), Some(&11));
    assert_eq!(g.vertex_weight(3), None);
    assert!(g.contains_vertex(2));
    assert!(!g.contains_vertex(3));
    assert!(g.contains_vertices(&vec![0, 2]));
    assert!(!g.contains_vertices(&vec![0, 5]));
    assert_eq!(g.vertex_count(), 3);
}

#[test]
fn add_edge_needs_both_vertices() {
    let mut g = AdjListGraph::<(), u32, Directed>::new();
    let v0 = g.new_vertex_weighted(()).unwrap();
    let v1 = g.new_vertex_weighted(()).unwrap();
    assert_eq!(g.add_edge_weighted(v0, v1, 5), Ok(()));
    assert_eq!(g.add_edge_weighted(v0, 7, 5), Err(()));
    assert_eq!(g.add_edge_weighted(7, v1, 5), Err(()));
    assert_eq!(g.edge_count(), 1);
}

#[test]
fn directed_edges_between_go_one_way() {
    let mut g = AdjListGraph::<(), u32, Directed>::new();
    let v0 = g.new_vertex_weighted(()).unwrap();
    let v1 = g.new_vertex_weighted(()).unwrap();
    g.add_edge_weighted(v0, v1, 1).unwrap();
    g.add_edge_weighted(v0, v1, 2).unwrap();
    g.add_edge_weighted(v1, v0, 3).unwrap();
    assert_eq!(weights(g.edges_between(v0, v1)), vec![1, 2]);
    assert_eq!(weights(g.edges_between(v1, v0)), vec![3]);
    assert!(g.neighbors(v0, v1));
    assert_eq!(g.edge_count(), 3);
}

#[test]
fn undirected_edges_between_go_both_ways() {
    let mut g = AdjListGraph::<(), u32, Undirected>::new();
    let v0 = g.new_vertex_weighted(()).unwrap();
    let v1 = g.new_vertex_weighted(()).unwrap();
    let v2 = g.new_vertex_weighted(()).unwrap();
    g.add_edge_weighted(v0, v1, 1).unwrap();
    g.add_edge_weighted(v1, v0, 2).unwrap();
    g.add_edge_weighted(v1, v2, 3).unwrap();
    assert!(!g.directed());
    assert_eq!(weights(g.edges_between(v0, v1)), vec![1, 2]);
    assert_eq!(weights(g.edges_between(v1, v0)), vec![1, 2]);
    assert_eq!(weights(g.edges_between(v2, v1)), vec![3]);
    assert_eq!(g.edges_between(v0, v2).len(), 0);
    let mut ns = g.vertex_neighbors(v1);
    ns.sort();
    assert_eq!(ns, vec![v0, v2]);
}

#[test]
fn edges_sourced_and_sinked() {
    let mut g = AdjListGraph::<(), u32, Directed>::new();
    let v0 = g.new_vertex_weighted(()).unwrap();
    let v1 = g.new_vertex_weighted(()).unwrap();
    let v2 = g.new_vertex_weighted(()).unwrap();
    g.add_edge_weighted(v0, v1, 1).unwrap();
    g.add_edge_weighted(v0, v2, 2).unwrap();
    g.add_edge_weighted(v2, v1, 3).unwrap();
    let sourced: Vec<(usize, u32)> = g.edges_sourced_in(v0).into_iter().map(|(v, w)| (v, *w)).collect();
    assert_eq!(sourced, vec![(v1, 1), (v2, 2)]);
    let sinked: Vec<(usize, u32)> = g.edges_sinked_in(v1).into_iter().map(|(v, w)| (v, *w)).collect();
    assert_eq!(sinked, vec![(v0, 1), (v2, 3)]);
    let all: Vec<(usize, usize, u32)> = g.all_edges().into_iter().map(|(a, b, w)| (a, b, *w)).collect();
    assert_eq!(all, vec![(v0, v1, 1), (v0, v2, 2), (v2, v1, 3)]);
    let incident: Vec<(usize, u32)> = g.edges_incident_on(v1).into_iter().map(|(v, w)| (v, *w)).collect();
    assert_eq!(incident.len(), 2);
}

#[test]
fn remove_vertex_removes_its_edges_and_renumbers() {
    let mut g = AdjListGraph::<u32, u32, Directed>::new();
    let v0 = g.new_vertex_weighted(10).unwrap();
    let v1 = g.new_vertex_weighted(11).unwrap();
    let v2 = g.new_vertex_weighted(12).unwrap();
    g.add_edge_weighted(v0, v1, 1).unwrap();
    g.add_edge_weighted(v1, v2, 2).unwrap();
    g.add_edge_weighted(v0, v2, 3).unwrap();
    assert_eq!(g.remove_vertex(v1), Ok(11));
    assert_eq!(g.vertex_count(), 2);
    assert_eq!(g.edge_count(), 1);
    // The vertex after the removed one takes its place.
    assert_eq!(g.vertex_weight(1), Some(&12));
    assert_eq!(weights(g.edges_between(0, 1)), vec![3]);
    assert_eq!(g.remove_vertex(5), Err(()));
    assert_eq!(g.vertex_count(), 2);
}

#[test]
fn remove_edge_where_removes_the_first_match() {
    let mut g = AdjListGraph::<(), u32, Directed>::new();
    let v0 = g.new_vertex_weighted(()).unwrap();
    let v1 = g.new_vertex_weighted(()).unwrap();
    g.add_edge_weighted(v0, v1, 1).unwrap();
    g.add_edge_weighted(v0, v1, 2).unwrap();
    g.add_edge_weighted(v1, v0, 2).unwrap();
    assert_eq!(g.remove_edge_where(|(_, _, w): (usize, usize, &u32)| *w == 2), Ok((v0, v1, 2)));
    assert_eq!(weights(g.edges_between(v0, v1)), vec![1]);
    assert_eq!(weights(g.edges_between(v1, v0)), vec![2]);
    assert_eq!(g.remove_edge_where(|(_, _, w): (usize, usize, &u32)| *w == 9), Err(()));
    assert_eq!(g.edge_count(), 2);
}

#[test]
fn weights_can_be_changed() {
    let mut g = AdjListGraph::<u32, u32, Directed>::new();
    let v0 = g.new_vertex_weighted(1).unwrap();
    let v1 = g.new_vertex_weighted(2).unwrap();
    g.add_edge_weighted(v0, v1, 7).unwrap();
    *g.vertex_weight_mut(v0) = 5;
    assert_eq!(g.vertex_weight(v0), Some(&5));
    *g.edge_weight_mut(v0, 0) = 8;
    assert_eq!(weights(g.edges_between(v0, v1)), vec![8]);
    assert_eq!(g.edges_between_mut(v0, v1), vec![(v0, 0)]);
}

fn owned_edges(g: &AdjListGraph<u32, u32, Directed>) -> Vec<(usize, usize, u32)> {
    g.all_edges().into_iter().map(|(u, v, w)| (u, v, *w)).collect()
}

#[test]
fn removing_what_was_just_added_restores_the_graph() {
    let mut g = AdjListGraph::<u32, u32, Directed>::new();
    let a = g.new_vertex_weighted(1).unwrap();
    let b = g.new_vertex_weighted(2).unwrap();
    g.add_edge_weighted(a, b, 5).unwrap();
    g.add_edge_weighted(b, a, 6).unwrap();
    let before = owned_edges(&g);
    g.add_edge_weighted(a, a, 9).unwrap();
    let last = g.edges_stored_from(a).len() - 1;
    assert_eq!(g.remove_edge_at(a, last), (a, 9));
    assert_eq!(owned_edges(&g), before);
    let c = g.new_vertex_weighted(3).unwrap();
    assert_eq!(c, 2);
    assert_eq!(g.remove_vertex(c), Ok(3));
    assert_eq!(g.all_vertices(), vec![a, b]);
    assert_eq!(owned_edges(&g), before);
    assert_eq!(g.vertex_weight(b), Some(&2));
}

#[test]
fn remove_edge_where_weight_takes_the_first_accepted_edge() {
    let mut g = AdjListGraph::<(), u32, Undirected>::new();
    let a = g.new_vertex_weighted(()).unwrap();
    let b = g.new_vertex_weighted(()).unwrap();
    g.add_edge_weighted(a, b, 4).unwrap();
    g.add_edge_weighted(b, a, 6).unwrap();
    assert_eq!(weights(g.edges_between(a, b)), vec![4, 6]);
    assert_eq!(g.remove_edge_where_weight(a, b, |w: &u32| *w > 5), Ok(6));
    assert_eq!(weights(g.edges_between(b, a)), vec![4]);
    assert_eq!(g.remove_edge_where_weight(b, a, |w: &u32| *w > 5), Err(()));
    assert_eq!(g.remove_edge_where_weight(b, a, |_: &u32| true), Ok(4));
    assert_eq!(g.edge_count(), 0);
}

#[test]
fn edges_between_mut_lists_each_edge_once() {
    let mut g = AdjListGraph::<(), u32, Undirected>::new();
    let v0 = g.new_vertex_weighted(()).unwrap();
    let v1 = g.new_vertex_weighted(()).unwrap();
    g.add_edge_weighted(v0, v1, 1).unwrap();
    g.add_edge_weighted(v1, v0, 2).unwrap();
    g.add_edge_weighted(v0, v1, 3).unwrap();
    let ps = g.edges_between_mut(v0, v1);
    assert_eq!(ps, vec![(v0, 0), (v0, 1), (v1, 0)]);
    for (u, j) in ps {
        *g.edge_weight_mut(u, j) += 10;
    }
    assert_eq!(weights(g.edges_between(v0, v1)), vec![11, 12, 13]);
}

#[test]
fn a_cloned_graph_is_the_same_graph() {
    let mut g = AdjListGraph::<u32, u32, Directed>::new();
    let v0 = g.new_vertex_weighted(5).unwrap();
    let v1 = g.new_vertex_weighted(6).unwrap();
    g.add_edge_weighted(v0, v1, 7).unwrap();
    let h = g.clone();
    assert_eq!(h.all_vertices(), vec![0, 1]);
    assert_eq!(h.vertex_weight(v1), Some(&6));
    assert_eq!(weights(h.edges_between(v0, v1)), vec![7]);
    g.add_edge_weighted(v1, v0, 8).unwrap();
    assert_eq!(h.edge_count(), 1);
    assert_eq!(g.edge_count(), 2);
}

#[test]
fn edges_between_mut_lists_edges_in_vertex_order() {
    let mut g = AdjListGraph::<(), u32, Undirected>::new();
    let v0 = g.new_vertex_weighted(()).unwrap();
    let v1 = g.new_vertex_weighted(()).unwrap();
    g.add_edge_weighted(v1, v0, 1).unwrap();
    g.add_edge_weighted(v0, v1, 2).unwrap();
    g.add_edge_weighted(v1, v0, 3).unwrap();
    // The edges stored from v0 come first, as v0 comes before v1.
    assert_eq!(g.edges_between_mut(v1, v0), vec![(v0, 0), (v1, 0), (v1, 1)]);
    assert_eq!(g.edges_between_mut(v0, v1), vec![(v0, 0), (v1, 0), (v1, 1)]);
}
