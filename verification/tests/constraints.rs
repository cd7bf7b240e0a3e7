use lib::adjacency_list::AdjListGraph;
use lib::constraint::connected::{
    graph_is_connected, graph_is_unilateral, graph_is_weak, ConnectedGraph, UnilateralGraph,
    UnilaterallyConnectedGraph, WeakGraph,
};
use lib::constraint::directed::{DirectedGraph, UndirectedGraph};
use lib::constraint::no_loops::{has_loop, NoLoopsGraph};
use lib::constraint::non_null::NonNullGraph;
use lib::constraint::reflexive::ReflexiveGraph;
use lib::constraint::unique::{edges_are_unique, UniqueGraph};
use lib::constraint::{Constrainer, NonNull, Unique};
use lib::directedness::{Directed, Undirected};
use lib::graph::Graph;
use lib::property::{AddEdge, NewVertex, RemoveVertex};

fn directed(n: usize, edges: &[(usize, usize)]) -> AdjListGraph<(), u32, Directed> {
    let mut g = AdjListGraph::<(), u32, Directed>::new();
    for _ in 0..n {
        g.new_vertex_weighted(()).unwrap();
    }
    for &(a, b) in edges {
        g.add_edge_weighted(a, b, 0).unwrap();
    }
    g
}

fn undirected(n: usize, edges: &[(usize, usize)]) -> AdjListGraph<(), u32, Undirected> {
    let mut g = AdjListGraph::<(), u32, Undirected>::new();
    for _ in 0..n {
        g.new_vertex_weighted(()).unwrap();
    }
    for &(a, b) in edges {
        g.add_edge_weighted(a, b, 0).unwrap();
    }
    g
}

#[test]
fn unique_graph_refuses_a_second_edge() {
    let g = directed(2, &[(0, 1)]);
    assert!(edges_are_unique(&g));
    let mut u = UniqueGraph::constrain_single(g).ok().unwrap();
    assert_eq!(u.add_edge_weighted(0, 1, 5), Err(()));
    assert_eq!(u.add_edge_weighted(1, 0, 5), Ok(()));
    assert_eq!(*u.edge_between(1, 0).unwrap(), 5);
    assert!(u.edge_between(1, 1).is_none());
    let g = directed(2, &[(0, 1), (0, 1)]);
    assert!(!edges_are_unique(&g));
    assert!(UniqueGraph::constrain_single(g).is_err());
}

#[test]
fn unique_undirected_graph_counts_both_directions() {
    let g = undirected(2, &[(0, 1)]);
    let mut u = UniqueGraph::constrain_single(g).ok().unwrap();
    assert_eq!(u.add_edge_weighted(1, 0, 5), Err(()));
    assert_eq!(u.unconstrain_single().edges_between(0, 1).len(), 1);
}

#[test]
fn no_loops_graph_refuses_loops() {
    let g = directed(2, &[(0, 0)]);
    assert!(has_loop(&g));
    assert!(NoLoopsGraph::constrain_single(g).is_err());
    let g = directed(2, &[(0, 1)]);
    assert!(!has_loop(&g));
    let mut n = NoLoopsGraph::constrain_single(g).ok().unwrap();
    assert_eq!(n.add_edge_weighted(1, 1, 0), Err(()));
    assert_eq!(n.add_edge_weighted(1, 0, 0), Ok(()));
}

#[test]
fn non_null_graph_keeps_a_vertex() {
    let g = directed(0, &[]);
    assert!(NonNullGraph::constrain_single(g).is_err());
    let g = directed(2, &[]);
    let mut n = NonNullGraph::constrain_single(g).ok().unwrap();
    assert_eq!(n.get_vertex(), 0);
    assert_eq!(n.remove_vertex(0), Ok(()));
    assert_eq!(n.remove_vertex(0), Err(()));
    assert_eq!(n.all_vertices(), vec![0]);
}

#[test]
fn reflexive_graph_has_one_loop_per_vertex() {
    let g = directed(2, &[(0, 0)]);
    assert!(ReflexiveGraph::constrain_single(g).is_err());
    let g = directed(2, &[(0, 0), (1, 1), (1, 1)]);
    assert!(ReflexiveGraph::constrain_single(g).is_err());
    let g = directed(2, &[(0, 0), (1, 1), (0, 1)]);
    let mut r = ReflexiveGraph::constrain_single(g).ok().unwrap();
    let v = r.new_vertex_weighted(()).unwrap();
    assert_eq!(v, 2);
    assert_eq!(r.edges_between(v, v).len(), 1);
    assert_eq!(r.add_edge_weighted(v, v, 0), Err(()));
    assert_eq!(r.add_edge_weighted(v, 0, 0), Ok(()));
}

#[test]
fn directed_and_undirected_wrappers() {
    let g = directed(2, &[(0, 1)]);
    assert!(DirectedGraph::constrain_single(g).is_ok());
    let g = undirected(2, &[(0, 1)]);
    assert!(DirectedGraph::constrain_single(g).is_err());
    let g = undirected(2, &[(0, 1)]);
    let u = UndirectedGraph::constrain_single(g).ok().unwrap();
    assert!(!u.directed());
    assert_eq!(u.edges_between(1, 0).len(), 1);
    let g = directed(2, &[(0, 1)]);
    assert!(UndirectedGraph::constrain_single(g).is_err());
}

#[test]
fn connectivity_checks() {
    // A directed cycle is connected.
    let g = directed(3, &[(0, 1), (1, 2), (2, 0)]);
    assert!(graph_is_connected(&g));
    assert!(graph_is_unilateral(&g));
    assert!(graph_is_weak(&g));
    // A directed path is unilateral but not connected.
    let g = directed(3, &[(0, 1), (1, 2)]);
    assert!(!graph_is_connected(&g));
    assert!(graph_is_unilateral(&g));
    assert!(graph_is_weak(&g));
    // Two edges into one vertex: weak only.
    let g = directed(3, &[(0, 1), (2, 1)]);
    assert!(!graph_is_connected(&g));
    assert!(!graph_is_unilateral(&g));
    assert!(graph_is_weak(&g));
    // Two parts: none.
    let g = directed(4, &[(0, 1), (2, 3)]);
    assert!(!graph_is_connected(&g));
    assert!(!graph_is_unilateral(&g));
    assert!(!graph_is_weak(&g));
    // No vertices: all.
    let g = directed(0, &[]);
    assert!(graph_is_connected(&g));
    assert!(graph_is_unilateral(&g));
    assert!(graph_is_weak(&g));
    // An undirected path is connected.
    let g = undirected(3, &[(1, 0), (1, 2)]);
    assert!(graph_is_connected(&g));
}

#[test]
fn connected_wrappers() {
    assert!(ConnectedGraph::constrain_single(directed(2, &[(0, 1), (1, 0)])).is_ok());
    assert!(ConnectedGraph::constrain_single(directed(2, &[(0, 1)])).is_err());
    assert!(UnilaterallyConnectedGraph::constrain_single(directed(2, &[(0, 1)])).is_ok());
    assert!(UnilaterallyConnectedGraph::constrain_single(directed(3, &[(0, 1), (2, 1)])).is_err());
    assert!(UnilateralGraph::constrain_single(directed(3, &[(0, 1), (1, 2)])).is_ok());
    assert!(UnilateralGraph::constrain_single(directed(3, &[(0, 1), (0, 2)])).is_err());
    assert!(WeakGraph::constrain_single(directed(3, &[(0, 1), (2, 1)])).is_ok());
    assert!(WeakGraph::constrain_single(directed(3, &[(0, 1)])).is_err());
    // The weak and unilateral constraints only take directed graphs.
    assert!(WeakGraph::constrain_single(undirected(2, &[(0, 1)])).is_err());
    assert!(UnilateralGraph::constrain_single(undirected(2, &[(0, 1)])).is_err());
}

#[test]
fn connected_graph_keeps_edges_added() {
    let mut c = ConnectedGraph::constrain_single(directed(2, &[(0, 1), (1, 0)])).ok().unwrap();
    assert_eq!(c.add_edge_weighted(0, 0, 1), Ok(()));
    assert_eq!(c.add_edge_weighted(0, 5, 1), Err(()));
    let g = c.unconstrain_single();
    assert_eq!(g.edges_between(0, 0).len(), 1);
}
