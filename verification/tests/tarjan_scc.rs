use lib::adjacency_list::AdjListGraph;
use lib::algo::tarjan_scc::TarjanScc;
use lib::constraint::non_null::NonNullGraph;
use lib::directedness::Directed;
use lib::property::{AddEdge, NewVertex};

fn sorted(mut v: Vec<usize>) -> Vec<usize> {
    v.sort();
    v
}

#[test]
fn two_components_in_reverse_topological_order() {
    let mut graph = AdjListGraph::<(), (), Directed>::new();
    let v0 = graph.new_vertex_weighted(()).unwrap();
    let v1 = graph.new_vertex_weighted(()).unwrap();
    let v2 = graph.new_vertex_weighted(()).unwrap();
    let v3 = graph.new_vertex_weighted(()).unwrap();
    // First component has v0 and v1
    graph.add_edge_weighted(v0, v1, ()).unwrap();
    graph.add_edge_weighted(v1, v0, ()).unwrap();
    // Second component has v2 and v3
    graph.add_edge_weighted(v2, v3, ()).unwrap();
    graph.add_edge_weighted(v3, v2, ()).unwrap();
    // Connect the first to the second
    graph.add_edge_weighted(v0, v2, ()).unwrap();
    let graph = NonNullGraph::new(graph);
    let mut tarj = TarjanScc::new(&graph);
    let scc1 = tarj.next().unwrap();
    let scc2 = tarj.next().unwrap();
    assert!(tarj.next().is_none());
    assert_eq!(sorted(scc1), vec![v2, v3]);
    assert_eq!(sorted(scc2), vec![v0, v1]);
}

#[test]
fn every_vertex_is_in_exactly_one_component() {
    let mut graph = AdjListGraph::<(), (), Directed>::new();
    for _ in 0..6 {
        graph.new_vertex_weighted(()).unwrap();
    }
    graph.add_edge_weighted(0, 1, ()).unwrap();
    graph.add_edge_weighted(1, 2, ()).unwrap();
    graph.add_edge_weighted(2, 0, ()).unwrap();
    graph.add_edge_weighted(2, 3, ()).unwrap();
    graph.add_edge_weighted(4, 5, ()).unwrap();
    let graph = NonNullGraph::new(graph);
    let mut tarj = TarjanScc::new(&graph);
    let mut all = Vec::new();
    let mut comps = Vec::new();
    while let Some(scc) = tarj.next() {
        assert!(!scc.is_empty());
        all.extend(scc.iter().copied());
        comps.push(sorted(scc));
    }
    assert_eq!(sorted(all), vec![0, 1, 2, 3, 4, 5]);
    assert_eq!(comps, vec![vec![3], vec![0, 1, 2], vec![5], vec![4]]);
}

#[test]
fn single_vertex_is_its_own_component() {
    let mut graph = AdjListGraph::<(), (), Directed>::new();
    graph.new_vertex_weighted(()).unwrap();
    let graph = NonNullGraph::new(graph);
    let mut tarj = TarjanScc::new(&graph);
    assert_eq!(tarj.next(), Some(vec![0]));
    assert_eq!(tarj.next(), None);
}

#[test]
fn first_component_is_reached_from_the_start() {
    // 0 -> 1 -> 2 -> 1, and 3 -> 0 not reachable from 0.
    let mut graph = AdjListGraph::<(), (), Directed>::new();
    for _ in 0..4 {
        graph.new_vertex_weighted(()).unwrap();
    }
    graph.add_edge_weighted(0, 1, ()).unwrap();
    graph.add_edge_weighted(1, 2, ()).unwrap();
    graph.add_edge_weighted(2, 1, ()).unwrap();
    graph.add_edge_weighted(3, 0, ()).unwrap();
    let graph = NonNullGraph::new(graph);
    let mut tarj = TarjanScc::new(&graph);
    assert_eq!(sorted(tarj.next().unwrap()), vec![1, 2]);
    assert_eq!(sorted(tarj.next().unwrap()), vec![0]);
    assert_eq!(sorted(tarj.next().unwrap()), vec![3]);
    assert!(tarj.next().is_none());
}
