use lib::adjacency_list::AdjListGraph;
use lib::algo::dijkstra_shortest_paths::{DijkstraShortestPaths, Spfs};
use lib::algo::retain::{Retainable, UnretainedIterator};
use lib::directedness::{Directed, Undirected};
use lib::property::{AddEdge, NewVertex};

/// 0 -(4)-> 1, 0 -(1)-> 2, 2 -(2)-> 1, 1 -(5)-> 3, 2 -(9)-> 3, and 4 alone.
fn sample() -> AdjListGraph<(), u64, Directed> {
    let mut g = AdjListGraph::<(), u64, Directed>::new();
    for _ in 0..5 {
        g.new_vertex_weighted(()).unwrap();
    }
    g.add_edge_weighted(0, 1, 4).unwrap();
    g.add_edge_weighted(0, 2, 1).unwrap();
    g.add_edge_weighted(2, 1, 2).unwrap();
    g.add_edge_weighted(1, 3, 5).unwrap();
    g.add_edge_weighted(2, 3, 9).unwrap();
    g
}

#[test]
fn distances_are_shortest() {
    let g = sample();
    let d = DijkstraShortestPaths::distances(&g, 0);
    assert_eq!(d, vec![(2, 1), (1, 3), (3, 8)]);
}

#[test]
fn steps_return_the_edge_each_vertex_is_reached_by() {
    let g = sample();
    let mut dijk = DijkstraShortestPaths::new(&g, 0);
    assert_eq!(dijk.next(&g), Some((0, 2, 1)));
    assert_eq!(dijk.next(&g), Some((2, 1, 2)));
    assert_eq!(dijk.next(&g), Some((1, 3, 5)));
    assert_eq!(dijk.next(&g), None);
    assert_eq!(dijk.next(&g), None);
}

#[test]
fn parallel_edges_use_the_lowest_weight() {
    let mut g = AdjListGraph::<(), u64, Directed>::new();
    g.new_vertex_weighted(()).unwrap();
    g.new_vertex_weighted(()).unwrap();
    g.add_edge_weighted(0, 1, 7).unwrap();
    g.add_edge_weighted(0, 1, 3).unwrap();
    g.add_edge_weighted(0, 1, 5).unwrap();
    assert_eq!(*DijkstraShortestPaths::shortest_edge_between(&g, 0, 1), 3);
    assert_eq!(DijkstraShortestPaths::distances(&g, 0), vec![(1, 3)]);
}

#[test]
fn undirected_distances() {
    let mut g = AdjListGraph::<(), u64, Undirected>::new();
    for _ in 0..3 {
        g.new_vertex_weighted(()).unwrap();
    }
    g.add_edge_weighted(1, 0, 2).unwrap();
    g.add_edge_weighted(2, 1, 3).unwrap();
    assert_eq!(DijkstraShortestPaths::distances(&g, 2), vec![(1, 3), (0, 5)]);
}

#[test]
fn distances_from_an_isolated_vertex() {
    let g = sample();
    assert_eq!(DijkstraShortestPaths::distances(&g, 4), vec![]);
}

#[test]
fn shortest_path_first_search_order() {
    let g = sample();
    let mut s = Spfs::new(&g, 0);
    assert_eq!(s.next(&g), Some(2));
    assert_eq!(s.next(&g), Some(1));
    assert_eq!(s.next(&g), Some(3));
    assert_eq!(s.next(&g), None);
}

#[test]
fn an_edge_of_the_highest_weight_is_followed() {
    let mut g = AdjListGraph::<(), u64, Directed>::new();
    g.new_vertex_weighted(()).unwrap();
    g.new_vertex_weighted(()).unwrap();
    g.add_edge_weighted(0, 1, u64::MAX).unwrap();
    assert_eq!(DijkstraShortestPaths::distances(&g, 0), vec![(1, u64::MAX)]);
}

#[test]
fn heavy_edges_back_to_visited_vertices_are_not_summed() {
    // 0 -(MAX)-> 1 -(1)-> 0: the edge back is never added to the distance of 1.
    let mut g = AdjListGraph::<(), u64, Directed>::new();
    g.new_vertex_weighted(()).unwrap();
    g.new_vertex_weighted(()).unwrap();
    g.add_edge_weighted(0, 1, u64::MAX).unwrap();
    g.add_edge_weighted(1, 0, 1).unwrap();
    let mut dijk = DijkstraShortestPaths::new(&g, 0);
    assert_eq!(dijk.next(&g), Some((0, 1, u64::MAX)));
    assert_eq!(dijk.next(&g), None);
}

#[test]
fn a_retained_search_steps_on_its_own_graph() {
    let g = sample();
    let s = Spfs::new(&g, 0);
    let mut r = s.retain(g);
    assert_eq!(r.next(), Some(2));
    assert_eq!(r.next(), Some(1));
    assert_eq!(r.next(), Some(3));
    assert_eq!(r.next(), None);
}
