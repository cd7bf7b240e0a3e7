use lib::adjacency_list::AdjListGraph;
use lib::algo::bfs::Bfs;
use lib::algo::dfs::{Dfs, DfsHooks};
use lib::algo::reach::{reachable_vertices, Direction};
use lib::algo::search::{new_search, new_search_retained, path_exists, DFS};
use lib::directedness::{Directed, Undirected};
use lib::ensured::Ensured;
use lib::graph::Graph;
use lib::property::{AddEdge, NewVertex};

/// 0 -> 1 -> 2, 0 -> 3, and 4 on its own.
fn sample() -> AdjListGraph<usize, (), Directed> {
    let mut g = AdjListGraph::<usize, (), Directed>::new();
    for i in 0..5 {
        g.new_vertex_weighted(i).unwrap();
    }
    g.add_edge_weighted(0, 1, ()).unwrap();
    g.add_edge_weighted(1, 2, ()).unwrap();
    g.add_edge_weighted(0, 3, ()).unwrap();
    g
}

#[test]
fn dfs_visits_depth_first_without_the_start() {
    let g = sample();
    let mut dfs = Dfs::new_simple(&g, 0);
    assert!(dfs.visited(0));
    let mut order = Vec::new();
    while let Some(v) = dfs.next() {
        order.push(v);
    }
    // The last child pushed is visited first.
    assert_eq!(order, vec![3, 1, 2]);
    assert!(dfs.visited(2));
    assert!(!dfs.visited(4));
}

#[test]
fn dfs_continues_from_unvisited_vertices() {
    let g = sample();
    let mut dfs = Dfs::new(&g, 1, ());
    assert_eq!(dfs.next(), Some(2));
    assert_eq!(dfs.next(), None);
    assert!(!dfs.continue_from(2));
    assert!(dfs.continue_from(4));
    assert_eq!(dfs.next(), Some(4));
    assert_eq!(dfs.next(), None);
}

#[test]
fn dfs_exits_children_before_parents() {
    let g = sample();
    let mut dfs = Dfs::new(&g, 0, ());
    // Nothing is finished before the traversal goes on.
    assert_eq!(dfs.advance_next_exit(), None);
    assert_eq!(dfs.next(), Some(3));
    assert_eq!(dfs.advance_next_exit(), Some(3));
    assert_eq!(dfs.next(), Some(1));
    assert_eq!(dfs.next(), Some(2));
    assert_eq!(dfs.advance_next_exit(), Some(2));
    assert_eq!(dfs.advance_next_exit(), Some(1));
    assert_eq!(dfs.advance_next_exit(), Some(0));
    assert_eq!(dfs.advance_next_exit(), None);
}

#[test]
fn search_returns_the_start_first() {
    let g = sample();
    let mut s = DFS::new_simple(&g, 1);
    assert_eq!(s.next(), Some(1));
    assert_eq!(s.next(), Some(2));
    assert_eq!(s.next(), None);
    let mut s = new_search(&g, 0);
    let mut found = Vec::new();
    while let Some(v) = s.next() {
        found.push(v);
    }
    found.sort();
    assert_eq!(found, vec![1, 2, 3]);
    let mut r = new_search_retained(&g, 3);
    assert_eq!(r.next(), None);
}

#[test]
fn bfs_visits_breadth_first_and_tracks_the_tree() {
    let g = sample();
    let mut bfs = Bfs::new(&g, 0);
    let mut order = Vec::new();
    while let Some(v) = bfs.next() {
        order.push(v);
    }
    assert_eq!(order, vec![1, 3, 2]);
    assert_eq!(bfs.depth(0), 0);
    assert_eq!(bfs.depth(1), 1);
    assert_eq!(bfs.depth(2), 2);
    assert_eq!(bfs.predecessor(2), Some(1));
    assert_eq!(bfs.predecessor(0), None);
    assert_eq!(bfs.predecessor(4), None);
}

#[test]
fn path_exists_follows_directions() {
    let g = sample();
    assert!(path_exists(&g, 0, 2));
    assert!(!path_exists(&g, 2, 0));
    assert!(!path_exists(&g, 0, 4));
    assert!(!path_exists(&g, 0, 0));
    assert!(!path_exists(&g, 0, 9));
}

#[test]
fn path_exists_in_undirected_graph() {
    let mut g = AdjListGraph::<(), (), Undirected>::new();
    for _ in 0..3 {
        g.new_vertex_weighted(()).unwrap();
    }
    g.add_edge_weighted(0, 1, ()).unwrap();
    assert!(path_exists(&g, 1, 0));
    assert!(!path_exists(&g, 1, 2));
}

#[test]
fn reachable_vertices_by_direction() {
    let g = sample();
    let mut fwd = reachable_vertices(&g, 1, Direction::Forward);
    fwd.sort();
    assert_eq!(fwd, vec![1, 2]);
    let mut back = reachable_vertices(&g, 1, Direction::Backward);
    back.sort();
    assert_eq!(back, vec![0, 1]);
    let mut either = reachable_vertices(&g, 2, Direction::Either);
    either.sort();
    assert_eq!(either, vec![0, 1, 2, 3]);
}

#[test]
fn bfs_depth_is_the_shortest_distance() {
    // 0 -> 1 -> 2 -> 3 and a shortcut 0 -> 3; 4 -> 2 is unreachable from 0.
    let mut g = AdjListGraph::<(), (), Directed>::new();
    for _ in 0..5 {
        g.new_vertex_weighted(()).unwrap();
    }
    g.add_edge_weighted(0, 1, ()).unwrap();
    g.add_edge_weighted(1, 2, ()).unwrap();
    g.add_edge_weighted(2, 3, ()).unwrap();
    g.add_edge_weighted(0, 3, ()).unwrap();
    g.add_edge_weighted(4, 2, ()).unwrap();
    let mut bfs = Bfs::new(&g, 0);
    let mut depths = Vec::new();
    while let Some(v) = bfs.next() {
        depths.push(bfs.depth(v));
    }
    assert_eq!(depths, vec![1, 1, 2]);
    assert_eq!(bfs.depth(3), 1);
    assert_eq!(bfs.predecessor(3), Some(0));
    assert_eq!(bfs.depth(2), 2);
    assert_eq!(bfs.depth(4), 0);
}

#[test]
fn dfs_goes_down_a_chain_in_order() {
    let mut g = AdjListGraph::<usize, (), Directed>::new();
    let v0 = g.new_vertex_weighted(0).unwrap();
    let v1 = g.new_vertex_weighted(1).unwrap();
    let v2 = g.new_vertex_weighted(2).unwrap();
    g.add_edge_weighted(v0, v1, ()).unwrap();
    g.add_edge_weighted(v1, v2, ()).unwrap();
    let mut dfs = Dfs::new_simple(&g, v0);
    assert_eq!(dfs.next(), Some(v1));
    assert_eq!(dfs.next(), Some(v2));
    assert_eq!(dfs.next(), None);
}

#[test]
fn search_finds_vertices_by_number() {
    let mut g = AdjListGraph::<(), (), Directed>::new();
    let v0 = g.new_vertex_weighted(()).unwrap();
    let v1 = g.new_vertex_weighted(()).unwrap();
    let v2 = g.new_vertex_weighted(()).unwrap();
    assert_eq!((v0, v1, v2), (0, 1, 2));
    g.add_edge_weighted(v0, v1, ()).unwrap();
    g.add_edge_weighted(v1, v2, ()).unwrap();
    assert!(path_exists(&g, v0, v2));
    assert!(!path_exists(&g, v2, v0));
    assert!(!path_exists(&g, v0, 9));
}

#[test]
fn bfs_start_has_no_predecessor_and_its_children_have_it() {
    let g = sample();
    let mut bfs = Bfs::new(&g, 0);
    assert_eq!(bfs.predecessor(0), None);
    assert_eq!(bfs.predecessor(1), Some(0));
    assert_eq!(bfs.predecessor(3), Some(0));
    assert_eq!(bfs.predecessor(2), None);
    assert_eq!(bfs.next(), Some(1));
    assert_eq!(bfs.predecessor(2), Some(1));
    assert_eq!(bfs.predecessor(1), Some(0));
}

#[test]
fn dfs_visits_each_reachable_vertex_once() {
    // 0 -> 1, 0 -> 2, 1 -> 2, 2 -> 0, and 3 apart.
    let mut g = AdjListGraph::<(), (), Directed>::new();
    for _ in 0..4 {
        g.new_vertex_weighted(()).unwrap();
    }
    g.add_edge_weighted(0, 1, ()).unwrap();
    g.add_edge_weighted(0, 2, ()).unwrap();
    g.add_edge_weighted(1, 2, ()).unwrap();
    g.add_edge_weighted(2, 0, ()).unwrap();
    let mut s = DFS::new(&g, 0, ());
    let mut found = Vec::new();
    while let Some(v) = s.next() {
        found.push(v);
    }
    assert_eq!(found[0], 0);
    found.sort();
    assert_eq!(found, vec![0, 1, 2]);
    let mut bfs = Bfs::new(&g, 0);
    let mut order = Vec::new();
    while let Some(v) = bfs.next() {
        order.push(v);
    }
    assert_eq!(order, vec![1, 2]);
}

#[test]
fn a_designated_vertex_starts_a_traversal() {
    let g = sample();
    assert!(g.ensured().contains_vertex(7).is_none());
    let g = sample();
    let x = g.ensured().contains_vertex(1).unwrap();
    assert_eq!(x.vertex(), 1);
    let mut dfs = Dfs::new_simple(x.graph(), x.vertex());
    assert_eq!(dfs.next(), Some(2));
    assert_eq!(dfs.next(), None);
    let (g, v) = x.release();
    let y = g.ensured().new_vertex_weighted(9).unwrap();
    assert_eq!(y.vertex(), 5);
    assert_eq!(v, 1);
}

#[test]
fn a_new_vertex_of_default_weight_is_designated() {
    let g = sample();
    let x = g.ensured().new_vertex().unwrap();
    assert_eq!(x.vertex(), 5);
    assert_eq!(x.graph().vertex_weight(5), Some(&0));
}

#[test]
fn a_retained_search_steps_through_the_retained_graph() {
    let g = sample();
    let mut r = new_search_retained(&g, 0);
    let mut found = Vec::new();
    while let Some(v) = r.next() {
        found.push(v);
    }
    assert_eq!(found, vec![3, 1, 2]);
    assert_eq!(r.next(), None);
}

#[test]
fn bfs_depths_follow_predecessors_while_running() {
    let g = sample();
    let mut bfs = Bfs::new(&g, 0);
    assert_eq!(bfs.next(), Some(1));
    // 2 is discovered from 1, which is one deeper than the start.
    assert_eq!(bfs.predecessor(2), Some(1));
    assert_eq!(bfs.depth(2), bfs.depth(1) + 1);
    assert_eq!(bfs.depth(1), bfs.depth(0) + 1);
    assert_eq!(bfs.depth(0), 0);
}

/// Records every hook the traversal calls.
#[derive(Default)]
struct Recorder {
    visits: Vec<usize>,
    exits: Vec<usize>,
    explores: Vec<(usize, usize)>,
}

impl DfsHooks<AdjListGraph<usize, (), Directed>> for Recorder {
    fn on_visit(&mut self, _g: &AdjListGraph<usize, (), Directed>, v: usize) {
        self.visits.push(v);
    }

    fn on_exit(&mut self, _g: &AdjListGraph<usize, (), Directed>, v: usize) {
        self.exits.push(v);
    }

    fn on_explore(&mut self, _g: &AdjListGraph<usize, (), Directed>, source: usize, sink: usize, _w: &()) {
        self.explores.push((source, sink));
    }
}

#[test]
fn dfs_calls_its_hooks_in_order() {
    // 0 -> 1 -> 2, 0 -> 3, 2 -> 0, and 4 on its own.
    let mut g = sample();
    g.add_edge_weighted(2, 0, ()).unwrap();
    let mut dfs = Dfs::new(&g, 0, Recorder::default());
    assert_eq!(dfs.payload.visits, vec![0]);
    assert_eq!(dfs.payload.explores, vec![(0, 1), (0, 3)]);
    assert!(dfs.payload.exits.is_empty());
    let mut order = Vec::new();
    while let Some(v) = dfs.next() {
        assert_eq!(dfs.payload.visits.last(), Some(&v));
        order.push(v);
    }
    assert_eq!(order, vec![3, 1, 2]);
    assert_eq!(dfs.payload.visits, vec![0, 3, 1, 2]);
    assert_eq!(dfs.payload.explores, vec![(0, 1), (0, 3), (1, 2), (2, 0)]);
    // Each vertex is exited after everything reached from it, the start last.
    assert_eq!(dfs.payload.exits, vec![3, 2, 1, 0]);
}

#[test]
fn search_calls_the_exit_hook() {
    let g = sample();
    let mut s = DFS::new(&g, 1, Recorder::default());
    assert_eq!(s.next(), Some(1));
    assert_eq!(s.next(), Some(2));
    assert_eq!(s.next(), None);
    assert_eq!(s.dfs.payload.visits, vec![1, 2]);
    assert_eq!(s.dfs.payload.exits, vec![2, 1]);
}
