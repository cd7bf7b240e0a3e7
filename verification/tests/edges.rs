use lib::edge::{BaseEdge, Edge};

#[test]
fn base_edge_parts() {
    let e = BaseEdge::new(1usize, 2usize, 7u32);
    assert_eq!(e.source(), 1);
    assert_eq!(e.sink(), 2);
    assert_eq!(e.weight(), 7);
}

#[test]
fn edge_ends() {
    let e = (3usize, 4usize);
    assert_eq!(Edge::source(&e), 3);
    assert_eq!(Edge::sink(&e), 4);
    assert!(!e.is_loop());
    assert_eq!(e.other(3), 4);
    assert_eq!(e.other(4), 3);
    let l = (5usize, 5usize, 1u32);
    assert!(l.is_loop());
}
