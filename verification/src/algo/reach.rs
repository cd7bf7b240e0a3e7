//! The set of vertices reachable from a vertex, following edges forwards,
//! backwards, or either way.
use crate::graph::{vec_contains, Graph};
use crate::view::{
    deref_pairs, flip, lemma_nodup_subseq_len, lemma_reaches_closed, lemma_reaches_refl,
    lemma_reaches_step, occurs, reaches, GraphView,
};
use vstd::prelude::*;

verus! {

/// Which way edges are followed.
#[derive(Clone, Copy, Debug, PartialEq, Eq)]
pub enum Direction {
    /// From source to sink.
    Forward,
    /// From sink to source.
    Backward,
    /// Either way.
    Either,
}

/// The relation followed in the given direction.
pub open spec fn relation<Vw, Ew>(g: GraphView<Vw, Ew>, d: Direction) -> spec_fn(usize, usize) -> bool {
    match d {
        Direction::Forward => g.adj(),
        Direction::Backward => flip(g.adj()),
        Direction::Either => g.adj_undirected(),
    }
}

/// The vertices next to `v` in the given direction, with the weights of the
/// edges leading there.
fn neighbors_in<'a, G: Graph>(g: &'a G, v: usize, d: Direction) -> (r: Vec<(usize, &'a G::EdgeWeight)>)
    requires
        g.wf(),
    ensures
        forall|w: usize| occurs(deref_pairs(r@), w) <==> #[trigger] relation(g.model(), d)(v, w),
{
    proof {
        g.lemma_wf();
    }
    let r = match d {
        Direction::Forward => g.edges_sourced_in(v),
        Direction::Backward => g.edges_sinked_in(v),
        Direction::Either => g.edges_incident_on(v),
    };
    proof {
        assert forall|w: usize| occurs(deref_pairs(r@), w) <==> #[trigger] relation(g.model(), d)(v, w) by {
            match d {
                Direction::Forward => g.model().lemma_sourced(v, w),
                Direction::Backward => g.model().lemma_sinked(v, w),
                Direction::Either => g.model().lemma_incident(v, w),
            }
        }
    }
    r
}

/// Every vertex reachable from `start` following edges in the given
/// direction, `start` included.
pub fn reachable_vertices<G: Graph>(g: &G, start: usize, d: Direction) -> (r: Vec<usize>)
    requires
        g.wf(),
        g.model().has_vertex(start),
    ensures
        r@.no_duplicates(),
        forall|i: int| 0 <= i < r@.len() ==> g.model().has_vertex(#[trigger] r@[i]),
        forall|x: usize| r@.contains(x) <==> #[trigger] reaches(relation(g.model(), d), start, x),
        r@.len() <= g.model().vertices.len(),
{
    let ghost gm = g.model();
    let ghost rel = relation(gm, d);
    proof {
        g.lemma_wf();
        lemma_reaches_refl(rel, start);
    }
    let mut found: Vec<usize> = vec![start];
    let mut idx: usize = 0;
    proof {
        assert(found@[0] == start);
    }
    while idx < found.len()
        invariant
            g.wf(),
            gm == g.model(),
            gm.wf(),
            rel == relation(gm, d),
            idx <= found@.len(),
            found@.no_duplicates(),
            found@.len() >= 1,
            found@[0] == start,
            forall|i: int| 0 <= i < found@.len() ==> gm.has_vertex(#[trigger] found@[i]),
            forall|i: int| 0 <= i < found@.len() ==> reaches(rel, start, #[trigger] found@[i]),
            forall|i: int, w: usize| 0 <= i < idx && #[trigger] rel(found@[i], w) ==> found@.contains(w),
        decreases gm.vertices.len() - found@.len(), found@.len() - idx,
    {
        proof {
            assert forall|i: int| 0 <= i < found@.len() implies gm.vertices.contains(#[trigger] found@[i]) by {
                gm.lemma_vertices(found@[i]);
            }
            lemma_nodup_subseq_len(found@, gm.vertices);
        }
        let v = found[idx];
        let nb = neighbors_in(g, v, d);
        let ghost len0 = found@.len();
        let mut j: usize = 0;
        while j < nb.len()
            invariant
                g.wf(),
                gm == g.model(),
                gm.wf(),
                rel == relation(gm, d),
                idx < found@.len(),
                found@[idx as int] == v,
                found@.len() >= len0,
                len0 <= gm.vertices.len(),
                j <= nb@.len(),
                found@.no_duplicates(),
                found@[0] == start,
                forall|w: usize| occurs(deref_pairs(nb@), w) <==> #[trigger] rel(v, w),
                forall|i: int| 0 <= i < found@.len() ==> gm.has_vertex(#[trigger] found@[i]),
                forall|i: int| 0 <= i < found@.len() ==> reaches(rel, start, #[trigger] found@[i]),
                forall|i: int, w: usize| 0 <= i < idx && #[trigger] rel(found@[i], w) ==> found@.contains(w),
                forall|k: int| 0 <= k < j ==> found@.contains(#[trigger] deref_pairs(nb@)[k].0),
            decreases nb.len() - j,
        {
            let w = nb[j].0;
            proof {
                assert(deref_pairs(nb@)[j as int].0 == w);
                assert(occurs(deref_pairs(nb@), w));
                assert(rel(v, w));
                assert(reaches(rel, start, v));
                lemma_reaches_step(rel, start, v, w);
                match d {
                    Direction::Forward => {
                        assert(gm.adjacent(v, w));
                    },
                    Direction::Backward => {
                        assert(gm.adjacent(w, v));
                    },
                    Direction::Either => {
                        assert(gm.adjacent(v, w) || gm.adjacent(w, v));
                    },
                }
                assert(gm.has_vertex(w));
            }
            if !vec_contains(&found, w) {
                let ghost before = found@;
                found.push(w);
                proof {
                    assert(found@[before.len() as int] == w);
                    assert forall|x: usize| before.contains(x) implies #[trigger] found@.contains(x) by {
                        let k = choose|k: int| 0 <= k < before.len() && before[k] == x;
                        assert(found@[k] == x);
                    }
                    assert(found@.no_duplicates()) by {
                        assert forall|a: int, b: int| 0 <= a < b < found@.len() implies found@[a] != found@[b] by {
                            assert(found@[a] == before[a]);
                            if b < before.len() {
                                assert(found@[b] == before[b]);
                            } else {
                                assert(before.contains(before[a]));
                            }
                        }
                    }
                    assert forall|i: int| 0 <= i < found@.len() implies gm.has_vertex(#[trigger] found@[i]) by {
                        if i < before.len() {
                            assert(found@[i] == before[i]);
                        }
                    }
                    assert forall|i: int| 0 <= i < found@.len() implies reaches(rel, start, #[trigger] found@[i]) by {
                        if i < before.len() {
                            assert(found@[i] == before[i]);
                        }
                    }
                }
            }
            j += 1;
        }
        proof {
            assert forall|i: int, w: usize| 0 <= i < idx + 1 && #[trigger] rel(found@[i], w) implies found@.contains(w) by {
                if i == idx {
                    let k = choose|k: int| 0 <= k < deref_pairs(nb@).len() && deref_pairs(nb@)[k].0 == w;
                }
            }
        }
        idx += 1;
        proof {
            assert forall|i: int| 0 <= i < found@.len() implies gm.vertices.contains(#[trigger] found@[i]) by {
                gm.lemma_vertices(found@[i]);
            }
            lemma_nodup_subseq_len(found@, gm.vertices);
        }
    }
    proof {
        let s = found@.to_set();
        assert(s.contains(start)) by {
            assert(found@[0] == start);
        }
        assert forall|x: usize, y: usize| s.contains(x) && #[trigger] rel(x, y) implies s.contains(y) by {
            let i = choose|i: int| 0 <= i < found@.len() && found@[i] == x;
        }
        assert forall|x: usize| found@.contains(x) <==> #[trigger] reaches(rel, start, x) by {
            if reaches(rel, start, x) {
                lemma_reaches_closed(rel, s, start, x);
            }
            if found@.contains(x) {
                let i = choose|i: int| 0 <= i < found@.len() && found@[i] == x;
            }
        }
        assert forall|i: int| 0 <= i < found@.len() implies gm.vertices.contains(#[trigger] found@[i]) by {
            gm.lemma_vertices(found@[i]);
        }
        lemma_nodup_subseq_len(found@, gm.vertices);
    }
    found
}

} // verus!
