//! Access to the data, the search for an edge between two vertices, and the
//! test of the links.

use crate::delaunay::dcel::handles::EdgeHandle;
use crate::delaunay::dcel::DCEL;
use crate::delaunay::mesh::{FixedEdgeHandle, FixedVertexHandle};
use crate::delaunay::orbit::{
    is_ring, iterate, lemma_ring_exists, lemma_ring_is_orbit, lemma_ring_iterate,
    lemma_ring_pred, lemma_ring_succ, reaches,
};
use vstd::prelude::*;

verus! {

impl<V, E> DCEL<V, E> where E: Default {
    /// Access to the data of half-edge `handle` for writing. Whatever is
    /// written, the links stay as they are, and by
    /// `law_data_does_not_matter` the structure stays consistent.
    pub fn edge_data_mut(&mut self, handle: FixedEdgeHandle) -> (r: &mut E)
        requires
            old(self).wf(),
            old(self)@.has_edge(handle as int),
        ensures
            *r == old(self)@.edges[handle as int].data,
            final(self)@ == old(self)@.with_edge_data(handle as int, *final(r)),
    {
        &mut self.edges[handle].data
    }

    /// Access to the data of vertex `handle` for writing. Whatever is
    /// written, the links stay as they are, and by
    /// `law_data_does_not_matter` the structure stays consistent.
    pub fn vertex_mut(&mut self, handle: FixedVertexHandle) -> (r: &mut V)
        requires
            old(self).wf(),
            old(self)@.has_vertex(handle as int),
        ensures
            *r == old(self)@.vertices[handle as int].data,
            final(self)@ == old(self)@.with_vertex_data(handle as int, *final(r)),
    {
        &mut self.vertices[handle].data
    }

    /// Looks for a half-edge from vertex `from` to vertex `to`.
    ///
    /// The half-edges that leave `from` are tried counterclockwise,
    /// beginning behind the one that `from` names; the first that ends at
    /// `to` is returned. `None` means that no half-edge leads from `from`
    /// to `to`.
    pub fn get_edge_from_neighbors(&self, from: FixedVertexHandle, to: FixedVertexHandle) -> (r:
        Option<EdgeHandle<'_, V, E>>)
        requires
            self.wf(),
            self@.has_vertex(from as int),
        ensures
            match r {
                Some(h) => h.mesh() == self@ && self@.joins(
                    h.fix_spec() as int,
                    from as int,
                    to as int,
                ) && self@.out_edge(from as int) is Some && exists|k: nat|
                    h.fix_spec() == #[trigger] iterate(
                        self@.ccw_table(),
                        self@.ccw(self@.out_edge(from as int).unwrap() as int),
                        k,
                    ) && self@.first_towards(
                        self@.ccw(self@.out_edge(from as int).unwrap() as int),
                        to as int,
                        k,
                    ),
                None => forall|x: int| !self@.joins(x, from as int, to as int),
            },
    {
        let ghost m = self@;
        let ghost w = self.star_ranks();
        let vertex = self.vertex(from);
        let mut edges = vertex.ccw_out_edges();
        let ghost ring: Seq<int> = Seq::empty();
        let ghost a: int = 0;
        let ghost succ = m.ccw_table();
        proof {
            self.lemma_sizes();
            let _ = m.vertices[from as int];
            m.lemma_tables();
            match m.out_edge(from as int) {
                Some(o) => {
                    m.lemma_neighbours_linked(o as int);
                    a = m.ccw(o as int);
                    ring = lemma_ring_exists(succ, m.cw_table(), a);
                    lemma_ring_pred(succ, m.cw_table(), ring, 0);
                    m.lemma_star_covers(w, a);
                    lemma_ring_is_orbit(succ, ring, 0);
                },
                None => {
                    assert forall|x: int| !m.joins(x, from as int, to as int) by {
                        if m.has_edge(x) {
                            assert(m.star_step(w, x));
                        }
                    }
                },
            }
        }
        let ghost mut k: int = 0;
        loop
            invariant
                m == self@,
                m.links_ok(),
                edges.mesh() == m,
                succ == m.ccw_table(),
                m.has_vertex(from as int),
                m.edges.len() <= usize::MAX,
                m.out_edge(from as int) is None ==> edges.state() is None && forall|x: int|
                    !m.joins(x, from as int, to as int),
                m.out_edge(from as int) matches Some(o) ==> {
                    &&& is_ring(succ, ring)
                    &&& ring[0] == a
                    &&& a == m.ccw(o as int)
                    &&& ring.last() == o
                    &&& 0 <= k <= ring.len()
                    &&& edges.state() == (if k < ring.len() {
                        Some((ring[k] as usize, o))
                    } else {
                        None
                    })
                    &&& forall|j: int| 0 <= j < k ==> m.target(#[trigger] ring[j]) != to
                    &&& forall|x: int|
                        m.has_edge(x) ==> (#[trigger] m.in_star(a, x) <==> m.origin(x) == from)
                    &&& forall|x: int|
                        #![trigger reaches(succ, ring[0], x)]
                        #![trigger ring.contains(x)]
                        reaches(succ, ring[0], x) <==> ring.contains(x)
                },
            decreases ring.len() - k,
        {
            match edges.next() {
                Some(edge) => {
                    proof {
                        lemma_ring_succ(succ, ring, k);
                        assert(ring.contains(ring[k]));
                        assert(m.in_star(a, ring[k]));
                    }
                    if edge.to().fix() == to {
                        proof {
                            assert(edge.fix_spec() == ring[k]);
                            assert(m.target(ring[k]) == to);
                            lemma_ring_iterate(succ, ring, 0, k as nat);
                            assert(iterate(succ, a, k as nat) == ring[k]);
                            assert forall|j: nat| j < k implies m.target(
                                #[trigger] iterate(succ, a, j),
                            ) != to by {
                                lemma_ring_iterate(succ, ring, 0, j);
                                assert(iterate(succ, a, j) == ring[j as int]);
                            }
                            assert(m.first_towards(a, to as int, k as nat));
                        }
                        return Some(edge);
                    }
                    proof {
                        k = k + 1;
                    }
                },
                None => {
                    proof {
                        assert forall|x: int| !m.joins(x, from as int, to as int) by {
                            if m.out_edge(from as int) is Some && m.joins(
                                x,
                                from as int,
                                to as int,
                            ) {
                                assert(m.in_star(a, x));
                                assert(ring.contains(x));
                                let j = choose|j: int| 0 <= j < ring.len() && ring[j] == x;
                                assert(m.target(ring[j]) != to);
                            }
                        }
                    }
                    return None;
                },
            }
        }
    }

    /// Tests the links: whether the half-edge that a face names borders
    /// it, the half-edge that a vertex names leaves it, and following the
    /// links of a half-edge forth and back leads to it again.
    pub fn sanity_check(&self) -> (r: bool)
        ensures
            r == self@.sane(),
    {
        let n = self.edges.len();
        let mut index: usize = 0;
        while index < self.faces.len()
            invariant
                n == self@.edges.len(),
                index <= self@.faces.len(),
                forall|f: int| #![trigger self@.faces[f]]
                    0 <= f < index ==> (self@.adjacent_edge(f) matches Some(e) ==> e < n
                        && self@.edges[e as int].face == f),
            decreases self@.faces.len() - index,
        {
            if let Some(adj) = self.faces[index].adjacent_edge {
                if adj >= n || self.edges[adj].face != index {
                    proof {
                        let _ = self@.faces[index as int];
                    }
                    return false;
                }
            }
            index += 1;
        }
        index = 0;
        while index < self.vertices.len()
            invariant
                n == self@.edges.len(),
                index <= self@.vertices.len(),
                forall|f: int| #![trigger self@.faces[f]]
                    self@.has_face(f) ==> (self@.adjacent_edge(f) matches Some(e) ==> e < n
                        && self@.edges[e as int].face == f),
                forall|v: int| #![trigger self@.vertices[v]]
                    0 <= v < index ==> (self@.out_edge(v) matches Some(e) ==> e < n
                        && self@.edges[e as int].origin == v),
            decreases self@.vertices.len() - index,
        {
            if let Some(out_edge) = self.vertices[index].out_edge {
                if out_edge >= n || self.edges[out_edge].origin != index {
                    proof {
                        let _ = self@.vertices[index as int];
                    }
                    return false;
                }
            }
            index += 1;
        }
        let mut handle: usize = 0;
        while handle < n
            invariant
                n == self@.edges.len(),
                handle <= n,
                forall|f: int| #![trigger self@.faces[f]]
                    self@.has_face(f) ==> (self@.adjacent_edge(f) matches Some(e) ==> e < n
                        && self@.edges[e as int].face == f),
                forall|v: int| #![trigger self@.vertices[v]]
                    self@.has_vertex(v) ==> (self@.out_edge(v) matches Some(e) ==> e < n
                        && self@.edges[e as int].origin == v),
                forall|e: int| 0 <= e < handle ==> #[trigger] self@.round_trips(e),
            decreases n - handle,
        {
            let next = self.edges[handle].next;
            let prev = self.edges[handle].prev;
            let twin = self.edges[handle].twin;
            if next >= n || prev >= n || twin >= n {
                proof {
                    assert(!self@.round_trips(handle as int));
                }
                return false;
            }
            if self.edges[next].prev != handle || self.edges[prev].next != handle
                || self.edges[twin].twin != handle {
                proof {
                    assert(!self@.round_trips(handle as int));
                }
                return false;
            }
            handle += 1;
        }
        true
    }
}

} // verus!
