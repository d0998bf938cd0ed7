//! What holds of every consistent mesh.

use crate::delaunay::dcel::DCEL;
use crate::delaunay::mesh::{Mesh, StarRanks};
use crate::delaunay::orbit::{
    iterate, lemma_inverse_is_permutation, lemma_reaches_back, lemma_ring_exists,
    lemma_ring_iterate, reaches,
};
use vstd::prelude::*;

verus! {

impl<V, E> Mesh<V, E> {
    /// The half-edge that a face names borders that face.
    pub proof fn law_face_names_its_border(self, f: int, e: usize)
        requires
            self.links_ok(),
            self.has_face(f),
            self.adjacent_edge(f) == Some(e),
        ensures
            self.has_edge(e as int),
            self.face(e as int) == f,
    {
        let _ = self.faces[f];
    }

    /// The half-edge that a vertex names leaves that vertex.
    pub proof fn law_vertex_names_its_edge(self, v: int, e: usize)
        requires
            self.links_ok(),
            self.has_vertex(v),
            self.out_edge(v) == Some(e),
        ensures
            self.has_edge(e as int),
            self.origin(e as int) == v,
    {
        let _ = self.vertices[v];
    }

    /// From every half-edge, going on and back, going back and on, and
    /// changing sides twice each lead to the half-edge itself.
    pub proof fn law_round_trips(self, e: int)
        requires
            self.links_ok(),
            self.has_edge(e),
        ensures
            self.prev(self.next(e)) == e,
            self.next(self.prev(e)) == e,
            self.twin(self.twin(e)) == e,
            self.round_trips(e),
    {
        self.lemma_neighbours_linked(e);
    }

    /// A consistent mesh passes the test of `sanity_check`.
    pub proof fn law_consistent_is_sane(self)
        requires
            self.links_ok(),
        ensures
            self.sane(),
    {
        assert forall|e: int| self.has_edge(e) implies #[trigger] self.round_trips(e) by {
            self.lemma_neighbours_linked(e);
        }
    }

    /// The half-edges that are reached from a half-edge along `next` are
    /// those that are reached from it along `prev`.
    pub proof fn law_next_and_prev_reach_the_same(self, a: int, x: int)
        requires
            self.links_ok(),
            self.has_edge(a),
        ensures
            reaches(self.next_table(), a, x) <==> reaches(self.prev_table(), a, x),
    {
        self.lemma_tables();
        lemma_inverse_is_permutation(self.next_table(), self.prev_table());
        if reaches(self.next_table(), a, x) {
            lemma_reaches_back(self.next_table(), self.prev_table(), a, x);
        }
        if reaches(self.prev_table(), a, x) {
            lemma_reaches_back(self.prev_table(), self.next_table(), a, x);
        }
    }

    /// Walking along `next` from a half-edge leads back to it, and passes
    /// only half-edges of its face.
    pub proof fn law_walk_around_face(self, e: int) -> (k: nat)
        requires
            self.links_ok(),
            self.has_edge(e),
        ensures
            k >= 1,
            iterate(self.next_table(), e, k) == e,
            forall|j: nat|
                self.face(#[trigger] iterate(self.next_table(), e, j)) == self.face(e),
    {
        self.lemma_tables();
        let r = lemma_ring_exists(self.next_table(), self.prev_table(), e);
        lemma_ring_iterate(self.next_table(), r, 0, r.len());
        assert forall|j: nat|
            self.face(#[trigger] iterate(self.next_table(), e, j)) == self.face(e) by {
            self.lemma_walk_same_face(e, j);
        }
        r.len()
    }

    /// Walking clockwise around the origin of a half-edge leads back to it,
    /// and passes only half-edges that leave that vertex.
    pub proof fn law_walk_around_vertex(self, e: int) -> (k: nat)
        requires
            self.links_ok(),
            self.has_edge(e),
        ensures
            k >= 1,
            iterate(self.ccw_table(), e, k) == e,
            forall|j: nat|
                self.origin(#[trigger] iterate(self.ccw_table(), e, j)) == self.origin(e),
    {
        self.lemma_tables();
        let r = lemma_ring_exists(self.ccw_table(), self.cw_table(), e);
        lemma_ring_iterate(self.ccw_table(), r, 0, r.len());
        assert forall|j: nat|
            self.origin(#[trigger] iterate(self.ccw_table(), e, j)) == self.origin(e) by {
            self.lemma_walk_same_origin(e, j);
        }
        r.len()
    }
}

impl<V, E> Mesh<V, E> {
    /// An edge to an isolated vertex can be taken back: removing it again
    /// leaves every half-edge and all vertex data as they were, and the
    /// vertex isolated.
    #[verifier::rlimit(60)]
    #[verifier::spinoff_prover]
    pub proof fn law_spoke_can_be_taken_back(self, p: int, v: int, d0: E, d1: E)
        requires
            self.links_ok(),
            self.has_edge(p),
            self.has_vertex(v),
            self.is_isolated(v),
            v <= usize::MAX,
            self.edges.len() + 2 <= usize::MAX,
        ensures
            ({
                let n = self.edges.len() as int;
                let back = self.connect_edge_to_isolated_vertex(p, v, d0, d1).remove_edge(n, None);
                &&& back.edges == self.edges
                &&& back.faces.len() == self.faces.len()
                &&& back.vertices.len() == self.vertices.len()
                &&& forall|u: int|
                    self.has_vertex(u) ==> (#[trigger] back.vertices[u]).data
                        == self.vertices[u].data
                &&& back.is_isolated(v)
            }),
    {
        let n = self.edges.len() as int;
        let m1 = self.connect_edge_to_isolated_vertex(p, v, d0, d1);
        let mu = m1.unlink(n, None);
        let back = m1.remove_edge(n, None);
        self.lemma_neighbours_linked(p);
        self.lemma_neighbours_linked(self.next(p));
        assert(!m1.merges_faces(n));
        assert(back == mu.compact(n));
        assert forall|x: int| 0 <= x < n implies back.edges[x] == self.edges[x] by {
            self.lemma_neighbours_linked(x);
            assert(mu.edges[x] == self.edges[x]);
        }
        assert(back.edges =~= self.edges);
    }
}

impl<V, E> Mesh<V, E> {
    /// Where no two half-edges that leave a vertex border the same face,
    /// none of them need be a leaf spur.
    pub proof fn law_distinct_corners_need_no_leaves(self, v: int)
        requires
            self.corners_distinct(v),
        ensures
            self.corners_distinct_but_leaves(v),
    {
    }
}

impl<V, E> DCEL<V, E> {
    /// The invariant speaks of the model alone: the links are consistent,
    /// and the vertex stars are single cycles.
    pub proof fn law_invariant_is_of_the_model(&self)
        ensures
            self.wf() <==> self@.links_ok() && self@.stars_connected(),
    {
        if self@.stars_connected() {
            let w = choose|w: StarRanks| self@.stars_ranked(w);
            assert(self@.stars_ranked(w));
        }
    }

    /// A vertex names no half-edge exactly if none leaves it.
    pub proof fn law_isolated_means_no_edges(&self, v: int)
        requires
            self.wf(),
            self@.has_vertex(v),
        ensures
            self@.is_isolated(v) <==> forall|e: int|
                self@.has_edge(e) ==> #[trigger] self@.origin(e) != v,
    {
        let m = self@;
        let w = self.star_ranks();
        let _ = m.vertices[v];
        if m.is_isolated(v) {
            assert forall|e: int| m.has_edge(e) implies #[trigger] m.origin(e) != v by {
                assert(m.star_step(w, e));
            }
        } else {
            let e = m.out_edge(v).unwrap() as int;
            assert(m.origin(e) == v);
        }
    }

    /// The half-edges that leave a vertex form one cycle: stepping
    /// counterclockwise from any of them leads to every other.
    pub proof fn law_star_is_connected(&self, a: int, x: int)
        requires
            self.wf(),
            self@.has_edge(a),
            self@.has_edge(x),
        ensures
            self@.in_star(a, x) <==> self@.origin(x) == self@.origin(a),
    {
        self@.lemma_star_covers(self.star_ranks(), a);
    }

    /// Where all faces have a single boundary cycle, every edge can be
    /// removed.
    pub proof fn law_edge_of_simple_mesh_can_be_removed(&self, e: int, remaining: Option<usize>)
        requires
            self.wf(),
            self@.has_edge(e),
            self@.faces_simple(),
        ensures
            self@.can_remove_edge(e, remaining),
    {
        self@.lemma_simple_faces_allow_removal(e, remaining);
    }

    /// A vertex can be removed with all its edges where all faces have a
    /// single boundary cycle and, of any two half-edges that leave the
    /// vertex and border the same face, one is a leaf spur, as at a vertex
    /// of a triangulation, with or without edges that dangle into its
    /// faces; and where every edge at it has the same face on both sides, as
    /// at a vertex of a tree or at an isolated vertex.
    pub proof fn law_vertex_can_be_stripped(&self, v: int, remaining: Option<usize>)
        requires
            self.wf(),
            self@.has_vertex(v),
            (self@.faces_simple() && self@.corners_distinct_but_leaves(v))
                || self@.corners_unseparated(v),
        ensures
            self@.can_strip_vertex(v, remaining),
    {
        self.lemma_sizes();
        if self@.faces_simple() && self@.corners_distinct_but_leaves(v) {
            self@.lemma_can_strip_leafy(self.star_ranks(), v, remaining);
        } else {
            self@.lemma_can_strip_unseparated(self.star_ranks(), v, remaining);
        }
    }

    /// A change of data keeps the structure consistent, and its faces keep
    /// their single boundary cycles.
    pub proof fn law_data_does_not_matter(&self, other: &Self)
        requires
            self.wf(),
            self@.same_links(other@),
        ensures
            other.wf(),
            self@.faces_simple() ==> other@.faces_simple(),
    {
        self@.lemma_data_only(other@, self.star_ranks());
        if self@.faces_simple() {
            self@.lemma_faces_simple_transfer(other@);
        }
    }
}

} // verus!
