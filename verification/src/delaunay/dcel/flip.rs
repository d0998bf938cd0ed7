//! The edge flip.

use crate::delaunay::dcel::DCEL;
use crate::delaunay::mesh::FixedEdgeHandle;
use vstd::prelude::*;

verus! {

impl<V, E> DCEL<V, E> where E: Default + Copy {
    /// Rotates the edge of `e`, which separates two triangles, clockwise:
    /// afterwards it joins the two corners that were opposite to it.
    ///
    /// The two opposite corners must be different vertices.
    pub fn flip_cw(&mut self, e: FixedEdgeHandle)
        requires
            old(self).wf(),
            old(self)@.has_edge(e as int),
            old(self)@.borders_triangle(e as int),
            old(self)@.borders_triangle(old(self)@.twin(e as int)),
            old(self)@.origin(old(self)@.prev(e as int)) != old(self)@.origin(
                old(self)@.prev(old(self)@.twin(e as int)),
            ),
        ensures
            final(self).wf(),
            final(self)@ == old(self)@.flip_cw(e as int),
            old(self)@.faces_simple() ==> final(self)@.faces_simple(),
    {
        proof {
            let m0 = old(self)@;
            m0.lemma_triangles_apart(e as int);
            m0.lemma_neighbours_linked(e as int);
            m0.lemma_neighbours_linked(m0.twin(e as int));
            m0.lemma_neighbours_linked(m0.next(e as int));
            m0.lemma_neighbours_linked(m0.prev(e as int));
            m0.lemma_neighbours_linked(m0.cw(e as int));
            m0.lemma_neighbours_linked(m0.prev(m0.twin(e as int)));
        }
        let en = self.edges[e].next;
        let ep = self.edges[e].prev;
        let t = self.edges[e].twin;
        let tn = self.edges[t].next;
        let tp = self.edges[t].prev;

        self.edges[en].next = e;
        self.edges[en].prev = tp;
        self.edges[e].next = tp;
        self.edges[e].prev = en;
        self.edges[tp].next = en;
        self.edges[tp].prev = e;

        self.edges[tn].next = t;
        self.edges[tn].prev = ep;
        self.edges[t].next = ep;
        self.edges[t].prev = tn;
        self.edges[ep].next = tn;
        self.edges[ep].prev = t;

        let a = self.edges[e].origin;
        self.vertices[a].out_edge = Some(tn);
        let b = self.edges[t].origin;
        self.vertices[b].out_edge = Some(en);

        self.edges[e].origin = self.edges[ep].origin;
        self.edges[t].origin = self.edges[tp].origin;

        let fe = self.edges[e].face;
        self.faces[fe].adjacent_edge = Some(e);
        let ft = self.edges[t].face;
        self.faces[ft].adjacent_edge = Some(t);

        self.edges[tp].face = self.edges[e].face;
        self.edges[ep].face = self.edges[t].face;

        let ghost w0 = old(self).star_ranks();
        let ghost m0 = old(self)@;
        let ghost w1 = m0.flip_cw_ranks(w0, e as int);
        proof {
            let m1 = self@;
            let spec = m0.flip_cw(e as int);
            assert(m1.vertices =~= spec.vertices);
            assert(m1.faces =~= spec.faces);
            assert(m1.edges =~= spec.edges);
            m0.lemma_flip_cw_links(e as int);
            m0.lemma_flip_cw_stars(w0, e as int);
            if m0.faces_simple() {
                m0.lemma_flip_cw_simple(e as int);
            }
            assert(self@.stars_ranked(w1));
        }
    }
}

} // verus!
