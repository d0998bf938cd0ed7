//! Operations that add half-edges without creating a face.

use crate::delaunay::dcel::DCEL;
use crate::delaunay::mesh::{
    FaceEntry, FixedEdgeHandle, FixedFaceHandle, FixedVertexHandle, HalfEdgeEntry, StarRanks,
};
use crate::delaunay::surgery::is_default_value;
use vstd::prelude::*;

verus! {

impl<V, E> DCEL<V, E> where E: Default {
    /// Joins two isolated vertices by an edge that lies in `face`, which has
    /// no boundary yet. Returns the half-edge from `v0` to `v1`.
    pub fn connect_two_isolated_vertices(
        &mut self,
        v0: FixedVertexHandle,
        v1: FixedVertexHandle,
        face: FixedFaceHandle,
    ) -> (r: FixedEdgeHandle)
        requires
            old(self).wf(),
            old(self)@.has_vertex(v0 as int),
            old(self)@.has_vertex(v1 as int),
            old(self)@.has_face(face as int),
            v0 != v1,
            old(self)@.is_isolated(v0 as int),
            old(self)@.is_isolated(v1 as int),
            old(self)@.adjacent_edge(face as int) is None,
            old(self)@.edges.len() + 2 <= usize::MAX,
        ensures
            final(self).wf(),
            r == old(self)@.edges.len(),
            final(self)@.edges.len() == r + 2,
            is_default_value(final(self)@.edges[r as int].data),
            is_default_value(final(self)@.edges[r + 1].data),
            final(self)@ == old(self)@.connect_two_isolated_vertices(
                v0 as int,
                v1 as int,
                face as int,
                final(self)@.edges[r as int].data,
                final(self)@.edges[r + 1].data,
            ),
            old(self)@.faces_simple() ==> final(self)@.faces_simple(),
    {
        let edge_index = self.edges.len();
        let twin_index = edge_index + 1;
        let edge = HalfEdgeEntry {
            next: twin_index,
            prev: twin_index,
            twin: twin_index,
            origin: v0,
            face,
            data: Default::default(),
        };
        self.edges.push(edge);

        let twin = HalfEdgeEntry {
            next: edge_index,
            prev: edge_index,
            twin: edge_index,
            origin: v1,
            face,
            data: Default::default(),
        };
        self.edges.push(twin);

        self.vertices[v0].out_edge = Some(edge_index);
        self.vertices[v1].out_edge = Some(twin_index);

        self.faces[face].adjacent_edge = Some(edge_index);

        let ghost w0 = old(self).star_ranks();
        let ghost w1 = StarRanks {
                rank: w0.rank.push(0).push(0),
                root: w0.root.update(v0 as int, edge_index as int).update(
                    v1 as int,
                    twin_index as int,
                ),
            };
        proof {
            let m0 = old(self)@;
            let m1 = self@;
            let n = edge_index as int;
            let spec = m0.connect_two_isolated_vertices(
                v0 as int,
                v1 as int,
                face as int,
                m1.edges[n].data,
                m1.edges[n + 1].data,
            );
            assert(m1.vertices =~= spec.vertices);
            assert(m1.faces =~= spec.faces);
            assert(m1.edges =~= spec.edges);
            if m0.faces_simple() {
                m0.lemma_connect_two_simple(
                    v0 as int,
                    v1 as int,
                    face as int,
                    m1.edges[n].data,
                    m1.edges[n + 1].data,
                );
            }
            assert(m0.edges.len() % 2 == 0) by {
                if n > 0 {
                    assert(m0.edge_linked(n - 1));
                }
            }
            assert forall|e: int| m1.has_edge(e) implies #[trigger] m1.edge_linked(e) by {
                if e < n {
                    m0.lemma_neighbours_linked(e);
                    assert(m0.star_step(w0, e));
                }
            }
            assert forall|e: int| m1.has_edge(e) implies #[trigger] m1.star_step(
                w1,
                e,
            ) by {
                if e < n {
                    m0.lemma_neighbours_linked(e);
                    assert(m0.star_step(w0, e));
                }
            }
            assert(self@.stars_ranked(w1));
        }
        edge_index
    }
}


impl<V, E> DCEL<V, E> where E: Default + Copy {
    /// Adds an edge from the target of `prev_handle` to the isolated vertex
    /// `vertex`, inside the face of `prev_handle`. Returns the half-edge
    /// that ends in `vertex`.
    pub fn connect_edge_to_isolated_vertex(
        &mut self,
        prev_handle: FixedEdgeHandle,
        vertex: FixedVertexHandle,
    ) -> (r: FixedEdgeHandle)
        requires
            old(self).wf(),
            old(self)@.has_edge(prev_handle as int),
            old(self)@.has_vertex(vertex as int),
            old(self)@.is_isolated(vertex as int),
            old(self)@.edges.len() + 2 <= usize::MAX,
        ensures
            final(self).wf(),
            r == old(self)@.edges.len(),
            final(self)@.edges.len() == r + 2,
            is_default_value(final(self)@.edges[r as int].data),
            is_default_value(final(self)@.edges[r + 1].data),
            final(self)@ == old(self)@.connect_edge_to_isolated_vertex(
                prev_handle as int,
                vertex as int,
                final(self)@.edges[r as int].data,
                final(self)@.edges[r + 1].data,
            ),
            old(self)@.faces_simple() ==> final(self)@.faces_simple(),
    {
        proof {
            old(self)@.lemma_neighbours_linked(prev_handle as int);
        }
        let prev = self.edges[prev_handle];

        let edge_index = self.edges.len();
        let twin_index = edge_index + 1;
        let edge = HalfEdgeEntry {
            next: twin_index,
            prev: prev_handle,
            twin: twin_index,
            origin: self.edges[prev.twin].origin,
            face: prev.face,
            data: Default::default(),
        };
        self.edges.push(edge);

        let twin = HalfEdgeEntry {
            next: prev.next,
            prev: edge_index,
            twin: edge_index,
            origin: vertex,
            face: prev.face,
            data: Default::default(),
        };
        self.edges.push(twin);

        self.edges[prev_handle].next = edge_index;
        self.edges[prev.next].prev = twin_index;

        self.vertices[vertex].out_edge = Some(twin_index);

        let ghost w0 = old(self).star_ranks();
        let ghost n = edge_index as int;
        let ghost an = prev.next as int;
        let ghost w1 = StarRanks {
                rank: Seq::new(
                    (n + 2) as nat,
                    |x: int|
                        if x < n {
                            2 * w0.rank[x]
                        } else if x == n {
                            2 * w0.rank[an] + 1
                        } else {
                            0
                        },
                ),
                root: w0.root.update(vertex as int, n + 1),
            };
        proof {
            let m0 = old(self)@;
            let m1 = self@;
            let p = prev_handle as int;
            let spec = m0.connect_edge_to_isolated_vertex(
                p,
                vertex as int,
                m1.edges[n].data,
                m1.edges[n + 1].data,
            );
            assert(m1.vertices =~= spec.vertices);
            assert(m1.faces =~= spec.faces);
            assert(m1.edges =~= spec.edges);
            if m0.faces_simple() {
                m0.lemma_connect_isolated_simple(
                    p,
                    vertex as int,
                    m1.edges[n].data,
                    m1.edges[n + 1].data,
                );
            }
            assert(m0.star_step(w0, m0.twin(p)));
            assert forall|e: int| m1.has_edge(e) implies #[trigger] m1.edge_linked(e) by {
                if e < n {
                    m0.lemma_neighbours_linked(e);
                }
            }
            assert forall|e: int| m1.has_edge(e) implies #[trigger] m1.star_step(
                w1,
                e,
            ) by {
                if e < n {
                    m0.lemma_neighbours_linked(e);
                    assert(m0.star_step(w0, e));
                }
            }
            assert(self@.stars_ranked(w1));
        }
        edge_index
    }

    /// Adds an edge from the target of `prev_edge_handle` to the origin of
    /// `next_edge_handle`. Both lie on the boundary of one face, which is
    /// not subdivided yet: the new half-edges keep its label. Returns the
    /// half-edge that leads from `prev_edge_handle` to `next_edge_handle`.
    ///
    /// Where the two lie on one boundary cycle, that cycle is split in two
    /// and the face has two boundary cycles afterwards; `create_face` does
    /// the same and gives one of them a face of its own. `remove_edge` says
    /// which edges can be removed while a face has two boundary cycles.
    pub fn connect_edge_to_edge(
        &mut self,
        prev_edge_handle: FixedEdgeHandle,
        next_edge_handle: FixedEdgeHandle,
    ) -> (r: FixedEdgeHandle)
        requires
            old(self).wf(),
            old(self)@.has_edge(prev_edge_handle as int),
            old(self)@.has_edge(next_edge_handle as int),
            old(self)@.face(prev_edge_handle as int) == old(self)@.face(next_edge_handle as int),
            old(self)@.target(prev_edge_handle as int) != old(self)@.origin(
                next_edge_handle as int,
            ),
            old(self)@.edges.len() + 2 <= usize::MAX,
        ensures
            final(self).wf(),
            r == old(self)@.edges.len(),
            final(self)@.edges.len() == r + 2,
            is_default_value(final(self)@.edges[r as int].data),
            is_default_value(final(self)@.edges[r + 1].data),
            final(self)@ == old(self)@.connect_edge_to_edge(
                prev_edge_handle as int,
                next_edge_handle as int,
                final(self)@.edges[r as int].data,
                final(self)@.edges[r + 1].data,
            ),
    {
        proof {
            old(self)@.lemma_neighbours_linked(prev_edge_handle as int);
            old(self)@.lemma_neighbours_linked(next_edge_handle as int);
        }
        let edge_index = self.edges.len();
        let twin_index = edge_index + 1;
        let next_edge = self.edges[next_edge_handle];
        let prev_edge = self.edges[prev_edge_handle];
        let edge = HalfEdgeEntry {
            next: next_edge_handle,
            prev: prev_edge_handle,
            twin: twin_index,
            origin: self.edges[prev_edge.twin].origin,
            face: next_edge.face,
            data: Default::default(),
        };
        self.edges.push(edge);

        let twin = HalfEdgeEntry {
            next: prev_edge.next,
            prev: next_edge.prev,
            twin: edge_index,
            origin: next_edge.origin,
            face: next_edge.face,
            data: Default::default(),
        };
        self.edges.push(twin);

        self.edges[next_edge_handle].prev = edge_index;
        self.edges[prev_edge_handle].next = edge_index;
        self.edges[next_edge.prev].next = twin_index;
        self.edges[prev_edge.next].prev = twin_index;

        let ghost w0 = old(self).star_ranks();
        let ghost m0 = old(self)@;
        let ghost a = prev_edge_handle as int;
        let ghost b = next_edge_handle as int;
        let ghost w1 = m0.connect_edge_to_edge_ranks(w0, a, b);
        proof {
            let m1 = self@;
            let n = edge_index as int;
            let spec = m0.connect_edge_to_edge(a, b, m1.edges[n].data, m1.edges[n + 1].data);
            assert(m1.edges =~= spec.edges);
            m0.lemma_connect_edge_to_edge(w0, a, b, m1.edges[n].data, m1.edges[n + 1].data);
            assert(self@.stars_ranked(w1));
        }
        edge_index
    }

    /// Places the isolated vertex `split_vertex` on the edge of
    /// `edge_handle`. Returns the new half-edge that leads from
    /// `split_vertex` to the old target of `edge_handle`.
    pub fn split_edge(
        &mut self,
        edge_handle: FixedEdgeHandle,
        split_vertex: FixedVertexHandle,
    ) -> (r: FixedEdgeHandle)
        requires
            old(self).wf(),
            old(self)@.has_edge(edge_handle as int),
            old(self)@.has_vertex(split_vertex as int),
            old(self)@.is_isolated(split_vertex as int),
            old(self)@.edges.len() + 2 <= usize::MAX,
        ensures
            final(self).wf(),
            r == old(self)@.edges.len(),
            final(self)@.edges.len() == r + 2,
            is_default_value(final(self)@.edges[r as int].data),
            is_default_value(final(self)@.edges[r + 1].data),
            final(self)@ == old(self)@.split_edge(
                edge_handle as int,
                split_vertex as int,
                final(self)@.edges[r as int].data,
                final(self)@.edges[r + 1].data,
            ),
            old(self)@.faces_simple() ==> final(self)@.faces_simple(),
    {
        proof {
            old(self)@.lemma_neighbours_linked(edge_handle as int);
            old(self)@.lemma_neighbours_linked(old(self)@.twin(edge_handle as int));
        }
        let edge = self.edges[edge_handle];
        let twin = self.edges[edge.twin];

        let is_isolated = edge.next == edge.twin;
        let new_edge_index = self.edges.len();
        let new_twin_index = new_edge_index + 1;
        let (new_edge_next, new_twin_prev) = if is_isolated {
            (new_twin_index, new_edge_index)
        } else {
            (edge.next, twin.prev)
        };

        let new_edge = HalfEdgeEntry {
            next: new_edge_next,
            prev: edge_handle,
            twin: new_twin_index,
            origin: split_vertex,
            face: edge.face,
            data: Default::default(),
        };

        let new_twin = HalfEdgeEntry {
            next: edge.twin,
            prev: new_twin_prev,
            twin: new_edge_index,
            origin: twin.origin,
            face: twin.face,
            data: Default::default(),
        };

        if !is_isolated {
            self.edges[edge.next].prev = new_edge_index;
            self.edges[twin.prev].next = new_twin_index;
        }
        self.edges[edge.twin].prev = new_twin_index;
        self.edges[edge_handle].next = new_edge_index;

        self.edges[edge.twin].origin = split_vertex;
        self.vertices[twin.origin].out_edge = Some(new_twin_index);
        self.vertices[split_vertex].out_edge = Some(new_edge_index);

        self.edges.push(new_edge);
        self.edges.push(new_twin);

        let ghost w0 = old(self).star_ranks();
        let ghost m0 = old(self)@;
        let ghost e = edge_handle as int;
        let ghost w1 = m0.split_edge_ranks(w0, e, split_vertex as int);
        proof {
            let m1 = self@;
            let n = new_edge_index as int;
            let spec = m0.split_edge(
                e,
                split_vertex as int,
                m1.edges[n].data,
                m1.edges[n + 1].data,
            );
            assert(m0.star_step(w0, e));
            assert(m1.vertices =~= spec.vertices);
            assert(m1.edges =~= spec.edges);
            m0.lemma_split_edge(w0, e, split_vertex as int, m1.edges[n].data, m1.edges[n + 1].data);
            if m0.faces_simple() {
                m0.lemma_split_edge_simple(
                    e,
                    split_vertex as int,
                    m1.edges[n].data,
                    m1.edges[n + 1].data,
                );
            }
            assert(self@.stars_ranked(w1));
        }
        new_edge_index
    }
}


impl<V, E> DCEL<V, E> where E: Default + Copy {
    /// Adds an edge from the target of `prev_edge_handle` to the origin of
    /// `next_edge_handle`, which lie on one boundary cycle, and makes the
    /// part of the cycle that the new half-edge closes a new face. Returns
    /// the new half-edge, which borders the new face.
    pub fn create_face(
        &mut self,
        prev_edge_handle: FixedEdgeHandle,
        next_edge_handle: FixedEdgeHandle,
    ) -> (r: FixedEdgeHandle)
        requires
            old(self).wf(),
            old(self)@.has_edge(prev_edge_handle as int),
            old(self)@.has_edge(next_edge_handle as int),
            old(self)@.on_ring(next_edge_handle as int, prev_edge_handle as int),
            old(self)@.target(prev_edge_handle as int) != old(self)@.origin(
                next_edge_handle as int,
            ),
            old(self)@.edges.len() + 2 <= usize::MAX,
            old(self)@.faces.len() < usize::MAX,
        ensures
            final(self).wf(),
            r == old(self)@.edges.len(),
            final(self)@.edges.len() == r + 2,
            final(self)@.faces.len() == old(self)@.faces.len() + 1,
            is_default_value(final(self)@.edges[r as int].data),
            is_default_value(final(self)@.edges[r + 1].data),
            final(self)@ == old(self)@.create_face(
                prev_edge_handle as int,
                next_edge_handle as int,
                final(self)@.edges[r as int].data,
                final(self)@.edges[r + 1].data,
            ),
            old(self)@.faces_simple() ==> final(self)@.faces_simple(),
    {
        let ghost m0 = self@;
        let ghost w0 = self.star_ranks();
        let ghost a = prev_edge_handle as int;
        let ghost b = next_edge_handle as int;
        proof {
            m0.lemma_on_ring_same_face(b, a);
        }
        let edge_index = self.connect_edge_to_edge(prev_edge_handle, next_edge_handle);
        let ghost joined = self@;
        let ghost w1 = self.star_ranks();

        let new_face = self.num_faces();

        self.faces.push(FaceEntry { adjacent_edge: Some(edge_index) });

        let ghost m1 = self@;
        let ghost d0 = m1.edges[edge_index as int].data;
        let ghost d1 = m1.edges[edge_index + 1].data;
        proof {
            let joined = m0.connect_edge_to_edge(a, b, d0, d1);
            assert(m1.next_table() =~= joined.next_table());
            assert(m1.prev_table() =~= joined.prev_table());
            joined.lemma_tables();
            assert(m1.edges == joined.edges);
        }
        // Set the face to the left of the new edge
        self.relabel_ring(edge_index, new_face);
        proof {
            m0.lemma_create_face(w0, a, b, d0, d1);
            if m0.faces_simple() {
                m0.lemma_create_face_simple(a, b, d0, d1);
            }
            m0.lemma_new_face_ring(a, b, d0, d1);
            let joined = m0.connect_edge_to_edge(a, b, d0, d1);
            assert forall|x: int| 0 <= x < joined.edges.len() implies #[trigger] self@.edges[x]
                == m0.create_face(a, b, d0, d1).edges[x] by {
                assert(joined.on_ring(edge_index as int, x) <==> (x == edge_index || m0.way(
                    b,
                    a,
                ).contains(x)));
            }
            assert(self@.edges =~= m0.create_face(a, b, d0, d1).edges);
            assert(joined.on_ring(edge_index as int, edge_index + 1) <==> (edge_index + 1
                == edge_index || m0.way(b, a).contains(edge_index + 1)));
            m0.lemma_neighbours_linked(b);
        }
        let twin = self.edges[edge_index].twin;
        let face = self.edges[twin].face;
        self.faces[face].adjacent_edge = Some(twin);
        proof {
            assert(self@.faces =~= m0.create_face(a, b, d0, d1).faces);
            joined.lemma_stars_transfer(self@, w1);
        }
        edge_index
    }
}

} // verus!
