//! Operations that remove half-edges, faces and vertices.

use crate::delaunay::dcel::{ring_prefix_has, VertexRemovalResult, DCEL};
use crate::delaunay::mesh::{FixedEdgeHandle, FixedFaceHandle, FixedVertexHandle, HalfEdgeEntry};
use crate::delaunay::orbit::{
    is_ring, lemma_ring_exists, lemma_ring_is_orbit, lemma_ring_succ, perm_at,
};
use crate::delaunay::removal::pair_of;
use vstd::prelude::*;

verus! {

impl<V, E> DCEL<V, E> where E: Default + Copy {
    /// Drops the half-edge at `edge_handle` from the array. The last
    /// half-edge takes its place, and what refers to that one follows it.
    pub(crate) fn swap_out_edge(&mut self, edge_handle: FixedEdgeHandle)
        requires
            old(self)@.can_swap_out(edge_handle as int),
        ensures
            final(self)@ == old(self)@.swap_out_edge(edge_handle as int),
    {
        let ghost m0 = self@;
        self.edges.swap_remove(edge_handle);
        if self.edges.len() > edge_handle {
            // Update edge index
            let old_handle = self.edges.len();
            let edge = self.edges[edge_handle];
            self.edges[edge.next].prev = edge_handle;
            self.edges[edge.prev].next = edge_handle;
            self.edges[edge.twin].twin = edge_handle;

            match self.vertices[edge.origin].out_edge {
                Some(out) => {
                    if out == old_handle {
                        self.vertices[edge.origin].out_edge = Some(edge_handle);
                    }
                },
                None => {},
            }
            self.faces[edge.face].adjacent_edge = Some(edge_handle);
            proof {
                let spec = m0.swap_out_edge(edge_handle as int);
                assert(self@.edges =~= spec.edges);
                assert(self@.vertices =~= spec.vertices);
                assert(self@.faces =~= spec.faces);
            }
        } else {
            proof {
                assert(self@.edges =~= m0.swap_out_edge(edge_handle as int).edges);
            }
        }
    }

    /// Drops face `face` from the array. The last face takes its place, and
    /// its boundary cycle is relabelled.
    pub(crate) fn remove_face(&mut self, face: FixedFaceHandle)
        requires
            old(self)@.has_face(face as int),
            old(self)@.links_permute(),
            face != old(self)@.faces.len() - 1 ==> (old(self)@.adjacent_edge(
                old(self)@.faces.len() - 1,
            ) matches Some(a) ==> a < old(self)@.edges.len()),
        ensures
            final(self)@ == old(self)@.remove_face(face as int),
    {
        let ghost m0 = self@;
        self.faces.swap_remove(face);
        if self.faces.len() > face {
            proof {
                assert(self@.next_table() =~= m0.next_table());
                assert(self@.prev_table() =~= m0.prev_table());
            }
            match self.faces[face].adjacent_edge {
                Some(adj) => {
                    self.relabel_ring(adj, face);
                },
                None => {},
            }
        }
    }

    /// Takes the edge of `edge_handle` out of the boundary cycles and the
    /// stars that it lies in. Its two half-edges stay in the array, but
    /// nothing refers to them. Returns the face that is to be given up and
    /// the face that is to survive.
    #[verifier::rlimit(100)]
    #[verifier::spinoff_prover]
    pub(crate) fn unlink_edge(
        &mut self,
        edge_handle: FixedEdgeHandle,
        remaining_face: Option<FixedFaceHandle>,
    ) -> (faces: (FixedFaceHandle, FixedFaceHandle))
        requires
            old(self)@.links_ok(),
            old(self)@.has_edge(edge_handle as int),
        ensures
            final(self)@ == old(self)@.unlink(edge_handle as int, remaining_face),
            faces.0 == old(self)@.dropped_face(edge_handle as int, remaining_face),
            faces.1 == old(self)@.kept_face(edge_handle as int, remaining_face),
    {
        let ghost m0 = self@;
        let ghost e = edge_handle as int;
        proof {
            m0.lemma_neighbours_linked(e);
            m0.lemma_neighbours_linked(m0.twin(e));
            m0.lemma_neighbours_linked(m0.prev(e));
            m0.lemma_neighbours_linked(m0.next(e));
        }
        let edge = self.edges[edge_handle];

        let twin = self.edges[edge.twin];

        self.edges[edge.prev].next = twin.next;
        self.edges[twin.next].prev = edge.prev;
        self.edges[edge.next].prev = twin.prev;
        self.edges[twin.prev].next = edge.next;
        let ghost m1 = self@;
        proof {
            assert(m1.edges.len() == m0.edges.len());
            assert forall|x: int| 0 <= x < m0.edges.len() implies #[trigger] m1.edges[x] == (if x
                == e || x == m0.twin(e) {
                m0.edges[x]
            } else {
                HalfEdgeEntry {
                    next: m0.next_without(e, x) as usize,
                    prev: m0.prev_without(e, x) as usize,
                    twin: m0.edges[x].twin,
                    origin: m0.edges[x].origin,
                    face: m0.edges[x].face,
                    data: m0.edges[x].data,
                }
            }) by {}
        }

        let (to_remove, to_keep) = if remaining_face == Some(twin.face) {
            (edge, twin)
        } else {
            (twin, edge)
        };

        if edge.prev == edge.twin && edge.next == edge.twin {
            // We remove an isolated edge
            self.faces[to_keep.face].adjacent_edge = None;
        } else {
            let new_adjacent_edge = if edge.prev != edge.twin {
                edge.prev
            } else {
                edge.next
            };
            self.faces[to_keep.face].adjacent_edge = Some(new_adjacent_edge);
            self.edges[new_adjacent_edge].face = to_keep.face;
        }

        if edge.prev == edge.twin {
            self.vertices[edge.origin].out_edge = None;
        } else {
            self.vertices[edge.origin].out_edge = Some(twin.next);
        }

        if edge.next == edge.twin {
            self.vertices[twin.origin].out_edge = None;
        } else {
            self.vertices[twin.origin].out_edge = Some(edge.next);
        }
        proof {
            let mu = m0.unlink(e, remaining_face);
            assert(self@.edges =~= mu.edges);
            assert(self@.vertices =~= mu.vertices);
            assert(self@.faces =~= mu.faces);
        }
        (to_remove.face, to_keep.face)
    }

    /// Removes the edge of `edge_handle`.
    ///
    /// Where the edge separates two faces they become one. The face of
    /// `edge_handle` survives, unless `remaining_face` names the face on the
    /// other side, which then survives; whether one of them is the outer
    /// face plays no part. The other face is given up, and the last face of
    /// the array takes its handle.
    ///
    /// Such a removal relabels one boundary cycle, so it needs what
    /// `can_remove_edge` says: the face that is given up and the last face of
    /// the array have a single boundary cycle each, and the two half-edges
    /// that move into the gap lie on the boundary cycle through the edge if
    /// they border the face that survives. This holds of every edge where
    /// all faces have a single boundary cycle, as they have in a mesh that
    /// is built up with `connect_two_isolated_vertices`,
    /// `connect_edge_to_isolated_vertex`, `split_edge`, `create_face` and
    /// `flip_cw`. After `connect_edge_to_edge`, or after the removal of a
    /// bridge, one face has two boundary cycles; edges between other faces
    /// can still be removed, and so can an edge on which the face with two
    /// cycles survives, as long as that face is not the last of the array.
    /// An edge with the same face on both sides can always be removed.
    pub fn remove_edge(
        &mut self,
        edge_handle: FixedEdgeHandle,
        remaining_face: Option<FixedFaceHandle>,
    )
        requires
            old(self).wf(),
            old(self)@.has_edge(edge_handle as int),
            old(self)@.can_remove_edge(edge_handle as int, remaining_face),
        ensures
            final(self).wf(),
            final(self)@ == old(self)@.remove_edge(edge_handle as int, remaining_face),
            old(self)@.faces_simple() && !old(self)@.is_bridge(edge_handle as int)
                ==> final(self)@.faces_simple(),
    {
        let ghost m0 = self@;
        let ghost w0 = self.star_ranks();
        let ghost e = edge_handle as int;
        let ghost lo = pair_of(e);
        let ghost keep = m0.kept_face(e, remaining_face);
        let ghost gone = m0.dropped_face(e, remaining_face);
        let ghost mu = m0.unlink(e, remaining_face);
        let ghost mc = m0.without_edge(e, remaining_face);
        proof {
            self.lemma_sizes();
            m0.lemma_neighbours_linked(e);
            m0.lemma_remove_edge(w0, e, remaining_face);
            m0.lemma_unlink_links(e, remaining_face);
            mu.lemma_swap_out_bounds(lo, keep, gone);
            mu.lemma_swap_out_pair(lo, keep, gone);
            mc.lemma_sound_permutes(keep, gone);
            if m0.faces_simple() && !m0.is_bridge(e) {
                m0.lemma_remove_edge_simple(w0, e, remaining_face);
            }
        }
        let twin_handle = self.edges[edge_handle].twin;
        let (face_to_remove, face_to_keep) = self.unlink_edge(edge_handle, remaining_face);

        // We must remove the larger index first to prevent the other edge
        // from being updated
        if edge_handle > twin_handle {
            self.swap_out_edge(edge_handle);
            self.swap_out_edge(twin_handle);
        } else {
            self.swap_out_edge(twin_handle);
            self.swap_out_edge(edge_handle);
        }
        if face_to_remove != face_to_keep {
            proof {
                m0.lemma_kept_ring_takes_in(e, remaining_face);
                let last = m0.faces.len() - 1;
                if last == keep {
                    m0.lemma_kept_face_ringed(e, remaining_face);
                } else if last != gone {
                    m0.lemma_other_face_ringed(e, remaining_face, last);
                }
                mc.lemma_relabel_is_merge(keep, gone);
                let _ = mc.faces[keep];
                let _ = mc.faces[last];
            }
            match self.faces[face_to_keep].adjacent_edge {
                Some(adj) => {
                    self.relabel_ring(adj, face_to_keep);
                },
                None => {},
            }
            proof {
                assert(self@ == mc.with_face_ring_relabelled(keep));
                assert(self@.next_table() =~= mc.next_table());
                assert(self@.prev_table() =~= mc.prev_table());
                let last = m0.faces.len() - 1;
                assert(self@.faces[last] == mc.faces[last]);
                assert(mc.has_face(last));
            }
            self.remove_face(face_to_remove);
        }
        proof {
            assert(self@.stars_ranked(m0.remove_edge_ranks(w0, e)));
        }
    }
}

impl<V, E> DCEL<V, E> where E: Default + Copy {
    /// Lets every half-edge in the star through `start` start at `vertex`.
    pub(crate) fn relabel_star(&mut self, start: FixedEdgeHandle, vertex: FixedVertexHandle)
        requires
            old(self)@.stars_permute(),
            old(self)@.has_edge(start as int),
        ensures
            final(self)@ == old(self)@.with_star_origin(start as int, vertex as int),
    {
        let ghost m0 = self@;
        let ghost succ = m0.ccw_table();
        let ghost ring: Seq<int>;
        proof {
            ring = lemma_ring_exists(succ, m0.cw_table(), start as int);
        }
        let mut cur = start;
        let ghost mut k: int = 0;
        loop
            invariant_except_break
                0 <= k < ring.len(),
                cur == ring[k],
                forall|x: int|
                    0 <= x < m0.edges.len() ==> #[trigger] self@.edges[x] == (HalfEdgeEntry {
                        next: m0.edges[x].next,
                        prev: m0.edges[x].prev,
                        twin: m0.edges[x].twin,
                        origin: if ring_prefix_has(ring, k, x) {
                            vertex
                        } else {
                            m0.edges[x].origin
                        },
                        face: m0.edges[x].face,
                        data: m0.edges[x].data,
                    }),
            invariant
                is_ring(succ, ring),
                ring[0] == start,
                succ == m0.ccw_table(),
                m0.stars_permute(),
                self@.vertices == m0.vertices,
                self@.faces == m0.faces,
                self@.edges.len() == m0.edges.len(),
            ensures
                forall|x: int|
                    0 <= x < m0.edges.len() ==> #[trigger] self@.edges[x] == (HalfEdgeEntry {
                        next: m0.edges[x].next,
                        prev: m0.edges[x].prev,
                        twin: m0.edges[x].twin,
                        origin: if ring.contains(x) {
                            vertex
                        } else {
                            m0.edges[x].origin
                        },
                        face: m0.edges[x].face,
                        data: m0.edges[x].data,
                    }),
            decreases ring.len() - k,
        {
            proof {
                assert(m0.prev(cur as int) < m0.edges.len());
                assert(perm_at(succ, m0.cw_table(), cur as int));
            }
            self.edges[cur].origin = vertex;
            let before = self.edges[cur].prev;
            cur = self.edges[before].twin;
            proof {
                lemma_ring_succ(succ, ring, k);
                assert forall|x: int| 0 <= x < m0.edges.len() implies (ring_prefix_has(
                    ring,
                    k + 1,
                    x,
                ) <==> ring_prefix_has(ring, k, x) || x == ring[k]) by {
                    if ring_prefix_has(ring, k + 1, x) {
                        let j = choose|j: int| 0 <= j < k + 1 && ring[j] == x;
                        if j < k {
                            assert(ring_prefix_has(ring, k, x));
                        }
                    }
                    if ring_prefix_has(ring, k, x) {
                        let j = choose|j: int| 0 <= j < k && ring[j] == x;
                        assert(0 <= j < k + 1 && ring[j] == x);
                    }
                    if x == ring[k] {
                        assert(0 <= k < k + 1 && ring[k] == x);
                    }
                }
            }
            if cur == start {
                proof {
                    assert(k + 1 == ring.len());
                    assert forall|x: int| 0 <= x < m0.edges.len() implies (ring_prefix_has(
                        ring,
                        k + 1,
                        x,
                    ) <==> ring.contains(x)) by {
                        if ring.contains(x) {
                            let j = choose|j: int| 0 <= j < ring.len() && ring[j] == x;
                            assert(0 <= j < k + 1 && ring[j] == x);
                        }
                    }
                }
                break ;
            }
            proof {
                k = k + 1;
            }
        }
        proof {
            lemma_ring_is_orbit(succ, ring, 0);
            assert(self@.edges =~= m0.with_star_origin(start as int, vertex as int).edges);
        }
    }

    /// Removes vertex `vertex_handle` together with all edges at it.
    ///
    /// The last vertex of the array takes its place; the result names the
    /// handle that this vertex had, and holds the data of the removed one.
    ///
    /// The edges at the vertex are removed one by one, and each removal
    /// needs what `remove_edge` needs; `can_strip_vertex` says so. It holds
    /// at every vertex of a triangulation, with or without edges that
    /// dangle into its faces, at every vertex of a tree, and at every
    /// isolated vertex (`law_vertex_can_be_stripped`).
    pub fn remove_vertex(
        &mut self,
        vertex_handle: FixedVertexHandle,
        remaining_face: Option<FixedFaceHandle>,
    ) -> (r: VertexRemovalResult<V>)
        requires
            old(self).wf(),
            old(self)@.has_vertex(vertex_handle as int),
            old(self)@.can_strip_vertex(vertex_handle as int, remaining_face),
        ensures
            final(self).wf(),
            old(self)@.faces_simple() && old(self)@.corners_distinct(vertex_handle as int)
                ==> final(self)@.faces_simple(),
            final(self)@ == old(self)@.remove_vertex(vertex_handle as int, remaining_face),
            old(self)@.strip_vertex(vertex_handle as int, remaining_face).is_isolated(
                vertex_handle as int,
            ),
            final(self)@.vertices.len() == old(self)@.vertices.len() - 1,
            forall|u: int|
                #![trigger final(self)@.vertices[u]]
                0 <= u < final(self)@.vertices.len() ==> final(self)@.vertices[u].data == old(
                    self,
                )@.vertices[if u == vertex_handle {
                    old(self)@.vertices.len() - 1
                } else {
                    u
                }].data,
            final(self)@.edges.len() <= old(self)@.edges.len(),
            final(self)@.faces.len() <= old(self)@.faces.len(),
            r.data == old(self)@.vertices[vertex_handle as int].data,
            r.updated_vertex == (if vertex_handle == old(self)@.vertices.len() - 1 {
                None
            } else {
                Some((old(self)@.vertices.len() - 1) as usize)
            }),
    {
        let ghost m0 = self@;
        let ghost v = vertex_handle as int;
        let ghost simple = m0.faces_simple() && m0.corners_distinct(v);
        loop
            invariant
                v == vertex_handle as int,
                self.wf(),
                self@.has_vertex(v),
                simple ==> self@.faces_simple() && self@.corners_distinct(v),
                self@.can_strip_vertex(v, remaining_face),
                self@.vertices.len() == m0.vertices.len(),
                self@.edges.len() <= m0.edges.len(),
                self@.faces.len() <= m0.faces.len(),
                forall|u: int|
                    #![trigger self@.vertices[u]]
                    0 <= u < m0.vertices.len() ==> self@.vertices[u].data == m0.vertices[u].data,
                self@.strip_vertex(v, remaining_face) == m0.strip_vertex(v, remaining_face),
            ensures
                self@.is_isolated(v),
                self@ == m0.strip_vertex(v, remaining_face),
                self@.vertices.len() == m0.vertices.len(),
                self@.edges.len() <= m0.edges.len(),
                self@.faces.len() <= m0.faces.len(),
                forall|u: int|
                    #![trigger self@.vertices[u]]
                    0 <= u < m0.vertices.len() ==> self@.vertices[u].data == m0.vertices[u].data,
            decreases self@.edges.len(),
        {
            match self.vertices[vertex_handle].out_edge {
                Some(out_edge) => {
                    proof {
                        self.lemma_sizes();
                        let _ = self@.vertices[v];
                        self@.lemma_neighbours_linked(out_edge as int);
                        assert(self@.edges.len() >= 2);
                        if simple {
                            self@.lemma_corners_after_removal(out_edge as int, remaining_face);
                        }
                    }
                    self.remove_edge(out_edge, remaining_face);
                },
                None => {
                    break ;
                },
            }
        }
        let ghost ms = self@;
        let ghost ws = self.star_ranks();
        proof {
            self.lemma_sizes();
            ms.lemma_drop_vertex(ws, v);
            ms.lemma_tables();
        }
        let data = self.vertices.swap_remove(vertex_handle).data;
        let updated_vertex = if self.vertices.len() == vertex_handle {
            proof {
                assert forall|x: int| ms.has_edge(x) implies ms.origin(x) != ms.vertices.len()
                    - 1 by {
                    assert(ms.star_step(ws, x));
                }
                assert(self@.edges =~= ms.drop_vertex(v).edges);
            }
            None
        } else {
            // Update origin of all out edges
            proof {
                assert(self@.ccw_table() =~= ms.ccw_table());
                assert(self@.cw_table() =~= ms.cw_table());
                assert forall|x: int| self@.has_edge(x) implies #[trigger] self@.prev(x)
                    < self@.edges.len() by {
                    assert(ms.edge_linked(x));
                }
                let last = ms.vertices.len() - 1;
                let _ = ms.vertices[last];
            }
            match self.vertices[vertex_handle].out_edge {
                Some(start) => {
                    let ghost mid = self@;
                    self.relabel_star(start, vertex_handle);
                    proof {
                        ms.lemma_star_covers(ws, start as int);
                        assert forall|x: int| ms.has_edge(x) implies (mid.in_star(start as int, x)
                            <==> ms.origin(x) == ms.vertices.len() - 1) by {
                            assert(ms.in_star(start as int, x) <==> ms.origin(x) == ms.origin(
                                start as int,
                            ));
                        }
                        assert(self@.edges =~= ms.drop_vertex(v).edges);
                    }
                },
                None => {
                    proof {
                        assert forall|x: int| ms.has_edge(x) implies ms.origin(x)
                            != ms.vertices.len() - 1 by {
                            assert(ms.star_step(ws, x));
                        }
                        assert(self@.edges =~= ms.drop_vertex(v).edges);
                    }
                },
            }
            Some(self.vertices.len())
        };
        let ghost w1 = ms.drop_vertex_ranks(ws, v);
        proof {
            assert(self@.vertices =~= ms.drop_vertex(v).vertices);
            assert(self@ == ms.drop_vertex(v));
            if simple {
                ms.lemma_faces_simple_transfer(self@);
            }
            assert(self@.stars_ranked(w1));
        }

        VertexRemovalResult { updated_vertex, data }
    }
}

} // verus!
