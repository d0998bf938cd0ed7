//! A doubly connected edge list over dense integer handles.

use crate::delaunay::dcel::handles::{EdgeHandle, FaceHandle, VertexHandle};
use crate::delaunay::dcel::iterators::{EdgesIterator, FacesIterator, VerticesIterator};
use crate::delaunay::mesh::{
    FaceEntry, FixedEdgeHandle, FixedFaceHandle, FixedVertexHandle, HalfEdgeEntry, Mesh, StarRanks,
    VertexEntry,
};
use crate::delaunay::orbit::{is_ring, lemma_ring_exists, lemma_ring_is_orbit, lemma_ring_succ};
use vstd::prelude::*;

pub mod connect;
pub mod flip;
pub mod handle_eq;
pub mod handles;
pub mod iterators;
pub mod query;
pub mod remove;

verus! {

/// What `remove_vertex` reports: the data of the removed vertex, and the
/// handle that used to name the vertex which now sits in its place, if any.
#[derive(Clone, Copy, Debug, PartialEq, Eq, PartialOrd, Ord, Hash)]
pub struct VertexRemovalResult<V> {
    pub updated_vertex: Option<FixedVertexHandle>,
    pub data: V,
}

/// The handles of all vertices, in order.
pub type FixedVerticesIterator = core::ops::Range<usize>;

/// A doubly connected edge list: vertices, faces and half-edges in three
/// arrays, addressed by position.
///
/// Face 0 is the unbounded outer face. Half-edges are stored in pairs of
/// twins at consecutive positions. Removal fills the gap with the last
/// record of the array, so that a removal changes the handle of at most one
/// vertex, one face and one edge besides those removed.
#[derive(Clone, Debug, PartialEq, Eq, PartialOrd, Ord, Hash)]
pub struct DCEL<V, E = ()> {
    vertices: Vec<VertexEntry<V>>,
    faces: Vec<FaceEntry>,
    edges: Vec<HalfEdgeEntry<E>>,
}

impl<V, E> View for DCEL<V, E> {
    type V = Mesh<V, E>;

    closed spec fn view(&self) -> Mesh<V, E> {
        Mesh { vertices: self.vertices@, faces: self.faces@, edges: self.edges@ }
    }
}

impl<V, E> DCEL<V, E> {
    /// A witness that the vertex stars of this structure are single cycles,
    /// where there is one.
    pub open spec fn star_ranks(&self) -> StarRanks {
        self@.star_witness()
    }

    /// The arrays hold no more records than a `usize` counts.
    pub proof fn lemma_sizes(&self)
        ensures
            self@.vertices.len() <= usize::MAX,
            self@.faces.len() <= usize::MAX,
            self@.edges.len() <= usize::MAX,
    {
        assert(self.vertices.len() == self@.vertices.len());
        assert(self.faces.len() == self@.faces.len());
        assert(self.edges.len() == self@.edges.len());
    }

    /// The invariant of the structure: its links are consistent, and around
    /// every vertex the outgoing half-edges form a single cycle, of which
    /// `star_ranks` is a witness. Every constructor establishes it and every
    /// operation keeps it. It says nothing of the boundary cycles of a face:
    /// see `Mesh::faces_simple`.
    pub open spec fn wf(&self) -> bool {
        &&& self@.links_ok()
        &&& self@.stars_ranked(self.star_ranks())
    }
}

impl<V> DCEL<V> {
    /// Creates a structure with no vertices, no edges and the outer face.
    pub fn new() -> (r: Self)
        ensures
            r.wf(),
            r@.vertices.len() == 0,
            r@.edges.len() == 0,
            r@.faces =~= seq![FaceEntry { adjacent_edge: None }],
            r@.faces_simple(),
    {
        Self::new_with_edge()
    }
}

impl<V, E> DCEL<V, E> where E: Default {
    /// Creates a structure with no vertices, no edges and the outer face.
    pub fn new_with_edge() -> (r: Self)
        ensures
            r.wf(),
            r@.vertices.len() == 0,
            r@.edges.len() == 0,
            r@.faces =~= seq![FaceEntry { adjacent_edge: None }],
            r@.faces_simple(),
    {
        let mut faces = Vec::new();
        faces.push(FaceEntry { adjacent_edge: None });
        let r = DCEL {
            vertices: Vec::new(),
            edges: Vec::new(),
            faces,
        };
        proof {
            assert(r@.stars_ranked(StarRanks { rank: Seq::empty(), root: Seq::empty() }));
            assert forall|f: int| r@.has_face(f) implies #[trigger] r@.face_simple(f) by {}
        }
        r
    }

    /// The number of vertices.
    pub fn num_vertices(&self) -> (r: usize)
        ensures
            r == self@.vertices.len(),
    {
        self.vertices.len()
    }

    /// The number of undirected edges: half the number of half-edges.
    pub fn num_edges(&self) -> (r: usize)
        ensures
            r == self@.edges.len() / 2,
    {
        self.edges.len() / 2
    }

    /// The number of faces, the outer face included.
    pub fn num_faces(&self) -> (r: usize)
        ensures
            r == self@.faces.len(),
    {
        self.faces.len()
    }

    /// Appends an isolated vertex and returns its handle.
    pub fn insert_vertex(&mut self, vertex: V) -> (r: FixedVertexHandle)
        requires
            old(self).wf(),
        ensures
            final(self).wf(),
            r == old(self)@.vertices.len(),
            final(self)@.vertices == old(self)@.vertices.push(
                VertexEntry { data: vertex, out_edge: None },
            ),
            final(self)@.faces == old(self)@.faces,
            final(self)@.edges == old(self)@.edges,
            old(self)@.faces_simple() ==> final(self)@.faces_simple(),
    {
        self.vertices.push(VertexEntry { data: vertex, out_edge: None });
        let ghost w0 = old(self).star_ranks();
        let ghost w1 = StarRanks { rank: w0.rank, root: w0.root.push(0) };
        proof {
            let m0 = old(self)@;
            let m1 = self@;
            assert forall|e: int| m1.has_edge(e) implies #[trigger] m1.edge_linked(e) by {
                assert(m0.edge_linked(e));
            }
            assert forall|e: int| m1.has_edge(e) implies #[trigger] m1.star_step(
                w1,
                e,
            ) by {
                assert(m0.edge_linked(e));
                assert(m0.star_step(old(self).star_ranks(), e));
            }
            if m0.faces_simple() {
                m0.lemma_faces_simple_transfer(m1);
            }
            assert(self@.stars_ranked(w1));
        }
        self.vertices.len() - 1
    }
}

impl<V, E> DCEL<V, E> where E: Default {
    /// A handle to vertex `handle`.
    pub fn vertex(&self, handle: FixedVertexHandle) -> (r: VertexHandle<'_, V, E>)
        requires
            self.wf(),
            self@.has_vertex(handle as int),
        ensures
            r.mesh() == self@,
            r.fix_spec() == handle,
    {
        VertexHandle::new(self, handle)
    }

    /// A handle to half-edge `handle`.
    pub fn edge(&self, handle: FixedEdgeHandle) -> (r: EdgeHandle<'_, V, E>)
        requires
            self.wf(),
            self@.has_edge(handle as int),
        ensures
            r.mesh() == self@,
            r.fix_spec() == handle,
    {
        EdgeHandle::new(self, handle)
    }

    /// A handle to face `handle`.
    pub fn face(&self, handle: FixedFaceHandle) -> (r: FaceHandle<'_, V, E>)
        requires
            self.wf(),
            self@.has_face(handle as int),
        ensures
            r.mesh() == self@,
            r.fix_spec() == handle,
    {
        FaceHandle::new(self, handle)
    }

    /// The data of half-edge `handle`.
    pub fn edge_data(&self, handle: FixedEdgeHandle) -> (r: &E)
        requires
            self@.has_edge(handle as int),
        ensures
            *r == self@.edges[handle as int].data,
    {
        &self.edges[handle].data
    }

    /// Replaces the data of vertex `handle`.
    pub fn update_vertex(&mut self, handle: FixedVertexHandle, data: V)
        requires
            old(self).wf(),
            old(self)@.has_vertex(handle as int),
        ensures
            final(self).wf(),
            final(self)@ == old(self)@.with_vertex_data(handle as int, data),
            old(self)@.faces_simple() ==> final(self)@.faces_simple(),
    {
        self.vertices[handle].data = data;
        proof {
            assert(self@.vertices =~= old(self)@.with_vertex_data(handle as int, data).vertices);
            old(self)@.lemma_data_only(self@, old(self).star_ranks());
            if old(self)@.faces_simple() {
                old(self)@.lemma_faces_simple_transfer(self@);
            }
        }
    }

    /// A walk over all edges, one half-edge of each.
    pub fn edges(&self) -> (r: EdgesIterator<'_, V, E>)
        requires
            self.wf(),
        ensures
            r.mesh() == self@,
            r.position() == 0,
    {
        EdgesIterator::new(&self)
    }

    /// A walk over all vertices.
    pub fn vertices(&self) -> (r: VerticesIterator<'_, V, E>)
        requires
            self.wf(),
        ensures
            r.mesh() == self@,
            r.position() == 0,
    {
        VerticesIterator::new(&self)
    }

    /// The handles of all vertices.
    pub fn fixed_vertices(&self) -> (r: FixedVerticesIterator)
        ensures
            r.start == 0,
            r.end == self@.vertices.len(),
    {
        (0..self.num_vertices())
    }

    /// A walk over all faces.
    pub fn faces(&self) -> (r: FacesIterator<'_, V, E>)
        requires
            self.wf(),
        ensures
            r.mesh() == self@,
            r.position() == 0,
    {
        FacesIterator::new(&self)
    }
}

/// One of the first `k` entries of `ring` is `x`.
pub open spec fn ring_prefix_has(ring: Seq<int>, k: int, x: int) -> bool {
    exists|j: int| 0 <= j < k && ring[j] == x
}

impl<V, E> DCEL<V, E> where E: Default {
    /// Labels every half-edge on the boundary cycle through `start` with
    /// `face`.
    pub(crate) fn relabel_ring(&mut self, start: FixedEdgeHandle, face: FixedFaceHandle)
        requires
            old(self)@.links_permute(),
            old(self)@.has_edge(start as int),
        ensures
            final(self)@ == old(self)@.with_ring_face(start as int, face as int),
    {
        let ghost m0 = self@;
        let ghost succ = m0.next_table();
        let ghost ring: Seq<int>;
        proof {
            ring = lemma_ring_exists(succ, m0.prev_table(), start as int);
        }
        let mut cur = start;
        let ghost mut k: int = 0;
        loop
            invariant_except_break
                0 <= k < ring.len(),
                cur == ring[k],
                forall|x: int|
                    0 <= x < m0.edges.len() ==> #[trigger] self@.edges[x] == (HalfEdgeEntry {
                        next: m0.edges[x].next,
                        prev: m0.edges[x].prev,
                        twin: m0.edges[x].twin,
                        origin: m0.edges[x].origin,
                        face: if ring_prefix_has(ring, k, x) {
                            face
                        } else {
                            m0.edges[x].face
                        },
                        data: m0.edges[x].data,
                    }),
            invariant
                is_ring(succ, ring),
                ring[0] == start,
                succ == m0.next_table(),
                self@.vertices == m0.vertices,
                self@.faces == m0.faces,
                self@.edges.len() == m0.edges.len(),
            ensures
                forall|x: int|
                    0 <= x < m0.edges.len() ==> #[trigger] self@.edges[x] == (HalfEdgeEntry {
                        next: m0.edges[x].next,
                        prev: m0.edges[x].prev,
                        twin: m0.edges[x].twin,
                        origin: m0.edges[x].origin,
                        face: if ring.contains(x) {
                            face
                        } else {
                            m0.edges[x].face
                        },
                        data: m0.edges[x].data,
                    }),
            decreases ring.len() - k,
        {
            self.edges[cur].face = face;
            cur = self.edges[cur].next;
            proof {
                lemma_ring_succ(succ, ring, k);
                assert forall|x: int| 0 <= x < m0.edges.len() implies (ring_prefix_has(
                    ring,
                    k + 1,
                    x,
                ) <==> ring_prefix_has(ring, k, x) || x == ring[k]) by {
                    if ring_prefix_has(ring, k + 1, x) {
                        let j = choose|j: int| 0 <= j < k + 1 && ring[j] == x;
                        if j < k {
                            assert(ring_prefix_has(ring, k, x));
                        }
                    }
                    if ring_prefix_has(ring, k, x) {
                        let j = choose|j: int| 0 <= j < k && ring[j] == x;
                        assert(0 <= j < k + 1 && ring[j] == x);
                    }
                    if x == ring[k] {
                        assert(0 <= k < k + 1 && ring[k] == x);
                    }
                }
            }
            if cur == start {
                proof {
                    assert(k + 1 == ring.len());
                    assert forall|x: int| 0 <= x < m0.edges.len() implies (ring_prefix_has(
                        ring,
                        k + 1,
                        x,
                    ) <==> ring.contains(x)) by {
                        if ring.contains(x) {
                            let j = choose|j: int| 0 <= j < ring.len() && ring[j] == x;
                            assert(0 <= j < k + 1 && ring[j] == x);
                        }
                    }
                }
                break ;
            }
            proof {
                k = k + 1;
            }
        }
        proof {
            lemma_ring_is_orbit(succ, ring, 0);
            assert(self@.edges =~= m0.with_ring_face(start as int, face as int).edges);
        }
    }
}

} // verus!
