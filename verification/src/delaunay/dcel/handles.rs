//! Handles that borrow the structure and walk it.

use crate::delaunay::dcel::iterators::{CCWIterator, ONextIterator};
use crate::delaunay::dcel::DCEL;
use crate::delaunay::mesh::{FixedEdgeHandle, FixedFaceHandle, FixedVertexHandle, Mesh};
use crate::delaunay::orbit::is_ring;
use vstd::prelude::*;

verus! {

/// A handle to a directed edge.
///
/// Used to retrieve adjacent vertices and faces.
pub struct EdgeHandle<'a, V, E = ()> {
    dcel: &'a DCEL<V, E>,
    handle: FixedEdgeHandle,
}

/// A handle to a vertex.
///
/// Used to retrieve its outgoing edges.
pub struct VertexHandle<'a, V, E = ()> {
    dcel: &'a DCEL<V, E>,
    handle: FixedVertexHandle,
}

/// A handle to a face.
///
/// Used to retrieve its adjacent edges.
pub struct FaceHandle<'a, V, E = ()> {
    dcel: &'a DCEL<V, E>,
    handle: FixedFaceHandle,
}

impl<'a, V, E> Clone for VertexHandle<'a, V, E> {
    fn clone(&self) -> (r: Self)
        ensures
            r == *self,
    {
        proof {
            use_type_invariant(self);
        }
        VertexHandle { dcel: self.dcel, handle: self.handle }
    }
}

impl<'a, V, E> Copy for VertexHandle<'a, V, E> {

}

impl<'a, V, E> Clone for EdgeHandle<'a, V, E> {
    fn clone(&self) -> (r: Self)
        ensures
            r == *self,
    {
        proof {
            use_type_invariant(self);
        }
        EdgeHandle { dcel: self.dcel, handle: self.handle }
    }
}

impl<'a, V, E> Copy for EdgeHandle<'a, V, E> {

}

impl<'a, V, E> Clone for FaceHandle<'a, V, E> {
    fn clone(&self) -> (r: Self)
        ensures
            r == *self,
    {
        proof {
            use_type_invariant(self);
        }
        FaceHandle { dcel: self.dcel, handle: self.handle }
    }
}

impl<'a, V, E> Copy for FaceHandle<'a, V, E> {

}

impl<'a, V, E> VertexHandle<'a, V, E> {
    /// A vertex handle names a vertex of a consistent structure.
    #[verifier::type_invariant]
    spec fn valid(self) -> bool {
        self.dcel.wf() && self.handle < self.dcel@.vertices.len()
    }

    /// The state of the structure that the handle borrows.
    pub closed spec fn mesh(self) -> Mesh<V, E> {
        self.dcel@
    }

    /// The position of the vertex.
    pub closed spec fn fix_spec(self) -> FixedVertexHandle {
        self.handle
    }

    /// The position that the handle names.
    pub(crate) fn position(&self) -> (r: FixedVertexHandle)
        ensures
            r == self.fix_spec(),
    {
        self.handle
    }

    /// The handle to position `handle` of `dcel`.
    pub(crate) fn new(dcel: &'a DCEL<V, E>, handle: FixedVertexHandle) -> (r: Self)
        requires
            dcel.wf(),
            dcel@.has_vertex(handle as int),
        ensures
            r.mesh() == dcel@,
            r.fix_spec() == handle,
    {
        VertexHandle { dcel, handle }
    }

    /// The data stored at the vertex.
    pub fn data(&self) -> (r: &'a V)
        ensures
            *r == self.mesh().vertices[self.fix_spec() as int].data,
    {
        proof {
            use_type_invariant(self);
        }
        &self.dcel.vertices[self.handle].data
    }
}

impl<'a, V, E> core::ops::Deref for VertexHandle<'a, V, E> {
    type Target = V;

    /// The data stored at the vertex.
    fn deref(&self) -> (r: &V)
        ensures
            *r == self.mesh().vertices[self.fix_spec() as int].data,
    {
        proof {
            use_type_invariant(self);
        }
        &self.dcel.vertices[self.handle].data
    }
}

impl<'a, V, E> VertexHandle<'a, V, E> where E: Default {
    /// Returns an outgoing edge.
    ///
    /// If the vertex has multiple outgoing edges, any of them is returned.
    pub fn out_edge(&self) -> (r: Option<EdgeHandle<'a, V, E>>)
        ensures
            match self.mesh().out_edge(self.fix_spec() as int) {
                Some(e) => r matches Some(h) && h.fix_spec() == e && h.mesh() == self.mesh(),
                None => r is None,
            },
    {
        proof {
            use_type_invariant(self);
            let _ = self.dcel@.vertices[self.handle as int];
        }
        match self.dcel.vertices[self.handle].out_edge {
            Some(e) => Some(EdgeHandle::new(self.dcel, e)),
            None => None,
        }
    }

    /// Returns all outgoing edges in counter clockwise order.
    ///
    /// Note that this assumes that you use a right handed coordinate system,
    /// otherwise the sense of orientation is inverted.
    pub fn ccw_out_edges(&self) -> (r: CCWIterator<'a, V, E>)
        ensures
            r.mesh() == self.mesh(),
            r.state() == match self.mesh().out_edge(self.fix_spec() as int) {
                Some(e) => Some((self.mesh().edges[self.mesh().prev(e as int)].twin, e)),
                None => None,
            },
            match self.mesh().out_edge(self.fix_spec() as int) {
                Some(e) => is_ring(self.mesh().ccw_table(), r.rest()) && r.rest()[0]
                    == self.mesh().ccw(e as int),
                None => r.rest().len() == 0,
            },
    {
        proof {
            use_type_invariant(self);
        }
        CCWIterator::new(self.dcel, self.handle)
    }

    /// Creates a fixed vertex handle from this dynamic handle. It names a
    /// vertex of a consistent mesh.
    pub fn fix(&self) -> (r: FixedVertexHandle)
        ensures
            r == self.fix_spec(),
            self.mesh().links_ok(),
            self.mesh().has_vertex(r as int),
    {
        proof {
            use_type_invariant(self);
        }
        self.handle
    }
}

impl<'a, V, E> EdgeHandle<'a, V, E> {
    /// An edge handle names a half-edge of a consistent structure.
    #[verifier::type_invariant]
    spec fn valid(self) -> bool {
        self.dcel.wf() && self.handle < self.dcel@.edges.len()
    }

    /// The state of the structure that the handle borrows.
    pub closed spec fn mesh(self) -> Mesh<V, E> {
        self.dcel@
    }

    /// The position of the half-edge.
    pub closed spec fn fix_spec(self) -> FixedEdgeHandle {
        self.handle
    }

    /// The position that the handle names.
    pub(crate) fn position(&self) -> (r: FixedEdgeHandle)
        ensures
            r == self.fix_spec(),
    {
        self.handle
    }

    /// The handle to position `handle` of `dcel`.
    pub(crate) fn new(dcel: &'a DCEL<V, E>, handle: FixedEdgeHandle) -> (r: Self)
        requires
            dcel.wf(),
            dcel@.has_edge(handle as int),
        ensures
            r.mesh() == dcel@,
            r.fix_spec() == handle,
    {
        EdgeHandle { dcel, handle }
    }
}

impl<'a, V, E> EdgeHandle<'a, V, E> where E: Default {
    /// Creates a fixed edge handle from this dynamic handle. It names a
    /// half-edge of a consistent mesh.
    pub fn fix(&self) -> (r: FixedEdgeHandle)
        ensures
            r == self.fix_spec(),
            self.mesh().links_ok(),
            self.mesh().has_edge(r as int),
    {
        proof {
            use_type_invariant(self);
        }
        self.handle
    }

    /// Returns the edge's source vertex.
    pub fn from(&self) -> (r: VertexHandle<'a, V, E>)
        ensures
            r.mesh() == self.mesh(),
            r.fix_spec() == self.mesh().origin(self.fix_spec() as int),
    {
        proof {
            use_type_invariant(self);
            self.dcel@.lemma_neighbours_linked(self.handle as int);
        }
        let edge = &self.dcel.edges[self.handle];
        VertexHandle::new(self.dcel, edge.origin)
    }

    /// Returns the oriented next edge.
    ///
    /// The oriented next edge shares the same face as this edge.
    /// When traversing the face's edges in oriented order,
    /// this edge is the predecessor of the oriented next edge.
    /// "Oriented" means counterclockwise for right handed
    /// coordinate systems.
    pub fn o_next(&self) -> (r: EdgeHandle<'a, V, E>)
        ensures
            r.mesh() == self.mesh(),
            r.fix_spec() == self.mesh().next(self.fix_spec() as int),
    {
        proof {
            use_type_invariant(self);
            self.dcel@.lemma_neighbours_linked(self.handle as int);
        }
        EdgeHandle::new(self.dcel, self.dcel.edges[self.handle].next)
    }

    /// Returns the oriented previous edge.
    ///
    /// The oriented previous edge shares the same face as this edge.
    /// When traversing the face's edges in oriented order,
    /// this edge is the successor of the oriented previous edge.
    /// "Oriented" means counterclockwise for right handed
    /// coordinate systems.
    pub fn o_prev(&self) -> (r: EdgeHandle<'a, V, E>)
        ensures
            r.mesh() == self.mesh(),
            r.fix_spec() == self.mesh().prev(self.fix_spec() as int),
    {
        proof {
            use_type_invariant(self);
            self.dcel@.lemma_neighbours_linked(self.handle as int);
        }
        EdgeHandle::new(self.dcel, self.dcel.edges[self.handle].prev)
    }

    /// Returns an iterator over all edges sharing the same face
    /// as this edge.
    ///
    /// The face's edges will be traversed in oriented order.
    /// This order is counterclockwise for right handed coordinate
    /// systems or clockwise for left handed systems.
    pub fn o_next_iterator(&self) -> (r: ONextIterator<'a, V, E>)
        ensures
            r.mesh() == self.mesh(),
            r.state() == Some(
                (self.fix_spec(), self.mesh().edges[self.fix_spec() as int].prev),
            ),
            is_ring(self.mesh().next_table(), r.rest()),
            r.rest()[0] == self.fix_spec(),
    {
        proof {
            use_type_invariant(self);
        }
        ONextIterator::new(self.dcel, self.handle)
    }

    /// Returns the edges destination vertex.
    pub fn to(&self) -> (r: VertexHandle<'a, V, E>)
        ensures
            r.mesh() == self.mesh(),
            r.fix_spec() == self.mesh().target(self.fix_spec() as int),
    {
        self.sym().from()
    }

    /// Returns the face located to the left of this edge.
    pub fn face(&self) -> (r: FaceHandle<'a, V, E>)
        ensures
            r.mesh() == self.mesh(),
            r.fix_spec() == self.mesh().face(self.fix_spec() as int),
    {
        proof {
            use_type_invariant(self);
            self.dcel@.lemma_neighbours_linked(self.handle as int);
        }
        self.dcel.face(self.dcel.edges[self.handle].face)
    }

    /// Returns this edge's mirror edge.
    pub fn sym(&self) -> (r: EdgeHandle<'a, V, E>)
        ensures
            r.mesh() == self.mesh(),
            r.fix_spec() == self.mesh().twin(self.fix_spec() as int),
    {
        proof {
            use_type_invariant(self);
            self.dcel@.lemma_neighbours_linked(self.handle as int);
        }
        EdgeHandle { dcel: self.dcel, handle: self.dcel.edges[self.handle].twin }
    }

    /// Returns the next edge in clockwise direction.
    ///
    /// Note that this assumes that you use a right handed coordinate system,
    /// otherwise the sense of orientation is inverted.
    pub fn cw(&self) -> (r: EdgeHandle<'a, V, E>)
        ensures
            r.mesh() == self.mesh(),
            r.fix_spec() == self.mesh().cw(self.fix_spec() as int),
    {
        proof {
            use_type_invariant(self);
            self.dcel@.lemma_neighbours_linked(self.handle as int);
        }
        let twin = self.sym().handle;
        EdgeHandle { dcel: self.dcel, handle: self.dcel.edges[twin].next }
    }

    /// Returns the next edge in counter clockwise direction.
    ///
    /// Note that this assumes that you use a right handed coordinate system,
    /// otherwise the sense of orientation is inverted.
    pub fn ccw(&self) -> (r: EdgeHandle<'a, V, E>)
        ensures
            r.mesh() == self.mesh(),
            r.fix_spec() == self.mesh().ccw(self.fix_spec() as int),
    {
        proof {
            use_type_invariant(self);
            self.dcel@.lemma_neighbours_linked(self.handle as int);
        }
        EdgeHandle { dcel: self.dcel, handle: self.dcel.edges[self.handle].prev }.sym()
    }

    /// Returns an iterator over all edges in counter clockwise
    /// order.
    ///
    /// Note that this assumes that you use a right handed coordinate system,
    /// otherwise the sense of orientation is inverted.
    pub fn ccw_iter(&self) -> (r: CCWIterator<'a, V, E>)
        ensures
            r.mesh() == self.mesh(),
            r.state() == Some(
                (self.fix_spec(), self.mesh().edges[self.mesh().twin(self.fix_spec() as int)].next),
            ),
            is_ring(self.mesh().ccw_table(), r.rest()),
            r.rest()[0] == self.fix_spec(),
    {
        proof {
            use_type_invariant(self);
        }
        CCWIterator::from_edge(self.dcel, self.handle)
    }
}

impl<'a, V, E> FaceHandle<'a, V, E> {
    /// A face handle names a face of a consistent structure.
    #[verifier::type_invariant]
    spec fn valid(self) -> bool {
        self.dcel.wf() && self.handle < self.dcel@.faces.len()
    }

    /// The state of the structure that the handle borrows.
    pub closed spec fn mesh(self) -> Mesh<V, E> {
        self.dcel@
    }

    /// The position of the face.
    pub closed spec fn fix_spec(self) -> FixedFaceHandle {
        self.handle
    }

    /// The position that the handle names.
    pub(crate) fn position(&self) -> (r: FixedFaceHandle)
        ensures
            r == self.fix_spec(),
    {
        self.handle
    }

    /// The handle to position `handle` of `dcel`.
    pub(crate) fn new(dcel: &'a DCEL<V, E>, handle: FixedFaceHandle) -> (r: Self)
        requires
            dcel.wf(),
            dcel@.has_face(handle as int),
        ensures
            r.mesh() == dcel@,
            r.fix_spec() == handle,
    {
        FaceHandle { dcel, handle }
    }
}

impl<'a, V, E> FaceHandle<'a, V, E> where E: Default {
    /// Tries to interpret this face as a triangle, returning its 3 vertices.
    ///
    /// The face must name a half-edge on its boundary, and that boundary
    /// must be a cycle of three half-edges.
    pub fn as_triangle(&self) -> (r: [VertexHandle<'a, V, E>; 3])
        requires
            self.mesh().adjacent_edge(self.fix_spec() as int) is Some,
            self.mesh().borders_triangle(
                self.mesh().adjacent_edge(self.fix_spec() as int).unwrap() as int,
            ),
        ensures
            ({
                let m = self.mesh();
                let e = m.adjacent_edge(self.fix_spec() as int).unwrap() as int;
                &&& r[0].mesh() == m && r[1].mesh() == m && r[2].mesh() == m
                &&& r[0].fix_spec() == m.origin(m.prev(e))
                &&& r[1].fix_spec() == m.origin(e)
                &&& r[2].fix_spec() == m.target(e)
            }),
    {
        proof {
            use_type_invariant(self);
            let _ = self.dcel@.faces[self.handle as int];
        }
        let adjacent = self.dcel.faces[self.handle].adjacent_edge.unwrap();
        let edge = self.dcel.edge(adjacent);
        let prev = edge.o_prev();
        [prev.from(), edge.from(), edge.to()]
    }

    /// Returns an edge that is adjacent to this face.
    ///
    /// If this face has multiple adjacent edges, any of them is returned.
    pub fn adjacent_edge(&self) -> (r: Option<EdgeHandle<'a, V, E>>)
        ensures
            match self.mesh().adjacent_edge(self.fix_spec() as int) {
                Some(e) => r matches Some(h) && h.fix_spec() == e && h.mesh() == self.mesh(),
                None => r is None,
            },
    {
        proof {
            use_type_invariant(self);
            let _ = self.dcel@.faces[self.handle as int];
        }
        match self.dcel.faces[self.handle].adjacent_edge {
            Some(e) => Some(EdgeHandle::new(self.dcel, e)),
            None => None,
        }
    }

    /// Returns an iterator that iterates over all adjacent edges.
    ///
    /// The edges are traversed in oriented order.
    /// This order will be counterclockwise for right handed coordinate
    /// system or clockwise for left handed systems.
    pub fn adjacent_edges(&self) -> (r: ONextIterator<'a, V, E>)
        ensures
            r.mesh() == self.mesh(),
            r.state() == match self.mesh().adjacent_edge(self.fix_spec() as int) {
                Some(e) => Some((e, self.mesh().edges[e as int].prev)),
                None => None,
            },
            match self.mesh().adjacent_edge(self.fix_spec() as int) {
                Some(e) => is_ring(self.mesh().next_table(), r.rest()) && r.rest()[0] == e,
                None => r.rest().len() == 0,
            },
    {
        proof {
            use_type_invariant(self);
            let _ = self.dcel@.faces[self.handle as int];
        }
        if let Some(adj) = self.dcel.faces[self.handle].adjacent_edge {
            ONextIterator::new(self.dcel, adj)
        } else {
            ONextIterator::new_empty(self.dcel)
        }
    }

    /// Creates a fixed face handle from this dynamic face handle. It names
    /// a face of a consistent mesh.
    pub fn fix(&self) -> (r: FixedFaceHandle)
        ensures
            r == self.fix_spec(),
            self.mesh().links_ok(),
            self.mesh().has_face(r as int),
    {
        proof {
            use_type_invariant(self);
        }
        self.handle
    }
}

} // verus!
