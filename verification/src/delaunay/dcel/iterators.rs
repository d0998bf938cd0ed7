//! Walks around a face, around a vertex, and over all records.
//!
//! Each walk hands out one handle per call of `next`; the two walks along a
//! cycle can also be taken from the far end with `next_back`.

use crate::delaunay::dcel::handles::{EdgeHandle, FaceHandle, VertexHandle};
use crate::delaunay::dcel::DCEL;
use crate::delaunay::mesh::{
    mate, FixedEdgeHandle, FixedFaceHandle, FixedVertexHandle, Mesh,
};
use crate::delaunay::orbit::{
    is_ring, lemma_stretch_back, lemma_stretch_front, lemma_stretch_is_ring,
    lemma_stretch_single, reaches, stretch,
};
use vstd::prelude::*;

verus! {

/// An iterator that iterates over the edges adjacent to a face.
///
/// The iterator will traverse the edges in oriented order.
/// This order is counterclockwise for right handed coordinate systems
/// or clockwise for left handed systems.
pub struct ONextIterator<'a, V, E = ()> {
    dcel: &'a DCEL<V, E>,
    cur_until: Option<(FixedEdgeHandle, FixedEdgeHandle)>,
}

/// An iterator that iterates over the outgoing edges from a vertex.
///
/// The edges will be iterated in counterclockwise order. Note that
/// this assumes that you use a right handed coordinate system,
/// otherwise the sense of orientation is inverted.
pub struct CCWIterator<'a, V, E = ()> {
    dcel: &'a DCEL<V, E>,
    cur_until: Option<(FixedEdgeHandle, FixedEdgeHandle)>,
}

/// An iterator over all faces, by position.
pub struct FacesIterator<'a, V, E = ()> {
    dcel: &'a DCEL<V, E>,
    current: FixedFaceHandle,
}

/// An iterator over all vertices, by position.
pub struct VerticesIterator<'a, V, E = ()> {
    dcel: &'a DCEL<V, E>,
    current: FixedVertexHandle,
}

/// An iterator over all edges: it hands out the first half-edge of each
/// pair.
pub struct EdgesIterator<'a, V, E = ()> {
    dcel: &'a DCEL<V, E>,
    current: FixedEdgeHandle,
}

/// What a walk along a cycle has left after it handed out its first entry.
pub open spec fn after_front(
    state: Option<(FixedEdgeHandle, FixedEdgeHandle)>,
    step: FixedEdgeHandle,
) -> Option<(FixedEdgeHandle, FixedEdgeHandle)> {
    match state {
        Some((cur, until)) => if cur == until {
            None
        } else {
            Some((step, until))
        },
        None => None,
    }
}

/// What a walk along a cycle has left after it handed out its last entry.
pub open spec fn after_back(
    state: Option<(FixedEdgeHandle, FixedEdgeHandle)>,
    step: FixedEdgeHandle,
) -> Option<(FixedEdgeHandle, FixedEdgeHandle)> {
    match state {
        Some((cur, until)) => if cur == until {
            None
        } else {
            Some((cur, step))
        },
        None => None,
    }
}

impl<'a, V, E> ONextIterator<'a, V, E> {
    /// The walk borrows a consistent structure, its two ends are half-edges
    /// of it, and the walk leads from the first to the last.
    #[verifier::type_invariant]
    spec fn valid(self) -> bool {
        &&& self.dcel.wf()
        &&& self.cur_until matches Some((cur, until)) ==> cur < self.dcel@.edges.len() && until
            < self.dcel@.edges.len() && reaches(self.dcel@.next_table(), cur as int, until as int)
    }

    /// The state of the structure that the walk borrows.
    pub closed spec fn mesh(self) -> Mesh<V, E> {
        self.dcel@
    }

    /// The first and the last half-edge that the walk has still to hand
    /// out, or `None` where it is done.
    pub closed spec fn state(self) -> Option<(FixedEdgeHandle, FixedEdgeHandle)> {
        self.cur_until
    }

    /// The half-edges that the walk has still to hand out, in the order in
    /// which `next` hands them out.
    pub closed spec fn rest(self) -> Seq<int> {
        match self.cur_until {
            Some((cur, until)) => stretch(self.dcel@.next_table(), cur as int, until as int),
            None => Seq::empty(),
        }
    }
}

impl<'a, V, E> ONextIterator<'a, V, E> where E: Default {
    /// A walk that hands out nothing.
    pub(crate) fn new_empty(dcel: &'a DCEL<V, E>) -> (r: Self)
        requires
            dcel.wf(),
        ensures
            r.mesh() == dcel@,
            r.state() is None,
            r.rest().len() == 0,
    {
        ONextIterator { dcel, cur_until: None }
    }

    /// The walk around the face of `edge` that begins with `edge`: it hands
    /// out the whole boundary cycle through `edge`, once around.
    pub(crate) fn new(dcel: &'a DCEL<V, E>, edge: FixedEdgeHandle) -> (r: Self)
        requires
            dcel.wf(),
            dcel@.has_edge(edge as int),
        ensures
            r.mesh() == dcel@,
            r.state() == Some((edge, dcel@.edges[edge as int].prev)),
            is_ring(dcel@.next_table(), r.rest()),
            r.rest()[0] == edge,
    {
        let edge = dcel.edge(edge);
        proof {
            dcel@.lemma_neighbours_linked(edge.fix_spec() as int);
            dcel@.lemma_tables();
            lemma_stretch_is_ring(
                dcel@.next_table(),
                dcel@.prev_table(),
                edge.fix_spec() as int,
            );
        }
        ONextIterator { dcel, cur_until: Some((edge.fix(), edge.o_prev().fix())) }
    }

    /// Hands out the first half-edge that is left, and goes on to the one
    /// that follows it around the face.
    pub fn next(&mut self) -> (r: Option<EdgeHandle<'a, V, E>>)
        ensures
            final(self).mesh() == old(self).mesh(),
            match old(self).state() {
                Some((cur, until)) => r matches Some(h) && h.fix_spec() == cur && h.mesh() == old(
                    self,
                ).mesh() && final(self).state() == after_front(
                    old(self).state(),
                    old(self).mesh().edges[cur as int].next,
                ),
                None => r is None && final(self).state() is None,
            },
            r is None <==> old(self).rest().len() == 0,
            r matches Some(h) ==> h.fix_spec() == old(self).rest()[0] && final(self).rest() == old(
                self,
            ).rest().drop_first(),
    {
        proof {
            use_type_invariant(&*self);
        }
        if let Some((cur, until)) = self.cur_until {
            proof {
                self.dcel@.lemma_neighbours_linked(cur as int);
                let succ = self.dcel@.next_table();
                if cur == until {
                    lemma_stretch_single(succ, cur as int);
                    assert(seq![cur as int].drop_first() =~= Seq::empty());
                } else {
                    lemma_stretch_front(succ, cur as int, until as int);
                }
            }
            let cur_handle = self.dcel.edge(cur);
            if cur == until {
                self.cur_until = None;
            } else {
                let new_cur = cur_handle.o_next().fix();
                self.cur_until = Some((new_cur, until));
            }
            Some(cur_handle)
        } else {
            None
        }
    }

    /// Hands out the last half-edge that is left, and goes back to the one
    /// that precedes it around the face.
    pub fn next_back(&mut self) -> (r: Option<EdgeHandle<'a, V, E>>)
        ensures
            final(self).mesh() == old(self).mesh(),
            match old(self).state() {
                Some((cur, until)) => r matches Some(h) && h.fix_spec() == until && h.mesh() == old(
                    self,
                ).mesh() && final(self).state() == after_back(
                    old(self).state(),
                    old(self).mesh().edges[until as int].prev,
                ),
                None => r is None && final(self).state() is None,
            },
            r is None <==> old(self).rest().len() == 0,
            r matches Some(h) ==> h.fix_spec() == old(self).rest().last() && final(self).rest()
                == old(self).rest().drop_last(),
    {
        proof {
            use_type_invariant(&*self);
        }
        if let Some((cur, until)) = self.cur_until {
            proof {
                self.dcel@.lemma_neighbours_linked(until as int);
                self.dcel@.lemma_tables();
                let succ = self.dcel@.next_table();
                if cur == until {
                    lemma_stretch_single(succ, cur as int);
                    assert(seq![cur as int].drop_last() =~= Seq::empty());
                } else {
                    lemma_stretch_back(succ, self.dcel@.prev_table(), cur as int, until as int);
                }
            }
            let until_handle = self.dcel.edge(until);
            if cur == until {
                self.cur_until = None;
            } else {
                let new_until = until_handle.o_prev().fix();
                self.cur_until = Some((cur, new_until));
            }
            Some(until_handle)
        } else {
            None
        }
    }
}

impl<'a, V, E> CCWIterator<'a, V, E> {
    /// The walk borrows a consistent structure, its two ends are half-edges
    /// of it, and the walk leads from the first to the last.
    #[verifier::type_invariant]
    spec fn valid(self) -> bool {
        &&& self.dcel.wf()
        &&& self.cur_until matches Some((cur, until)) ==> cur < self.dcel@.edges.len() && until
            < self.dcel@.edges.len() && reaches(self.dcel@.ccw_table(), cur as int, until as int)
    }

    /// The state of the structure that the walk borrows.
    pub closed spec fn mesh(self) -> Mesh<V, E> {
        self.dcel@
    }

    /// The first and the last half-edge that the walk has still to hand
    /// out, or `None` where it is done.
    pub closed spec fn state(self) -> Option<(FixedEdgeHandle, FixedEdgeHandle)> {
        self.cur_until
    }

    /// The half-edges that the walk has still to hand out, in the order in
    /// which `next` hands them out.
    pub closed spec fn rest(self) -> Seq<int> {
        match self.cur_until {
            Some((cur, until)) => stretch(self.dcel@.ccw_table(), cur as int, until as int),
            None => Seq::empty(),
        }
    }
}

impl<'a, V, E> CCWIterator<'a, V, E> where E: Default {
    /// The walk around `vertex`, which begins behind the half-edge that
    /// the vertex names and ends with it: it hands out the whole star of
    /// the vertex, once around, or nothing where the vertex is isolated.
    pub(crate) fn new(dcel: &'a DCEL<V, E>, vertex: FixedVertexHandle) -> (r: Self)
        requires
            dcel.wf(),
            dcel@.has_vertex(vertex as int),
        ensures
            r.mesh() == dcel@,
            r.state() == match dcel@.out_edge(vertex as int) {
                Some(e) => Some((dcel@.edges[dcel@.prev(e as int)].twin, e)),
                None => None,
            },
            match dcel@.out_edge(vertex as int) {
                Some(e) => is_ring(dcel@.ccw_table(), r.rest()) && r.rest()[0] == dcel@.ccw(
                    e as int,
                ),
                None => r.rest().len() == 0,
            },
    {
        let cur_until = if let Some(edge) = dcel.vertex(vertex).out_edge() {
            proof {
                let e = edge.fix_spec() as int;
                dcel@.lemma_neighbours_linked(e);
                dcel@.lemma_neighbours_linked(dcel@.ccw(e));
                dcel@.lemma_tables();
                lemma_stretch_is_ring(dcel@.ccw_table(), dcel@.cw_table(), dcel@.ccw(e));
            }
            Some((edge.ccw().fix(), edge.fix()))
        } else {
            None
        };
        CCWIterator { dcel, cur_until }
    }

    /// The walk around the origin of `edge` that begins with `edge`: it
    /// hands out the whole star through `edge`, once around.
    pub(crate) fn from_edge(dcel: &'a DCEL<V, E>, edge: FixedEdgeHandle) -> (r: Self)
        requires
            dcel.wf(),
            dcel@.has_edge(edge as int),
        ensures
            r.mesh() == dcel@,
            r.state() == Some((edge, dcel@.edges[dcel@.twin(edge as int)].next)),
            is_ring(dcel@.ccw_table(), r.rest()),
            r.rest()[0] == edge,
    {
        let edge = dcel.edge(edge);
        proof {
            dcel@.lemma_neighbours_linked(edge.fix_spec() as int);
            dcel@.lemma_tables();
            lemma_stretch_is_ring(dcel@.ccw_table(), dcel@.cw_table(), edge.fix_spec() as int);
        }
        CCWIterator { dcel, cur_until: Some((edge.fix(), edge.cw().fix())) }
    }

    /// Hands out the first half-edge that is left, and goes on to its
    /// counterclockwise neighbour.
    pub fn next(&mut self) -> (r: Option<EdgeHandle<'a, V, E>>)
        ensures
            final(self).mesh() == old(self).mesh(),
            match old(self).state() {
                Some((cur, until)) => r matches Some(h) && h.fix_spec() == cur && h.mesh() == old(
                    self,
                ).mesh() && final(self).state() == after_front(
                    old(self).state(),
                    old(self).mesh().edges[old(self).mesh().prev(cur as int)].twin,
                ),
                None => r is None && final(self).state() is None,
            },
            r is None <==> old(self).rest().len() == 0,
            r matches Some(h) ==> h.fix_spec() == old(self).rest()[0] && final(self).rest() == old(
                self,
            ).rest().drop_first(),
    {
        proof {
            use_type_invariant(&*self);
        }
        if let Some((cur, until)) = self.cur_until {
            proof {
                self.dcel@.lemma_neighbours_linked(cur as int);
                let succ = self.dcel@.ccw_table();
                if cur == until {
                    lemma_stretch_single(succ, cur as int);
                    assert(seq![cur as int].drop_first() =~= Seq::empty());
                } else {
                    lemma_stretch_front(succ, cur as int, until as int);
                }
            }
            let cur_handle = self.dcel.edge(cur);
            if cur == until {
                self.cur_until = None;
            } else {
                let new_cur = cur_handle.ccw().fix();
                self.cur_until = Some((new_cur, until));
            }
            Some(cur_handle)
        } else {
            None
        }
    }

    /// Hands out the last half-edge that is left, and goes back to its
    /// clockwise neighbour.
    pub fn next_back(&mut self) -> (r: Option<EdgeHandle<'a, V, E>>)
        ensures
            final(self).mesh() == old(self).mesh(),
            match old(self).state() {
                Some((cur, until)) => r matches Some(h) && h.fix_spec() == until && h.mesh() == old(
                    self,
                ).mesh() && final(self).state() == after_back(
                    old(self).state(),
                    old(self).mesh().edges[old(self).mesh().twin(until as int)].next,
                ),
                None => r is None && final(self).state() is None,
            },
            r is None <==> old(self).rest().len() == 0,
            r matches Some(h) ==> h.fix_spec() == old(self).rest().last() && final(self).rest()
                == old(self).rest().drop_last(),
    {
        proof {
            use_type_invariant(&*self);
        }
        if let Some((cur, until)) = self.cur_until {
            proof {
                self.dcel@.lemma_neighbours_linked(until as int);
                self.dcel@.lemma_tables();
                let succ = self.dcel@.ccw_table();
                if cur == until {
                    lemma_stretch_single(succ, cur as int);
                    assert(seq![cur as int].drop_last() =~= Seq::empty());
                } else {
                    lemma_stretch_back(succ, self.dcel@.cw_table(), cur as int, until as int);
                }
            }
            let until_handle = self.dcel.edge(until);
            if cur == until {
                self.cur_until = None;
            } else {
                let new_until = until_handle.cw().fix();
                self.cur_until = Some((cur, new_until));
            }
            Some(until_handle)
        } else {
            None
        }
    }
}

impl<'a, V, E> FacesIterator<'a, V, E> {
    /// The walk borrows a consistent structure and has not run past its
    /// faces.
    #[verifier::type_invariant]
    spec fn valid(self) -> bool {
        self.dcel.wf() && self.current <= self.dcel@.faces.len()
    }

    /// The state of the structure that the walk borrows.
    pub closed spec fn mesh(self) -> Mesh<V, E> {
        self.dcel@
    }

    /// The position of the face that is handed out next.
    pub closed spec fn position(self) -> FixedFaceHandle {
        self.current
    }

    /// The walk over all records of `dcel`, from the first on.
    pub(crate) fn new(dcel: &'a DCEL<V, E>) -> (r: Self)
        requires
            dcel.wf(),
        ensures
            r.mesh() == dcel@,
            r.position() == 0,
    {
        FacesIterator { dcel, current: 0 }
    }
}

impl<'a, V, E> FacesIterator<'a, V, E> where E: Default {
    /// Hands out the face at the current position, if there is one, and
    /// moves on by one.
    pub fn next(&mut self) -> (r: Option<FaceHandle<'a, V, E>>)
        ensures
            final(self).mesh() == old(self).mesh(),
            if old(self).position() < old(self).mesh().faces.len() {
                r matches Some(h) && h.fix_spec() == old(self).position() && h.mesh() == old(
                    self,
                ).mesh() && final(self).position() == old(self).position() + 1
            } else {
                r is None && final(self).position() == old(self).position()
            },
    {
        proof {
            use_type_invariant(&*self);
        }
        if self.current < self.dcel.num_faces() {
            let result = FaceHandle::new(self.dcel, self.current);
            self.current += 1;
            Some(result)
        } else {
            None
        }
    }
}

impl<'a, V, E> VerticesIterator<'a, V, E> {
    /// The walk borrows a consistent structure and has not run past its
    /// vertices.
    #[verifier::type_invariant]
    spec fn valid(self) -> bool {
        self.dcel.wf() && self.current <= self.dcel@.vertices.len()
    }

    /// The state of the structure that the walk borrows.
    pub closed spec fn mesh(self) -> Mesh<V, E> {
        self.dcel@
    }

    /// The position of the vertex that is handed out next.
    pub closed spec fn position(self) -> FixedVertexHandle {
        self.current
    }

    /// The walk over all records of `dcel`, from the first on.
    pub(crate) fn new(dcel: &'a DCEL<V, E>) -> (r: Self)
        requires
            dcel.wf(),
        ensures
            r.mesh() == dcel@,
            r.position() == 0,
    {
        VerticesIterator { dcel, current: 0 }
    }
}

impl<'a, V, E> VerticesIterator<'a, V, E> where E: Default {
    /// Hands out the vertex at the current position, if there is one, and
    /// moves on by one.
    pub fn next(&mut self) -> (r: Option<VertexHandle<'a, V, E>>)
        ensures
            final(self).mesh() == old(self).mesh(),
            if old(self).position() < old(self).mesh().vertices.len() {
                r matches Some(h) && h.fix_spec() == old(self).position() && h.mesh() == old(
                    self,
                ).mesh() && final(self).position() == old(self).position() + 1
            } else {
                r is None && final(self).position() == old(self).position()
            },
    {
        proof {
            use_type_invariant(&*self);
        }
        if self.current < self.dcel.num_vertices() {
            let result = VertexHandle::new(self.dcel, self.current);
            self.current += 1;
            Some(result)
        } else {
            None
        }
    }
}

impl<'a, V, E> EdgesIterator<'a, V, E> {
    /// The walk borrows a consistent structure and has not run past its
    /// half-edges.
    #[verifier::type_invariant]
    spec fn valid(self) -> bool {
        self.dcel.wf() && self.current <= self.dcel@.edges.len()
    }

    /// The state of the structure that the walk borrows.
    pub closed spec fn mesh(self) -> Mesh<V, E> {
        self.dcel@
    }

    /// The position from which the next half-edge to hand out is sought.
    pub closed spec fn position(self) -> FixedEdgeHandle {
        self.current
    }

    /// The walk over all records of `dcel`, from the first on.
    pub(crate) fn new(dcel: &'a DCEL<V, E>) -> (r: Self)
        requires
            dcel.wf(),
        ensures
            r.mesh() == dcel@,
            r.position() == 0,
    {
        EdgesIterator { dcel, current: 0 }
    }
}

/// The first even position at or after `i`: where the pair begins that the
/// edge walk hands out next.
pub open spec fn next_pair_start(i: int) -> int {
    if i % 2 == 0 {
        i
    } else {
        i + 1
    }
}

impl<'a, V, E> EdgesIterator<'a, V, E> where E: Default {
    /// Hands out the next half-edge that stands before its twin, which is
    /// the first of a pair, and moves on behind it.
    pub fn next(&mut self) -> (r: Option<EdgeHandle<'a, V, E>>)
        ensures
            final(self).mesh() == old(self).mesh(),
            if next_pair_start(old(self).position() as int) < old(self).mesh().edges.len() {
                r matches Some(h) && h.fix_spec() == next_pair_start(old(self).position() as int)
                    && h.mesh() == old(self).mesh() && final(self).position() == h.fix_spec() + 1
            } else {
                r is None && final(self).position() == old(self).mesh().edges.len()
            },
    {
        proof {
            use_type_invariant(&*self);
        }
        let ghost start = self.current as int;
        while self.current < self.dcel.edges.len()
            invariant
                self.dcel.wf(),
                self.dcel == old(self).dcel,
                start == old(self).position(),
                start <= self.current <= self.dcel@.edges.len(),
                self.current <= next_pair_start(start),
            decreases self.dcel@.edges.len() - self.current,
        {
            proof {
                self.dcel@.lemma_neighbours_linked(self.current as int);
            }
            let twin = self.dcel.edges[self.current].twin;
            proof {
                assert(twin as int == mate(self.current as int));
            }
            self.current += 1;
            if self.current - 1 < twin {
                proof {
                    assert((self.current - 1) % 2 == 0);
                    assert(next_pair_start(start) == self.current - 1);
                    assert(start == old(self).position());
                }
                return Some(EdgeHandle::new(self.dcel, self.current - 1));
            }
        }
        proof {
            if self.dcel@.edges.len() > 0 {
                self.dcel@.lemma_neighbours_linked(0);
            }
        }
        None
    }
}

} // verus!
