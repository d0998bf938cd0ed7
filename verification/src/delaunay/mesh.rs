//! The mathematical model of a doubly connected edge list: three sequences
//! of records indexed by dense handles, and the consistency conditions that
//! every operation of the executable structure keeps.

use crate::delaunay::orbit::{
    is_permutation, is_ring, iterate, lemma_ring_exists, lemma_ring_is_orbit, lemma_ring_pred,
    lemma_ring_same_steps, lemma_ring_succ, lemma_rings_meet, perm_at, reaches, ring_after,
    stretch,
};
use vstd::prelude::*;

verus! {

/// Handle to a vertex.
///
/// This handle is "fixed", meaning it is intended to be used for
/// mutation (e.g., removing a vertex) or storage (e.g., storing
/// references to vertices for later usage).
pub type FixedVertexHandle = usize;

/// Handle to an edge.
///
/// This handle is "fixed", meaning it is intended to be used
/// for storage. Note that removal operations will invalidate
/// edge handles.
pub type FixedEdgeHandle = usize;

/// Handle to a face.
///
/// This handle is "fixed", meaning it is intended to be used
/// for storage. Note that removal operations will invalidate
/// face handles.
pub type FixedFaceHandle = usize;

/// A face record: any one half-edge on the face's boundary, if it has one.
#[derive(Clone, Copy, Debug, PartialEq, Eq, PartialOrd, Ord, Hash)]
pub struct FaceEntry {
    pub adjacent_edge: Option<FixedEdgeHandle>,
}

/// A vertex record: the user's data and any one outgoing half-edge.
#[derive(Clone, Copy, Debug, PartialEq, Eq, PartialOrd, Ord, Hash)]
pub struct VertexEntry<V> {
    pub data: V,
    pub out_edge: Option<FixedEdgeHandle>,
}

/// A half-edge record.
#[derive(Clone, Copy, Debug, PartialEq, Eq, PartialOrd, Ord, Hash)]
pub struct HalfEdgeEntry<T> {
    pub next: FixedEdgeHandle,
    pub prev: FixedEdgeHandle,
    pub twin: FixedEdgeHandle,
    pub origin: FixedVertexHandle,
    pub face: FixedFaceHandle,
    pub data: T,
}

/// Position of the half-edge that runs opposite to the one at position `e`.
///
/// Half-edges are stored in pairs at consecutive positions, the even
/// position first.
pub open spec fn mate(e: int) -> int {
    if e % 2 == 0 {
        e + 1
    } else {
        e - 1
    }
}

/// A witness that the half-edges leaving each vertex form one cycle.
///
/// `rank` strictly falls along every clockwise step around a vertex, except
/// at the step that leaves the one half-edge of rank zero; `root` names that
/// half-edge for each vertex that has one.
pub ghost struct StarRanks {
    pub rank: Seq<nat>,
    pub root: Seq<int>,
}

/// The abstract state of a doubly connected edge list.
pub ghost struct Mesh<V, E> {
    pub vertices: Seq<VertexEntry<V>>,
    pub faces: Seq<FaceEntry>,
    pub edges: Seq<HalfEdgeEntry<E>>,
}

impl<V, E> Mesh<V, E> {
    /// `e` is the position of a half-edge.
    pub open spec fn has_edge(self, e: int) -> bool {
        0 <= e < self.edges.len()
    }

    /// `v` is the position of a vertex.
    pub open spec fn has_vertex(self, v: int) -> bool {
        0 <= v < self.vertices.len()
    }

    /// `f` is the position of a face.
    pub open spec fn has_face(self, f: int) -> bool {
        0 <= f < self.faces.len()
    }

    /// The half-edge that follows `e` around its face.
    pub open spec fn next(self, e: int) -> int {
        self.edges[e].next as int
    }

    /// The half-edge that precedes `e` around its face.
    pub open spec fn prev(self, e: int) -> int {
        self.edges[e].prev as int
    }

    /// The half-edge that runs opposite to `e`.
    pub open spec fn twin(self, e: int) -> int {
        self.edges[e].twin as int
    }

    /// The vertex that half-edge `e` leaves.
    pub open spec fn origin(self, e: int) -> int {
        self.edges[e].origin as int
    }

    /// The vertex that half-edge `e` points to.
    pub open spec fn target(self, e: int) -> int {
        self.origin(self.twin(e))
    }

    /// The face to the left of half-edge `e`.
    pub open spec fn face(self, e: int) -> int {
        self.edges[e].face as int
    }

    /// The next half-edge clockwise around the origin of `e`.
    pub open spec fn cw(self, e: int) -> int {
        self.next(self.twin(e))
    }

    /// The next half-edge counterclockwise around the origin of `e`.
    pub open spec fn ccw(self, e: int) -> int {
        self.twin(self.prev(e))
    }

    /// The outgoing half-edge that vertex `v` names.
    pub open spec fn out_edge(self, v: int) -> Option<usize> {
        self.vertices[v].out_edge
    }

    /// The half-edge on its boundary that face `f` names.
    pub open spec fn adjacent_edge(self, f: int) -> Option<usize> {
        self.faces[f].adjacent_edge
    }

    /// Vertex `v` names no outgoing half-edge. In a structure that keeps
    /// its invariant such a vertex has none.
    pub open spec fn is_isolated(self, v: int) -> bool {
        self.out_edge(v) is None
    }

    /// The links of half-edge `e` are in range and agree with those of its
    /// neighbours.
    pub open spec fn edge_linked(self, e: int) -> bool {
        let r = self.edges[e];
        &&& r.next < self.edges.len()
        &&& r.prev < self.edges.len()
        &&& r.twin < self.edges.len()
        &&& r.twin as int == mate(e)
        &&& r.origin < self.vertices.len()
        &&& r.face < self.faces.len()
        &&& self.edges[r.next as int].prev == e
        &&& self.edges[r.prev as int].next == e
        &&& self.edges[r.next as int].face == r.face
        &&& self.edges[r.next as int].origin == self.edges[r.twin as int].origin
        &&& r.origin != self.edges[r.twin as int].origin
    }

    /// The local consistency of the whole structure: the outer face exists,
    /// every half-edge is linked consistently, and the half-edge that a
    /// vertex or a face names starts at that vertex, or borders that face.
    pub open spec fn links_ok(self) -> bool {
        &&& self.faces.len() >= 1
        &&& forall|e: int| self.has_edge(e) ==> #[trigger] self.edge_linked(e)
        &&& forall|v: int| #![trigger self.vertices[v]]
            self.has_vertex(v) ==> (self.out_edge(v) matches Some(e) ==> e < self.edges.len()
                && self.edges[e as int].origin == v)
        &&& forall|f: int| #![trigger self.faces[f]]
            self.has_face(f) ==> (self.adjacent_edge(f) matches Some(e) ==> e < self.edges.len()
                && self.edges[e as int].face == f)
    }

    /// What the witness `w` says of half-edge `e`: its origin names an
    /// outgoing half-edge, and `e` is either the root of its origin or
    /// outranks its clockwise neighbour.
    pub open spec fn star_step(self, w: StarRanks, e: int) -> bool {
        &&& self.out_edge(self.origin(e)) is Some
        &&& if w.rank[e] == 0 {
            w.root[self.origin(e)] == e
        } else {
            w.rank[self.cw(e)] < w.rank[e]
        }
    }

    /// `w` witnesses that around every vertex the outgoing half-edges form a
    /// single cycle, and that a vertex without `out_edge` has none.
    pub open spec fn stars_ranked(self, w: StarRanks) -> bool {
        &&& w.rank.len() == self.edges.len()
        &&& w.root.len() == self.vertices.len()
        &&& forall|e: int| self.has_edge(e) ==> #[trigger] self.star_step(w, e)
    }

    /// In a consistent mesh the half-edges around `e` exist and are linked
    /// consistently themselves.
    pub proof fn lemma_neighbours_linked(self, e: int)
        requires
            self.links_ok(),
            self.has_edge(e),
        ensures
            self.edge_linked(e),
            self.has_edge(self.next(e)) && self.edge_linked(self.next(e)),
            self.has_edge(self.prev(e)) && self.edge_linked(self.prev(e)),
            self.has_edge(self.twin(e)) && self.edge_linked(self.twin(e)),
            self.has_edge(self.cw(e)) && self.edge_linked(self.cw(e)),
            self.has_edge(self.ccw(e)) && self.edge_linked(self.ccw(e)),
            self.twin(self.twin(e)) == e,
            self.origin(self.cw(e)) == self.origin(e),
            self.origin(self.ccw(e)) == self.origin(e),
            self.ccw(self.cw(e)) == e,
            self.cw(self.ccw(e)) == e,
            self.edges.len() % 2 == 0,
    {
        assert(self.edge_linked(e));
        assert(self.edge_linked(self.next(e)));
        assert(self.edge_linked(self.prev(e)));
        assert(self.edge_linked(self.twin(e)));
        assert(self.edge_linked(self.cw(e)));
        assert(self.edge_linked(self.ccw(e)));
        assert(self.edge_linked(self.edges.len() - 1));
    }

    /// Around every vertex the outgoing half-edges form a single cycle, and
    /// a vertex without `out_edge` has none.
    pub open spec fn stars_connected(self) -> bool {
        exists|w: StarRanks| self.stars_ranked(w)
    }

    /// A witness of `stars_connected`, where there is one.
    pub open spec fn star_witness(self) -> StarRanks {
        choose|w: StarRanks| self.stars_ranked(w)
    }

    /// The table of `next`.
    pub open spec fn next_table(self) -> Seq<int> {
        Seq::new(self.edges.len(), |e: int| self.next(e))
    }

    /// The table of `prev`.
    pub open spec fn prev_table(self) -> Seq<int> {
        Seq::new(self.edges.len(), |e: int| self.prev(e))
    }

    /// The table of the clockwise step around the origin.
    pub open spec fn cw_table(self) -> Seq<int> {
        Seq::new(self.edges.len(), |e: int| self.cw(e))
    }

    /// The table of the counterclockwise step around the origin.
    pub open spec fn ccw_table(self) -> Seq<int> {
        Seq::new(self.edges.len(), |e: int| self.ccw(e))
    }

    /// `next` and `prev` are permutations of the half-edges that undo each
    /// other.
    pub open spec fn links_permute(self) -> bool {
        is_permutation(self.next_table(), self.prev_table())
    }

    /// Half-edge `x` lies on the boundary cycle through `a`: following
    /// `next` from `a` leads to `x`.
    pub open spec fn on_ring(self, a: int, x: int) -> bool {
        reaches(self.next_table(), a, x)
    }

    /// The half-edges on the way from `a` to `b` along `next`, both
    /// included.
    pub open spec fn way(self, a: int, b: int) -> Seq<int> {
        stretch(self.next_table(), a, b)
    }

    /// Half-edge `x` lies in the star through `a`: stepping counterclockwise
    /// around the origin of `a` leads to `x`.
    pub open spec fn in_star(self, a: int, x: int) -> bool {
        reaches(self.ccw_table(), a, x)
    }

    /// The mesh with every half-edge on the boundary cycle through `a`
    /// labelled with face `f`.
    pub open spec fn with_ring_face(self, a: int, f: int) -> Self {
        Mesh {
            vertices: self.vertices,
            faces: self.faces,
            edges: Seq::new(
                self.edges.len(),
                |x: int|
                    HalfEdgeEntry {
                        next: self.edges[x].next,
                        prev: self.edges[x].prev,
                        twin: self.edges[x].twin,
                        origin: self.edges[x].origin,
                        face: if self.on_ring(a, x) {
                            f as usize
                        } else {
                            self.edges[x].face
                        },
                        data: self.edges[x].data,
                    },
            ),
        }
    }

    /// The boundary cycle through the half-edge that face `f` names holds
    /// exactly the half-edges that are labelled `f` or `alias`; a face that
    /// names no half-edge has none.
    pub open spec fn face_ringed(self, f: int, alias: int) -> bool {
        match self.adjacent_edge(f) {
            Some(a) => forall|x: int|
                self.has_edge(x) ==> (#[trigger] self.on_ring(a as int, x) <==> (self.face(x) == f
                    || self.face(x) == alias)),
            None => forall|x: int|
                self.has_edge(x) ==> #[trigger] self.face(x) != f && self.face(x) != alias,
        }
    }

    /// Face `f` has a single boundary cycle, the one through the half-edge
    /// that it names, or no boundary and no half-edge named.
    pub open spec fn face_simple(self, f: int) -> bool {
        self.face_ringed(f, f)
    }

    /// Every face has a single boundary cycle, or none.
    pub open spec fn faces_simple(self) -> bool {
        forall|f: int| self.has_face(f) ==> #[trigger] self.face_simple(f)
    }

    /// The counterclockwise step around a vertex can be taken from every
    /// half-edge, and it permutes the half-edges.
    pub open spec fn stars_permute(self) -> bool {
        &&& is_permutation(self.ccw_table(), self.cw_table())
        &&& forall|x: int| self.has_edge(x) ==> #[trigger] self.prev(x) < self.edges.len()
    }

    /// Meshes with the same faces, the same face labels and the same `next`
    /// have the same faces with a single boundary cycle.
    pub proof fn lemma_faces_simple_transfer(self, other: Self)
        requires
            self.faces_simple(),
            self.faces == other.faces,
            self.edges.len() == other.edges.len(),
            forall|x: int|
                #![trigger other.edges[x]]
                self.has_edge(x) ==> self.next(x) == other.next(x) && self.face(x) == other.face(x),
        ensures
            other.faces_simple(),
    {
        assert(self.next_table() =~= other.next_table());
        assert forall|f: int| other.has_face(f) implies #[trigger] other.face_simple(f) by {
            assert(self.face_simple(f));
            match self.adjacent_edge(f) {
                Some(a) => {
                    assert forall|x: int| other.has_edge(x) implies (#[trigger] other.on_ring(
                        a as int,
                        x,
                    ) <==> other.face(x) == f) by {
                        assert(self.on_ring(a as int, x) <==> self.face(x) == f);
                        let _ = other.edges[x];
                    }
                },
                None => {
                    assert forall|x: int| other.has_edge(x) implies #[trigger] other.face(x)
                        != f by {
                        assert(self.face(x) != f);
                        let _ = other.edges[x];
                    }
                },
            }
        }
    }

    /// A face whose half-edges are exactly those of a boundary cycle
    /// through the half-edge that it names has a single boundary cycle.
    pub proof fn lemma_face_simple_from_ring(self, f: int, r: Seq<int>)
        requires
            is_ring(self.next_table(), r),
            self.adjacent_edge(f) matches Some(a) && r.contains(a as int),
            forall|x: int| self.has_edge(x) ==> (r.contains(x) <==> self.face(x) == f),
        ensures
            self.face_simple(f),
    {
        let a = self.adjacent_edge(f).unwrap() as int;
        let j = choose|j: int| 0 <= j < r.len() && r[j] == a;
        lemma_ring_is_orbit(self.next_table(), r, j);
        assert forall|x: int| self.has_edge(x) implies (#[trigger] self.on_ring(a, x) <==> (
        self.face(x) == f || self.face(x) == f)) by {
            assert(r.contains(x) <==> self.face(x) == f);
        }
    }

    /// The boundary cycle of a face with a single boundary cycle, given a
    /// half-edge of the face: the cycle through that half-edge holds
    /// exactly the half-edges of the face.
    pub proof fn lemma_ring_of_face(self, f: int, y: int) -> (r: Seq<int>)
        requires
            self.links_ok(),
            self.has_face(f),
            self.face_simple(f),
            self.has_edge(y),
            self.face(y) == f,
        ensures
            is_ring(self.next_table(), r),
            r[0] == y,
            self.adjacent_edge(f) matches Some(a) && r.contains(a as int),
            forall|x: int| self.has_edge(x) ==> (r.contains(x) <==> self.face(x) == f),
    {
        self.lemma_tables();
        let succ = self.next_table();
        let _ = self.faces[f];
        assert(self.adjacent_edge(f) is Some) by {
            if self.adjacent_edge(f) is None {
                assert(self.face(y) != f);
            }
        }
        let a = self.adjacent_edge(f).unwrap() as int;
        let r = lemma_ring_exists(succ, self.prev_table(), y);
        let ra = lemma_ring_exists(succ, self.prev_table(), a);
        lemma_ring_is_orbit(succ, ra, 0);
        assert(self.on_ring(a, y));
        assert(ra.contains(y));
        assert(r.contains(r[0]));
        lemma_rings_meet(succ, ra, r, y);
        assert(ra.contains(ra[0]));
        assert forall|x: int| self.has_edge(x) implies (r.contains(x) <==> self.face(x) == f) by {
            assert(self.on_ring(a, x) <==> self.face(x) == f);
            assert(ra.contains(x) <==> reaches(succ, ra[0], x));
        }
        r
    }

    /// A face with a single boundary cycle keeps it when its half-edges
    /// keep their label and their successor, no other half-edge takes the
    /// label, and the face names the same half-edge.
    pub proof fn lemma_face_untouched(self, other: Self, g: int)
        requires
            self.links_ok(),
            self.has_face(g),
            self.face_simple(g),
            other.adjacent_edge(g) == self.adjacent_edge(g),
            other.edges.len() >= self.edges.len(),
            forall|x: int|
                #![trigger other.edges[x]]
                self.has_edge(x) && self.face(x) == g ==> other.next(x) == self.next(x)
                    && other.face(x) == g,
            forall|x: int|
                #![trigger other.edges[x]]
                other.has_edge(x) && other.face(x) == g ==> self.has_edge(x) && self.face(x) == g,
        ensures
            other.face_simple(g),
    {
        let _ = self.faces[g];
        match self.adjacent_edge(g) {
            None => {
                assert forall|x: int| other.has_edge(x) implies #[trigger] other.face(x) != g by {
                    let _ = other.edges[x];
                    if other.face(x) == g {
                        assert(self.face(x) != g);
                    }
                }
            },
            Some(a) => {
                let a = a as int;
                let r = self.lemma_ring_of_face(g, a);
                assert forall|j: int| 0 <= j < r.len() implies other.next_table()[#[trigger] r[j]]
                    == self.next_table()[r[j]] by {
                    assert(r.contains(r[j]));
                    let _ = other.edges[r[j]];
                }
                lemma_ring_same_steps(self.next_table(), other.next_table(), r);
                assert forall|x: int| other.has_edge(x) implies (r.contains(x) <==> other.face(x)
                    == g) by {
                    let _ = other.edges[x];
                    if r.contains(x) {
                        let j = choose|j: int| 0 <= j < r.len() && r[j] == x;
                        assert(self.has_edge(r[j]));
                    }
                }
                other.lemma_face_simple_from_ring(g, r);
            },
        }
    }

    /// In a consistent mesh the link tables are permutations.
    pub proof fn lemma_tables(self)
        requires
            self.links_ok(),
        ensures
            self.links_permute(),
            is_permutation(self.ccw_table(), self.cw_table()),
    {
        let succ = self.next_table();
        let pred = self.prev_table();
        assert forall|i: int| 0 <= i < succ.len() implies #[trigger] perm_at(succ, pred, i) by {
            self.lemma_neighbours_linked(i);
        }
        let ccw = self.ccw_table();
        let cw = self.cw_table();
        assert forall|i: int| 0 <= i < ccw.len() implies #[trigger] perm_at(ccw, cw, i) by {
            self.lemma_neighbours_linked(i);
        }
    }

    /// All half-edges of a boundary cycle carry the same face label.
    pub proof fn lemma_ring_labels(self, r: Seq<int>, i: int)
        requires
            self.links_ok(),
            is_ring(self.next_table(), r),
            0 <= i < r.len(),
        ensures
            self.face(r[i]) == self.face(r[0]),
        decreases i,
    {
        if i > 0 {
            self.lemma_ring_labels(r, i - 1);
            lemma_ring_succ(self.next_table(), r, i - 1);
            self.lemma_neighbours_linked(r[i - 1]);
        }
    }

    /// A boundary cycle holds a half-edge exactly if it holds the next one.
    pub proof fn lemma_ring_follows_next(self, r: Seq<int>, x: int)
        requires
            self.links_permute(),
            is_ring(self.next_table(), r),
            self.has_edge(x),
        ensures
            r.contains(x) <==> r.contains(self.next(x)),
    {
        let succ = self.next_table();
        let pred = self.prev_table();
        assert(perm_at(succ, pred, x));
        if r.contains(x) {
            let i = choose|i: int| 0 <= i < r.len() && r[i] == x;
            lemma_ring_succ(succ, r, i);
            assert(r[ring_after(i, r.len() as int)] == self.next(x));
        }
        if r.contains(self.next(x)) {
            let i = choose|i: int| 0 <= i < r.len() && r[i] == self.next(x);
            lemma_ring_pred(succ, pred, r, i);
            let h = if i == 0 {
                r.len() - 1
            } else {
                i - 1
            };
            assert(r[h] == x);
        }
    }

    /// A witness for the stars of one mesh serves every mesh with the same
    /// links, origins and outgoing half-edges.
    pub proof fn lemma_stars_transfer(self, other: Self, w: StarRanks)
        requires
            self.links_ok(),
            self.stars_ranked(w),
            self.edges.len() == other.edges.len(),
            self.vertices.len() == other.vertices.len(),
            forall|e: int|
                #![trigger other.edges[e]]
                self.has_edge(e) ==> self.next(e) == other.next(e) && self.twin(e) == other.twin(e)
                    && self.origin(e) == other.origin(e),
            forall|v: int|
                #![trigger other.vertices[v]]
                self.has_vertex(v) ==> self.out_edge(v) == other.out_edge(v),
        ensures
            other.stars_ranked(w),
    {
        assert forall|e: int| other.has_edge(e) implies #[trigger] other.star_step(w, e) by {
            assert(self.star_step(w, e));
            self.lemma_neighbours_linked(e);
        }
    }

    /// The mesh with the data of vertex `v` replaced.
    pub open spec fn with_vertex_data(self, v: int, data: V) -> Self {
        Mesh {
            vertices: self.vertices.update(
                v,
                VertexEntry { data, out_edge: self.vertices[v].out_edge },
            ),
            faces: self.faces,
            edges: self.edges,
        }
    }

    /// The mesh with the data of half-edge `e` replaced.
    pub open spec fn with_edge_data(self, e: int, data: E) -> Self {
        Mesh {
            vertices: self.vertices,
            faces: self.faces,
            edges: self.edges.update(
                e,
                HalfEdgeEntry {
                    next: self.edges[e].next,
                    prev: self.edges[e].prev,
                    twin: self.edges[e].twin,
                    origin: self.edges[e].origin,
                    face: self.edges[e].face,
                    data,
                },
            ),
        }
    }

    /// The links of `other` are those of this mesh; the data may differ.
    pub open spec fn same_links(self, other: Self) -> bool {
        &&& self.vertices.len() == other.vertices.len()
        &&& self.faces == other.faces
        &&& self.edges.len() == other.edges.len()
        &&& forall|v: int|
            #![trigger other.vertices[v]]
            self.has_vertex(v) ==> self.vertices[v].out_edge == other.vertices[v].out_edge
        &&& forall|e: int|
            #![trigger other.edges[e]]
            self.has_edge(e) ==> self.edges[e].next == other.edges[e].next && self.edges[e].prev
                == other.edges[e].prev && self.edges[e].twin == other.edges[e].twin
                && self.edges[e].origin == other.edges[e].origin && self.edges[e].face
                == other.edges[e].face
    }

    /// A change of data keeps a mesh consistent.
    pub proof fn lemma_data_only(self, other: Self, w: StarRanks)
        requires
            self.links_ok(),
            self.stars_ranked(w),
            self.same_links(other),
        ensures
            other.links_ok(),
            other.stars_ranked(w),
    {
        assert forall|e: int| other.has_edge(e) implies #[trigger] other.edge_linked(e) by {
            self.lemma_neighbours_linked(e);
            let _ = other.edges[e];
            let _ = other.edges[self.next(e)];
            let _ = other.edges[self.prev(e)];
            let _ = other.edges[self.twin(e)];
        }
        assert forall|v: int| #![trigger other.vertices[v]] other.has_vertex(v) implies (
        other.out_edge(v) matches Some(e) ==> e < other.edges.len() && other.edges[e as int].origin
            == v) by {
            let _ = self.vertices[v];
            if let Some(e) = self.vertices[v].out_edge {
                let _ = other.edges[e as int];
            }
        }
        assert forall|f: int| #![trigger other.faces[f]] other.has_face(f) implies (
        other.adjacent_edge(f) matches Some(e) ==> e < other.edges.len()
            && other.edges[e as int].face == f) by {
            let _ = self.faces[f];
            if let Some(e) = self.faces[f].adjacent_edge {
                let _ = other.edges[e as int];
            }
        }
        assert forall|e: int| other.has_edge(e) implies #[trigger] other.star_step(w, e) by {
            self.lemma_neighbours_linked(e);
            assert(self.star_step(w, e));
            let _ = other.edges[e];
            let _ = other.edges[self.twin(e)];
            let _ = other.vertices[self.origin(e)];
        }
    }

    /// Following the links of half-edge `e` forth and back leads to `e`
    /// again.
    pub open spec fn round_trips(self, e: int) -> bool {
        &&& self.has_edge(self.next(e))
        &&& self.has_edge(self.prev(e))
        &&& self.has_edge(self.twin(e))
        &&& self.prev(self.next(e)) == e
        &&& self.next(self.prev(e)) == e
        &&& self.twin(self.twin(e)) == e
    }

    /// What `sanity_check` tests: the half-edge that a face names borders
    /// it, the half-edge that a vertex names leaves it, and following the
    /// links of a half-edge forth and back leads to it again.
    pub open spec fn sane(self) -> bool {
        &&& forall|f: int| #![trigger self.faces[f]]
            self.has_face(f) ==> (self.adjacent_edge(f) matches Some(e) ==> e < self.edges.len()
                && self.edges[e as int].face == f)
        &&& forall|v: int| #![trigger self.vertices[v]]
            self.has_vertex(v) ==> (self.out_edge(v) matches Some(e) ==> e < self.edges.len()
                && self.edges[e as int].origin == v)
        &&& forall|e: int| self.has_edge(e) ==> #[trigger] self.round_trips(e)
    }

    /// Half-edge `x` leads from vertex `from` to vertex `to`.
    pub open spec fn joins(self, x: int, from: int, to: int) -> bool {
        self.has_edge(x) && self.origin(x) == from && self.target(x) == to
    }

    /// On the walk counterclockwise from half-edge `a`, the half-edge after
    /// `k` steps is the first that ends at vertex `to`.
    pub open spec fn first_towards(self, a: int, to: int, k: nat) -> bool {
        &&& self.target(iterate(self.ccw_table(), a, k)) == to
        &&& forall|j: nat| j < k ==> self.target(#[trigger] iterate(self.ccw_table(), a, j)) != to
    }
}

} // verus!
