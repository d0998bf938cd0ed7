//! What the removal of an edge does to the model.
//!
//! The removal is described in three steps: the edge is taken out of the two
//! boundary cycles and the two vertex stars it lies in; the gap that its two
//! half-edges leave in the half-edge array is closed by moving the last pair
//! into it; and, where the edge separated two faces, the face that is given
//! up is dropped and the gap in the face array is closed by moving the last
//! face into it.

use crate::delaunay::mesh::{mate, FaceEntry, HalfEdgeEntry, Mesh, StarRanks, VertexEntry};
use crate::delaunay::orbit::{
    is_ring, iterate, lemma_inverse_is_permutation, lemma_reaches_back, lemma_ring_exists,
    lemma_ring_is_orbit, lemma_ring_pred, lemma_ring_succ, lemma_rings_meet, perm_at, reaches,
    ring_after,
};
use vstd::prelude::*;

verus! {

/// The even position of the pair of half-edges that `e` belongs to.
pub open spec fn pair_of(e: int) -> int {
    if e % 2 == 0 {
        e
    } else {
        e - 1
    }
}

/// `x` is one of the two half-edges of the pair at `lo`.
pub open spec fn in_pair(lo: int, x: int) -> bool {
    x == lo || x == lo + 1
}

/// Where half-edge `x` stands after the pair at `lo` was taken out of an
/// array of `n` half-edges: the last pair moves into the gap.
pub open spec fn edge_moved_to(n: int, lo: int, x: int) -> int {
    if x == n - 2 {
        lo
    } else if x == n - 1 {
        lo + 1
    } else {
        x
    }
}

/// Where the half-edge at `i` stood before the pair at `lo` was taken out
/// of an array of `n` half-edges.
pub open spec fn edge_moved_from(n: int, lo: int, i: int) -> int {
    if i == lo {
        n - 2
    } else if i == lo + 1 {
        n - 1
    } else {
        i
    }
}

/// The label that face `f` has after face `gone` was merged into face
/// `keep` and dropped from an array of `nf` faces: the last face moves into
/// the gap.
pub open spec fn face_moved_to(nf: int, keep: int, gone: int, f: int) -> int {
    let y = if f == gone {
        keep
    } else {
        f
    };
    if y == nf - 1 {
        gone
    } else {
        y
    }
}

/// The label that the face at `g` had before face `gone` was dropped from an
/// array of `nf` faces.
pub open spec fn face_moved_from(nf: int, gone: int, g: int) -> int {
    if g == gone {
        nf - 1
    } else {
        g
    }
}

impl<V, E> Mesh<V, E> {
    /// The face that survives the removal of the edge of `e`: the face of
    /// its twin where the caller names that one, else the face of `e`.
    pub open spec fn kept_face(self, e: int, remaining: Option<usize>) -> int {
        if remaining == Some(self.edges[self.twin(e)].face) {
            self.face(self.twin(e))
        } else {
            self.face(e)
        }
    }

    /// The face on the other side of the edge of `e` from `kept_face`.
    pub open spec fn dropped_face(self, e: int, remaining: Option<usize>) -> int {
        if remaining == Some(self.edges[self.twin(e)].face) {
            self.face(e)
        } else {
            self.face(self.twin(e))
        }
    }

    /// The half-edge of the edge of `e` that borders `kept_face`.
    pub open spec fn kept_half_edge(self, e: int, remaining: Option<usize>) -> int {
        if remaining == Some(self.edges[self.twin(e)].face) {
            self.twin(e)
        } else {
            e
        }
    }

    /// The edge of `e` separates two differently labelled faces.
    pub open spec fn merges_faces(self, e: int) -> bool {
        self.face(e) != self.face(self.twin(e))
    }

    /// The edge of `e` is connected to nothing else.
    pub open spec fn is_lone_edge(self, e: int) -> bool {
        self.prev(e) == self.twin(e) && self.next(e) == self.twin(e)
    }

    /// The edge of `e` has the same face on both sides and further edges at
    /// both ends: removing it splits a boundary cycle in two.
    pub open spec fn is_bridge(self, e: int) -> bool {
        !self.merges_faces(e) && self.prev(e) != self.twin(e) && self.next(e) != self.twin(e)
    }

    /// Half-edge `x`, if it borders the face that survives the removal of
    /// the edge of `e` and is not of that edge, lies on the boundary cycle
    /// through the edge.
    pub open spec fn on_kept_ring_if_kept(self, e: int, remaining: Option<usize>, x: int) -> bool {
        self.has_edge(x) && !in_pair(pair_of(e), x) && self.face(x) == self.kept_face(
            e,
            remaining,
        ) ==> self.on_ring(self.kept_half_edge(e, remaining), x)
    }

    /// What the removal of the edge of `e` needs where the edge separates
    /// two faces: the face that is given up and the last face of the array
    /// have a single boundary cycle each, and the last two half-edges of the
    /// array, which move into the gap, lie on the boundary cycle through the
    /// edge if they border the face that survives.
    ///
    /// All of this holds where every face has a single boundary cycle.
    pub open spec fn can_remove_edge(self, e: int, remaining: Option<usize>) -> bool {
        self.merges_faces(e) ==> {
            &&& self.face_simple(self.dropped_face(e, remaining))
            &&& self.face_simple(self.faces.len() - 1)
            &&& self.on_kept_ring_if_kept(e, remaining, self.edges.len() - 1)
            &&& self.on_kept_ring_if_kept(e, remaining, self.edges.len() - 2)
        }
    }

    /// The boundary cycle through the half-edge that face `f` names holds
    /// every half-edge labelled `g`, and only half-edges labelled `f` or
    /// `g`.
    pub open spec fn ring_takes_in(self, f: int, g: int) -> bool {
        self.adjacent_edge(f) matches Some(a) && forall|x: int|
            self.has_edge(x) ==> (self.face(x) == g ==> #[trigger] self.on_ring(a as int, x)) && (
            self.on_ring(a as int, x) ==> self.face(x) == f || self.face(x) == g)
    }

    /// The half-edge that follows `x` once the edge of `e` is taken out.
    pub open spec fn next_without(self, e: int, x: int) -> int {
        let t = self.twin(e);
        if x == self.prev(e) {
            self.next(t)
        } else if x == self.prev(t) {
            self.next(e)
        } else {
            self.next(x)
        }
    }

    /// The half-edge that precedes `x` once the edge of `e` is taken out.
    pub open spec fn prev_without(self, e: int, x: int) -> int {
        let t = self.twin(e);
        if x == self.next(e) {
            self.prev(t)
        } else if x == self.next(t) {
            self.prev(e)
        } else {
            self.prev(x)
        }
    }

    /// A half-edge that stays on the boundary of the surviving face when
    /// the edge of `e` is taken out, unless the edge is a lone one.
    pub open spec fn new_adjacent(self, e: int) -> int {
        if self.prev(e) != self.twin(e) {
            self.prev(e)
        } else {
            self.next(e)
        }
    }

    /// First step of the removal of the edge of `e`: its two half-edges stay
    /// in the array, but nothing refers to them any more. The two ends of
    /// the edge name another outgoing half-edge, or none; the surviving face
    /// names a half-edge that stays, or none.
    pub open spec fn unlink(self, e: int, remaining: Option<usize>) -> Self {
        let t = self.twin(e);
        let keep = self.kept_face(e, remaining);
        Mesh {
            vertices: Seq::new(
                self.vertices.len(),
                |v: int|
                    VertexEntry {
                        data: self.vertices[v].data,
                        out_edge: if v == self.origin(t) {
                            if self.next(e) == t {
                                None
                            } else {
                                Some(self.edges[e].next)
                            }
                        } else if v == self.origin(e) {
                            if self.prev(e) == t {
                                None
                            } else {
                                Some(self.edges[t].next)
                            }
                        } else {
                            self.vertices[v].out_edge
                        },
                    },
            ),
            faces: Seq::new(
                self.faces.len(),
                |f: int|
                    FaceEntry {
                        adjacent_edge: if f == keep {
                            if self.is_lone_edge(e) {
                                None
                            } else {
                                Some(self.new_adjacent(e) as usize)
                            }
                        } else {
                            self.faces[f].adjacent_edge
                        },
                    },
            ),
            edges: Seq::new(
                self.edges.len(),
                |x: int|
                    if x == e || x == t {
                        self.edges[x]
                    } else {
                        HalfEdgeEntry {
                            next: self.next_without(e, x) as usize,
                            prev: self.prev_without(e, x) as usize,
                            twin: self.edges[x].twin,
                            origin: self.edges[x].origin,
                            face: if x == self.new_adjacent(e) {
                                keep as usize
                            } else {
                                self.edges[x].face
                            },
                            data: self.edges[x].data,
                        }
                    },
            ),
        }
    }

    /// The star witness after the first step of the removal of the edge of
    /// `e`.
    pub open spec fn unlink_ranks(self, w: StarRanks, e: int) -> StarRanks {
        let t = self.twin(e);
        StarRanks {
            rank: Seq::new(
                w.rank.len(),
                |x: int|
                    if x == self.next(t) && w.rank[e] == 0 && self.prev(e) != t {
                        0
                    } else if x == self.next(e) && w.rank[t] == 0 && self.next(e) != t {
                        0
                    } else {
                        w.rank[x]
                    },
            ),
            root: Seq::new(
                w.root.len(),
                |v: int|
                    if v == self.origin(e) && w.rank[e] == 0 {
                        self.next(t)
                    } else if v == self.origin(t) && w.rank[t] == 0 {
                        self.next(e)
                    } else {
                        w.root[v]
                    },
            ),
        }
    }

    /// What `edge_linked` says of half-edge `x` in a mesh whose pair of
    /// half-edges at `lo` is out of use, and in which the faces `keep` and
    /// `gone` are being merged: the links of `x` avoid the pair, and along
    /// `next` the face label stays, or changes between `keep` and `gone`.
    pub open spec fn live_linked(self, lo: int, keep: int, gone: int, x: int) -> bool {
        let r = self.edges[x];
        &&& r.next < self.edges.len() && !in_pair(lo, r.next as int)
        &&& r.prev < self.edges.len() && !in_pair(lo, r.prev as int)
        &&& r.twin < self.edges.len()
        &&& r.twin as int == mate(x)
        &&& r.origin < self.vertices.len()
        &&& r.face < self.faces.len()
        &&& self.edges[r.next as int].prev == x
        &&& self.edges[r.prev as int].next == x
        &&& (self.edges[r.next as int].face == r.face || ((r.face == keep || r.face == gone) && (
        self.edges[r.next as int].face == keep || self.edges[r.next as int].face == gone)))
        &&& self.edges[r.next as int].origin == self.edges[r.twin as int].origin
        &&& r.origin != self.edges[r.twin as int].origin
    }

    /// The consistency of a mesh during the removal of an edge: the pair of
    /// half-edges at `lo` is out of use, and the faces `keep` and `gone` are
    /// being merged, so that `gone` need not name a half-edge of its own.
    /// With no pair at `lo` and `keep == gone` this is `links_ok`.
    pub open spec fn sound_apart(self, lo: int, keep: int, gone: int) -> bool {
        &&& self.faces.len() >= 1
        &&& self.edges.len() % 2 == 0
        &&& lo % 2 == 0
        &&& forall|x: int|
            self.has_edge(x) && !in_pair(lo, x) ==> #[trigger] self.live_linked(lo, keep, gone, x)
        &&& forall|v: int| #![trigger self.vertices[v]]
            self.has_vertex(v) ==> (self.out_edge(v) matches Some(y) ==> y < self.edges.len()
                && !in_pair(lo, y as int) && self.edges[y as int].origin == v)
        &&& forall|f: int| #![trigger self.faces[f]]
            self.has_face(f) && (f != gone || keep == gone) ==> (self.adjacent_edge(
                f,
            ) matches Some(y) ==> y < self.edges.len() && !in_pair(lo, y as int)
                && self.edges[y as int].face == f)
    }

    /// The star witness `w` is sound for all half-edges but the pair at `lo`.
    pub open spec fn stars_ranked_apart(self, w: StarRanks, lo: int) -> bool {
        &&& w.rank.len() == self.edges.len()
        &&& w.root.len() == self.vertices.len()
        &&& forall|x: int|
            self.has_edge(x) && !in_pair(lo, x) ==> #[trigger] self.star_step(w, x)
    }

    /// A mesh that is sound with nothing set apart is consistent.
    pub proof fn lemma_sound_is_ok(self, lo: int, k: int)
        requires
            self.sound_apart(lo, k, k),
            lo < -1 || lo >= self.edges.len(),
        ensures
            self.links_ok(),
    {
        assert forall|x: int| self.has_edge(x) implies #[trigger] self.edge_linked(x) by {
            assert(self.live_linked(lo, k, k, x));
        }
    }

    /// A half-edge that is its own clockwise neighbour is the only one that
    /// leaves its origin.
    pub proof fn lemma_lone_in_star(self, w: StarRanks, e: int, y: int)
        requires
            self.links_ok(),
            self.stars_ranked(w),
            self.has_edge(e),
            self.has_edge(y),
            self.cw(e) == e,
            self.origin(y) == self.origin(e),
        ensures
            y == e,
        decreases w.rank[y],
    {
        assert(self.star_step(w, e));
        assert(self.star_step(w, y));
        self.lemma_neighbours_linked(e);
        self.lemma_neighbours_linked(y);
        if w.rank[y] != 0 {
            self.lemma_lone_in_star(w, e, self.cw(y));
            self.lemma_neighbours_linked(self.twin(y));
            self.lemma_neighbours_linked(self.twin(e));
        }
    }

    /// After the first step of the removal every remaining half-edge is
    /// linked soundly.
    #[verifier::rlimit(60)]
    #[verifier::spinoff_prover]
    pub proof fn lemma_unlink_edge(self, e: int, remaining: Option<usize>, x: int)
        requires
            self.links_ok(),
            self.has_edge(e),
            self.has_edge(x),
            !in_pair(pair_of(e), x),
        ensures
            self.unlink(e, remaining).live_linked(
                pair_of(e),
                self.kept_face(e, remaining),
                self.dropped_face(e, remaining),
                x,
            ),
    {
        let mu = self.unlink(e, remaining);
        let t = self.twin(e);
        let lo = pair_of(e);
        let keep = self.kept_face(e, remaining);
        let gone = self.dropped_face(e, remaining);
        let p = self.prev(e);
        let q = self.next(t);
        let r = self.next(e);
        let s = self.prev(t);
        self.lemma_neighbours_linked(e);
        self.lemma_neighbours_linked(t);
        self.lemma_neighbours_linked(p);
        self.lemma_neighbours_linked(q);
        self.lemma_neighbours_linked(r);
        self.lemma_neighbours_linked(s);
        self.lemma_neighbours_linked(x);
        self.lemma_neighbours_linked(self.next(x));
        self.lemma_neighbours_linked(self.prev(x));
        assert(in_pair(lo, e) && in_pair(lo, t));
        assert(x != e && x != t);
        let xn = self.next_without(e, x);
        let xp = self.prev_without(e, x);
        assert(xn != e && xn != t);
        assert(xp != e && xp != t);
        assert(mu.next(x) == xn);
        assert(mu.prev(x) == xp);
        assert(mu.prev(xn) == x);
        assert(mu.next(xp) == x);
        assert(mu.twin(x) == mate(x));
        assert(mu.origin(xn) == mu.origin(mu.twin(x)));
        assert(self.face(e) == keep || self.face(e) == gone);
        assert(self.face(t) == keep || self.face(t) == gone);
    }

    /// The first step of the removal leaves a mesh that is sound apart from
    /// the removed pair.
    #[verifier::rlimit(60)]
    #[verifier::spinoff_prover]
    pub proof fn lemma_unlink_links(self, e: int, remaining: Option<usize>)
        requires
            self.links_ok(),
            self.has_edge(e),
        ensures
            self.unlink(e, remaining).sound_apart(
                pair_of(e),
                self.kept_face(e, remaining),
                self.dropped_face(e, remaining),
            ),
    {
        let mu = self.unlink(e, remaining);
        let t = self.twin(e);
        let lo = pair_of(e);
        let keep = self.kept_face(e, remaining);
        let gone = self.dropped_face(e, remaining);
        self.lemma_neighbours_linked(e);
        self.lemma_neighbours_linked(t);
        assert(in_pair(lo, e) && in_pair(lo, t));
        assert forall|x: int| mu.has_edge(x) && !in_pair(lo, x) implies #[trigger] mu.live_linked(
            lo,
            keep,
            gone,
            x,
        ) by {
            self.lemma_unlink_edge(e, remaining, x);
        }
        self.lemma_unlink_vertices(e, remaining);
        self.lemma_unlink_faces(e, remaining);
    }

    /// After the first step of the removal every vertex names an outgoing
    /// half-edge that remains, or none.
    pub proof fn lemma_unlink_vertices(self, e: int, remaining: Option<usize>)
        requires
            self.links_ok(),
            self.has_edge(e),
        ensures
            forall|v: int| #![trigger self.unlink(e, remaining).vertices[v]]
                self.has_vertex(v) ==> (self.unlink(e, remaining).out_edge(v) matches Some(y) ==> y
                    < self.edges.len() && !in_pair(pair_of(e), y as int) && self.unlink(
                    e,
                    remaining,
                ).edges[y as int].origin == v),
    {
        let mu = self.unlink(e, remaining);
        let t = self.twin(e);
        let lo = pair_of(e);
        self.lemma_neighbours_linked(e);
        self.lemma_neighbours_linked(t);
        self.lemma_neighbours_linked(self.next(e));
        self.lemma_neighbours_linked(self.next(t));
        assert forall|v: int| #![trigger mu.vertices[v]] self.has_vertex(v) implies (mu.out_edge(
            v,
        ) matches Some(y) ==> y < self.edges.len() && !in_pair(lo, y as int)
            && mu.edges[y as int].origin == v) by {
            if let Some(y) = self.vertices[v].out_edge {
                assert(self.origin(y as int) == v);
            }
        }
    }

    /// After the first step of the removal every face but the one that is
    /// given up names a half-edge on its boundary that remains, or none.
    pub proof fn lemma_unlink_faces(self, e: int, remaining: Option<usize>)
        requires
            self.links_ok(),
            self.has_edge(e),
        ensures
            forall|f: int| #![trigger self.unlink(e, remaining).faces[f]]
                self.has_face(f) && (f != self.dropped_face(e, remaining) || self.kept_face(
                    e,
                    remaining,
                ) == self.dropped_face(e, remaining)) ==> (self.unlink(e, remaining).adjacent_edge(
                    f,
                ) matches Some(y) ==> y < self.edges.len() && !in_pair(pair_of(e), y as int)
                    && self.unlink(e, remaining).edges[y as int].face == f),
    {
        let mu = self.unlink(e, remaining);
        let t = self.twin(e);
        let lo = pair_of(e);
        let keep = self.kept_face(e, remaining);
        let gone = self.dropped_face(e, remaining);
        self.lemma_neighbours_linked(e);
        self.lemma_neighbours_linked(t);
        self.lemma_neighbours_linked(self.next(e));
        self.lemma_neighbours_linked(self.prev(e));
        assert forall|f: int| #![trigger mu.faces[f]] self.has_face(f) && (f != gone || keep
            == gone) implies (mu.adjacent_edge(f) matches Some(y) ==> y < self.edges.len()
            && !in_pair(lo, y as int) && mu.edges[y as int].face == f) by {
            if let Some(y) = self.faces[f].adjacent_edge {
                assert(self.face(y as int) == f);
            }
        }
    }

    /// The first step of the removal keeps the stars of the remaining
    /// half-edges connected.
    #[verifier::rlimit(60)]
    #[verifier::spinoff_prover]
    pub proof fn lemma_unlink_stars(self, w: StarRanks, e: int, remaining: Option<usize>)
        requires
            self.links_ok(),
            self.stars_ranked(w),
            self.has_edge(e),
        ensures
            self.unlink(e, remaining).stars_ranked_apart(self.unlink_ranks(w, e), pair_of(e)),
    {
        let mu = self.unlink(e, remaining);
        let wu = self.unlink_ranks(w, e);
        let t = self.twin(e);
        let lo = pair_of(e);
        self.lemma_neighbours_linked(e);
        self.lemma_neighbours_linked(t);
        self.lemma_neighbours_linked(self.prev(e));
        self.lemma_neighbours_linked(self.next(e));
        self.lemma_neighbours_linked(self.prev(t));
        self.lemma_neighbours_linked(self.next(t));
        assert(self.star_step(w, e));
        assert(self.star_step(w, t));
        assert(self.star_step(w, self.next(e)));
        assert(self.star_step(w, self.next(t)));
        assert forall|x: int| mu.has_edge(x) && !in_pair(lo, x) implies #[trigger] mu.star_step(
            wu,
            x,
        ) by {
            self.lemma_neighbours_linked(x);
            self.lemma_neighbours_linked(self.twin(x));
            assert(self.star_step(w, x));
            assert(self.star_step(w, self.cw(x)));
            if self.origin(x) == self.origin(e) && self.cw(e) == e {
                self.lemma_lone_in_star(w, e, x);
            }
            if self.origin(x) == self.origin(t) && self.cw(t) == t {
                self.lemma_lone_in_star(w, t, x);
            }
        }
    }
}

impl<V, E> Mesh<V, E> {
    /// What `swap_out_edge(h)` does: the half-edge at `h` is dropped from
    /// the array, and the last half-edge, if that is another one, takes its
    /// place. The three half-edges that the last one links to are told its
    /// new place, and so are its origin, if it named the last one, and its
    /// face.
    pub open spec fn swap_out_edge(self, h: int) -> Self {
        let last = self.edges.len() - 1;
        let moved = self.edges[last];
        if h == last {
            Mesh { vertices: self.vertices, faces: self.faces, edges: self.edges.drop_last() }
        } else {
            Mesh {
                vertices: if self.vertices[moved.origin as int].out_edge == Some(last as usize) {
                    self.vertices_with_out_edge(moved.origin as int, Some(h as usize))
                } else {
                    self.vertices
                },
                faces: self.faces.update(
                    moved.face as int,
                    FaceEntry { adjacent_edge: Some(h as usize) },
                ),
                edges: Seq::new(
                    last as nat,
                    |x: int|
                        {
                            let base = if x == h {
                                moved
                            } else {
                                self.edges[x]
                            };
                            HalfEdgeEntry {
                                next: if x == moved.prev {
                                    h as usize
                                } else {
                                    base.next
                                },
                                prev: if x == moved.next {
                                    h as usize
                                } else {
                                    base.prev
                                },
                                twin: if x == moved.twin {
                                    h as usize
                                } else {
                                    base.twin
                                },
                                origin: base.origin,
                                face: base.face,
                                data: base.data,
                            }
                        },
                ),
            }
        }
    }

    /// Second step of the removal of an edge: the pair of half-edges at
    /// `lo`, which nothing refers to, is dropped, and the last pair of the
    /// array takes its place. Every reference to a half-edge of the last
    /// pair follows it.
    pub open spec fn compact(self, lo: int) -> Self {
        let n = self.edges.len() as int;
        Mesh {
            vertices: Seq::new(
                self.vertices.len(),
                |v: int|
                    VertexEntry {
                        data: self.vertices[v].data,
                        out_edge: match self.vertices[v].out_edge {
                            Some(y) => Some(edge_moved_to(n, lo, y as int) as usize),
                            None => None,
                        },
                    },
            ),
            faces: Seq::new(
                self.faces.len(),
                |f: int|
                    FaceEntry {
                        adjacent_edge: if lo != n - 2 && self.face(n - 2) == f {
                            Some(lo as usize)
                        } else if lo != n - 2 && self.face(n - 1) == f {
                            Some((lo + 1) as usize)
                        } else {
                            self.faces[f].adjacent_edge
                        },
                    },
            ),
            edges: Seq::new(
                (n - 2) as nat,
                |i: int|
                    {
                        let x = edge_moved_from(n, lo, i);
                        HalfEdgeEntry {
                            next: edge_moved_to(n, lo, self.next(x)) as usize,
                            prev: edge_moved_to(n, lo, self.prev(x)) as usize,
                            twin: edge_moved_to(n, lo, self.twin(x)) as usize,
                            origin: self.edges[x].origin,
                            face: self.edges[x].face,
                            data: self.edges[x].data,
                        }
                    },
            ),
        }
    }

    /// The star witness after the second step of the removal.
    pub open spec fn compact_ranks(self, w: StarRanks, lo: int) -> StarRanks {
        let n = self.edges.len() as int;
        StarRanks {
            rank: Seq::new((n - 2) as nat, |i: int| w.rank[edge_moved_from(n, lo, i)]),
            root: Seq::new(w.root.len(), |v: int| edge_moved_to(n, lo, w.root[v])),
        }
    }

    /// Dropping the upper and then the lower half-edge of a pair that
    /// nothing refers to closes the gap as `compact` says.
    #[verifier::rlimit(80)]
    #[verifier::spinoff_prover]
    pub proof fn lemma_swap_out_pair(self, lo: int, keep: int, gone: int)
        requires
            self.sound_apart(lo, keep, gone),
            0 <= lo,
            lo + 2 <= self.edges.len(),
            self.edges.len() <= usize::MAX,
        ensures
            self.swap_out_edge(lo + 1).swap_out_edge(lo) == self.compact(lo),
    {
        let n = self.edges.len() as int;
        let m1 = self.swap_out_edge(lo + 1);
        let m2 = m1.swap_out_edge(lo);
        let mc = self.compact(lo);
        if lo == n - 2 {
            assert(m2.edges =~= mc.edges) by {
                assert forall|i: int| 0 <= i < n - 2 implies m2.edges[i] == mc.edges[i] by {
                    assert(self.live_linked(lo, keep, gone, i));
                }
            }
            assert(m2.vertices =~= mc.vertices) by {
                assert forall|v: int| 0 <= v < self.vertices.len() implies m2.vertices[v]
                    == mc.vertices[v] by {
                    let _ = self.vertices[v];
                }
            }
            assert(m2.faces =~= mc.faces);
        } else {
            assert(self.live_linked(lo, keep, gone, n - 1));
            assert(self.live_linked(lo, keep, gone, n - 2));
            assert(m1.edges.len() == n - 1);
            assert(m2.edges.len() == n - 2);
            assert forall|i: int| 0 <= i < n - 2 implies m2.edges[i] == mc.edges[i] by {
                let x = edge_moved_from(n, lo, i);
                assert(self.live_linked(lo, keep, gone, x));
                assert(self.live_linked(lo, keep, gone, self.next(x)));
                assert(self.live_linked(lo, keep, gone, self.prev(x)));
                assert(self.live_linked(lo, keep, gone, self.twin(x)));
            }
            assert(m2.edges =~= mc.edges);
            assert forall|v: int| 0 <= v < self.vertices.len() implies m2.vertices[v]
                == mc.vertices[v] by {
                let _ = self.vertices[v];
            }
            assert(m2.vertices =~= mc.vertices);
            assert(m2.faces =~= mc.faces);
        }
    }

    /// After the second step of the removal every half-edge is linked
    /// soundly.
    #[verifier::rlimit(60)]
    #[verifier::spinoff_prover]
    pub proof fn lemma_compact_edge(self, lo: int, keep: int, gone: int, i: int)
        requires
            self.sound_apart(lo, keep, gone),
            0 <= lo,
            lo + 2 <= self.edges.len(),
            self.edges.len() <= usize::MAX,
            0 <= i < self.edges.len() - 2,
        ensures
            self.compact(lo).live_linked(-2, keep, gone, i),
    {
        let n = self.edges.len() as int;
        let mc = self.compact(lo);
        let x = edge_moved_from(n, lo, i);
        assert(self.live_linked(lo, keep, gone, x));
        let xn = self.next(x);
        let xp = self.prev(x);
        let xt = self.twin(x);
        assert(self.live_linked(lo, keep, gone, xn));
        assert(self.live_linked(lo, keep, gone, xp));
        assert(self.live_linked(lo, keep, gone, xt));
        assert(edge_moved_from(n, lo, edge_moved_to(n, lo, xn)) == xn);
        assert(edge_moved_from(n, lo, edge_moved_to(n, lo, xp)) == xp);
        assert(edge_moved_from(n, lo, edge_moved_to(n, lo, xt)) == xt);
        assert(edge_moved_to(n, lo, x) == i);
        assert(mc.next(i) == edge_moved_to(n, lo, xn));
        assert(mc.prev(i) == edge_moved_to(n, lo, xp));
        assert(mc.twin(i) == edge_moved_to(n, lo, xt));
        assert(mc.twin(i) == mate(i));
    }

    /// The second step of the removal leaves a mesh that is sound, with no
    /// half-edge set apart.
    pub proof fn lemma_compact_links(self, lo: int, keep: int, gone: int)
        requires
            self.sound_apart(lo, keep, gone),
            0 <= lo,
            lo + 2 <= self.edges.len(),
            self.edges.len() <= usize::MAX,
        ensures
            self.compact(lo).sound_apart(-2, keep, gone),
    {
        let n = self.edges.len() as int;
        let mc = self.compact(lo);
        assert forall|i: int| mc.has_edge(i) && !in_pair(-2, i) implies #[trigger] mc.live_linked(
            -2,
            keep,
            gone,
            i,
        ) by {
            self.lemma_compact_edge(lo, keep, gone, i);
        }
        assert forall|v: int| #![trigger mc.vertices[v]] mc.has_vertex(v) implies (mc.out_edge(
            v,
        ) matches Some(y) ==> y < mc.edges.len() && !in_pair(-2, y as int)
            && mc.edges[y as int].origin == v) by {
            if let Some(y) = self.vertices[v].out_edge {
                assert(self.live_linked(lo, keep, gone, y as int));
            }
        }
        assert forall|f: int| #![trigger mc.faces[f]] mc.has_face(f) && (f != gone || keep
            == gone) implies (mc.adjacent_edge(f) matches Some(y) ==> y < mc.edges.len()
            && !in_pair(-2, y as int) && mc.edges[y as int].face == f) by {
            if lo != n - 2 {
                assert(self.live_linked(lo, keep, gone, n - 1));
                assert(self.live_linked(lo, keep, gone, n - 2));
            }
            if let Some(y) = self.faces[f].adjacent_edge {
                assert(self.live_linked(lo, keep, gone, y as int));
            }
        }
    }

    /// The second step of the removal keeps the stars connected.
    pub proof fn lemma_compact_stars(self, w: StarRanks, lo: int, keep: int, gone: int)
        requires
            self.sound_apart(lo, keep, gone),
            self.stars_ranked_apart(w, lo),
            0 <= lo,
            lo + 2 <= self.edges.len(),
            self.edges.len() <= usize::MAX,
        ensures
            self.compact(lo).stars_ranked(self.compact_ranks(w, lo)),
    {
        let n = self.edges.len() as int;
        let mc = self.compact(lo);
        let wc = self.compact_ranks(w, lo);
        assert forall|i: int| mc.has_edge(i) implies #[trigger] mc.star_step(wc, i) by {
            let x = edge_moved_from(n, lo, i);
            assert(self.live_linked(lo, keep, gone, x));
            assert(self.live_linked(lo, keep, gone, self.twin(x)));
            assert(self.live_linked(lo, keep, gone, self.cw(x)));
            assert(self.star_step(w, x));
            assert(edge_moved_from(n, lo, edge_moved_to(n, lo, self.twin(x))) == self.twin(x));
            assert(edge_moved_from(n, lo, edge_moved_to(n, lo, self.cw(x))) == self.cw(x));
            assert(mc.cw(i) == edge_moved_to(n, lo, self.cw(x)));
        }
    }
}

impl<V, E> Mesh<V, E> {
    /// What `remove_face(f)` does: face `f` is dropped from the array and
    /// the last face, if that is another one, takes its place; the boundary
    /// cycle through the half-edge that it names is relabelled accordingly.
    pub open spec fn remove_face(self, f: int) -> Self {
        let last = self.faces.len() - 1;
        let shrunk = Mesh {
            vertices: self.vertices,
            faces: self.faces.update(f, self.faces[last]).drop_last(),
            edges: self.edges,
        };
        if last > f {
            match shrunk.faces[f].adjacent_edge {
                Some(a) => shrunk.with_ring_face(a as int, f),
                None => shrunk,
            }
        } else {
            shrunk
        }
    }

    /// Third step of the removal of an edge that separated two faces: every
    /// half-edge of face `gone` belongs to face `keep`, face `gone` is
    /// dropped, and the last face of the array takes its place.
    pub open spec fn merge_faces(self, keep: int, gone: int) -> Self {
        let nf = self.faces.len() as int;
        Mesh {
            vertices: self.vertices,
            faces: Seq::new((nf - 1) as nat, |g: int| self.faces[face_moved_from(nf, gone, g)]),
            edges: Seq::new(
                self.edges.len(),
                |x: int|
                    HalfEdgeEntry {
                        next: self.edges[x].next,
                        prev: self.edges[x].prev,
                        twin: self.edges[x].twin,
                        origin: self.edges[x].origin,
                        face: face_moved_to(nf, keep, gone, self.face(x)) as usize,
                        data: self.edges[x].data,
                    },
            ),
        }
    }

    /// The third step of the removal leaves a consistent mesh.
    pub proof fn lemma_merge_links(self, keep: int, gone: int)
        requires
            self.sound_apart(-2, keep, gone),
            keep != gone,
            self.has_face(keep),
            self.has_face(gone),
            self.faces.len() <= usize::MAX,
        ensures
            self.merge_faces(keep, gone).links_ok(),
    {
        let mm = self.merge_faces(keep, gone);
        assert forall|x: int| mm.has_edge(x) implies #[trigger] mm.edge_linked(x) by {
            assert(self.live_linked(-2, keep, gone, x));
            assert(self.live_linked(-2, keep, gone, self.next(x)));
            assert(self.live_linked(-2, keep, gone, self.prev(x)));
            assert(self.live_linked(-2, keep, gone, self.twin(x)));
        }
        assert forall|v: int| #![trigger mm.vertices[v]] mm.has_vertex(v) implies (mm.out_edge(
            v,
        ) matches Some(y) ==> y < mm.edges.len() && mm.edges[y as int].origin == v) by {
            let _ = self.vertices[v];
        }
        assert forall|g: int| #![trigger mm.faces[g]] mm.has_face(g) implies (mm.adjacent_edge(
            g,
        ) matches Some(y) ==> y < mm.edges.len() && mm.edges[y as int].face == g) by {
            let f = face_moved_from(self.faces.len() as int, gone, g);
            let _ = self.faces[f];
            assert(self.has_face(f) && f != gone);
        }
    }

    /// The third step of the removal does not touch the stars.
    pub proof fn lemma_merge_stars(self, w: StarRanks, keep: int, gone: int)
        requires
            self.sound_apart(-2, keep, gone),
            self.stars_ranked(w),
        ensures
            self.merge_faces(keep, gone).stars_ranked(w),
    {
        let mm = self.merge_faces(keep, gone);
        assert forall|x: int| mm.has_edge(x) implies #[trigger] mm.star_step(w, x) by {
            assert(self.live_linked(-2, keep, gone, x));
            assert(self.live_linked(-2, keep, gone, self.twin(x)));
            assert(self.star_step(w, x));
        }
    }

    /// The mesh with the boundary cycle of face `keep` relabelled `keep`.
    pub open spec fn with_face_ring_relabelled(self, keep: int) -> Self {
        match self.adjacent_edge(keep) {
            Some(a) => self.with_ring_face(a as int, keep),
            None => self,
        }
    }

    /// Relabelling the merged boundary cycle and then dropping the face
    /// that is given up amounts to `merge_faces`, provided that the merged
    /// cycle holds every half-edge of the face that is given up, and that
    /// the last face of the array has a single boundary cycle.
    pub proof fn lemma_relabel_is_merge(self, keep: int, gone: int)
        requires
            self.sound_apart(-2, keep, gone),
            keep != gone,
            self.has_face(keep),
            self.has_face(gone),
            self.faces.len() <= usize::MAX,
            self.ring_takes_in(keep, gone),
            self.faces.len() - 1 == keep ==> self.face_ringed(keep, gone),
            self.faces.len() - 1 != gone && self.faces.len() - 1 != keep ==> self.face_simple(
                self.faces.len() - 1,
            ),
        ensures
            self.with_face_ring_relabelled(keep).remove_face(gone) == self.merge_faces(keep, gone),
    {
        let nf = self.faces.len() as int;
        let last = nf - 1;
        let mr = self.with_face_ring_relabelled(keep);
        let a = self.adjacent_edge(keep).unwrap() as int;
        let done = mr.remove_face(gone);
        let mm = self.merge_faces(keep, gone);
        assert(mr.next_table() =~= self.next_table());
        let shrunk = Mesh {
            vertices: mr.vertices,
            faces: mr.faces.update(gone, mr.faces[last]).drop_last(),
            edges: mr.edges,
        };
        assert(shrunk.next_table() =~= self.next_table());
        assert(done.faces =~= mm.faces);
        assert forall|x: int| 0 <= x < self.edges.len() implies done.edges[x] == mm.edges[x] by {
            assert(self.live_linked(-2, keep, gone, x));
            assert(self.face(x) == gone ==> self.on_ring(a, x));
            assert(self.on_ring(a, x) ==> self.face(x) == keep || self.face(x) == gone);
            assert(mr.face(x) == (if self.face(x) == gone {
                keep
            } else {
                self.face(x)
            }));
            if last > gone {
                let _ = self.faces[last];
                if let Some(b) = self.faces[last].adjacent_edge {
                    if last == keep {
                        assert(self.on_ring(b as int, x) <==> (self.face(x) == keep || self.face(x)
                            == gone));
                    } else {
                        assert(self.on_ring(b as int, x) <==> self.face(x) == last);
                    }
                } else {
                    assert(self.face(x) != last);
                }
            }
        }
        assert(done.edges =~= mm.edges);
    }
}

impl<V, E> Mesh<V, E> {
    /// In a face with a single boundary cycle, every cycle through one of
    /// its half-edges holds exactly the half-edges of the face.
    pub proof fn lemma_simple_ring(self, f: int, y: int, r: Seq<int>)
        requires
            self.links_ok(),
            self.has_face(f),
            self.face_simple(f),
            self.has_edge(y),
            self.face(y) == f,
            is_ring(self.next_table(), r),
            r.contains(y),
        ensures
            self.adjacent_edge(f) is Some,
            r.contains(self.adjacent_edge(f).unwrap() as int),
            forall|x: int| self.has_edge(x) ==> (r.contains(x) <==> self.face(x) == f),
    {
        self.lemma_tables();
        let succ = self.next_table();
        let _ = self.faces[f];
        assert(self.adjacent_edge(f) is Some) by {
            if self.adjacent_edge(f) is None {
                assert(self.face(y) != f);
            }
        }
        let a = self.adjacent_edge(f).unwrap() as int;
        let ra = lemma_ring_exists(succ, self.prev_table(), a);
        lemma_ring_is_orbit(succ, ra, 0);
        assert(self.on_ring(a, y));
        assert(ra.contains(y));
        lemma_rings_meet(succ, ra, r, y);
        assert forall|x: int| self.has_edge(x) implies (r.contains(x) <==> self.face(x) == f) by {
            assert(self.on_ring(a, x) <==> self.face(x) == f);
            assert(ra.contains(x) <==> reaches(succ, ra[0], x));
        }
        assert(ra.contains(ra[0]));
    }

    /// A boundary cycle that the edge of `e` does not touch is a boundary
    /// cycle after the first step of the removal.
    pub proof fn lemma_ring_survives_unlink(self, e: int, remaining: Option<usize>, r: Seq<int>)
        requires
            self.links_ok(),
            self.has_edge(e),
            is_ring(self.next_table(), r),
            !r.contains(e),
            !r.contains(self.twin(e)),
        ensures
            is_ring(self.unlink(e, remaining).next_table(), r),
    {
        let mu = self.unlink(e, remaining);
        let succ = self.next_table();
        let succ1 = mu.next_table();
        self.lemma_neighbours_linked(e);
        self.lemma_neighbours_linked(self.twin(e));
        assert forall|j: int| 0 <= j < r.len() implies succ1[r[j]] == succ[r[j]] by {
            assert(r.contains(r[j]));
            lemma_ring_succ(succ, r, j);
            let k = if j + 1 >= r.len() {
                0
            } else {
                j + 1
            };
            assert(r.contains(r[k]));
        }
        assert forall|j: int| 0 <= j < r.len() - 1 implies #[trigger] succ1[r[j]] == r[j + 1] by {
            assert(succ[r[j]] == r[j + 1]);
        }
    }

    /// A boundary cycle of the mesh after the first step is a boundary
    /// cycle after the second step, once its half-edges are renumbered.
    pub proof fn lemma_ring_compact(self, lo: int, keep: int, gone: int, r: Seq<int>) -> (rc: Seq<
        int,
    >)
        requires
            self.sound_apart(lo, keep, gone),
            0 <= lo,
            lo + 2 <= self.edges.len(),
            self.edges.len() <= usize::MAX,
            is_ring(self.next_table(), r),
            forall|j: int| 0 <= j < r.len() ==> !in_pair(lo, #[trigger] r[j]),
        ensures
            is_ring(self.compact(lo).next_table(), rc),
            rc.len() == r.len(),
            forall|j: int|
                0 <= j < r.len() ==> #[trigger] rc[j] == edge_moved_to(
                    self.edges.len() as int,
                    lo,
                    r[j],
                ),
            forall|i: int|
                0 <= i < self.edges.len() - 2 ==> (rc.contains(i) <==> r.contains(
                    edge_moved_from(self.edges.len() as int, lo, i),
                )),
    {
        let n = self.edges.len() as int;
        let mc = self.compact(lo);
        let succ = self.next_table();
        let succ1 = mc.next_table();
        let rc = Seq::new(r.len(), |j: int| edge_moved_to(n, lo, r[j]));
        assert forall|j: int| 0 <= j < r.len() implies 0 <= #[trigger] rc[j] < succ1.len()
            && edge_moved_from(n, lo, rc[j]) == r[j] && succ1[rc[j]] == edge_moved_to(
            n,
            lo,
            succ[r[j]],
        ) by {
            assert(!in_pair(lo, r[j]));
            assert(self.live_linked(lo, keep, gone, r[j]));
        }
        assert forall|j: int| 0 <= j < rc.len() - 1 implies #[trigger] succ1[rc[j]] == rc[j
            + 1] by {
            assert(succ[r[j]] == r[j + 1]);
            assert(0 <= rc[j] < succ1.len());
        }
        assert(rc.no_duplicates()) by {
            assert forall|i: int, j: int|
                0 <= i < rc.len() && 0 <= j < rc.len() && i != j implies rc[i] != rc[j] by {
                assert(edge_moved_from(n, lo, rc[i]) == r[i]);
                assert(edge_moved_from(n, lo, rc[j]) == r[j]);
            }
        }
        assert(succ1[rc.last()] == rc[0]) by {
            assert(0 <= rc[rc.len() - 1] < succ1.len());
        }
        assert forall|i: int| 0 <= i < n - 2 implies (rc.contains(i) <==> r.contains(
            edge_moved_from(n, lo, i),
        )) by {
            if rc.contains(i) {
                let j = choose|j: int| 0 <= j < rc.len() && rc[j] == i;
                assert(edge_moved_from(n, lo, rc[j]) == r[j]);
            }
            if r.contains(edge_moved_from(n, lo, i)) {
                let j = choose|j: int| 0 <= j < r.len() && r[j] == edge_moved_from(n, lo, i);
                assert(0 <= rc[j] < succ1.len());
                assert(rc[j] == i);
            }
        }
        rc
    }

    /// Taking an edge between two faces out of their boundary cycles joins
    /// the two cycles into one: it holds what the cycles through the two
    /// half-edges of the edge held, but for these two.
    #[verifier::rlimit(60)]
    #[verifier::spinoff_prover]
    pub proof fn lemma_joined_ring(self, e: int, remaining: Option<usize>) -> (m: Seq<int>)
        requires
            self.links_ok(),
            self.has_edge(e),
            self.merges_faces(e),
        ensures
            is_ring(self.unlink(e, remaining).next_table(), m),
            m.contains(self.new_adjacent(e)),
            forall|x: int|
                self.has_edge(x) ==> (m.contains(x) <==> x != e && x != self.twin(e) && (
                self.on_ring(e, x) || self.on_ring(self.twin(e), x))),
            forall|x: int|
                m.contains(x) ==> self.has_edge(x) && (#[trigger] self.face(x) == self.face(e)
                    || self.face(x) == self.face(self.twin(e))),
    {
        let mu = self.unlink(e, remaining);
        let t = self.twin(e);
        let succ = self.next_table();
        let pred = self.prev_table();
        let succ1 = mu.next_table();
        self.lemma_tables();
        self.lemma_neighbours_linked(e);
        self.lemma_neighbours_linked(t);
        self.lemma_neighbours_linked(self.prev(e));
        self.lemma_neighbours_linked(self.prev(t));
        let re = lemma_ring_exists(succ, pred, e);
        let rt = lemma_ring_exists(succ, pred, t);
        lemma_ring_is_orbit(succ, re, 0);
        lemma_ring_is_orbit(succ, rt, 0);
        assert forall|j: int| 0 <= j < re.len() implies 0 <= #[trigger] re[j] < succ.len()
            && self.face(re[j]) == self.face(e) by {
            self.lemma_ring_labels(re, j);
        }
        assert forall|j: int| 0 <= j < rt.len() implies 0 <= #[trigger] rt[j] < succ.len()
            && self.face(rt[j]) == self.face(t) by {
            self.lemma_ring_labels(rt, j);
        }
        lemma_ring_pred(succ, pred, re, 0);
        lemma_ring_pred(succ, pred, rt, 0);
        lemma_ring_succ(succ, re, 0);
        lemma_ring_succ(succ, rt, 0);
        assert(re.len() >= 2);
        assert(rt.len() >= 2);
        assert(re.last() == self.prev(e));
        assert(rt.last() == self.prev(t));
        assert(re[1] == self.next(e));
        assert(rt[1] == self.next(t));
        let a = re.subrange(1, re.len() as int);
        let b = rt.subrange(1, rt.len() as int);
        let m = a + b;
        assert forall|j: int| 0 <= j < m.len() implies 0 <= #[trigger] m[j] < succ1.len() && m[j]
            != e && m[j] != t && (self.face(m[j]) == self.face(e) || self.face(m[j]) == self.face(
            t,
        )) && (j < a.len() ==> m[j] == re[j + 1]) && (j >= a.len() ==> m[j] == rt[j - a.len()
            + 1]) by {
            if j < a.len() {
                assert(m[j] == re[j + 1]);
                assert(0 <= re[j + 1] < succ.len());
            } else {
                assert(m[j] == rt[j - a.len() + 1]);
                assert(0 <= rt[j - a.len() + 1] < succ.len());
            }
        }
        assert forall|i: int, j: int| 0 <= i < m.len() && 0 <= j < m.len() && i != j implies m[i]
            != m[j] by {
            assert(0 <= m[i] < succ1.len());
            assert(0 <= m[j] < succ1.len());
        }
        assert forall|j: int| 0 <= j < m.len() - 1 implies #[trigger] succ1[m[j]] == m[j + 1] by {
            assert(0 <= m[j] < succ1.len());
            assert(0 <= m[j + 1] < succ1.len());
            assert(0 <= rt[rt.len() - 1] < succ.len());
            assert(0 <= re[re.len() - 1] < succ.len());
            if j < a.len() - 1 {
                assert(succ[re[j + 1]] == re[j + 2]);
            } else if j == a.len() - 1 {
            } else {
                let k = j - a.len() + 1;
                assert(succ[rt[k]] == rt[k + 1]);
            }
        }
        assert(succ1[m.last()] == m[0]) by {
            assert(0 <= m[m.len() - 1] < succ1.len());
            assert(0 <= m[0] < succ1.len());
        }
        assert forall|x: int| self.has_edge(x) implies (m.contains(x) <==> x != e && x != t && (
        self.on_ring(e, x) || self.on_ring(t, x))) by {
            assert(reaches(succ, re[0], x) <==> re.contains(x));
            assert(reaches(succ, rt[0], x) <==> rt.contains(x));
            if m.contains(x) {
                let j = choose|j: int| 0 <= j < m.len() && m[j] == x;
                assert(0 <= m[j] < succ1.len());
                if j < a.len() {
                    assert(re.contains(re[j + 1]));
                } else {
                    assert(rt.contains(rt[j - a.len() + 1]));
                }
            }
            if x != e && x != t && re.contains(x) {
                let j = choose|j: int| 0 <= j < re.len() && re[j] == x;
                assert(m[j - 1] == x);
            }
            if x != e && x != t && rt.contains(x) {
                let j = choose|j: int| 0 <= j < rt.len() && rt[j] == x;
                assert(m[a.len() + j - 1] == x);
            }
        }
        assert forall|x: int| m.contains(x) implies self.has_edge(x) && (#[trigger] self.face(x)
            == self.face(e) || self.face(x) == self.face(t)) by {
            let j = choose|j: int| 0 <= j < m.len() && m[j] == x;
            assert(0 <= m[j] < succ1.len());
        }
        assert(self.has_edge(self.new_adjacent(e)));
        assert(m.contains(self.new_adjacent(e))) by {
            if self.prev(e) != t {
                assert(m[a.len() - 1] == re.last());
            } else {
                assert(m[0] == re[1]);
            }
        }
        m
    }

    /// In a face with a single boundary cycle, the boundary cycle through
    /// any of its half-edges holds exactly the half-edges of the face.
    pub proof fn lemma_simple_face_is_ring(self, f: int, y: int)
        requires
            self.links_ok(),
            self.has_face(f),
            self.face_simple(f),
            self.has_edge(y),
            self.face(y) == f,
        ensures
            forall|x: int|
                self.has_edge(x) ==> (#[trigger] self.on_ring(y, x) <==> self.face(x) == f),
    {
        let r = self.lemma_ring_of_face(f, y);
        lemma_ring_is_orbit(self.next_table(), r, 0);
        assert forall|x: int| self.has_edge(x) implies (#[trigger] self.on_ring(y, x)
            <==> self.face(x) == f) by {
            assert(reaches(self.next_table(), r[0], x) <==> r.contains(x));
        }
    }

    /// Taking an edge between two faces with a single boundary cycle each
    /// out of these cycles joins them into one, which holds all other
    /// half-edges of the two faces.
    pub proof fn lemma_merged_ring(self, e: int, remaining: Option<usize>) -> (m: Seq<int>)
        requires
            self.links_ok(),
            self.has_edge(e),
            self.merges_faces(e),
            self.face_simple(self.face(e)),
            self.face_simple(self.face(self.twin(e))),
        ensures
            is_ring(self.unlink(e, remaining).next_table(), m),
            m.contains(self.new_adjacent(e)),
            forall|x: int|
                self.has_edge(x) ==> (m.contains(x) <==> x != e && x != self.twin(e) && (self.face(
                    x,
                ) == self.face(e) || self.face(x) == self.face(self.twin(e)))),
    {
        let t = self.twin(e);
        self.lemma_neighbours_linked(e);
        let m = self.lemma_joined_ring(e, remaining);
        self.lemma_simple_face_is_ring(self.face(e), e);
        self.lemma_simple_face_is_ring(self.face(t), t);
        assert forall|x: int| self.has_edge(x) implies (m.contains(x) <==> x != e && x != t && (
        self.face(x) == self.face(e) || self.face(x) == self.face(t))) by {
            assert(self.on_ring(e, x) <==> self.face(x) == self.face(e));
            assert(self.on_ring(t, x) <==> self.face(x) == self.face(t));
        }
        m
    }
}

impl<V, E> Mesh<V, E> {
    /// The mesh after the first two steps of the removal of the edge of
    /// `e`.
    pub open spec fn without_edge(self, e: int, remaining: Option<usize>) -> Self {
        self.unlink(e, remaining).compact(pair_of(e))
    }

    /// The state after `remove_edge(e, remaining)`.
    ///
    /// The edge leaves the boundary cycles and the stars that it lay in,
    /// and the last pair of half-edges takes the place of its own. Where
    /// the edge separated two faces, the face of `e` takes over the other
    /// side, unless `remaining` names the face of the twin of `e`, which
    /// then takes over; the other face is dropped and the last face takes
    /// its place.
    pub open spec fn remove_edge(self, e: int, remaining: Option<usize>) -> Self {
        if self.merges_faces(e) {
            self.without_edge(e, remaining).merge_faces(
                self.kept_face(e, remaining),
                self.dropped_face(e, remaining),
            )
        } else {
            self.without_edge(e, remaining)
        }
    }

    /// The star witness after `remove_edge(e, _)`.
    pub open spec fn remove_edge_ranks(self, w: StarRanks, e: int) -> StarRanks {
        self.compact_ranks(self.unlink_ranks(w, e), pair_of(e))
    }

    /// `remove_edge` keeps the mesh consistent.
    pub proof fn lemma_remove_edge(self, w: StarRanks, e: int, remaining: Option<usize>)
        requires
            self.links_ok(),
            self.stars_ranked(w),
            self.has_edge(e),
            self.edges.len() <= usize::MAX,
            self.faces.len() <= usize::MAX,
        ensures
            self.without_edge(e, remaining).sound_apart(
                -2,
                self.kept_face(e, remaining),
                self.dropped_face(e, remaining),
            ),
            self.remove_edge(e, remaining).links_ok(),
            self.remove_edge(e, remaining).stars_ranked(self.remove_edge_ranks(w, e)),
    {
        let lo = pair_of(e);
        let keep = self.kept_face(e, remaining);
        let gone = self.dropped_face(e, remaining);
        let mu = self.unlink(e, remaining);
        let wu = self.unlink_ranks(w, e);
        self.lemma_neighbours_linked(e);
        self.lemma_unlink_links(e, remaining);
        self.lemma_unlink_stars(w, e, remaining);
        mu.lemma_compact_links(lo, keep, gone);
        mu.lemma_compact_stars(wu, lo, keep, gone);
        let mc = mu.compact(lo);
        if self.merges_faces(e) {
            mc.lemma_merge_links(keep, gone);
            mc.lemma_merge_stars(self.remove_edge_ranks(w, e), keep, gone);
        } else {
            mc.lemma_sound_is_ok(-2, keep);
        }
    }

    /// After the first two steps of the removal of an edge between two
    /// faces, the face that survives names a half-edge, and the boundary
    /// cycle through it holds what both faces had.
    #[verifier::rlimit(60)]
    #[verifier::spinoff_prover]
    pub proof fn lemma_kept_face_ringed(self, e: int, remaining: Option<usize>)
        requires
            self.links_ok(),
            self.has_edge(e),
            self.merges_faces(e),
            self.face_simple(self.face(e)),
            self.face_simple(self.face(self.twin(e))),
            self.edges.len() <= usize::MAX,
        ensures
            self.without_edge(e, remaining).adjacent_edge(self.kept_face(e, remaining)) is Some,
            self.without_edge(e, remaining).face_ringed(
                self.kept_face(e, remaining),
                self.dropped_face(e, remaining),
            ),
    {
        let n = self.edges.len() as int;
        let lo = pair_of(e);
        let t = self.twin(e);
        let keep = self.kept_face(e, remaining);
        let gone = self.dropped_face(e, remaining);
        let mu = self.unlink(e, remaining);
        let mc = mu.compact(lo);
        self.lemma_neighbours_linked(e);
        self.lemma_neighbours_linked(self.prev(e));
        self.lemma_neighbours_linked(self.next(e));
        self.lemma_unlink_links(e, remaining);
        let m = self.lemma_merged_ring(e, remaining);
        assert forall|j: int| 0 <= j < m.len() implies !in_pair(lo, #[trigger] m[j]) by {
            assert(m.contains(m[j]));
            assert(self.has_edge(m[j]));
        }
        let rc = mu.lemma_ring_compact(lo, keep, gone, m);
        let _ = mu.faces[keep];
        let _ = self.faces[keep];
        let a = mc.adjacent_edge(keep).unwrap() as int;
        assert(0 <= a < n - 2 && rc.contains(a)) by {
            if lo != n - 2 {
                assert(self.edge_linked(n - 1));
                assert(self.edge_linked(n - 2));
            }
        }
        let j = choose|j: int| 0 <= j < rc.len() && rc[j] == a;
        lemma_ring_is_orbit(mc.next_table(), rc, j);
        assert forall|i: int| mc.has_edge(i) implies (#[trigger] mc.on_ring(a, i) <==> (mc.face(i)
            == keep || mc.face(i) == gone)) by {
            let x = edge_moved_from(n, lo, i);
            assert(rc.contains(i) <==> m.contains(x));
            assert(self.has_edge(x));
            assert(self.edge_linked(x));
        }
    }

    /// After the first two steps of the removal of an edge between two
    /// faces, the face that survives names a half-edge of the joined
    /// boundary cycle, which holds every half-edge of the face that is given
    /// up.
    #[verifier::rlimit(60)]
    #[verifier::spinoff_prover]
    pub proof fn lemma_kept_ring_takes_in(self, e: int, remaining: Option<usize>)
        requires
            self.links_ok(),
            self.has_edge(e),
            self.merges_faces(e),
            self.face_simple(self.dropped_face(e, remaining)),
            self.on_kept_ring_if_kept(e, remaining, self.edges.len() - 1),
            self.on_kept_ring_if_kept(e, remaining, self.edges.len() - 2),
            self.edges.len() <= usize::MAX,
        ensures
            self.without_edge(e, remaining).ring_takes_in(
                self.kept_face(e, remaining),
                self.dropped_face(e, remaining),
            ),
    {
        let n = self.edges.len() as int;
        let lo = pair_of(e);
        let t = self.twin(e);
        let keep = self.kept_face(e, remaining);
        let gone = self.dropped_face(e, remaining);
        let ke = self.kept_half_edge(e, remaining);
        let ge = if ke == e {
            t
        } else {
            e
        };
        let mu = self.unlink(e, remaining);
        let mc = mu.compact(lo);
        self.lemma_neighbours_linked(e);
        self.lemma_neighbours_linked(t);
        self.lemma_neighbours_linked(self.prev(e));
        self.lemma_neighbours_linked(self.next(e));
        self.lemma_unlink_links(e, remaining);
        let m = self.lemma_joined_ring(e, remaining);
        self.lemma_simple_face_is_ring(gone, ge);
        assert forall|j: int| 0 <= j < m.len() implies !in_pair(lo, #[trigger] m[j]) by {
            assert(m.contains(m[j]));
            assert(self.has_edge(m[j]));
        }
        let rc = mu.lemma_ring_compact(lo, keep, gone, m);
        let _ = mu.faces[keep];
        let _ = self.faces[keep];
        if lo != n - 2 {
            assert(self.edge_linked(n - 1));
            assert(self.edge_linked(n - 2));
            assert(self.on_kept_ring_if_kept(e, remaining, n - 1));
            assert(self.on_kept_ring_if_kept(e, remaining, n - 2));
            assert(mu.face(n - 1) == keep ==> m.contains(n - 1));
            assert(mu.face(n - 2) == keep ==> m.contains(n - 2));
        }
        let a = mc.adjacent_edge(keep).unwrap() as int;
        assert(0 <= a < n - 2 && rc.contains(a));
        let j = choose|j: int| 0 <= j < rc.len() && rc[j] == a;
        lemma_ring_is_orbit(mc.next_table(), rc, j);
        assert forall|i: int| mc.has_edge(i) implies (mc.face(i) == gone ==> #[trigger] mc.on_ring(
            a,
            i,
        )) && (mc.on_ring(a, i) ==> mc.face(i) == keep || mc.face(i) == gone) by {
            let x = edge_moved_from(n, lo, i);
            assert(rc.contains(i) <==> m.contains(x));
            assert(reaches(mc.next_table(), rc[j], i) <==> rc.contains(i));
            assert(self.has_edge(x));
            assert(self.edge_linked(x));
            assert(self.on_ring(ge, x) <==> self.face(x) == gone);
            if m.contains(x) {
                assert(self.face(x) == self.face(e) || self.face(x) == self.face(t));
            }
        }
    }

    /// After the first two steps of the removal, a face on neither side of
    /// the edge that had a single boundary cycle still has one.
    #[verifier::rlimit(60)]
    #[verifier::spinoff_prover]
    pub proof fn lemma_other_face_ringed(self, e: int, remaining: Option<usize>, f: int)
        requires
            self.links_ok(),
            self.has_edge(e),
            self.has_face(f),
            f != self.face(e),
            f != self.face(self.twin(e)),
            self.face_simple(f),
            self.edges.len() <= usize::MAX,
        ensures
            self.without_edge(e, remaining).face_ringed(f, f),
    {
        let n = self.edges.len() as int;
        let lo = pair_of(e);
        let t = self.twin(e);
        let keep = self.kept_face(e, remaining);
        let gone = self.dropped_face(e, remaining);
        let mu = self.unlink(e, remaining);
        let mc = mu.compact(lo);
        self.lemma_neighbours_linked(e);
        self.lemma_neighbours_linked(self.prev(e));
        self.lemma_neighbours_linked(self.next(e));
        self.lemma_unlink_links(e, remaining);
        self.lemma_tables();
        let _ = mu.faces[f];
        let _ = self.faces[f];
        if lo != n - 2 {
            assert(self.edge_linked(n - 1));
            assert(self.edge_linked(n - 2));
        }
        match self.adjacent_edge(f) {
            None => {
                assert forall|i: int| mc.has_edge(i) implies #[trigger] mc.face(i) != f by {
                    let x = edge_moved_from(n, lo, i);
                    assert(self.face(x) != f);
                }
                assert(self.face(n - 1) != f);
                assert(self.face(n - 2) != f);
                assert(mc.adjacent_edge(f) is None);
            },
            Some(a0) => {
                let a0 = a0 as int;
                let r = lemma_ring_exists(self.next_table(), self.prev_table(), a0);
                assert(r.contains(r[0]));
                self.lemma_simple_ring(f, a0, r);
                self.lemma_ring_survives_unlink(e, remaining, r);
                assert forall|j: int| 0 <= j < r.len() implies !in_pair(lo, #[trigger] r[j]) by {
                    assert(r.contains(r[j]));
                }
                let rc = mu.lemma_ring_compact(lo, keep, gone, r);
                let a = mc.adjacent_edge(f).unwrap() as int;
                assert(0 <= a < n - 2 && rc.contains(a));
                let j = choose|j: int| 0 <= j < rc.len() && rc[j] == a;
                lemma_ring_is_orbit(mc.next_table(), rc, j);
                assert forall|i: int| mc.has_edge(i) implies (#[trigger] mc.on_ring(a, i)
                    <==> mc.face(i) == f) by {
                    let x = edge_moved_from(n, lo, i);
                    assert(rc.contains(i) <==> r.contains(x));
                    assert(self.has_edge(x));
                }
            },
        }
    }
}

impl<V, E> Mesh<V, E> {
    /// `swap_out_edge(h)` finds every record that it touches.
    pub open spec fn can_swap_out(self, h: int) -> bool {
        let last = self.edges.len() - 1;
        let moved = self.edges[last];
        &&& 0 <= h <= last
        &&& h != last ==> moved.next < last && moved.prev < last && moved.twin < last
            && moved.origin < self.vertices.len() && moved.face < self.faces.len()
    }

    /// The two half-edges of a pair that nothing refers to can be swapped
    /// out, the upper one first.
    pub proof fn lemma_swap_out_bounds(self, lo: int, keep: int, gone: int)
        requires
            self.sound_apart(lo, keep, gone),
            0 <= lo,
            lo + 2 <= self.edges.len(),
            self.edges.len() <= usize::MAX,
        ensures
            self.can_swap_out(lo + 1),
            self.swap_out_edge(lo + 1).can_swap_out(lo),
    {
        let n = self.edges.len() as int;
        if lo != n - 2 {
            assert(self.live_linked(lo, keep, gone, n - 1));
            assert(self.live_linked(lo, keep, gone, n - 2));
            assert(self.live_linked(lo, keep, gone, self.next(n - 2)));
            assert(self.live_linked(lo, keep, gone, self.prev(n - 2)));
        }
    }

    /// In a sound mesh with nothing set apart `next` and `prev` are
    /// permutations, and every face but one that is given up names a
    /// half-edge that exists.
    pub proof fn lemma_sound_permutes(self, keep: int, gone: int)
        requires
            self.sound_apart(-2, keep, gone),
        ensures
            self.links_permute(),
    {
        let succ = self.next_table();
        let pred = self.prev_table();
        assert forall|i: int| 0 <= i < succ.len() implies #[trigger] perm_at(succ, pred, i) by {
            assert(self.live_linked(-2, keep, gone, i));
        }
    }
}

impl<V, E> Mesh<V, E> {
    /// Taking out an edge that ends in a vertex of degree one shortens the
    /// boundary cycle that it lies on by its two half-edges. Here `d` is
    /// the half-edge of the edge that leads to that vertex.
    #[verifier::rlimit(60)]
    #[verifier::spinoff_prover]
    pub proof fn lemma_spur_ring(self, e: int, remaining: Option<usize>, d: int) -> (r: Seq<int>)
        requires
            self.links_ok(),
            self.has_edge(e),
            d == e || d == self.twin(e),
            self.next(d) == self.twin(d),
            self.prev(d) != self.twin(d),
            self.face_simple(self.face(e)),
        ensures
            is_ring(self.unlink(e, remaining).next_table(), r),
            r.contains(self.new_adjacent(e)),
            forall|x: int|
                self.has_edge(x) ==> (r.contains(x) <==> x != e && x != self.twin(e) && self.face(x)
                    == self.face(e)),
    {
        let mu = self.unlink(e, remaining);
        let t = self.twin(e);
        let succ = self.next_table();
        let pred = self.prev_table();
        let succ1 = mu.next_table();
        self.lemma_tables();
        self.lemma_neighbours_linked(e);
        self.lemma_neighbours_linked(t);
        self.lemma_neighbours_linked(self.prev(e));
        self.lemma_neighbours_linked(self.prev(t));
        let rd = lemma_ring_exists(succ, pred, d);
        assert(rd.contains(rd[0]));
        self.lemma_simple_ring(self.face(e), d, rd);
        lemma_ring_pred(succ, pred, rd, 0);
        lemma_ring_succ(succ, rd, 0);
        assert(rd.len() >= 2);
        assert(rd[1] == self.twin(d));
        lemma_ring_succ(succ, rd, 1);
        assert(rd.len() >= 3);
        assert(rd.last() == self.prev(d));
        assert(rd[2] == self.next(self.twin(d)));
        let r = rd.subrange(2, rd.len() as int);
        assert forall|j: int| 0 <= j < r.len() implies 0 <= #[trigger] r[j] < succ1.len() && r[j]
            != e && r[j] != t && self.face(r[j]) == self.face(e) by {
            assert(r[j] == rd[j + 2]);
            assert(rd.contains(rd[j + 2]));
        }
        assert forall|i: int, j: int| 0 <= i < r.len() && 0 <= j < r.len() && i != j implies r[i]
            != r[j] by {
            assert(r[i] == rd[i + 2] && r[j] == rd[j + 2]);
        }
        assert forall|j: int| 0 <= j < r.len() - 1 implies #[trigger] succ1[r[j]] == r[j + 1] by {
            assert(0 <= r[j] < succ1.len());
            assert(succ[rd[j + 2]] == rd[j + 3]);
        }
        assert(succ1[r.last()] == r[0]) by {
            assert(0 <= r[r.len() - 1] < succ1.len());
        }
        assert forall|x: int| self.has_edge(x) implies (r.contains(x) <==> x != e && x != t
            && self.face(x) == self.face(e)) by {
            if r.contains(x) {
                let j = choose|j: int| 0 <= j < r.len() && r[j] == x;
                assert(0 <= r[j] < succ1.len());
            }
            if x != e && x != t && self.face(x) == self.face(e) {
                assert(rd.contains(x));
                let j = choose|j: int| 0 <= j < rd.len() && rd[j] == x;
                assert(r[j - 2] == x);
            }
        }
        assert(self.has_edge(self.new_adjacent(e)));
        r
    }

    /// After the first two steps of the removal of an edge with the same
    /// face on both sides and a vertex of degree one at an end, that face
    /// still has a single boundary cycle, or none.
    #[verifier::rlimit(60)]
    #[verifier::spinoff_prover]
    pub proof fn lemma_dangling_face_ringed(self, e: int, remaining: Option<usize>)
        requires
            self.links_ok(),
            self.has_edge(e),
            !self.merges_faces(e),
            !self.is_bridge(e),
            self.face_simple(self.face(e)),
            self.edges.len() <= usize::MAX,
        ensures
            self.without_edge(e, remaining).face_ringed(self.face(e), self.face(e)),
    {
        let n = self.edges.len() as int;
        let lo = pair_of(e);
        let t = self.twin(e);
        let keep = self.kept_face(e, remaining);
        let gone = self.dropped_face(e, remaining);
        let mu = self.unlink(e, remaining);
        let mc = mu.compact(lo);
        self.lemma_tables();
        self.lemma_neighbours_linked(e);
        self.lemma_neighbours_linked(t);
        self.lemma_neighbours_linked(self.prev(e));
        self.lemma_neighbours_linked(self.next(e));
        self.lemma_unlink_links(e, remaining);
        let _ = mu.faces[keep];
        let _ = self.faces[keep];
        if lo != n - 2 {
            assert(self.edge_linked(n - 1));
            assert(self.edge_linked(n - 2));
        }
        if self.is_lone_edge(e) {
            let re = lemma_ring_exists(self.next_table(), self.prev_table(), e);
            assert(re.contains(re[0]));
            self.lemma_simple_ring(keep, e, re);
            lemma_ring_succ(self.next_table(), re, 0);
            assert(re.len() >= 2);
            lemma_ring_succ(self.next_table(), re, 1);
            assert(re.len() == 2);
            assert forall|x: int| self.has_edge(x) && x != e && x != t implies self.face(x)
                != keep by {
                if self.face(x) == keep {
                    assert(re.contains(x));
                }
            }
            assert forall|i: int| mc.has_edge(i) implies #[trigger] mc.face(i) != keep by {
                let x = edge_moved_from(n, lo, i);
                assert(self.has_edge(x) && x != e && x != t);
            }
            if lo != n - 2 {
                assert(self.face(n - 1) != keep);
                assert(self.face(n - 2) != keep);
                assert(mu.face(n - 1) != keep);
                assert(mu.face(n - 2) != keep);
            }
            assert(mu.adjacent_edge(keep) is None);
            assert(mc.adjacent_edge(keep) is None);
        } else {
            let d = if self.next(e) == t {
                e
            } else {
                t
            };
            let r = self.lemma_spur_ring(e, remaining, d);
            assert forall|j: int| 0 <= j < r.len() implies !in_pair(lo, #[trigger] r[j]) by {
                assert(r.contains(r[j]));
                assert(self.has_edge(r[j]));
            }
            let rc = mu.lemma_ring_compact(lo, keep, gone, r);
            let a = mc.adjacent_edge(keep).unwrap() as int;
            assert(0 <= a < n - 2 && rc.contains(a));
            let j = choose|j: int| 0 <= j < rc.len() && rc[j] == a;
            lemma_ring_is_orbit(mc.next_table(), rc, j);
            assert forall|i: int| mc.has_edge(i) implies (#[trigger] mc.on_ring(a, i) <==> mc.face(
                i,
            ) == keep) by {
                let x = edge_moved_from(n, lo, i);
                assert(rc.contains(i) <==> r.contains(x));
                assert(self.has_edge(x));
                assert(self.edge_linked(x));
            }
        }
    }

    /// Merging two faces whose boundary cycles were joined leaves faces
    /// with a single boundary cycle each.
    pub proof fn lemma_merge_simple(self, keep: int, gone: int)
        requires
            self.sound_apart(-2, keep, gone),
            keep != gone,
            self.has_face(keep),
            self.has_face(gone),
            self.faces.len() <= usize::MAX,
            self.face_ringed(keep, gone),
            forall|f: int|
                self.has_face(f) && f != keep && f != gone ==> #[trigger] self.face_simple(f),
        ensures
            self.merge_faces(keep, gone).faces_simple(),
    {
        let nf = self.faces.len() as int;
        let mm = self.merge_faces(keep, gone);
        assert(mm.next_table() =~= self.next_table());
        assert forall|g: int| mm.has_face(g) implies #[trigger] mm.face_simple(g) by {
            let f = face_moved_from(nf, gone, g);
            let _ = self.faces[f];
            if f != keep {
                assert(self.face_simple(f));
            }
            match mm.adjacent_edge(g) {
                Some(a) => {
                    assert forall|x: int| mm.has_edge(x) implies (#[trigger] mm.on_ring(a as int, x)
                        <==> mm.face(x) == g) by {
                        assert(self.live_linked(-2, keep, gone, x));
                        assert(self.on_ring(a as int, x) <==> (self.face(x) == f || self.face(x)
                            == (if f == keep {
                            gone
                        } else {
                            f
                        })));
                    }
                },
                None => {
                    assert forall|x: int| mm.has_edge(x) implies #[trigger] mm.face(x) != g by {
                        assert(self.live_linked(-2, keep, gone, x));
                        assert(self.face(x) != f);
                    }
                },
            }
        }
    }

    /// Removing an edge that is no bridge leaves faces with a single
    /// boundary cycle each, if all faces had one.
    pub proof fn lemma_remove_edge_simple(self, w: StarRanks, e: int, remaining: Option<usize>)
        requires
            self.links_ok(),
            self.stars_ranked(w),
            self.has_edge(e),
            self.edges.len() <= usize::MAX,
            self.faces.len() <= usize::MAX,
            self.faces_simple(),
            !self.is_bridge(e),
        ensures
            self.remove_edge(e, remaining).faces_simple(),
    {
        let keep = self.kept_face(e, remaining);
        let gone = self.dropped_face(e, remaining);
        let mc = self.without_edge(e, remaining);
        let t = self.twin(e);
        self.lemma_neighbours_linked(e);
        self.lemma_remove_edge(w, e, remaining);
        assert(self.face_simple(self.face(e)));
        assert(self.face_simple(self.face(t)));
        assert forall|f: int| self.has_face(f) && f != self.face(e) && f != self.face(
            t,
        ) implies #[trigger] mc.face_simple(f) by {
            assert(self.face_simple(f));
            self.lemma_other_face_ringed(e, remaining, f);
        }
        if self.merges_faces(e) {
            self.lemma_kept_face_ringed(e, remaining);
            mc.lemma_merge_simple(keep, gone);
        } else {
            self.lemma_dangling_face_ringed(e, remaining);
        }
    }
}

impl<V, E> Mesh<V, E> {
    /// No two half-edges that leave vertex `v` border the same face.
    pub open spec fn corners_distinct(self, v: int) -> bool {
        forall|x: int, y: int| #[trigger] self.leave_both(v, x, y) ==> self.face(x) != self.face(y)
    }

    /// `x` and `y` are two different half-edges that leave vertex `v`.
    pub open spec fn leave_both(self, v: int, x: int, y: int) -> bool {
        self.has_edge(x) && self.has_edge(y) && x != y && self.origin(x) == v && self.origin(y)
            == v
    }

    /// Half-edge `x` leads to a vertex that has no other edge.
    pub open spec fn is_leaf_spur(self, x: int) -> bool {
        self.next(x) == self.twin(x)
    }

    /// Of any two half-edges that leave vertex `v` and border the same face,
    /// one leads to a vertex that has no other edge.
    pub open spec fn corners_distinct_but_leaves(self, v: int) -> bool {
        forall|x: int, y: int|
            #[trigger] self.leave_both(v, x, y) && self.face(x) == self.face(y)
                ==> self.is_leaf_spur(x) || self.is_leaf_spur(y)
    }

    /// Half-edge `x` leaves vertex `v`.
    pub open spec fn leaves(self, v: int, x: int) -> bool {
        self.has_edge(x) && self.origin(x) == v
    }

    /// Every edge at vertex `v` has the same face on both sides.
    pub open spec fn corners_unseparated(self, v: int) -> bool {
        forall|x: int| #[trigger] self.leaves(v, x) ==> self.face(x) == self.face(self.twin(x))
    }

    /// The mesh with every half-edge in the star through `a` starting at
    /// vertex `v`.
    pub open spec fn with_star_origin(self, a: int, v: int) -> Self {
        Mesh {
            vertices: self.vertices,
            faces: self.faces,
            edges: Seq::new(
                self.edges.len(),
                |x: int|
                    HalfEdgeEntry {
                        next: self.edges[x].next,
                        prev: self.edges[x].prev,
                        twin: self.edges[x].twin,
                        origin: if self.in_star(a, x) {
                            v as usize
                        } else {
                            self.edges[x].origin
                        },
                        face: self.edges[x].face,
                        data: self.edges[x].data,
                    },
            ),
        }
    }

    /// The state after all edges at vertex `v` were removed, one by one,
    /// each time the edge of the half-edge that the vertex names.
    pub open spec fn strip_vertex(self, v: int, remaining: Option<usize>) -> Self
        decreases self.edges.len(),
    {
        match self.out_edge(v) {
            Some(o) => if self.edges.len() >= 2 {
                self.remove_edge(o as int, remaining).strip_vertex(v, remaining)
            } else {
                self
            },
            None => self,
        }
    }

    /// All edges at vertex `v` can be removed one by one, each time the edge
    /// of the half-edge that the vertex names: each removal in turn has
    /// what `can_remove_edge` asks for.
    ///
    /// This holds where all faces have a single boundary cycle and no two
    /// half-edges that leave `v` border the same face, unless one of them is
    /// a leaf spur, as at a vertex of a triangulation; and where every edge
    /// at `v` has the same face on both sides, as at a vertex of a tree or
    /// at an isolated vertex.
    pub open spec fn can_strip_vertex(self, v: int, remaining: Option<usize>) -> bool
        decreases self.edges.len(),
    {
        match self.out_edge(v) {
            Some(o) => if self.edges.len() >= 2 {
                self.can_remove_edge(o as int, remaining) && self.remove_edge(
                    o as int,
                    remaining,
                ).can_strip_vertex(v, remaining)
            } else {
                true
            },
            None => true,
        }
    }

    /// The state after the isolated vertex `v` was dropped from the array:
    /// the last vertex takes its place, and the half-edges that left the
    /// last vertex leave `v`.
    pub open spec fn drop_vertex(self, v: int) -> Self {
        let last = self.vertices.len() - 1;
        Mesh {
            vertices: self.vertices.update(v, self.vertices[last]).drop_last(),
            faces: self.faces,
            edges: Seq::new(
                self.edges.len(),
                |x: int|
                    HalfEdgeEntry {
                        next: self.edges[x].next,
                        prev: self.edges[x].prev,
                        twin: self.edges[x].twin,
                        origin: if self.origin(x) == last {
                            v as usize
                        } else {
                            self.edges[x].origin
                        },
                        face: self.edges[x].face,
                        data: self.edges[x].data,
                    },
            ),
        }
    }

    /// The star witness after `drop_vertex(v)`.
    pub open spec fn drop_vertex_ranks(self, w: StarRanks, v: int) -> StarRanks {
        StarRanks { rank: w.rank, root: w.root.update(v, w.root.last()).drop_last() }
    }

    /// The state after `remove_vertex(v, remaining)`.
    pub open spec fn remove_vertex(self, v: int, remaining: Option<usize>) -> Self {
        self.strip_vertex(v, remaining).drop_vertex(v)
    }

    /// A walk counterclockwise around a vertex stays at that vertex.
    pub proof fn lemma_walk_same_origin(self, a: int, k: nat)
        requires
            self.links_ok(),
            self.has_edge(a),
        ensures
            self.has_edge(iterate(self.ccw_table(), a, k)),
            self.origin(iterate(self.ccw_table(), a, k)) == self.origin(a),
        decreases k,
    {
        if k > 0 {
            self.lemma_walk_same_origin(a, (k - 1) as nat);
            self.lemma_neighbours_linked(iterate(self.ccw_table(), a, (k - 1) as nat));
        }
    }

    /// The star through a half-edge holds the root of its origin.
    pub proof fn lemma_root_in_star(self, w: StarRanks, r: Seq<int>, z: int)
        requires
            self.links_ok(),
            self.stars_ranked(w),
            is_ring(self.ccw_table(), r),
            r.contains(z),
        ensures
            r.contains(w.root[self.origin(z)]),
        decreases w.rank[z],
    {
        self.lemma_tables();
        let i = choose|i: int| 0 <= i < r.len() && r[i] == z;
        assert(self.has_edge(r[i]));
        self.lemma_neighbours_linked(z);
        assert(self.star_step(w, z));
        if w.rank[z] != 0 {
            lemma_ring_pred(self.ccw_table(), self.cw_table(), r, i);
            let h = if i == 0 {
                r.len() - 1
            } else {
                i - 1
            };
            assert(r[h] == self.cw(z));
            self.lemma_root_in_star(w, r, self.cw(z));
        }
    }

    /// A star that holds the root of a vertex holds every half-edge that
    /// leaves the vertex.
    pub proof fn lemma_star_from_root(self, w: StarRanks, r: Seq<int>, y: int)
        requires
            self.links_ok(),
            self.stars_ranked(w),
            is_ring(self.ccw_table(), r),
            self.has_edge(y),
            r.contains(w.root[self.origin(y)]),
        ensures
            r.contains(y),
        decreases w.rank[y],
    {
        self.lemma_neighbours_linked(y);
        assert(self.star_step(w, y));
        if w.rank[y] != 0 {
            self.lemma_star_from_root(w, r, self.cw(y));
            let i = choose|i: int| 0 <= i < r.len() && r[i] == self.cw(y);
            lemma_ring_succ(self.ccw_table(), r, i);
            assert(r[ring_after(i, r.len() as int)] == y);
        }
    }

    /// The star through a half-edge holds exactly the half-edges that leave
    /// its origin.
    pub proof fn lemma_star_covers(self, w: StarRanks, a: int)
        requires
            self.links_ok(),
            self.stars_ranked(w),
            self.has_edge(a),
        ensures
            forall|x: int|
                self.has_edge(x) ==> (#[trigger] self.in_star(a, x) <==> self.origin(x)
                    == self.origin(a)),
    {
        self.lemma_tables();
        let r = lemma_ring_exists(self.ccw_table(), self.cw_table(), a);
        lemma_ring_is_orbit(self.ccw_table(), r, 0);
        assert(r.contains(r[0]));
        self.lemma_root_in_star(w, r, a);
        assert forall|x: int| self.has_edge(x) implies (#[trigger] self.in_star(a, x)
            <==> self.origin(x) == self.origin(a)) by {
            if self.in_star(a, x) {
                let k = choose|k: nat| iterate(self.ccw_table(), a, k) == x;
                self.lemma_walk_same_origin(a, k);
            }
            if self.origin(x) == self.origin(a) {
                self.lemma_star_from_root(w, r, x);
                assert(reaches(self.ccw_table(), r[0], x));
            }
        }
    }

    /// Dropping an isolated vertex keeps the mesh consistent.
    pub proof fn lemma_drop_vertex(self, w: StarRanks, v: int)
        requires
            self.links_ok(),
            self.stars_ranked(w),
            self.has_vertex(v),
            self.is_isolated(v),
            self.vertices.len() <= usize::MAX,
        ensures
            self.drop_vertex(v).links_ok(),
            self.drop_vertex(v).stars_ranked(self.drop_vertex_ranks(w, v)),
    {
        let md = self.drop_vertex(v);
        let wd = self.drop_vertex_ranks(w, v);
        let last = self.vertices.len() - 1;
        assert forall|x: int| md.has_edge(x) implies #[trigger] md.edge_linked(x) by {
            self.lemma_neighbours_linked(x);
            assert(self.star_step(w, x));
            assert(self.star_step(w, self.twin(x)));
            assert(self.star_step(w, self.next(x)));
        }
        assert forall|u: int| #![trigger md.vertices[u]] md.has_vertex(u) implies (md.out_edge(
            u,
        ) matches Some(y) ==> y < md.edges.len() && md.edges[y as int].origin == u) by {
            let _ = self.vertices[u];
            let _ = self.vertices[last];
            if let Some(y) = md.out_edge(u) {
                assert(self.star_step(w, y as int));
            }
        }
        assert forall|f: int| #![trigger md.faces[f]] md.has_face(f) implies (md.adjacent_edge(
            f,
        ) matches Some(y) ==> y < md.edges.len() && md.edges[y as int].face == f) by {
            let _ = self.faces[f];
        }
        assert forall|x: int| md.has_edge(x) implies #[trigger] md.star_step(wd, x) by {
            self.lemma_neighbours_linked(x);
            assert(self.star_step(w, x));
            assert(self.star_step(w, self.cw(x)));
        }
    }

    /// Where no two half-edges that leave a vertex border the same face, two
    /// that remain after the removal of the edge of another one border
    /// different faces.
    #[verifier::rlimit(60)]
    #[verifier::spinoff_prover]
    pub proof fn lemma_corner_pair(self, o: int, remaining: Option<usize>, i: int, j: int)
        requires
            self.links_ok(),
            self.has_edge(o),
            self.corners_distinct(self.origin(o)),
            self.edges.len() <= usize::MAX,
            self.faces.len() <= usize::MAX,
            self.remove_edge(o, remaining).leave_both(self.origin(o), i, j),
        ensures
            self.remove_edge(o, remaining).face(i) != self.remove_edge(o, remaining).face(j),
    {
        let n = self.edges.len() as int;
        let v = self.origin(o);
        let t = self.twin(o);
        let lo = pair_of(o);
        let mu = self.unlink(o, remaining);
        let mc = mu.compact(lo);
        self.lemma_neighbours_linked(o);
        self.lemma_neighbours_linked(t);
        self.lemma_neighbours_linked(self.prev(o));
        self.lemma_neighbours_linked(self.next(o));
        let c = self.cw(o);
        let x = edge_moved_from(n, lo, i);
        let y = edge_moved_from(n, lo, j);
        assert(self.has_edge(x) && self.has_edge(y) && x != y);
        assert(mc.origin(i) == self.origin(x));
        assert(mc.origin(j) == self.origin(y));
        assert(self.leave_both(v, x, y));
        assert(self.leave_both(v, x, o));
        assert(self.leave_both(v, y, o));
        if x != c && c != o {
            assert(self.leave_both(v, x, c));
        }
        if y != c && c != o {
            assert(self.leave_both(v, y, c));
        }
        self.lemma_neighbours_linked(x);
        self.lemma_neighbours_linked(y);
        assert(x != self.new_adjacent(o));
        assert(y != self.new_adjacent(o));
        assert(mc.face(i) == self.face(x));
        assert(mc.face(j) == self.face(y));
    }

    /// Where no two half-edges that leave a vertex border the same face, the
    /// edge of each of them is no bridge, and after its removal the
    /// remaining ones still border different faces.
    pub proof fn lemma_corners_after_removal(self, o: int, remaining: Option<usize>)
        requires
            self.links_ok(),
            self.has_edge(o),
            self.corners_distinct(self.origin(o)),
            self.edges.len() <= usize::MAX,
            self.faces.len() <= usize::MAX,
        ensures
            !self.is_bridge(o),
            self.remove_edge(o, remaining).corners_distinct(self.origin(o)),
    {
        let v = self.origin(o);
        let done = self.remove_edge(o, remaining);
        self.lemma_neighbours_linked(o);
        self.lemma_neighbours_linked(self.twin(o));
        let c = self.cw(o);
        if c != o {
            assert(self.leave_both(v, o, c));
        }
        assert forall|i: int, j: int| #[trigger] done.leave_both(v, i, j) implies done.face(i)
            != done.face(j) by {
            self.lemma_corner_pair(o, remaining, i, j);
        }
    }

    /// Where every edge at a vertex has the same face on both sides, the
    /// removal of one of them merges no faces, and the others still have
    /// the same face on both sides.
    #[verifier::rlimit(60)]
    #[verifier::spinoff_prover]
    pub proof fn lemma_unseparated_after_removal(self, o: int, remaining: Option<usize>)
        requires
            self.links_ok(),
            self.has_edge(o),
            self.corners_unseparated(self.origin(o)),
            self.edges.len() <= usize::MAX,
            self.faces.len() <= usize::MAX,
        ensures
            !self.merges_faces(o),
            self.remove_edge(o, remaining).corners_unseparated(self.origin(o)),
    {
        let n = self.edges.len() as int;
        let v = self.origin(o);
        let t = self.twin(o);
        let lo = pair_of(o);
        let mu = self.unlink(o, remaining);
        let done = self.remove_edge(o, remaining);
        self.lemma_neighbours_linked(o);
        self.lemma_neighbours_linked(t);
        self.lemma_neighbours_linked(self.prev(o));
        self.lemma_neighbours_linked(self.next(o));
        assert(self.leaves(v, o));
        assert forall|i: int| #[trigger] done.leaves(v, i) implies done.face(i) == done.face(
            done.twin(i),
        ) by {
            let x = edge_moved_from(n, lo, i);
            self.lemma_neighbours_linked(x);
            assert(self.leaves(v, x));
            let y = self.twin(x);
            assert(edge_moved_from(n, lo, edge_moved_to(n, lo, y)) == y);
            assert(done.twin(i) == edge_moved_to(n, lo, y));
            assert(mu.face(x) == self.face(x));
            assert(mu.face(y) == self.face(y));
        }
    }

    /// Where all faces have a single boundary cycle, every edge can be
    /// removed.
    pub proof fn lemma_simple_faces_allow_removal(self, e: int, remaining: Option<usize>)
        requires
            self.links_ok(),
            self.has_edge(e),
            self.faces_simple(),
        ensures
            self.can_remove_edge(e, remaining),
    {
        let keep = self.kept_face(e, remaining);
        let ke = self.kept_half_edge(e, remaining);
        self.lemma_neighbours_linked(e);
        self.lemma_neighbours_linked(self.twin(e));
        assert(self.face_simple(self.dropped_face(e, remaining)));
        assert(self.face_simple(self.faces.len() - 1));
        assert(self.face_simple(keep));
        self.lemma_simple_face_is_ring(keep, ke);
    }

    /// Where every edge at vertex `v` has the same face on both sides, all
    /// edges at `v` can be removed one by one.
    pub proof fn lemma_can_strip_unseparated(self, w: StarRanks, v: int, remaining: Option<usize>)
        requires
            self.links_ok(),
            self.stars_ranked(w),
            self.has_vertex(v),
            self.corners_unseparated(v),
            self.edges.len() <= usize::MAX,
            self.faces.len() <= usize::MAX,
        ensures
            self.can_strip_vertex(v, remaining),
        decreases self.edges.len(),
    {
        let _ = self.vertices[v];
        if let Some(o) = self.out_edge(v) {
            let o = o as int;
            self.lemma_neighbours_linked(o);
            self.lemma_unseparated_after_removal(o, remaining);
            self.lemma_remove_edge(w, o, remaining);
            let next = self.remove_edge(o, remaining);
            next.lemma_can_strip_unseparated(self.remove_edge_ranks(w, o), v, remaining);
        }
    }

    /// Where of any two half-edges that leave a vertex and border the same
    /// face one is a leaf spur, the same holds of two that remain after the
    /// removal of the edge of another one, unless that edge is a bridge.
    #[verifier::rlimit(80)]
    #[verifier::spinoff_prover]
    pub proof fn lemma_leafy_corner_pair(self, o: int, remaining: Option<usize>, i: int, j: int)
        requires
            self.links_ok(),
            self.has_edge(o),
            self.corners_distinct_but_leaves(self.origin(o)),
            !self.is_bridge(o),
            self.edges.len() <= usize::MAX,
            self.faces.len() <= usize::MAX,
            self.remove_edge(o, remaining).leave_both(self.origin(o), i, j),
            self.remove_edge(o, remaining).face(i) == self.remove_edge(o, remaining).face(j),
        ensures
            self.remove_edge(o, remaining).is_leaf_spur(i) || self.remove_edge(
                o,
                remaining,
            ).is_leaf_spur(j),
    {
        let n = self.edges.len() as int;
        let v = self.origin(o);
        let t = self.twin(o);
        let lo = pair_of(o);
        let mu = self.unlink(o, remaining);
        let mc = mu.compact(lo);
        let done = self.remove_edge(o, remaining);
        self.lemma_neighbours_linked(o);
        self.lemma_neighbours_linked(t);
        self.lemma_neighbours_linked(self.prev(o));
        self.lemma_neighbours_linked(self.next(o));
        self.lemma_neighbours_linked(self.prev(t));
        let x = edge_moved_from(n, lo, i);
        let y = edge_moved_from(n, lo, j);
        assert(self.has_edge(x) && self.has_edge(y) && x != y);
        assert(mc.origin(i) == self.origin(x));
        assert(mc.origin(j) == self.origin(y));
        assert(self.leave_both(v, x, y));
        assert(self.leave_both(v, x, o));
        assert(self.leave_both(v, y, o));
        assert(self.leave_both(v, o, x));
        assert(self.leave_both(v, o, y));
        self.lemma_neighbours_linked(x);
        self.lemma_neighbours_linked(y);
        self.lemma_neighbours_linked(self.twin(x));
        self.lemma_neighbours_linked(self.twin(y));
        assert(x != self.new_adjacent(o));
        assert(y != self.new_adjacent(o));
        assert(mc.face(i) == self.face(x));
        assert(mc.face(j) == self.face(y));
        assert(edge_moved_from(n, lo, edge_moved_to(n, lo, self.twin(x))) == self.twin(x));
        assert(edge_moved_from(n, lo, edge_moved_to(n, lo, self.twin(y))) == self.twin(y));
        assert(done.twin(i) == edge_moved_to(n, lo, self.twin(x)));
        assert(done.twin(j) == edge_moved_to(n, lo, self.twin(y)));
        if self.is_leaf_spur(x) {
            assert(mu.next(x) == self.next(x));
            assert(done.next(i) == edge_moved_to(n, lo, self.next(x)));
        }
        if self.is_leaf_spur(y) {
            assert(mu.next(y) == self.next(y));
            assert(done.next(j) == edge_moved_to(n, lo, self.next(y)));
        }
        if self.is_leaf_spur(o) {
            assert(!self.merges_faces(o));
        }
    }

    /// Where of any two half-edges that leave a vertex and border the same
    /// face one is a leaf spur, and one of the half-edges that leave the
    /// vertex has the same face on both sides and is no leaf spur, every
    /// edge at the vertex has the same face on both sides: the walk
    /// clockwise around the vertex finds leaf spurs only.
    pub proof fn lemma_flat_walk(self, o: int, k: nat)
        requires
            self.links_ok(),
            self.has_edge(o),
            self.corners_distinct_but_leaves(self.origin(o)),
            !self.merges_faces(o),
            !self.is_leaf_spur(o),
        ensures
            self.has_edge(iterate(self.cw_table(), o, k)),
            self.origin(iterate(self.cw_table(), o, k)) == self.origin(o),
            self.face(iterate(self.cw_table(), o, k)) == self.face(o),
            self.face(self.twin(iterate(self.cw_table(), o, k))) == self.face(o),
        decreases k,
    {
        self.lemma_neighbours_linked(o);
        if k > 0 {
            self.lemma_flat_walk(o, (k - 1) as nat);
            let before = iterate(self.cw_table(), o, (k - 1) as nat);
            let x = iterate(self.cw_table(), o, k);
            self.lemma_neighbours_linked(before);
            self.lemma_neighbours_linked(self.twin(before));
            assert(x == self.cw(before));
            self.lemma_neighbours_linked(x);
            if x != o {
                assert(self.leave_both(self.origin(o), o, x));
            }
        }
    }

    /// Where all faces have a single boundary cycle and, of any two
    /// half-edges that leave vertex `v` and border the same face, one is a
    /// leaf spur, all edges at `v` can be removed one by one.
    pub proof fn lemma_can_strip_leafy(self, w: StarRanks, v: int, remaining: Option<usize>)
        requires
            self.links_ok(),
            self.stars_ranked(w),
            self.has_vertex(v),
            self.faces_simple(),
            self.corners_distinct_but_leaves(v),
            self.edges.len() <= usize::MAX,
            self.faces.len() <= usize::MAX,
        ensures
            self.can_strip_vertex(v, remaining),
        decreases self.edges.len(),
    {
        let _ = self.vertices[v];
        if let Some(o) = self.out_edge(v) {
            let o = o as int;
            self.lemma_neighbours_linked(o);
            if self.is_bridge(o) {
                self.lemma_tables();
                self.lemma_star_covers(w, o);
                lemma_inverse_is_permutation(self.ccw_table(), self.cw_table());
                assert forall|x: int| #[trigger] self.leaves(v, x) implies self.face(x)
                    == self.face(self.twin(x)) by {
                    assert(self.in_star(o, x));
                    lemma_reaches_back(self.ccw_table(), self.cw_table(), o, x);
                    let k = choose|k: nat| iterate(self.cw_table(), o, k) == x;
                    self.lemma_flat_walk(o, k);
                }
                self.lemma_can_strip_unseparated(w, v, remaining);
            } else {
                self.lemma_simple_faces_allow_removal(o, remaining);
                self.lemma_remove_edge(w, o, remaining);
                self.lemma_remove_edge_simple(w, o, remaining);
                let next = self.remove_edge(o, remaining);
                assert forall|i: int, j: int|
                    #[trigger] next.leave_both(v, i, j) && next.face(i) == next.face(
                        j,
                    ) implies next.is_leaf_spur(i) || next.is_leaf_spur(j) by {
                    self.lemma_leafy_corner_pair(o, remaining, i, j);
                }
                next.lemma_can_strip_leafy(self.remove_edge_ranks(w, o), v, remaining);
            }
        }
    }
}

} // verus!
