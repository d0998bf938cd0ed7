//! What each operation that adds or rewires half-edges does to the model.
//!
//! Every function here gives the state after the operation record by
//! record. Operations that create half-edges take the data of the two new
//! records as arguments.

use crate::delaunay::mesh::{FaceEntry, HalfEdgeEntry, Mesh, StarRanks, VertexEntry};
use crate::delaunay::orbit::{
    is_ring, iterate, lemma_ring_exists, lemma_ring_is_orbit, lemma_ring_prefix_is_stretch,
    lemma_ring_succ, reaches,
};
use vstd::prelude::*;

verus! {

/// `d` is a value that `E::default()` may return.
pub open spec fn is_default_value<E: Default>(d: E) -> bool {
    call_ensures(E::default, (), d)
}

impl<V, E> Mesh<V, E> {
    /// The vertices, with `out_edge` of vertex `v` replaced.
    pub open spec fn vertices_with_out_edge(self, v: int, e: Option<usize>) -> Seq<VertexEntry<V>> {
        self.vertices.update(v, VertexEntry { data: self.vertices[v].data, out_edge: e })
    }

    /// The state after `connect_two_isolated_vertices(v0, v1, f)`: a new
    /// pair of half-edges between `v0` and `v1` that follow each other, both
    /// in face `f`.
    pub open spec fn connect_two_isolated_vertices(
        self,
        v0: int,
        v1: int,
        f: int,
        d0: E,
        d1: E,
    ) -> Self {
        let n = self.edges.len() as int;
        let edge = HalfEdgeEntry {
            next: (n + 1) as usize,
            prev: (n + 1) as usize,
            twin: (n + 1) as usize,
            origin: v0 as usize,
            face: f as usize,
            data: d0,
        };
        let twin = HalfEdgeEntry {
            next: n as usize,
            prev: n as usize,
            twin: n as usize,
            origin: v1 as usize,
            face: f as usize,
            data: d1,
        };
        Mesh {
            vertices: Seq::new(
                self.vertices.len(),
                |v: int|
                    VertexEntry {
                        data: self.vertices[v].data,
                        out_edge: if v == v1 {
                            Some((n + 1) as usize)
                        } else if v == v0 {
                            Some(n as usize)
                        } else {
                            self.vertices[v].out_edge
                        },
                    },
            ),
            faces: self.faces.update(f, FaceEntry { adjacent_edge: Some(n as usize) }),
            edges: self.edges.push(edge).push(twin),
        }
    }

    /// The state after `connect_edge_to_isolated_vertex(p, v)`: a new pair
    /// of half-edges between the target of `p` and `v`, spliced in behind
    /// `p`.
    pub open spec fn connect_edge_to_isolated_vertex(self, p: int, v: int, d0: E, d1: E) -> Self {
        let n = self.edges.len() as int;
        let edge = HalfEdgeEntry {
            next: (n + 1) as usize,
            prev: p as usize,
            twin: (n + 1) as usize,
            origin: self.edges[self.twin(p)].origin,
            face: self.edges[p].face,
            data: d0,
        };
        let twin = HalfEdgeEntry {
            next: self.edges[p].next,
            prev: n as usize,
            twin: n as usize,
            origin: v as usize,
            face: self.edges[p].face,
            data: d1,
        };
        Mesh {
            vertices: self.vertices_with_out_edge(v, Some((n + 1) as usize)),
            faces: self.faces,
            edges: Seq::new(
                self.edges.len(),
                |x: int|
                    HalfEdgeEntry {
                        next: if x == p {
                            n as usize
                        } else {
                            self.edges[x].next
                        },
                        prev: if x == self.next(p) {
                            (n + 1) as usize
                        } else {
                            self.edges[x].prev
                        },
                        twin: self.edges[x].twin,
                        origin: self.edges[x].origin,
                        face: self.edges[x].face,
                        data: self.edges[x].data,
                    },
            ).push(edge).push(twin),
        }
    }

    /// The state after `connect_edge_to_edge(a, b)`: a new pair of
    /// half-edges from the target of `a` to the origin of `b`; the new
    /// half-edge runs from `a` to `b`, its twin from the half-edge before
    /// `b` to the one that followed `a`. No face is relabelled.
    pub open spec fn connect_edge_to_edge(self, a: int, b: int, d0: E, d1: E) -> Self {
        let n = self.edges.len() as int;
        let edge = HalfEdgeEntry {
            next: b as usize,
            prev: a as usize,
            twin: (n + 1) as usize,
            origin: self.edges[self.twin(a)].origin,
            face: self.edges[b].face,
            data: d0,
        };
        let twin = HalfEdgeEntry {
            next: self.edges[a].next,
            prev: self.edges[b].prev,
            twin: n as usize,
            origin: self.edges[b].origin,
            face: self.edges[b].face,
            data: d1,
        };
        Mesh {
            vertices: self.vertices,
            faces: self.faces,
            edges: Seq::new(
                self.edges.len(),
                |x: int|
                    HalfEdgeEntry {
                        next: if x == self.prev(b) {
                            (n + 1) as usize
                        } else if x == a {
                            n as usize
                        } else {
                            self.edges[x].next
                        },
                        prev: if x == self.next(a) {
                            (n + 1) as usize
                        } else if x == b {
                            n as usize
                        } else {
                            self.edges[x].prev
                        },
                        twin: self.edges[x].twin,
                        origin: self.edges[x].origin,
                        face: self.edges[x].face,
                        data: self.edges[x].data,
                    },
            ).push(edge).push(twin),
        }
    }

    /// The state after `split_edge(e, v)`: vertex `v` sits on the edge of
    /// `e`. The half-edge `e` now ends at `v` and a new half-edge continues
    /// from `v` to the old target; on the other side a new half-edge leads
    /// from the old target to `v`, where the twin of `e` now starts.
    pub open spec fn split_edge(self, e: int, v: int, d0: E, d1: E) -> Self {
        let n = self.edges.len() as int;
        let t = self.twin(e);
        let dangling = self.next(e) == t;
        let new_edge = HalfEdgeEntry {
            next: if dangling {
                (n + 1) as usize
            } else {
                self.edges[e].next
            },
            prev: e as usize,
            twin: (n + 1) as usize,
            origin: v as usize,
            face: self.edges[e].face,
            data: d0,
        };
        let new_twin = HalfEdgeEntry {
            next: t as usize,
            prev: if dangling {
                n as usize
            } else {
                self.edges[t].prev
            },
            twin: n as usize,
            origin: self.edges[t].origin,
            face: self.edges[t].face,
            data: d1,
        };
        Mesh {
            vertices: Seq::new(
                self.vertices.len(),
                |u: int|
                    VertexEntry {
                        data: self.vertices[u].data,
                        out_edge: if u == v {
                            Some(n as usize)
                        } else if u == self.origin(t) {
                            Some((n + 1) as usize)
                        } else {
                            self.vertices[u].out_edge
                        },
                    },
            ),
            faces: self.faces,
            edges: Seq::new(
                self.edges.len(),
                |x: int|
                    HalfEdgeEntry {
                        next: if x == e {
                            n as usize
                        } else if !dangling && x == self.prev(t) {
                            (n + 1) as usize
                        } else {
                            self.edges[x].next
                        },
                        prev: if x == t {
                            (n + 1) as usize
                        } else if !dangling && x == self.next(e) {
                            n as usize
                        } else {
                            self.edges[x].prev
                        },
                        twin: self.edges[x].twin,
                        origin: if x == t {
                            v as usize
                        } else {
                            self.edges[x].origin
                        },
                        face: self.edges[x].face,
                        data: self.edges[x].data,
                    },
            ).push(new_edge).push(new_twin),
        }
    }
}

impl<V, E> Mesh<V, E> {
    /// The star witness after `connect_edge_to_edge(a, b)`.
    pub open spec fn connect_edge_to_edge_ranks(self, w: StarRanks, a: int, b: int) -> StarRanks {
        let n = self.edges.len() as int;
        StarRanks {
            rank: Seq::new(
                (n + 2) as nat,
                |x: int|
                    if x < n {
                        2 * w.rank[x]
                    } else if x == n {
                        2 * w.rank[self.next(a)] + 1
                    } else {
                        2 * w.rank[b] + 1
                    },
            ),
            root: w.root,
        }
    }

    /// `connect_edge_to_edge` keeps the mesh consistent.
    pub proof fn lemma_connect_edge_to_edge(self, w: StarRanks, a: int, b: int, d0: E, d1: E)
        requires
            self.links_ok(),
            self.stars_ranked(w),
            self.has_edge(a),
            self.has_edge(b),
            self.face(a) == self.face(b),
            self.target(a) != self.origin(b),
            self.edges.len() + 2 <= usize::MAX,
        ensures
            self.connect_edge_to_edge(a, b, d0, d1).links_ok(),
            self.connect_edge_to_edge(a, b, d0, d1).stars_ranked(
                self.connect_edge_to_edge_ranks(w, a, b),
            ),
    {
        let m1 = self.connect_edge_to_edge(a, b, d0, d1);
        let w1 = self.connect_edge_to_edge_ranks(w, a, b);
        let n = self.edges.len() as int;
        self.lemma_neighbours_linked(a);
        self.lemma_neighbours_linked(b);
        self.lemma_neighbours_linked(self.prev(b));
        self.lemma_neighbours_linked(self.next(a));
        assert(self.star_step(w, self.twin(a)));
        assert(self.star_step(w, self.twin(self.prev(b))));
        assert(self.star_step(w, b));
        assert(self.star_step(w, self.next(a)));
        assert forall|e: int| m1.has_edge(e) implies #[trigger] m1.edge_linked(e) by {
            if e < n {
                self.lemma_neighbours_linked(e);
            }
        }
        assert forall|v: int| #![trigger m1.vertices[v]] m1.has_vertex(v) implies (m1.out_edge(
            v,
        ) matches Some(e) ==> e < m1.edges.len() && m1.edges[e as int].origin == v) by {
            assert(self.has_vertex(v));
            let _ = self.vertices[v];
        }
        assert forall|f: int| #![trigger m1.faces[f]] m1.has_face(f) implies (m1.adjacent_edge(
            f,
        ) matches Some(e) ==> e < m1.edges.len() && m1.edges[e as int].face == f) by {
            let _ = self.faces[f];
        }
        assert forall|e: int| m1.has_edge(e) implies #[trigger] m1.star_step(w1, e) by {
            if e < n {
                self.lemma_neighbours_linked(e);
                assert(self.star_step(w, e));
            }
        }
    }

    /// The star witness after `split_edge(e, v)`.
    pub open spec fn split_edge_ranks(self, w: StarRanks, e: int, v: int) -> StarRanks {
        let n = self.edges.len() as int;
        let t = self.twin(e);
        let b = self.origin(t);
        StarRanks {
            rank: Seq::new(
                (n + 2) as nat,
                |x: int|
                    if x == t {
                        1
                    } else if x < n {
                        w.rank[x]
                    } else if x == n {
                        0
                    } else {
                        w.rank[t]
                    },
            ),
            root: Seq::new(
                w.root.len(),
                |u: int|
                    if u == v {
                        n
                    } else if u == b && w.root[b] == t {
                        n + 1
                    } else {
                        w.root[u]
                    },
            ),
        }
    }

    /// `split_edge` keeps the mesh consistent.
    pub proof fn lemma_split_edge(self, w: StarRanks, e: int, v: int, d0: E, d1: E)
        requires
            self.links_ok(),
            self.stars_ranked(w),
            self.has_edge(e),
            self.has_vertex(v),
            self.is_isolated(v),
            v <= usize::MAX,
            self.edges.len() + 2 <= usize::MAX,
        ensures
            self.split_edge(e, v, d0, d1).links_ok(),
            self.split_edge(e, v, d0, d1).stars_ranked(self.split_edge_ranks(w, e, v)),
    {
        let m1 = self.split_edge(e, v, d0, d1);
        let w1 = self.split_edge_ranks(w, e, v);
        let n = self.edges.len() as int;
        let t = self.twin(e);
        self.lemma_neighbours_linked(e);
        self.lemma_neighbours_linked(t);
        self.lemma_neighbours_linked(self.prev(t));
        self.lemma_neighbours_linked(self.next(e));
        assert(self.star_step(w, e));
        assert(self.star_step(w, t));
        assert(self.star_step(w, self.twin(self.prev(t))));
        assert(self.star_step(w, self.next(e)));
        assert forall|x: int| m1.has_edge(x) implies #[trigger] m1.edge_linked(x) by {
            if x < n {
                self.lemma_neighbours_linked(x);
                assert(self.star_step(w, x));
            }
        }
        assert forall|u: int| #![trigger m1.vertices[u]] m1.has_vertex(u) implies (m1.out_edge(
            u,
        ) matches Some(x) ==> x < m1.edges.len() && m1.edges[x as int].origin == u) by {
            assert(self.has_vertex(u));
            if u != v && u != self.origin(t) {
                if let Some(x) = self.vertices[u].out_edge {
                    assert(self.origin(x as int) == u);
                    assert(x != t);
                }
            }
        }
        assert forall|f: int| #![trigger m1.faces[f]] m1.has_face(f) implies (m1.adjacent_edge(
            f,
        ) matches Some(x) ==> x < m1.edges.len() && m1.edges[x as int].face == f) by {
            let _ = self.faces[f];
        }
        assert forall|x: int| m1.has_edge(x) implies #[trigger] m1.star_step(w1, x) by {
            if x < n {
                self.lemma_neighbours_linked(x);
                assert(self.star_step(w, x));
            }
        }
    }
}

impl<V, E> Mesh<V, E> {
    /// Half-edge `e` lies on a boundary cycle of exactly three half-edges.
    pub open spec fn borders_triangle(self, e: int) -> bool {
        self.next(self.next(self.next(e))) == e
    }

    /// The state after `flip_cw(e)`: the edge of `e`, which separated two
    /// triangles, now joins the two corners that were opposite to it. The
    /// half-edge `e` starts at the corner that was opposite to it and keeps
    /// its face, and so does its twin.
    pub open spec fn flip_cw(self, e: int) -> Self {
        let en = self.next(e);
        let ep = self.prev(e);
        let t = self.twin(e);
        let tn = self.next(t);
        let tp = self.prev(t);
        Mesh {
            vertices: Seq::new(
                self.vertices.len(),
                |u: int|
                    VertexEntry {
                        data: self.vertices[u].data,
                        out_edge: if u == self.origin(t) {
                            Some(en as usize)
                        } else if u == self.origin(e) {
                            Some(tn as usize)
                        } else {
                            self.vertices[u].out_edge
                        },
                    },
            ),
            faces: Seq::new(
                self.faces.len(),
                |f: int|
                    FaceEntry {
                        adjacent_edge: if f == self.face(t) {
                            Some(t as usize)
                        } else if f == self.face(e) {
                            Some(e as usize)
                        } else {
                            self.faces[f].adjacent_edge
                        },
                    },
            ),
            edges: Seq::new(
                self.edges.len(),
                |x: int|
                    HalfEdgeEntry {
                        next: if x == e {
                            tp as usize
                        } else if x == tp {
                            en as usize
                        } else if x == en {
                            e as usize
                        } else if x == t {
                            ep as usize
                        } else if x == ep {
                            tn as usize
                        } else if x == tn {
                            t as usize
                        } else {
                            self.edges[x].next
                        },
                        prev: if x == e {
                            en as usize
                        } else if x == en {
                            tp as usize
                        } else if x == tp {
                            e as usize
                        } else if x == t {
                            tn as usize
                        } else if x == tn {
                            ep as usize
                        } else if x == ep {
                            t as usize
                        } else {
                            self.edges[x].prev
                        },
                        twin: self.edges[x].twin,
                        origin: if x == e {
                            self.edges[ep].origin
                        } else if x == t {
                            self.edges[tp].origin
                        } else {
                            self.edges[x].origin
                        },
                        face: if x == tp {
                            self.edges[e].face
                        } else if x == ep {
                            self.edges[t].face
                        } else {
                            self.edges[x].face
                        },
                        data: self.edges[x].data,
                    },
            ),
        }
    }

    /// The star witness after `flip_cw(e)`.
    pub open spec fn flip_cw_ranks(self, w: StarRanks, e: int) -> StarRanks {
        let en = self.next(e);
        let ep = self.prev(e);
        let t = self.twin(e);
        let tn = self.next(t);
        let tp = self.prev(t);
        StarRanks {
            rank: Seq::new(
                w.rank.len(),
                |x: int|
                    if x == e {
                        2 * w.rank[ep] + 1
                    } else if x == t {
                        2 * w.rank[tp] + 1
                    } else if x == tn && w.rank[e] == 0 {
                        0
                    } else if x == en && w.rank[t] == 0 {
                        0
                    } else {
                        2 * w.rank[x]
                    },
            ),
            root: Seq::new(
                w.root.len(),
                |u: int|
                    if u == self.origin(e) && w.rank[e] == 0 {
                        tn
                    } else if u == self.origin(t) && w.rank[t] == 0 {
                        en
                    } else {
                        w.root[u]
                    },
            ),
        }
    }

    /// Two triangles on either side of an edge share no half-edge.
    pub proof fn lemma_triangles_apart(self, e: int)
        requires
            self.links_ok(),
            self.has_edge(e),
            self.borders_triangle(e),
            self.borders_triangle(self.twin(e)),
        ensures
    ({
        let en = self.next(e);
        let ep = self.prev(e);
        let t = self.twin(e);
        let tn = self.next(t);
        let tp = self.prev(t);
        &&& self.next(en) == ep
        &&& self.next(tn) == tp
        &&& e != en && e != ep && e != t && e != tn && e != tp
        &&& en != ep && en != t && en != tn && en != tp
        &&& ep != t && ep != tn && ep != tp
        &&& t != tn && t != tp
        &&& tn != tp
    }),
    {
        let en = self.next(e);
        let ep = self.prev(e);
        let t = self.twin(e);
        let tn = self.next(t);
        let tp = self.prev(t);
        self.lemma_neighbours_linked(e);
        self.lemma_neighbours_linked(en);
        self.lemma_neighbours_linked(ep);
        self.lemma_neighbours_linked(t);
        self.lemma_neighbours_linked(tn);
        self.lemma_neighbours_linked(tp);
        self.lemma_neighbours_linked(self.next(en));
        self.lemma_neighbours_linked(self.next(tn));
    }

    /// `flip_cw` keeps the links consistent.
    #[verifier::rlimit(60)]
    #[verifier::spinoff_prover]
    pub proof fn lemma_flip_cw_links(self, e: int)
        requires
            self.links_ok(),
            self.has_edge(e),
            self.borders_triangle(e),
            self.borders_triangle(self.twin(e)),
            self.origin(self.prev(e)) != self.origin(self.prev(self.twin(e))),
        ensures
            self.flip_cw(e).links_ok(),
    {
        let m1 = self.flip_cw(e);
        let en = self.next(e);
        let ep = self.prev(e);
        let t = self.twin(e);
        let tn = self.next(t);
        let tp = self.prev(t);
        self.lemma_triangles_apart(e);
        self.lemma_neighbours_linked(e);
        self.lemma_neighbours_linked(en);
        self.lemma_neighbours_linked(ep);
        self.lemma_neighbours_linked(t);
        self.lemma_neighbours_linked(tn);
        self.lemma_neighbours_linked(tp);
        assert forall|x: int| m1.has_edge(x) implies #[trigger] m1.edge_linked(x) by {
            self.lemma_neighbours_linked(x);
            if x == e || x == en || x == ep || x == t || x == tn || x == tp {
            } else {
                let xn = self.next(x);
                let xp = self.prev(x);
                let xt = self.twin(x);
                assert(xn != e && xn != en && xn != ep && xn != t && xn != tn && xn != tp);
                assert(xp != e && xp != en && xp != ep && xp != t && xp != tn && xp != tp);
                assert(xt != e && xt != t);
            }
        }
        assert forall|u: int| #![trigger m1.vertices[u]] m1.has_vertex(u) implies (m1.out_edge(
            u,
        ) matches Some(x) ==> x < m1.edges.len() && m1.edges[x as int].origin == u) by {
            assert(self.has_vertex(u));
            if u != self.origin(e) && u != self.origin(t) {
                if let Some(x) = self.vertices[u].out_edge {
                    assert(self.origin(x as int) == u);
                }
            }
        }
        assert forall|f: int| #![trigger m1.faces[f]] m1.has_face(f) implies (m1.adjacent_edge(
            f,
        ) matches Some(x) ==> x < m1.edges.len() && m1.edges[x as int].face == f) by {
            assert(self.has_face(f));
            if f != self.face(e) && f != self.face(t) {
                if let Some(x) = self.faces[f].adjacent_edge {
                    assert(self.face(x as int) == f);
                }
            }
        }
    }

    /// `flip_cw` keeps the vertex stars connected.
    #[verifier::rlimit(60)]
    #[verifier::spinoff_prover]
    pub proof fn lemma_flip_cw_stars(self, w: StarRanks, e: int)
        requires
            self.links_ok(),
            self.stars_ranked(w),
            self.has_edge(e),
            self.borders_triangle(e),
            self.borders_triangle(self.twin(e)),
            self.origin(self.prev(e)) != self.origin(self.prev(self.twin(e))),
        ensures
            self.flip_cw(e).stars_ranked(self.flip_cw_ranks(w, e)),
    {
        let m1 = self.flip_cw(e);
        let w1 = self.flip_cw_ranks(w, e);
        let en = self.next(e);
        let ep = self.prev(e);
        let t = self.twin(e);
        let tn = self.next(t);
        let tp = self.prev(t);
        self.lemma_triangles_apart(e);
        self.lemma_neighbours_linked(e);
        self.lemma_neighbours_linked(en);
        self.lemma_neighbours_linked(ep);
        self.lemma_neighbours_linked(t);
        self.lemma_neighbours_linked(tn);
        self.lemma_neighbours_linked(tp);
        assert(self.star_step(w, e));
        assert(self.star_step(w, en));
        assert(self.star_step(w, ep));
        assert(self.star_step(w, t));
        assert(self.star_step(w, tn));
        assert(self.star_step(w, tp));
        assert(self.star_step(w, self.twin(en)));
        assert(self.star_step(w, self.twin(ep)));
        assert(self.star_step(w, self.twin(tn)));
        assert(self.star_step(w, self.twin(tp)));
        assert forall|x: int| m1.has_edge(x) implies #[trigger] m1.star_step(w1, x) by {
            self.lemma_neighbours_linked(x);
            self.lemma_neighbours_linked(self.twin(x));
            assert(self.star_step(w, x));
            assert(self.star_step(w, self.cw(x)));
            let xt = self.twin(x);
            if x == e || x == t {
            } else if xt == en || xt == ep || xt == tn || xt == tp {
            } else {
                assert(m1.cw(x) == self.cw(x));
                assert(m1.origin(x) == self.origin(x));
            }
        }
    }
}

impl<V, E> Mesh<V, E> {
    /// The state after `create_face(a, b)`: the edge of
    /// `connect_edge_to_edge(a, b)` is added, and a new face is appended.
    /// The new half-edge and the half-edges on the way from `b` to `a`
    /// border the new face, which names the new half-edge; the face that
    /// was split names the twin of the new half-edge.
    pub open spec fn create_face(self, a: int, b: int, d0: E, d1: E) -> Self {
        let n = self.edges.len() as int;
        let joined = self.connect_edge_to_edge(a, b, d0, d1);
        Mesh {
            vertices: self.vertices,
            faces: self.faces.update(
                self.face(b),
                FaceEntry { adjacent_edge: Some((n + 1) as usize) },
            ).push(FaceEntry { adjacent_edge: Some(n as usize) }),
            edges: Seq::new(
                joined.edges.len(),
                |x: int|
                    HalfEdgeEntry {
                        next: joined.edges[x].next,
                        prev: joined.edges[x].prev,
                        twin: joined.edges[x].twin,
                        origin: joined.edges[x].origin,
                        face: if x == n || self.way(b, a).contains(x) {
                            self.faces.len() as usize
                        } else {
                            joined.edges[x].face
                        },
                        data: joined.edges[x].data,
                    },
            ),
        }
    }

    /// Half-edges on one boundary cycle carry the same face label.
    pub proof fn lemma_on_ring_same_face(self, b: int, a: int)
        requires
            self.links_ok(),
            self.has_edge(b),
            self.on_ring(b, a),
        ensures
            self.has_edge(a),
            self.face(a) == self.face(b),
    {
        self.lemma_tables();
        let k = choose|k: nat| iterate(self.next_table(), b, k) == a;
        self.lemma_walk_same_face(b, k);
    }

    /// A walk along `next` keeps the face label.
    pub proof fn lemma_walk_same_face(self, b: int, k: nat)
        requires
            self.links_ok(),
            self.has_edge(b),
        ensures
            self.has_edge(iterate(self.next_table(), b, k)),
            self.face(iterate(self.next_table(), b, k)) == self.face(b),
        decreases k,
    {
        if k > 0 {
            self.lemma_walk_same_face(b, (k - 1) as nat);
            self.lemma_neighbours_linked(iterate(self.next_table(), b, (k - 1) as nat));
        }
    }

    /// After `connect_edge_to_edge(a, b)`, where `a` lies on the boundary
    /// cycle through `b`, the cycle through the new half-edge holds the new
    /// half-edge and old half-edges of the face of `b`, and not the twin of
    /// the new half-edge.
    pub proof fn lemma_new_ring(self, a: int, b: int, d0: E, d1: E) -> (r: Seq<int>)
        requires
            self.links_ok(),
            self.has_edge(a),
            self.has_edge(b),
            self.on_ring(b, a),
            self.target(a) != self.origin(b),
            self.edges.len() + 2 <= usize::MAX,
        ensures
            is_ring(self.connect_edge_to_edge(a, b, d0, d1).next_table(), r),
            r[0] == self.edges.len(),
            r == seq![self.edges.len() as int] + self.way(b, a),
            forall|i: int|
                1 <= i < r.len() ==> self.has_edge(#[trigger] r[i]) && self.face(r[i])
                    == self.face(b),
    {
        let n = self.edges.len() as int;
        let m1 = self.connect_edge_to_edge(a, b, d0, d1);
        let succ0 = self.next_table();
        let succ1 = m1.next_table();
        self.lemma_tables();
        let r0 = lemma_ring_exists(succ0, self.prev_table(), b);
        lemma_ring_is_orbit(succ0, r0, 0);
        assert(reaches(succ0, r0[0], a));
        let i = choose|i: int| 0 <= i < r0.len() && r0[i] == a;
        self.lemma_neighbours_linked(a);
        self.lemma_neighbours_linked(b);
        lemma_ring_succ(succ0, r0, i);
        assert(i + 1 < r0.len());
        lemma_ring_succ(succ0, r0, r0.len() - 1);
        assert(r0.last() == self.prev(b)) by {
            self.lemma_neighbours_linked(r0.last());
        }
        let r = seq![n] + r0.subrange(0, i + 1);
        lemma_ring_prefix_is_stretch(succ0, r0, i);
        assert forall|j: int| 0 <= j < r.len() - 1 implies #[trigger] succ1[r[j]] == r[j + 1] by {
            if j > 0 {
                lemma_ring_succ(succ0, r0, j - 1);
            }
        }
        assert forall|j: int| 1 <= j < r.len() implies self.has_edge(#[trigger] r[j]) && self.face(
            r[j],
        ) == self.face(b) by {
            self.lemma_ring_labels(r0, j - 1);
        }
        assert(r.no_duplicates());
        r
    }

    /// After `connect_edge_to_edge(a, b)`, where `a` lies on the boundary
    /// cycle through `b`, the boundary cycle through the new half-edge holds
    /// the new half-edge and the half-edges on the way from `b` to `a`.
    pub proof fn lemma_new_face_ring(self, a: int, b: int, d0: E, d1: E)
        requires
            self.links_ok(),
            self.has_edge(a),
            self.has_edge(b),
            self.on_ring(b, a),
            self.target(a) != self.origin(b),
            self.edges.len() + 2 <= usize::MAX,
        ensures
            forall|x: int|
                #![trigger self.way(b, a).contains(x)]
                self.connect_edge_to_edge(a, b, d0, d1).on_ring(self.edges.len() as int, x) <==> (x
                    == self.edges.len() || self.way(b, a).contains(x)),
            !self.way(b, a).contains(self.edges.len() as int + 1),
            !self.way(b, a).contains(self.edges.len() as int),
            forall|x: int|
                #![trigger self.way(b, a).contains(x)]
                self.way(b, a).contains(x) ==> self.has_edge(x) && self.face(x) == self.face(b),
    {
        let n = self.edges.len() as int;
        let m1 = self.connect_edge_to_edge(a, b, d0, d1);
        let way = self.way(b, a);
        let r = self.lemma_new_ring(a, b, d0, d1);
        lemma_ring_is_orbit(m1.next_table(), r, 0);
        assert forall|x: int| r.contains(x) <==> x == n || way.contains(x) by {
            if r.contains(x) {
                let j = choose|j: int| 0 <= j < r.len() && r[j] == x;
                if j > 0 {
                    assert(way[j - 1] == x);
                }
            }
            if x == n {
                assert(r[0] == x);
            }
            if way.contains(x) {
                let j = choose|j: int| 0 <= j < way.len() && way[j] == x;
                assert(r[j + 1] == x);
            }
        }
        assert forall|x: int| #![trigger way.contains(x)] way.contains(x) implies self.has_edge(x)
            && self.face(x) == self.face(b) by {
            let j = choose|j: int| 0 <= j < way.len() && way[j] == x;
            assert(r[j + 1] == x);
            assert(self.has_edge(r[j + 1]));
        }
        assert(!way.contains(n));
        assert(!way.contains(n + 1));
        assert forall|x: int|
            #![trigger way.contains(x)]
            m1.on_ring(n, x) <==> (x == n || way.contains(x)) by {
            assert(reaches(m1.next_table(), r[0], x) <==> r.contains(x));
        }
    }

    /// `create_face` keeps the links consistent.
    pub proof fn lemma_create_face(self, w: StarRanks, a: int, b: int, d0: E, d1: E)
        requires
            self.links_ok(),
            self.stars_ranked(w),
            self.has_edge(a),
            self.has_edge(b),
            self.on_ring(b, a),
            self.target(a) != self.origin(b),
            self.edges.len() + 2 <= usize::MAX,
            self.faces.len() < usize::MAX,
        ensures
            self.create_face(a, b, d0, d1).links_ok(),
    {
        let n = self.edges.len() as int;
        let nf = self.faces.len() as int;
        let m1 = self.connect_edge_to_edge(a, b, d0, d1);
        let m2 = self.create_face(a, b, d0, d1);
        self.lemma_on_ring_same_face(b, a);
        self.lemma_connect_edge_to_edge(w, a, b, d0, d1);
        let r = self.lemma_new_ring(a, b, d0, d1);
        m1.lemma_tables();
        assert(m2.next_table() =~= m1.next_table());
        assert(m2.prev_table() =~= m1.prev_table());
        self.lemma_neighbours_linked(b);
        self.lemma_new_face_ring(a, b, d0, d1);
        lemma_ring_is_orbit(m1.next_table(), r, 0);
        assert forall|x: int| r.contains(x) <==> x == n || self.way(b, a).contains(x) by {
            assert(reaches(m1.next_table(), r[0], x) <==> r.contains(x));
            assert(m1.on_ring(n, x) <==> (x == n || self.way(b, a).contains(x)));
        }
        assert(!r.contains(n + 1));
        assert forall|x: int| r.contains(x) && x != n implies self.has_edge(x) && self.face(x)
            == self.face(b) by {
            let j = choose|j: int| 0 <= j < r.len() && r[j] == x;
            assert(self.has_edge(r[j]));
        }
        assert forall|x: int| m2.has_edge(x) implies #[trigger] m2.edge_linked(x) by {
            m1.lemma_neighbours_linked(x);
            m1.lemma_ring_follows_next(r, x);
            assert(m2.face(x) == (if r.contains(x) {
                nf
            } else {
                m1.face(x)
            }));
            let y = m1.next(x);
            assert(m2.face(y) == (if r.contains(y) {
                nf
            } else {
                m1.face(y)
            }));
        }
        assert forall|v: int| #![trigger m2.vertices[v]] m2.has_vertex(v) implies (m2.out_edge(
            v,
        ) matches Some(e) ==> e < m2.edges.len() && m2.edges[e as int].origin == v) by {
            assert(m1.has_vertex(v));
            if let Some(e) = m1.vertices[v].out_edge {
                assert(m1.origin(e as int) == v);
            }
        }
        assert forall|f: int| #![trigger m2.faces[f]] m2.has_face(f) implies (m2.adjacent_edge(
            f,
        ) matches Some(e) ==> e < m2.edges.len() && m2.edges[e as int].face == f) by {
            if f < nf && f != self.face(b) {
                assert(self.has_face(f));
                if let Some(e) = self.faces[f].adjacent_edge {
                    assert(self.face(e as int) == f);
                    assert(!r.contains(e as int));
                }
            }
        }
    }
}

} // verus!
