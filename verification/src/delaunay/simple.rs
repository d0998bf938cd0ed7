//! The operations that add and turn edges keep faces with a single boundary
//! cycle each, as long as they are used to build up a mesh face by face.

use crate::delaunay::mesh::Mesh;
use crate::delaunay::orbit::{
    is_ring, lemma_ring_insert, lemma_ring_pred, lemma_ring_prefix_is_stretch,
    lemma_ring_same_steps, lemma_ring_succ,
};
use vstd::prelude::*;

verus! {

impl<V, E> Mesh<V, E> {
    /// `connect_two_isolated_vertices` keeps single boundary cycles.
    pub proof fn lemma_connect_two_simple(self, v0: int, v1: int, f: int, d0: E, d1: E)
        requires
            self.links_ok(),
            self.faces_simple(),
            self.has_vertex(v0),
            self.has_vertex(v1),
            self.has_face(f),
            self.adjacent_edge(f) is None,
            self.edges.len() + 2 <= usize::MAX,
            f <= usize::MAX,
        ensures
            self.connect_two_isolated_vertices(v0, v1, f, d0, d1).faces_simple(),
    {
        let n = self.edges.len() as int;
        let m1 = self.connect_two_isolated_vertices(v0, v1, f, d0, d1);
        assert(self.face_simple(f));
        assert forall|g: int| m1.has_face(g) implies #[trigger] m1.face_simple(g) by {
            assert(self.face_simple(g));
            if g != f {
                self.lemma_face_untouched(m1, g);
            } else {
                let r = seq![n, n + 1];
                assert(r.no_duplicates());
                assert forall|j: int| 0 <= j < r.len() - 1 implies #[trigger] m1.next_table()[r[j]]
                    == r[j + 1] by {}
                assert(r.contains(r[0]));
                assert forall|x: int| m1.has_edge(x) implies (r.contains(x) <==> m1.face(x)
                    == f) by {
                    if x < n {
                        assert(self.face(x) != f);
                    } else if x == n {
                        assert(r[0] == x);
                    } else {
                        assert(r[1] == x);
                    }
                }
                m1.lemma_face_simple_from_ring(f, r);
            }
        }
    }

    /// `connect_edge_to_isolated_vertex` keeps single boundary cycles.
    pub proof fn lemma_connect_isolated_simple(self, p: int, v: int, d0: E, d1: E)
        requires
            self.links_ok(),
            self.faces_simple(),
            self.has_edge(p),
            self.has_vertex(v),
            self.edges.len() + 2 <= usize::MAX,
            v <= usize::MAX,
        ensures
            self.connect_edge_to_isolated_vertex(p, v, d0, d1).faces_simple(),
    {
        let n = self.edges.len() as int;
        let m1 = self.connect_edge_to_isolated_vertex(p, v, d0, d1);
        let f = self.face(p);
        let an = self.next(p);
        self.lemma_neighbours_linked(p);
        self.lemma_tables();
        assert forall|g: int| m1.has_face(g) implies #[trigger] m1.face_simple(g) by {
            assert(self.face_simple(g));
            if g != f {
                self.lemma_face_untouched(m1, g);
            } else {
                let r0 = self.lemma_ring_of_face(f, an);
                lemma_ring_pred(self.next_table(), self.prev_table(), r0, 0);
                assert(r0.last() == p);
                let r = r0.push(n).push(n + 1);
                let succ1 = m1.next_table();
                assert forall|j: int| 0 <= j < r.len() implies 0 <= #[trigger] r[j] < succ1.len()
                    by {
                    if j < r0.len() {
                        assert(0 <= r0[j] < self.next_table().len());
                    }
                }
                assert forall|a: int, b: int| 0 <= a < r.len() && 0 <= b < r.len() && a
                    != b implies r[a] != r[b] by {
                    if a < r0.len() {
                        assert(0 <= r0[a] < self.next_table().len());
                    }
                    if b < r0.len() {
                        assert(0 <= r0[b] < self.next_table().len());
                    }
                }
                assert forall|j: int| 0 <= j < r.len() - 1 implies #[trigger] succ1[r[j]] == r[j
                    + 1] by {
                    assert(0 <= r[j] < succ1.len());
                    if j < r0.len() - 1 {
                        assert(self.next_table()[r0[j]] == r0[j + 1]);
                    }
                }
                assert(succ1[r.last()] == r[0]);
                let _ = self.faces[f];
                assert forall|x: int| m1.has_edge(x) implies (r.contains(x) <==> m1.face(x)
                    == f) by {
                    if r.contains(x) {
                        let j = choose|j: int| 0 <= j < r.len() && r[j] == x;
                        if j < r0.len() {
                            assert(r0.contains(r0[j]));
                        }
                    }
                    if m1.face(x) == f {
                        if x < n {
                            assert(r0.contains(x));
                            let j = choose|j: int| 0 <= j < r0.len() && r0[j] == x;
                            assert(r[j] == x);
                        } else if x == n {
                            assert(r[r0.len() as int] == x);
                        } else {
                            assert(r[r0.len() as int + 1] == x);
                        }
                    }
                }
                let a = self.adjacent_edge(f).unwrap() as int;
                assert(r0.contains(a));
                let j = choose|j: int| 0 <= j < r0.len() && r0[j] == a;
                assert(r[j] == a);
                m1.lemma_face_simple_from_ring(f, r);
            }
        }
    }
}

impl<V, E> Mesh<V, E> {
    /// `create_face` keeps single boundary cycles: the face that is split
    /// and the new face have one each.
    #[verifier::rlimit(80)]
    #[verifier::spinoff_prover]
    pub proof fn lemma_create_face_simple(self, a: int, b: int, d0: E, d1: E)
        requires
            self.links_ok(),
            self.faces_simple(),
            self.has_edge(a),
            self.has_edge(b),
            self.on_ring(b, a),
            self.target(a) != self.origin(b),
            self.edges.len() + 2 <= usize::MAX,
            self.faces.len() < usize::MAX,
        ensures
            self.create_face(a, b, d0, d1).faces_simple(),
    {
        let n = self.edges.len() as int;
        let nf = self.faces.len() as int;
        let m1 = self.connect_edge_to_edge(a, b, d0, d1);
        let m2 = self.create_face(a, b, d0, d1);
        let f0 = self.face(b);
        let succ0 = self.next_table();
        let succ = m1.next_table();
        assert(m2.next_table() =~= succ);
        self.lemma_tables();
        self.lemma_on_ring_same_face(b, a);
        self.lemma_neighbours_linked(a);
        self.lemma_neighbours_linked(b);
        assert(self.face_simple(f0));
        let r0 = self.lemma_ring_of_face(f0, b);
        assert(r0.contains(a));
        let i = choose|i: int| 0 <= i < r0.len() && r0[i] == a;
        lemma_ring_succ(succ0, r0, i);
        assert(i + 1 < r0.len());
        lemma_ring_pred(succ0, self.prev_table(), r0, 0);
        assert(r0.last() == self.prev(b));
        let r1 = seq![n] + r0.subrange(0, i + 1);
        let r2 = seq![n + 1] + r0.subrange(i + 1, r0.len() as int);
        assert forall|j: int| 0 <= j < r0.len() implies 0 <= #[trigger] r0[j] < n && self.face(
            r0[j],
        ) == f0 by {
            assert(r0.contains(r0[j]));
            assert(0 <= r0[j] < succ0.len());
        }
        // the cycle through the new half-edge
        assert forall|j: int| 0 <= j < r1.len() - 1 implies #[trigger] succ[r1[j]] == r1[j + 1] by {
            if j > 0 {
                lemma_ring_succ(succ0, r0, j - 1);
                assert(0 <= r0[j - 1] < n);
            }
        }
        assert(r1.no_duplicates()) by {
            assert forall|x: int, y: int| 0 <= x < r1.len() && 0 <= y < r1.len() && x
                != y implies r1[x] != r1[y] by {
                if x > 0 {
                    assert(0 <= r0[x - 1] < n);
                }
                if y > 0 {
                    assert(0 <= r0[y - 1] < n);
                }
            }
        }
        assert forall|j: int| 0 <= j < r1.len() implies 0 <= #[trigger] r1[j] < succ.len() by {
            if j > 0 {
                assert(0 <= r0[j - 1] < n);
            }
        }
        assert(succ[r1.last()] == r1[0]) by {
            assert(r1.last() == a);
        }
        assert(is_ring(succ, r1));
        // the cycle through its twin
        assert forall|j: int| 0 <= j < r2.len() implies 0 <= #[trigger] r2[j] < succ.len() by {
            if j > 0 {
                assert(0 <= r0[i + j] < n);
            }
        }
        assert forall|j: int| 0 <= j < r2.len() - 1 implies #[trigger] succ[r2[j]] == r2[j + 1] by {
            if j > 0 {
                lemma_ring_succ(succ0, r0, i + j);
                assert(0 <= r0[i + j] < n);
            }
        }
        assert(r2.no_duplicates()) by {
            assert forall|x: int, y: int| 0 <= x < r2.len() && 0 <= y < r2.len() && x
                != y implies r2[x] != r2[y] by {
                if x > 0 {
                    assert(0 <= r0[i + x] < n);
                }
                if y > 0 {
                    assert(0 <= r0[i + y] < n);
                }
            }
        }
        assert(succ[r2.last()] == r2[0]) by {
            assert(r2.last() == r0.last());
        }
        assert(is_ring(succ, r2));
        lemma_ring_prefix_is_stretch(succ0, r0, i);
        assert(r1 =~= seq![n] + self.way(b, a));
        assert forall|x: int| m2.has_edge(x) implies #[trigger] m2.face(x) == (if r1.contains(x) {
            nf
        } else {
            m1.face(x)
        }) by {
            if r1.contains(x) {
                let j = choose|j: int| 0 <= j < r1.len() && r1[j] == x;
                if j > 0 {
                    assert(self.way(b, a)[j - 1] == x);
                }
            }
            if self.way(b, a).contains(x) {
                let j = choose|j: int| 0 <= j < self.way(b, a).len() && self.way(b, a)[j] == x;
                assert(r1[j + 1] == x);
            }
            if x == n {
                assert(r1[0] == x);
            }
        }
        assert forall|x: int| r1.contains(x) <==> x == n || (exists|j: int|
            0 <= j <= i && r0[j] == x) by {
            if r1.contains(x) {
                let j = choose|j: int| 0 <= j < r1.len() && r1[j] == x;
                if j > 0 {
                    assert(r0[j - 1] == x);
                }
            }
            if x == n {
                assert(r1[0] == x);
            }
            if exists|j: int| 0 <= j <= i && r0[j] == x {
                let j = choose|j: int| 0 <= j <= i && r0[j] == x;
                assert(r1[j + 1] == x);
            }
        }
        assert forall|x: int| r2.contains(x) <==> x == n + 1 || (exists|j: int|
            i < j < r0.len() && r0[j] == x) by {
            if r2.contains(x) {
                let j = choose|j: int| 0 <= j < r2.len() && r2[j] == x;
                if j > 0 {
                    assert(r0[i + j] == x);
                }
            }
            if x == n + 1 {
                assert(r2[0] == x);
            }
            if exists|j: int| i < j < r0.len() && r0[j] == x {
                let j = choose|j: int| i < j < r0.len() && r0[j] == x;
                assert(r2[j - i] == x);
            }
        }
        assert forall|g: int| m2.has_face(g) implies #[trigger] m2.face_simple(g) by {
            if g == nf {
                assert forall|x: int| m2.has_edge(x) implies (r1.contains(x) <==> m2.face(x)
                    == nf) by {
                    if x < n {
                        self.lemma_neighbours_linked(x);
                    }
                }
                assert(r1.contains(r1[0]));
                m2.lemma_face_simple_from_ring(nf, r1);
            } else if g == f0 {
                assert forall|x: int| m2.has_edge(x) implies (r2.contains(x) <==> m2.face(x)
                    == f0) by {
                    if x < n {
                        self.lemma_neighbours_linked(x);
                        if self.face(x) == f0 {
                            assert(r0.contains(x));
                            let j = choose|j: int| 0 <= j < r0.len() && r0[j] == x;
                            if j <= i {
                                assert(r1.contains(x));
                            }
                        }
                        if r2.contains(x) {
                            let j = choose|j: int| i < j < r0.len() && r0[j] == x;
                            assert(r0.contains(r0[j]));
                            if r1.contains(x) {
                                let k = choose|k: int| 0 <= k <= i && r0[k] == x;
                                assert(false);
                            }
                        }
                    }
                }
                assert(r2.contains(r2[0]));
                m2.lemma_face_simple_from_ring(f0, r2);
            } else {
                assert(self.face_simple(g));
                assert forall|x: int|
                    #![trigger m2.edges[x]]
                    self.has_edge(x) && self.face(x) == g implies m2.next(x) == self.next(x)
                    && m2.face(x) == g by {
                    self.lemma_neighbours_linked(x);
                    if r1.contains(x) {
                        let j = choose|j: int| 0 <= j <= i && r0[j] == x;
                        assert(r0.contains(r0[j]));
                    }
                }
                assert forall|x: int|
                    #![trigger m2.edges[x]]
                    m2.has_edge(x) && m2.face(x) == g implies self.has_edge(x) && self.face(x)
                    == g by {
                    if x < n {
                        self.lemma_neighbours_linked(x);
                    }
                }
                self.lemma_face_untouched(m2, g);
            }
        }
    }

    /// `flip_cw` keeps single boundary cycles.
    #[verifier::rlimit(80)]
    #[verifier::spinoff_prover]
    pub proof fn lemma_flip_cw_simple(self, e: int)
        requires
            self.links_ok(),
            self.faces_simple(),
            self.has_edge(e),
            self.borders_triangle(e),
            self.borders_triangle(self.twin(e)),
        ensures
            self.flip_cw(e).faces_simple(),
    {
        let m1 = self.flip_cw(e);
        let en = self.next(e);
        let ep = self.prev(e);
        let t = self.twin(e);
        let tn = self.next(t);
        let tp = self.prev(t);
        let fe = self.face(e);
        let ft = self.face(t);
        let succ0 = self.next_table();
        let succ = m1.next_table();
        self.lemma_tables();
        self.lemma_triangles_apart(e);
        self.lemma_neighbours_linked(e);
        self.lemma_neighbours_linked(en);
        self.lemma_neighbours_linked(ep);
        self.lemma_neighbours_linked(t);
        self.lemma_neighbours_linked(tn);
        self.lemma_neighbours_linked(tp);
        assert(self.face_simple(fe));
        assert(self.face_simple(ft));
        let re = self.lemma_ring_of_face(fe, e);
        let rt = self.lemma_ring_of_face(ft, t);
        lemma_ring_succ(succ0, re, 0);
        lemma_ring_succ(succ0, rt, 0);
        assert(re.len() >= 2 && rt.len() >= 2);
        lemma_ring_succ(succ0, re, 1);
        lemma_ring_succ(succ0, rt, 1);
        assert(re.len() >= 3 && rt.len() >= 3);
        lemma_ring_succ(succ0, re, 2);
        lemma_ring_succ(succ0, rt, 2);
        assert(re.len() == 3 && rt.len() == 3);
        assert(re =~= seq![e, en, ep]);
        assert(rt =~= seq![t, tn, tp]);
        assert(fe != ft) by {
            if fe == ft {
                assert(re.contains(t));
            }
        }
        let qe = seq![e, tp, en];
        let qt = seq![t, ep, tn];
        assert(qe.no_duplicates());
        assert(qt.no_duplicates());
        assert forall|j: int| 0 <= j < qe.len() - 1 implies #[trigger] succ[qe[j]] == qe[j
            + 1] by {}
        assert forall|j: int| 0 <= j < qt.len() - 1 implies #[trigger] succ[qt[j]] == qt[j
            + 1] by {}
        assert(is_ring(succ, qe));
        assert(is_ring(succ, qt));
        assert forall|g: int| m1.has_face(g) implies #[trigger] m1.face_simple(g) by {
            assert(self.face_simple(g));
            if g == fe {
                assert forall|x: int| m1.has_edge(x) implies (qe.contains(x) <==> m1.face(x)
                    == fe) by {
                    if self.face(x) == fe {
                        assert(re.contains(x));
                        let j = choose|j: int| 0 <= j < re.len() && re[j] == x;
                    }
                    if self.face(x) == ft {
                        assert(rt.contains(x));
                        let j = choose|j: int| 0 <= j < rt.len() && rt[j] == x;
                    }
                    if x == e {
                        assert(qe[0] == x);
                    }
                    if x == tp {
                        assert(qe[1] == x);
                    }
                    if x == en {
                        assert(qe[2] == x);
                    }
                }
                assert(qe[0] == e);
                m1.lemma_face_simple_from_ring(fe, qe);
            } else if g == ft {
                assert forall|x: int| m1.has_edge(x) implies (qt.contains(x) <==> m1.face(x)
                    == ft) by {
                    if self.face(x) == fe {
                        assert(re.contains(x));
                        let j = choose|j: int| 0 <= j < re.len() && re[j] == x;
                    }
                    if self.face(x) == ft {
                        assert(rt.contains(x));
                        let j = choose|j: int| 0 <= j < rt.len() && rt[j] == x;
                    }
                    if x == t {
                        assert(qt[0] == x);
                    }
                    if x == ep {
                        assert(qt[1] == x);
                    }
                    if x == tn {
                        assert(qt[2] == x);
                    }
                }
                assert(qt[0] == t);
                m1.lemma_face_simple_from_ring(ft, qt);
            } else {
                self.lemma_face_untouched(m1, g);
            }
        }
    }
}

impl<V, E> Mesh<V, E> {
    /// The table of `next` when only the first new half-edge of
    /// `split_edge(e, _)` is in place, behind `e`.
    pub open spec fn half_split_table(self, e: int) -> Seq<int> {
        let n = self.edges.len() as int;
        Seq::new(
            (n + 2) as nat,
            |x: int|
                if x == e {
                    n
                } else if x == n {
                    self.next(e)
                } else if x < n {
                    self.next(x)
                } else {
                    x
                },
        )
    }

    /// `split_edge` keeps single boundary cycles.
    #[verifier::rlimit(80)]
    #[verifier::spinoff_prover]
    pub proof fn lemma_split_edge_simple(self, e: int, v: int, d0: E, d1: E)
        requires
            self.links_ok(),
            self.faces_simple(),
            self.has_edge(e),
            self.has_vertex(v),
            v <= usize::MAX,
            self.edges.len() + 2 <= usize::MAX,
        ensures
            self.split_edge(e, v, d0, d1).faces_simple(),
    {
        let n = self.edges.len() as int;
        let m1 = self.split_edge(e, v, d0, d1);
        let t = self.twin(e);
        let tp = self.prev(t);
        let fe = self.face(e);
        let ft = self.face(t);
        let succ0 = self.next_table();
        let mid = self.half_split_table(e);
        let succ = m1.next_table();
        let dangling = self.next(e) == t;
        self.lemma_tables();
        self.lemma_neighbours_linked(e);
        self.lemma_neighbours_linked(t);
        self.lemma_neighbours_linked(tp);
        assert(self.face_simple(fe));
        assert(self.face_simple(ft));
        let re = self.lemma_ring_of_face(fe, e);
        assert forall|j: int| 0 <= j < re.len() implies 0 <= #[trigger] re[j] < n by {
            assert(0 <= re[j] < succ0.len());
        }
        assert(!re.contains(n));
        let q1 = lemma_ring_insert(succ0, mid, re, 0, n);
        assert forall|j: int| 0 <= j < q1.len() implies 0 <= #[trigger] q1[j] <= n by {
            assert(q1.contains(q1[j]));
        }
        assert(!q1.contains(n + 1));
        assert forall|g: int| m1.has_face(g) implies #[trigger] m1.face_simple(g) by {
            assert(self.face_simple(g));
            let _ = self.faces[g];
            if g != fe && g != ft {
                self.lemma_face_untouched(m1, g);
            } else if fe != ft {
                if g == fe {
                    assert(!re.contains(tp));
                    assert forall|j: int| 0 <= j < q1.len() implies succ[#[trigger] q1[j]]
                        == mid[q1[j]] by {
                        assert(q1.contains(q1[j]));
                    }
                    lemma_ring_same_steps(mid, succ, q1);
                    assert forall|x: int| m1.has_edge(x) implies (q1.contains(x) <==> m1.face(x)
                        == fe) by {}
                    m1.lemma_face_simple_from_ring(fe, q1);
                } else {
                    let rt = self.lemma_ring_of_face(ft, t);
                    lemma_ring_pred(succ0, self.prev_table(), rt, 0);
                    assert forall|j: int| 0 <= j < rt.len() implies 0 <= #[trigger] rt[j] < n by {
                        assert(0 <= rt[j] < succ0.len());
                    }
                    assert(!rt.contains(n + 1));
                    assert(!rt.contains(e));
                    assert forall|j: int|
                        0 <= j < rt.len() && j != rt.len() - 1 implies succ[#[trigger] rt[j]]
                        == succ0[rt[j]] by {
                        assert(rt.contains(rt[j]));
                    }
                    let q2 = lemma_ring_insert(succ0, succ, rt, rt.len() - 1, n + 1);
                    assert forall|x: int| m1.has_edge(x) implies (q2.contains(x) <==> m1.face(x)
                        == ft) by {}
                    m1.lemma_face_simple_from_ring(ft, q2);
                }
            } else {
                // one cycle holds both half-edges
                let jp = if dangling {
                    1int
                } else {
                    assert(re.contains(tp));
                    let k = choose|k: int| 0 <= k < re.len() && re[k] == tp;
                    assert(q1[k + 1] == tp);
                    k + 1
                };
                assert(q1[0] == e);
                assert(q1[1] == n);
                assert forall|j: int| 0 <= j < q1.len() && j != jp implies succ[#[trigger] q1[j]]
                    == mid[q1[j]] by {
                    assert(q1.contains(q1[j]));
                    if q1[j] == tp && !dangling {
                        assert(q1[jp] == tp);
                    }
                }
                let q2 = lemma_ring_insert(mid, succ, q1, jp, n + 1);
                assert forall|x: int| m1.has_edge(x) implies (q2.contains(x) <==> m1.face(x)
                    == fe) by {}
                m1.lemma_face_simple_from_ring(fe, q2);
            }
        }
    }
}

} // verus!
