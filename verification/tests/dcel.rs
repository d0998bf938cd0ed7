use spade::delaunay::dcel::DCEL;

/// The links of half-edge `e`: next, prev, twin, origin and face.
fn links(dcel: &DCEL<()>, e: usize) -> (usize, usize, usize, usize, usize) {
    let edge = dcel.edge(e);
    (
        edge.o_next().fix(),
        edge.o_prev().fix(),
        edge.sym().fix(),
        edge.from().fix(),
        edge.face().fix(),
    )
}

#[test]
fn test_create_triangle() {
    let mut dcel = DCEL::new();
    let v0 = dcel.insert_vertex(());
    let v1 = dcel.insert_vertex(());
    let v2 = dcel.insert_vertex(());
    let e01 = dcel.connect_two_isolated_vertices(v0, v1, 0);
    let e12 = dcel.connect_edge_to_isolated_vertex(e01, v2);
    let e20 = dcel.create_face(e12, e01);
    let t01 = dcel.edge(e01).sym().fix();
    let t12 = dcel.edge(e12).sym().fix();
    let t20 = dcel.edge(e20).sym().fix();
    assert_eq!(links(&dcel, e01), (e12, e20, t01, 0, 1));
    assert_eq!(dcel.edge_data(e01), &());
    assert_eq!(links(&dcel, e12), (e20, e01, t12, 1, 1));
    assert_eq!(dcel.edge_data(e12), &());
    assert_eq!(links(&dcel, e20), (e01, e12, t20, 2, 1));
    assert_eq!(dcel.edge_data(e20), &());
    assert_eq!(dcel.edge(t01).face().fix(), 0);
    assert_eq!(dcel.edge(t12).face().fix(), 0);
    assert_eq!(dcel.edge(t20).face().fix(), 0);
}

#[test]
fn test_flip() {
    let mut dcel = DCEL::new();
    let v0 = dcel.insert_vertex(());
    let v1 = dcel.insert_vertex(());
    let v2 = dcel.insert_vertex(());
    let v3 = dcel.insert_vertex(());

    let e01 = dcel.connect_two_isolated_vertices(v0, v1, 0);
    let e12 = dcel.connect_edge_to_isolated_vertex(e01, v2);
    let e23 = dcel.connect_edge_to_isolated_vertex(e12, v3);
    let e30 = dcel.create_face(e23, e01);
    let e_flip = dcel.create_face(e30, e23);
    let twin_before = dcel.edge(e_flip).sym().fix();
    assert_eq!(links(&dcel, e_flip), (e23, e30, twin_before, 0, 2));
    dcel.flip_cw(e_flip);
    let twin = dcel.edge(e_flip).sym().fix();
    assert_eq!(links(&dcel, e_flip), (e12, e23, twin, 3, 2));
    assert_eq!(links(&dcel, twin), (e30, e01, e_flip, 1, 1));
    assert!(dcel.sanity_check());
}

#[test]
fn test_split_isolated_edge() {
    let mut dcel = DCEL::new();
    let v0 = dcel.insert_vertex(());
    let v1 = dcel.insert_vertex(());
    let edge = dcel.connect_two_isolated_vertices(v0, v1, 0);
    let split_vertex = dcel.insert_vertex(());
    dcel.split_edge(edge, split_vertex);
    assert!(dcel.sanity_check());
}

#[test]
fn test_split_unisolated() {
    let mut dcel = DCEL::new();
    let v0 = dcel.insert_vertex(());
    let v1 = dcel.insert_vertex(());
    let v2 = dcel.insert_vertex(());
    let v3 = dcel.insert_vertex(());
    let e01 = dcel.connect_two_isolated_vertices(v0, v1, 0);
    let t01 = dcel.edge(e01).sym().fix();
    let e12 = dcel.connect_edge_to_isolated_vertex(e01, v2);
    let t12 = dcel.edge(e12).sym().fix();
    let e20 = dcel.create_face(e12, e01);
    let t20 = dcel.edge(e20).sym().fix();

    let e_split = dcel.split_edge(e20, v3);
    let t_split = dcel.edge(e_split).sym().fix();
    assert_eq!(links(&dcel, e20), (e_split, e12, t20, v2, 1));
    assert_eq!(links(&dcel, e_split), (e01, e20, t_split, v3, 1));
    assert_eq!(links(&dcel, t_split), (t20, t01, e_split, v0, 0));
    assert_eq!(links(&dcel, t20), (t12, t_split, e20, v3, 0));
    assert_eq!(dcel.edge(t01).o_next().fix(), t_split);
    assert_eq!(dcel.edge(e01).o_prev().fix(), e_split);
    assert_eq!(dcel.edge(t12).o_prev().fix(), t20);
    assert_eq!(dcel.edge(e12).o_next().fix(), e20);
    let out = dcel.vertex(v3).out_edge().map(|e| e.fix());
    assert!(out == Some(e_split) || out == Some(t20));
    assert!(dcel.sanity_check());
}

#[test]
fn test_split_half_isolated() {
    let mut dcel = DCEL::new();
    let v0 = dcel.insert_vertex(());
    let v1 = dcel.insert_vertex(());
    let v2 = dcel.insert_vertex(());
    let v_split = dcel.insert_vertex(());
    let e1 = dcel.connect_two_isolated_vertices(v0, v1, 0);
    let e2 = dcel.connect_edge_to_isolated_vertex(e1, v2);
    dcel.split_edge(e2, v_split);
    assert!(dcel.sanity_check());
}

#[test]
fn test_cw_ccw() {
    let mut dcel = DCEL::new();
    let v0 = dcel.insert_vertex(());
    let v1 = dcel.insert_vertex(());
    let v2 = dcel.insert_vertex(());
    let v3 = dcel.insert_vertex(());

    let e01 = dcel.connect_two_isolated_vertices(v0, v1, 0);
    let e12 = dcel.connect_edge_to_isolated_vertex(e01, v2);
    let e23 = dcel.connect_edge_to_isolated_vertex(e12, v3);
    let e30 = dcel.create_face(e23, e01);
    let e02 = dcel.create_face(e30, e23);

    let e02 = dcel.edge(e02);
    assert_eq!(e02.cw().fix(), e01);
    assert_eq!(e02.ccw().fix(), dcel.edge(e30).sym().fix());
}

#[test]
fn pentagon_test() {
    let mut dcel = DCEL::new();
    let mut v = Vec::new();
    for _ in 0..5 {
        v.push(dcel.insert_vertex(()));
    }

    let e01 = dcel.connect_two_isolated_vertices(v[0], v[1], 0);
    let e12 = dcel.connect_edge_to_isolated_vertex(e01, v[2]);
    let e23 = dcel.connect_edge_to_isolated_vertex(e12, v[3]);
    let e34 = dcel.connect_edge_to_isolated_vertex(e23, v[4]);
    let e40 = dcel.create_face(e34, e01);

    let e02 = dcel.create_face(e40, e23);
    let e03 = dcel.create_face(e40, e34);
    let entry = dcel.edge(e02);
    assert_eq!(entry.o_next().fix(), e23);
    assert_eq!(entry.o_prev().fix(), dcel.edge(e03).sym().fix());
    assert_eq!(entry.from().fix(), v[0]);
}

#[test]
fn test_ccw_iterator() {
    let mut dcel = DCEL::new();
    let mut vs = Vec::new();
    let central = dcel.insert_vertex(());
    assert!(dcel.vertex(central).ccw_out_edges().next().is_none());

    for _ in 0..5 {
        vs.push(dcel.insert_vertex(()));
    }
    let mut last_edge = dcel.connect_two_isolated_vertices(central, vs[0], 0);
    last_edge = dcel.edge(last_edge).sym().fix();
    for vertex in &vs[1..] {
        last_edge = dcel.connect_edge_to_isolated_vertex(last_edge, *vertex);
        last_edge = dcel.edge(last_edge).sym().fix();
    }

    let out_edge = dcel.vertex(central).out_edge().unwrap();
    let mut neighs = Vec::new();
    let mut walk = out_edge.ccw_iter();
    while let Some(e) = walk.next() {
        neighs.push(e.to().fix());
    }
    assert_eq!(neighs.len(), 5);
    for i in 0..5 {
        let first = neighs[i];
        let second = neighs[(i + 1) % 5];
        assert_eq!(first - 1, second % 5);
    }
    let mut revs = Vec::new();
    let mut walk_back = out_edge.ccw_iter();
    while let Some(e) = walk_back.next_back() {
        revs.push(e.to().fix());
    }
    neighs.reverse();
    assert_eq!(neighs, revs);
}

#[test]
fn test_o_next_iterator() {
    let mut dcel = DCEL::new();
    let mut vs = Vec::new();
    for _ in 0..5 {
        vs.push(dcel.insert_vertex(()));
    }

    let mut last_edge = dcel.connect_two_isolated_vertices(vs[0], vs[1], 0);
    let mut edges = vec![last_edge];
    for vertex in &vs[2..] {
        last_edge = dcel.connect_edge_to_isolated_vertex(last_edge, *vertex);
        edges.push(last_edge);
    }
    edges.push(dcel.connect_edge_to_edge(last_edge, vs[0]));

    let mut iterated = Vec::new();
    let mut walk = dcel.edge(edges[0]).o_next_iterator();
    while let Some(e) = walk.next() {
        iterated.push(e.fix());
    }
    assert_eq!(iterated, edges);

    let mut rev = Vec::new();
    let mut walk_back = dcel.edge(edges[0]).o_next_iterator();
    while let Some(e) = walk_back.next_back() {
        rev.push(e.fix());
    }
    iterated.reverse();
    assert_eq!(iterated, rev);
}

/// A square of four vertices, split into two triangles by the diagonal from
/// vertex 0 to vertex 2. Returns the structure and the half-edges of the
/// four sides and of the diagonal.
fn two_triangles() -> (DCEL<u32>, [usize; 5]) {
    let mut dcel = DCEL::new();
    let v0 = dcel.insert_vertex(10);
    let v1 = dcel.insert_vertex(11);
    let v2 = dcel.insert_vertex(12);
    let v3 = dcel.insert_vertex(13);
    let e01 = dcel.connect_two_isolated_vertices(v0, v1, 0);
    let e12 = dcel.connect_edge_to_isolated_vertex(e01, v2);
    let e23 = dcel.connect_edge_to_isolated_vertex(e12, v3);
    let e30 = dcel.create_face(e23, e01);
    let e02 = dcel.create_face(e30, e23);
    (dcel, [e01, e12, e23, e30, e02])
}

fn ring_of(dcel: &DCEL<u32>, start: usize) -> Vec<usize> {
    let mut ring = Vec::new();
    let mut walk = dcel.edge(start).o_next_iterator();
    while let Some(e) = walk.next() {
        ring.push(e.fix());
    }
    ring
}

#[test]
fn new_structure_has_only_the_outer_face() {
    let dcel: DCEL<u32> = DCEL::new();
    assert_eq!(dcel.num_vertices(), 0);
    assert_eq!(dcel.num_edges(), 0);
    assert_eq!(dcel.num_faces(), 1);
    assert!(dcel.face(0).adjacent_edge().is_none());
    assert!(dcel.face(0).adjacent_edges().next().is_none());
    assert!(dcel.sanity_check());
    let with_data: DCEL<u32, bool> = DCEL::new_with_edge();
    assert_eq!(with_data.num_faces(), 1);
}

#[test]
fn inserted_vertices_are_isolated() {
    let mut dcel = DCEL::new();
    assert_eq!(dcel.insert_vertex(7u32), 0);
    assert_eq!(dcel.insert_vertex(8u32), 1);
    assert_eq!(dcel.num_vertices(), 2);
    assert!(dcel.vertex(0).out_edge().is_none());
    assert!(dcel.vertex(1).out_edge().is_none());
    assert_eq!(*dcel.vertex(1).data(), 8);
    assert_eq!(dcel.fixed_vertices(), 0..2);
}

#[test]
fn connect_two_isolated_vertices_makes_a_dangling_spoke() {
    let mut dcel: DCEL<u32, u8> = DCEL::new_with_edge();
    let v0 = dcel.insert_vertex(1);
    let v1 = dcel.insert_vertex(2);
    let e = dcel.connect_two_isolated_vertices(v0, v1, 0);
    let t = dcel.edge(e).sym().fix();
    assert_eq!((e, t), (0, 1));
    assert_eq!(dcel.edge(e).o_next().fix(), t);
    assert_eq!(dcel.edge(e).o_prev().fix(), t);
    assert_eq!(dcel.edge(t).o_next().fix(), e);
    assert_eq!(dcel.edge(t).o_prev().fix(), e);
    assert_eq!(dcel.edge(e).from().fix(), v0);
    assert_eq!(dcel.edge(e).to().fix(), v1);
    assert_eq!(dcel.edge(e).face().fix(), 0);
    assert_eq!(dcel.edge(t).face().fix(), 0);
    assert_eq!(dcel.vertex(v0).out_edge().map(|h| h.fix()), Some(e));
    assert_eq!(dcel.vertex(v1).out_edge().map(|h| h.fix()), Some(t));
    assert_eq!(dcel.face(0).adjacent_edge().map(|h| h.fix()), Some(e));
    assert_eq!(*dcel.edge_data(e), 0);
    assert_eq!(dcel.num_edges(), 1);
    assert!(dcel.sanity_check());
}

#[test]
fn links_round_trip_on_every_half_edge() {
    let (dcel, _) = two_triangles();
    for e in 0..2 * dcel.num_edges() {
        let edge = dcel.edge(e);
        assert_eq!(edge.o_next().o_prev().fix(), e);
        assert_eq!(edge.o_prev().o_next().fix(), e);
        assert_eq!(edge.sym().sym().fix(), e);
        assert_eq!(edge.cw().ccw().fix(), e);
        assert_eq!(edge.ccw().cw().fix(), e);
        assert_eq!(edge.o_next().face().fix(), edge.face().fix());
        assert_eq!(edge.cw().from().fix(), edge.from().fix());
        assert_eq!(edge.o_next().from().fix(), edge.to().fix());
    }
    for f in 0..dcel.num_faces() {
        let adjacent = dcel.face(f).adjacent_edge().unwrap();
        assert_eq!(adjacent.face().fix(), f);
    }
    for v in 0..dcel.num_vertices() {
        let out = dcel.vertex(v).out_edge().unwrap();
        assert_eq!(out.from().fix(), v);
    }
    assert!(dcel.sanity_check());
}

#[test]
fn next_and_prev_walk_the_same_ring() {
    let (dcel, edges) = two_triangles();
    for f in 0..dcel.num_faces() {
        let mut forward = Vec::new();
        let mut walk = dcel.face(f).adjacent_edges();
        while let Some(e) = walk.next() {
            forward.push(e.fix());
        }
        let mut backward = Vec::new();
        let mut walk_back = dcel.face(f).adjacent_edges();
        while let Some(e) = walk_back.next_back() {
            backward.push(e.fix());
        }
        let mut sorted_forward = forward.clone();
        sorted_forward.sort();
        backward.sort();
        assert_eq!(sorted_forward, backward);
        for e in forward {
            assert_eq!(dcel.edge(e).face().fix(), f);
        }
    }
    assert_eq!(ring_of(&dcel, edges[4]).len(), 3);
}

#[test]
fn as_triangle_names_the_three_corners() {
    let (dcel, edges) = two_triangles();
    let face = dcel.edge(edges[4]).face();
    assert_eq!(face.fix(), 2);
    let corners = face.as_triangle();
    let adjacent = face.adjacent_edge().unwrap();
    assert_eq!(corners[0].fix(), adjacent.o_prev().from().fix());
    assert_eq!(corners[1].fix(), adjacent.from().fix());
    assert_eq!(corners[2].fix(), adjacent.to().fix());
    let mut sorted = vec![corners[0].fix(), corners[1].fix(), corners[2].fix()];
    sorted.sort();
    assert_eq!(sorted, vec![0, 2, 3]);
}

#[test]
fn get_edge_from_neighbors_finds_edges_and_misses_none() {
    let (dcel, edges) = two_triangles();
    let found = dcel.get_edge_from_neighbors(0, 1).unwrap();
    assert_eq!(found.fix(), edges[0]);
    let diagonal = dcel.get_edge_from_neighbors(0, 2).unwrap();
    assert_eq!(diagonal.fix(), edges[4]);
    let back = dcel.get_edge_from_neighbors(2, 0).unwrap();
    assert_eq!(back.fix(), dcel.edge(edges[4]).sym().fix());
    assert!(dcel.get_edge_from_neighbors(1, 3).is_none());
    assert!(dcel.get_edge_from_neighbors(3, 1).is_none());
    assert!(dcel.get_edge_from_neighbors(0, 0).is_none());
    let mut lonely = DCEL::new();
    let v = lonely.insert_vertex(());
    assert!(lonely.get_edge_from_neighbors(v, v).is_none());
}

#[test]
fn walks_over_all_records() {
    let (dcel, _) = two_triangles();
    let mut vertices = Vec::new();
    let mut walk = dcel.vertices();
    while let Some(v) = walk.next() {
        vertices.push((v.fix(), *v.data()));
    }
    assert_eq!(vertices, vec![(0, 10), (1, 11), (2, 12), (3, 13)]);

    let mut faces = Vec::new();
    let mut walk = dcel.faces();
    while let Some(f) = walk.next() {
        faces.push(f.fix());
    }
    assert_eq!(faces, vec![0, 1, 2]);

    let mut edges = Vec::new();
    let mut walk = dcel.edges();
    while let Some(e) = walk.next() {
        edges.push(e.fix());
    }
    assert_eq!(edges, vec![0, 2, 4, 6, 8]);
    assert_eq!(dcel.num_edges(), 5);
    let fixed: Vec<usize> = dcel.fixed_vertices().collect();
    assert_eq!(fixed, vec![0, 1, 2, 3]);
}

#[test]
fn data_can_be_read_and_written() {
    let mut dcel: DCEL<u32, u8> = DCEL::new_with_edge();
    let v0 = dcel.insert_vertex(1);
    let v1 = dcel.insert_vertex(2);
    let e = dcel.connect_two_isolated_vertices(v0, v1, 0);
    *dcel.vertex_mut(v0) = 40;
    dcel.update_vertex(v1, 41);
    *dcel.edge_data_mut(e) = 9;
    assert_eq!(*dcel.vertex(v0).data(), 40);
    assert_eq!(*dcel.vertex(v1).data(), 41);
    assert_eq!(*dcel.edge_data(e), 9);
    assert_eq!(*dcel.edge_data(e + 1), 0);
    assert!(dcel.sanity_check());
}

#[test]
fn connect_edge_to_edge_keeps_the_face_label() {
    let mut dcel = DCEL::new();
    let v0 = dcel.insert_vertex(());
    let v1 = dcel.insert_vertex(());
    let v2 = dcel.insert_vertex(());
    let e01 = dcel.connect_two_isolated_vertices(v0, v1, 0);
    let e12 = dcel.connect_edge_to_isolated_vertex(e01, v2);
    let e20 = dcel.connect_edge_to_edge(e12, e01);
    let t20 = dcel.edge(e20).sym().fix();
    assert_eq!(dcel.num_faces(), 1);
    assert_eq!(links(&dcel, e20), (e01, e12, t20, v2, 0));
    assert_eq!(dcel.edge(t20).from().fix(), v0);
    assert_eq!(dcel.edge(t20).face().fix(), 0);
    assert_eq!(dcel.edge(e01).o_prev().fix(), e20);
    assert_eq!(dcel.edge(e12).o_next().fix(), e20);
    assert!(dcel.sanity_check());
}

#[test]
fn remove_edge_merges_the_two_triangles() {
    let (mut dcel, edges) = two_triangles();
    let diagonal = edges[4];
    dcel.remove_edge(diagonal, None);
    assert_eq!(dcel.num_edges(), 4);
    assert_eq!(dcel.num_faces(), 2);
    assert!(dcel.sanity_check());
    // the face of the removed half-edge, face 2, survives and is moved to
    // the place of the face that is given up
    let inner = dcel.edge(edges[0]).face().fix();
    assert_eq!(inner, 1);
    let ring = ring_of(&dcel, edges[0]);
    assert_eq!(ring, vec![edges[0], edges[1], edges[2], edges[3]]);
    for e in ring {
        assert_eq!(dcel.edge(e).face().fix(), inner);
        assert_eq!(dcel.edge(e).sym().face().fix(), 0);
    }
    assert!(dcel.get_edge_from_neighbors(0, 2).is_none());
    assert!(dcel.get_edge_from_neighbors(2, 0).is_none());
}

#[test]
fn remove_edge_keeps_the_face_that_is_named() {
    let (mut dcel, edges) = two_triangles();
    // the diagonal borders face 2, its twin face 1
    assert_eq!(dcel.edge(edges[4]).face().fix(), 2);
    assert_eq!(dcel.edge(edges[4]).sym().face().fix(), 1);
    dcel.remove_edge(edges[4], Some(1));
    assert_eq!(dcel.num_faces(), 2);
    assert_eq!(dcel.edge(edges[0]).face().fix(), 1);
    assert_eq!(ring_of(&dcel, edges[2]).len(), 4);
    assert!(dcel.sanity_check());
}

#[test]
fn remove_edge_moves_the_last_pair_into_the_gap() {
    let (mut dcel, edges) = two_triangles();
    // remove the side from vertex 1 to vertex 2: the triangle (0, 1, 2)
    // opens to the outer face
    let e12 = edges[1];
    let t12 = dcel.edge(e12).sym().fix();
    assert_eq!((e12, t12), (2, 3));
    dcel.remove_edge(e12, Some(0));
    assert_eq!(dcel.num_edges(), 4);
    assert_eq!(dcel.num_faces(), 2);
    assert!(dcel.sanity_check());
    // the diagonal, which was the last pair, now stands at 2 and 3
    let diagonal = dcel.get_edge_from_neighbors(0, 2).unwrap().fix();
    assert_eq!(diagonal, 2);
    assert_eq!(dcel.edge(diagonal).sym().fix(), 3);
    assert!(dcel.get_edge_from_neighbors(1, 2).is_none());
    assert_eq!(dcel.vertex(1).out_edge().unwrap().to().fix(), 0);
}

#[test]
fn remove_lone_edge_leaves_two_isolated_vertices() {
    let mut dcel = DCEL::new();
    let v0 = dcel.insert_vertex(1u32);
    let v1 = dcel.insert_vertex(2u32);
    let e = dcel.connect_two_isolated_vertices(v0, v1, 0);
    dcel.remove_edge(e, None);
    assert_eq!(dcel.num_edges(), 0);
    assert_eq!(dcel.num_faces(), 1);
    assert!(dcel.vertex(v0).out_edge().is_none());
    assert!(dcel.vertex(v1).out_edge().is_none());
    assert!(dcel.face(0).adjacent_edge().is_none());
    assert!(dcel.sanity_check());
    // the structure can be built up again
    let again = dcel.connect_two_isolated_vertices(v0, v1, 0);
    assert_eq!(again, 0);
    assert!(dcel.sanity_check());
}

#[test]
fn connect_then_remove_restores_the_links() {
    let (mut dcel, edges) = two_triangles();
    let v = dcel.insert_vertex(99);
    let before: Vec<_> = (0..10).map(|e| links_u32(&dcel, e)).collect();
    let spoke = dcel.connect_edge_to_isolated_vertex(dcel.edge(edges[0]).sym().fix(), v);
    assert!(dcel.sanity_check());
    dcel.remove_edge(spoke, None);
    assert!(dcel.sanity_check());
    let after: Vec<_> = (0..10).map(|e| links_u32(&dcel, e)).collect();
    assert_eq!(before, after);
    assert!(dcel.vertex(v).out_edge().is_none());
}

fn links_u32(dcel: &DCEL<u32>, e: usize) -> (usize, usize, usize, usize, usize) {
    let edge = dcel.edge(e);
    (
        edge.o_next().fix(),
        edge.o_prev().fix(),
        edge.sym().fix(),
        edge.from().fix(),
        edge.face().fix(),
    )
}

#[test]
fn remove_vertex_takes_its_edges_along() {
    let (mut dcel, _) = two_triangles();
    // vertex 1 has two edges, to the vertices 0 and 2
    let result = dcel.remove_vertex(1, None);
    assert_eq!(result.data, 11);
    assert_eq!(result.updated_vertex, Some(3));
    assert_eq!(dcel.num_vertices(), 3);
    assert_eq!(dcel.num_edges(), 3);
    assert_eq!(dcel.num_faces(), 2);
    assert!(dcel.sanity_check());
    // the vertex that was vertex 3 now is vertex 1
    assert_eq!(*dcel.vertex(1).data(), 13);
    assert!(dcel.get_edge_from_neighbors(1, 0).is_some());
    assert!(dcel.get_edge_from_neighbors(2, 1).is_some());
    assert!(dcel.get_edge_from_neighbors(0, 2).is_some());
    for v in 0..3 {
        let mut degree = 0;
        let mut walk = dcel.vertex(v).ccw_out_edges();
        while let Some(e) = walk.next() {
            assert_eq!(e.from().fix(), v);
            degree += 1;
        }
        assert_eq!(degree, 2);
    }
}

#[test]
fn remove_last_vertex_moves_nothing() {
    let (mut dcel, _) = two_triangles();
    let result = dcel.remove_vertex(3, None);
    assert_eq!(result.data, 13);
    assert_eq!(result.updated_vertex, None);
    assert_eq!(dcel.num_vertices(), 3);
    assert_eq!(dcel.num_edges(), 3);
    assert!(dcel.sanity_check());
    let isolated = dcel.insert_vertex(5);
    let gone = dcel.remove_vertex(isolated, None);
    assert_eq!(gone.data, 5);
    assert_eq!(gone.updated_vertex, None);
    assert!(dcel.sanity_check());
}

#[test]
fn flip_cw_twice_turns_the_diagonal_around() {
    let (mut dcel, edges) = two_triangles();
    let diagonal = edges[4];
    assert_eq!(dcel.edge(diagonal).from().fix(), 0);
    assert_eq!(dcel.edge(diagonal).to().fix(), 2);
    dcel.flip_cw(diagonal);
    assert_eq!(dcel.edge(diagonal).from().fix(), 3);
    assert_eq!(dcel.edge(diagonal).to().fix(), 1);
    assert_eq!(dcel.edge(diagonal).face().fix(), 2);
    assert_eq!(dcel.edge(diagonal).sym().face().fix(), 1);
    assert!(dcel.sanity_check());
    dcel.flip_cw(diagonal);
    assert_eq!(dcel.edge(diagonal).from().fix(), 2);
    assert_eq!(dcel.edge(diagonal).to().fix(), 0);
    assert!(dcel.sanity_check());
    assert_eq!(ring_of(&dcel, diagonal).len(), 3);
    assert_eq!(dcel.num_faces(), 3);
}

#[test]
fn handles_are_equal_where_they_name_the_same_position() {
    let (dcel, edges) = two_triangles();
    let diagonal = dcel.edge(edges[4]);
    assert!(diagonal == dcel.edge(edges[4]));
    assert!(diagonal.sym().sym() == diagonal);
    assert!(diagonal.sym() != diagonal);
    assert!(diagonal.from() == dcel.vertex(0));
    assert!(diagonal.to() != dcel.vertex(0));
    assert!(diagonal.face() == dcel.face(2));
    assert!(diagonal.sym().face() != dcel.face(2));
    let copy = diagonal;
    assert!(copy == diagonal.clone());
}

#[test]
fn walks_from_both_ends_meet_in_the_middle() {
    let (dcel, edges) = two_triangles();
    // the outer face has the four sides on its boundary
    let outer = dcel.edge(edges[0]).sym().fix();
    let ring = ring_of(&dcel, outer);
    assert_eq!(ring.len(), 4);
    let mut walk = dcel.edge(outer).o_next_iterator();
    let first = walk.next().unwrap().fix();
    let last = walk.next_back().unwrap().fix();
    let second = walk.next().unwrap().fix();
    let third = walk.next_back().unwrap().fix();
    assert!(walk.next().is_none());
    assert!(walk.next_back().is_none());
    assert_eq!(vec![first, second, third, last], ring);

    let mut star = dcel.vertex(0).ccw_out_edges();
    let mut seen = Vec::new();
    while let Some(e) = star.next() {
        seen.push(e.to().fix());
    }
    seen.sort();
    assert_eq!(seen, vec![1, 2, 3]);
    let out = dcel.vertex(0).out_edge().unwrap();
    let mut around = out.ccw_iter();
    assert_eq!(around.next().unwrap().fix(), out.fix());
    assert_eq!(around.next_back().unwrap().fix(), out.cw().fix());
    assert_eq!(around.next().unwrap().fix(), out.ccw().fix());
    assert!(around.next().is_none());
}

#[test]
fn vertex_handles_give_the_vertex_data() {
    let (dcel, edges) = two_triangles();
    let from = dcel.edge(edges[4]).from();
    let to = dcel.edge(edges[4]).to();
    assert_eq!(*from, 10);
    assert_eq!(*to, 12);
    assert_eq!(*to.data(), 12);
    assert_eq!(from.fix(), 0);
}

/// A polygon of `k` rim vertices around a centre, cut into `k` triangles by
/// spokes. The centre is the last vertex. Returns the structure and the
/// spokes, as half-edges that end at the centre.
fn fan(k: usize) -> (DCEL<u32>, Vec<usize>) {
    let mut dcel = DCEL::new();
    let rim: Vec<usize> = (0..k).map(|i| dcel.insert_vertex(i as u32)).collect();
    let centre = dcel.insert_vertex(1000);
    let mut sides = vec![dcel.connect_two_isolated_vertices(rim[0], rim[1], 0)];
    for i in 2..k {
        let side = dcel.connect_edge_to_isolated_vertex(sides[i - 2], rim[i]);
        sides.push(side);
    }
    sides.push(dcel.create_face(sides[k - 2], sides[0]));
    let first_spoke = dcel.connect_edge_to_isolated_vertex(sides[k - 1], centre);
    let mut spokes = vec![first_spoke];
    let mut inward = dcel.edge(first_spoke).sym().fix();
    for i in 0..k - 1 {
        let spoke = dcel.create_face(sides[i], inward);
        spokes.push(spoke);
        inward = dcel.edge(spoke).sym().fix();
    }
    (dcel, spokes)
}

fn ring_length(dcel: &DCEL<u32>, start: usize) -> usize {
    let mut walk = dcel.edge(start).o_next_iterator();
    let mut length = 0;
    while walk.next().is_some() {
        length += 1;
    }
    length
}

fn degree(dcel: &DCEL<u32>, vertex: usize) -> usize {
    let mut walk = dcel.vertex(vertex).ccw_out_edges();
    let mut count = 0;
    while let Some(e) = walk.next() {
        assert_eq!(e.from().fix(), vertex);
        count += 1;
    }
    count
}

#[test]
fn fans_are_triangulated_polygons() {
    for k in 3..9 {
        let (dcel, spokes) = fan(k);
        assert!(dcel.sanity_check());
        assert_eq!(dcel.num_vertices(), k + 1);
        assert_eq!(dcel.num_edges(), 2 * k);
        assert_eq!(dcel.num_faces(), k + 1);
        // Euler's formula for a connected planar subdivision
        assert_eq!(dcel.num_vertices() + dcel.num_faces(), dcel.num_edges() + 2);
        assert_eq!(degree(&dcel, k), k);
        for v in 0..k {
            assert_eq!(degree(&dcel, v), 3);
        }
        assert_eq!(ring_length(&dcel, dcel.face(0).adjacent_edge().unwrap().fix()), k);
        for f in 1..dcel.num_faces() {
            let face = dcel.face(f);
            assert_eq!(ring_length(&dcel, face.adjacent_edge().unwrap().fix()), 3);
            let corners = face.as_triangle();
            assert!(corners.iter().any(|c| c.fix() == k));
        }
        for spoke in spokes {
            assert_eq!(dcel.edge(spoke).to().fix(), k);
            assert!(dcel.get_edge_from_neighbors(dcel.edge(spoke).from().fix(), k).is_some());
        }
    }
}

#[test]
fn flipping_every_spoke_keeps_the_links_sound() {
    for k in 4..9 {
        let (mut dcel, spokes) = fan(k);
        for spoke in spokes {
            let left = dcel.edge(spoke).o_prev().from().fix();
            let right = dcel.edge(spoke).sym().o_prev().from().fix();
            if ring_length(&dcel, spoke) != 3
                || ring_length(&dcel, dcel.edge(spoke).sym().fix()) != 3
                || left == right
            {
                continue;
            }
            let faces = (
                dcel.edge(spoke).face().fix(),
                dcel.edge(spoke).sym().face().fix(),
            );
            dcel.flip_cw(spoke);
            assert!(dcel.sanity_check());
            assert_eq!(dcel.edge(spoke).from().fix(), left);
            assert_eq!(dcel.edge(spoke).to().fix(), right);
            assert_eq!(dcel.edge(spoke).face().fix(), faces.0);
            assert_eq!(dcel.edge(spoke).sym().face().fix(), faces.1);
            assert_eq!(dcel.num_edges(), 2 * k);
            assert_eq!(dcel.num_faces(), k + 1);
            for f in 1..dcel.num_faces() {
                assert_eq!(ring_length(&dcel, dcel.face(f).adjacent_edge().unwrap().fix()), 3);
            }
        }
    }
}

#[test]
fn removing_the_centre_of_a_fan_leaves_the_polygon() {
    for k in 3..9 {
        let (mut dcel, _) = fan(k);
        let result = dcel.remove_vertex(k, None);
        assert_eq!(result.data, 1000);
        assert_eq!(result.updated_vertex, None);
        assert!(dcel.sanity_check());
        assert_eq!(dcel.num_vertices(), k);
        assert_eq!(dcel.num_edges(), k);
        assert_eq!(dcel.num_faces(), 2);
        for v in 0..k {
            assert_eq!(degree(&dcel, v), 2);
        }
        for f in 0..2 {
            assert_eq!(ring_length(&dcel, dcel.face(f).adjacent_edge().unwrap().fix()), k);
        }
    }
}

#[test]
fn removing_a_rim_vertex_of_a_fan_opens_it() {
    for k in 4..9 {
        let (mut dcel, _) = fan(k);
        // the rim vertex 0 has edges to its two neighbours and to the centre
        let result = dcel.remove_vertex(0, Some(0));
        assert_eq!(result.data, 0);
        assert_eq!(result.updated_vertex, Some(k));
        assert!(dcel.sanity_check());
        assert_eq!(dcel.num_vertices(), k);
        assert_eq!(dcel.num_edges(), 2 * k - 3);
        assert_eq!(dcel.num_faces(), k - 1);
        assert_eq!(dcel.num_vertices() + dcel.num_faces(), dcel.num_edges() + 2);
        // the centre now is vertex 0
        assert_eq!(*dcel.vertex(0), 1000);
        assert_eq!(degree(&dcel, 0), k - 1);
    }
}

#[test]
fn split_edge_puts_a_vertex_on_every_edge_of_a_fan() {
    let (mut dcel, _) = fan(5);
    let edges = dcel.num_edges();
    for e in 0..edges {
        let v = dcel.insert_vertex(2000 + e as u32);
        let from = dcel.edge(2 * e).from().fix();
        let to = dcel.edge(2 * e).to().fix();
        let new_edge = dcel.split_edge(2 * e, v);
        assert!(dcel.sanity_check());
        assert_eq!(dcel.edge(2 * e).from().fix(), from);
        assert_eq!(dcel.edge(2 * e).to().fix(), v);
        assert_eq!(dcel.edge(new_edge).from().fix(), v);
        assert_eq!(dcel.edge(new_edge).to().fix(), to);
        assert_eq!(dcel.edge(new_edge).face().fix(), dcel.edge(2 * e).face().fix());
        assert_eq!(degree(&dcel, v), 2);
    }
    assert_eq!(dcel.num_edges(), 2 * edges);
    assert_eq!(dcel.num_faces(), 6);
    assert_eq!(dcel.num_vertices() + dcel.num_faces(), dcel.num_edges() + 2);
}

#[test]
fn removing_all_edges_one_by_one_empties_the_structure() {
    for k in 3..8 {
        let (mut dcel, _) = fan(k);
        while dcel.num_edges() > 0 {
            // take an edge that separates two faces where there is one
            let mut chosen = 0;
            for e in 0..dcel.num_edges() {
                let edge = dcel.edge(2 * e);
                if edge.face().fix() != edge.sym().face().fix() {
                    chosen = 2 * e;
                    break;
                }
                let spur = edge.o_next().fix() == edge.sym().fix()
                    || edge.o_prev().fix() == edge.sym().fix();
                if spur {
                    chosen = 2 * e;
                }
            }
            dcel.remove_edge(chosen, None);
            assert!(dcel.sanity_check());
        }
        assert_eq!(dcel.num_faces(), 1);
        assert_eq!(dcel.num_vertices(), k + 1);
        for v in 0..=k {
            assert!(dcel.vertex(v).out_edge().is_none());
        }
        assert!(dcel.face(0).adjacent_edge().is_none());
    }
}

#[test]
fn structures_can_be_compared_and_printed() {
    let (a, _) = two_triangles();
    let (b, _) = two_triangles();
    assert_eq!(a, b);
    assert!(a == a.clone());
    let (mut c, edges) = two_triangles();
    c.flip_cw(edges[4]);
    assert_ne!(a, c);
    let mut d = a.clone();
    d.update_vertex(0, 77);
    assert!(a != d);
    let empty: DCEL<u32> = DCEL::new();
    let text = format!("{:?}", empty);
    assert!(text.contains("vertices"));
    assert!(text.contains("faces"));
    assert!(text.contains("edges"));
}

#[test]
fn removing_the_diagonal_restores_the_closed_path() {
    // a path of four vertices, closed to a cycle without a new face: face 0
    // has two boundary cycles
    let mut dcel = DCEL::new();
    let v: Vec<usize> = (0..4).map(|i| dcel.insert_vertex(i as u32)).collect();
    let e01 = dcel.connect_two_isolated_vertices(v[0], v[1], 0);
    let e12 = dcel.connect_edge_to_isolated_vertex(e01, v[2]);
    let e23 = dcel.connect_edge_to_isolated_vertex(e12, v[3]);
    let e30 = dcel.connect_edge_to_edge(e23, e01);
    assert_eq!(dcel.num_faces(), 1);
    assert!(dcel.sanity_check());
    let before = dcel.clone();

    // cut off the triangle (0, 1, 2) and take the diagonal back, keeping
    // face 0
    let diagonal = dcel.create_face(e12, e01);
    assert_eq!(dcel.num_faces(), 2);
    assert_eq!(dcel.edge(diagonal).face().fix(), 1);
    assert_eq!(dcel.edge(diagonal).sym().face().fix(), 0);
    dcel.remove_edge(diagonal, Some(0));
    assert!(dcel.sanity_check());
    assert_eq!(dcel.num_faces(), 1);
    assert_eq!(dcel.num_edges(), 4);
    for e in [e01, e12, e23, e30] {
        assert_eq!(links_u32(&dcel, e), links_u32(&before, e));
        let t = dcel.edge(e).sym().fix();
        assert_eq!(links_u32(&dcel, t), links_u32(&before, t));
        assert_eq!(dcel.edge(e).face().fix(), 0);
    }
    assert_eq!(ring_length(&dcel, e01), 4);
    assert_eq!(ring_length(&dcel, dcel.edge(e01).sym().fix()), 4);
}

#[test]
fn removing_a_vertex_with_a_spoke_into_a_triangle() {
    // a triangle with a further edge from vertex 0 into its inside
    let mut dcel = DCEL::new();
    let v0 = dcel.insert_vertex(10u32);
    let v1 = dcel.insert_vertex(11);
    let v2 = dcel.insert_vertex(12);
    let v3 = dcel.insert_vertex(13);
    let e01 = dcel.connect_two_isolated_vertices(v0, v1, 0);
    let e12 = dcel.connect_edge_to_isolated_vertex(e01, v2);
    let e20 = dcel.create_face(e12, e01);
    let spoke = dcel.connect_edge_to_isolated_vertex(e20, v3);
    assert_eq!(dcel.edge(spoke).from().fix(), v0);
    assert_eq!(dcel.edge(spoke).face().fix(), 1);
    assert_eq!(dcel.edge(spoke).sym().face().fix(), 1);
    assert_eq!(degree(&dcel, v0), 3);
    assert!(dcel.sanity_check());

    let result = dcel.remove_vertex(v0, None);
    assert_eq!(result.data, 10);
    assert_eq!(result.updated_vertex, Some(3));
    assert!(dcel.sanity_check());
    assert_eq!(dcel.num_vertices(), 3);
    assert_eq!(dcel.num_edges(), 1);
    assert_eq!(dcel.num_faces(), 1);
    // the vertex that was vertex 3 now is vertex 0, and isolated
    assert_eq!(*dcel.vertex(0), 13);
    assert!(dcel.vertex(0).out_edge().is_none());
    assert!(dcel.get_edge_from_neighbors(1, 2).is_some());
    assert_eq!(dcel.edge(0).face().fix(), 0);
    assert_eq!(dcel.edge(1).face().fix(), 0);
}
