use katvisualizer::mesh::QuadMesh;

#[test]
fn quads_use_two_triangles_each() {
    let mut mesh: QuadMesh<(f32, f32)> = QuadMesh::new();
    mesh.push_quad((0.0, 0.0), (1.0, 0.0), (0.0, 1.0), (1.0, 1.0));
    mesh.push_quad((1.0, 0.0), (2.0, 0.0), (1.0, 1.0), (2.0, 1.0));
    assert_eq!(mesh.vertex_count(), 8);
    assert_eq!(mesh.index_slice(), &[0, 1, 2, 2, 1, 3, 4, 5, 6, 6, 5, 7]);
    assert_eq!(mesh.vertex_slice()[5], (2.0, 0.0));
}

#[test]
fn every_index_refers_to_a_vertex() {
    let mut mesh: QuadMesh<u8> = QuadMesh::new();
    for q in 0..50u8 {
        mesh.push_quad(q, q, q, q);
    }
    assert_eq!(mesh.index_slice().len(), 300);
    assert!(mesh.index_slice().iter().all(|&i| (i as usize) < mesh.vertex_count()));
}

#[test]
fn empty_mesh() {
    let mesh: QuadMesh<u8> = QuadMesh::new();
    assert_eq!(mesh.vertex_count(), 0);
    assert!(mesh.index_slice().is_empty());
}
