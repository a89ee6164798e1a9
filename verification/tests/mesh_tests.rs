use crochet_generator::mesh::{
    contains_index, face_edges, position_of, remove_duplicates, retain_present, shared_edge, Connectivity,
    MeshTopology, OnEdge,
};

/// A tetrahedron: four vertices, four faces.
fn tetrahedron() -> MeshTopology {
    MeshTopology::new(4, vec![[0, 1, 2], [0, 3, 1], [1, 3, 2], [2, 3, 0]])
}

#[test]
fn vertex_to_faces_lists_faces_in_order() {
    let m = tetrahedron();
    assert_eq!(m.vertex_faces(0), &vec![0, 1, 3]);
    assert_eq!(m.vertex_faces(1), &vec![0, 1, 2]);
    assert_eq!(m.vertex_faces(2), &vec![0, 2, 3]);
    assert_eq!(m.vertex_faces(3), &vec![1, 2, 3]);
    assert_eq!(m.face_count(), 4);
    assert_eq!(m.face(2), [1, 3, 2]);
}

#[test]
fn vertex_with_no_face_has_none() {
    let m = MeshTopology::new(3, vec![[0, 1, 0]]);
    assert_eq!(m.vertex_faces(0), &vec![0, 0]);
    assert_eq!(m.vertex_faces(2), &Vec::<usize>::new());
}

#[test]
fn connected_faces_share_both_vertices() {
    let m = tetrahedron();
    assert_eq!(m.get_connected_faces(0, 1), vec![0, 1]);
    assert_eq!(m.get_connected_faces(1, 0), vec![0, 1]);
    assert_eq!(m.get_connected_faces(2, 3), vec![2, 3]);
    assert_eq!(m.get_connected_faces(0, 0), vec![0, 1, 3]);
}

#[test]
fn faces_of_node_and_shared_faces() {
    let m = tetrahedron();
    assert_eq!(m.faces_of(Connectivity::OnVertex(3)), vec![1, 2, 3]);
    assert_eq!(m.faces_of(Connectivity::OnEdge(3, 1)), vec![1, 2]);
    assert_eq!(m.shared_faces(Connectivity::OnVertex(0), Connectivity::OnEdge(1, 2)), vec![0]);
    assert_eq!(m.shared_faces(Connectivity::OnEdge(0, 1), Connectivity::OnEdge(0, 1)), vec![0, 1]);
}

#[test]
fn debug_frame_walks_first_face() {
    let m = tetrahedron();
    let (p2, faces) = m.debug_frame(1);
    assert_eq!(p2, 0);
    assert_eq!(faces, vec![0, 1]);
    let (p2, faces) = m.debug_frame(0);
    assert_eq!(p2, 0);
    assert_eq!(faces, vec![0, 1, 3]);
}

#[test]
fn neighbourhood_of_vertex_drops_itself() {
    let m = tetrahedron();
    let n = m.neighbourhood(Connectivity::OnVertex(0));
    // corners of faces 0, 1, 3 are 0 1 2 0 3 1 2 3 0; first occurrences 0 1 2 3; 0 replaced by the last.
    assert_eq!(n.vertices, vec![3, 1, 2]);
    assert_eq!(n.edges, vec![(0, 1), (1, 2), (2, 0), (0, 3), (3, 1), (1, 0), (2, 3), (3, 0), (0, 2)]);
}

#[test]
fn neighbourhood_of_edge_skips_only_its_own_edge() {
    let m = tetrahedron();
    let n = m.neighbourhood(Connectivity::OnEdge(0, 1));
    // faces 0 and 1 hold edge 0-1; their other edges lead away, in corner order.
    assert_eq!(n.edges, vec![(1, 2), (2, 0), (0, 3), (3, 1)]);
    assert_eq!(n.vertices, vec![0, 1, 2, 3]);
}

#[test]
fn triangle_indices_flatten_faces() {
    let m = tetrahedron();
    assert_eq!(m.triangle_indices(), vec![0u32, 1, 2, 0, 3, 1, 1, 3, 2, 2, 3, 0]);
}

#[test]
fn edges_are_canonical() {
    assert_eq!(OnEdge::new(2, 5), OnEdge { a: 5, b: 2 });
    assert_eq!(OnEdge::new(5, 2), OnEdge { a: 5, b: 2 });
    assert_eq!(face_edges([4, 7, 9]), [(4, 7), (7, 9), (9, 4)]);
}

#[test]
fn shared_edge_follows_connectivity() {
    assert_eq!(shared_edge(Connectivity::OnEdge(1, 2), Connectivity::OnVertex(7)), (1, 2));
    assert_eq!(shared_edge(Connectivity::OnVertex(3), Connectivity::OnVertex(4)), (3, 4));
    assert_eq!(shared_edge(Connectivity::OnVertex(3), Connectivity::OnEdge(5, 6)), (5, 6));
}

#[test]
fn index_helpers() {
    let v = vec![3, 1, 3, 2, 1];
    assert!(contains_index(&v, 2));
    assert!(!contains_index(&v, 9));
    assert_eq!(position_of(&v, 1), 1);
    assert_eq!(remove_duplicates(&v), vec![3, 1, 2]);
    assert_eq!(retain_present(&v, &vec![1, 2]), vec![1, 2, 1]);
}
