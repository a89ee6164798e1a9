use crochet_generator::stl::{load_topology, StlError};

const TWO_FACETS: &str = "solid pair
  facet normal 0 0 1
    outer loop
      vertex 0 0 0
      vertex 1 0 0
      vertex 0 1 0
    endloop
  endfacet
  facet normal 0 0 1
    outer loop
      vertex 1 0 0
      vertex 1 1 0
      vertex 0 1 0
    endloop
  endfacet
endsolid pair
";

#[test]
fn topology_from_ascii_stl() {
    let m = load_topology(TWO_FACETS.as_bytes()).unwrap();
    assert_eq!(m.face_count(), 2);
    assert_eq!(m.face(0), [0, 1, 2]);
    assert_eq!(m.face(1), [1, 3, 2]);
    assert_eq!(m.vertex_faces(1), &vec![0, 1]);
    assert_eq!(m.get_connected_faces(1, 2), vec![0, 1]);
}

#[test]
fn short_bytes_are_unreadable() {
    assert_eq!(load_topology(b"not an stl").err(), Some(StlError::Unreadable));
}
