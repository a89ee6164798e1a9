use vstd::prelude::*;
use crate::mesh::{faces_in_range, MeshTopology};

verus! {

#[verifier::external_type_specification]
#[verifier::external_body]
pub struct ExIoError(std::io::Error);

/// What `stl_io::read_stl` reads from STL bytes (ascii or binary), reduced to the mesh's
/// connectivity: the number of distinct vertices, and for each face its three vertex indices.
/// `None` where it reports an error.
pub uninterp spec fn stl_faces(bytes: Seq<u8>) -> Option<(nat, Seq<[usize; 3]>)>;

/// Parses STL bytes with `stl_io::read_stl` and keeps the vertex count and the faces' vertex
/// indices. The contract says that the result is what `stl_faces` names for these bytes, and that
/// every face index names one of the vertices (`read_stl` builds the faces by numbering the
/// vertices it keeps); what the bytes must look like is not stated here.
#[verifier::external_body]
fn read_stl_faces(bytes: &[u8]) -> (r: Result<(usize, Vec<[usize; 3]>), std::io::Error>)
    ensures
        r matches Ok(v) ==> stl_faces(bytes@) == Some((v.0 as nat, v.1@)) && faces_in_range(v.1@, v.0 as nat),
        r is Err ==> stl_faces(bytes@) is None,
{
    match stl_io::read_stl(&mut std::io::Cursor::new(bytes)) {
        Ok(mesh) => Ok((mesh.vertices.len(), mesh.faces.iter().map(|f| f.vertices).collect())),
        Err(e) => Err(e),
    }
}

/// Why STL bytes gave no mesh.
#[derive(Clone, Copy, PartialEq, Eq, Structural, Debug)]
pub enum StlError {
    /// The bytes are not an STL mesh that could be read.
    Unreadable,
}

/// The connectivity of the mesh stored in STL bytes.
pub fn load_topology(bytes: &[u8]) -> (r: Result<MeshTopology, StlError>)
    ensures
        r is Err <==> stl_faces(bytes@) is None,
        r matches Ok(m) ==> stl_faces(bytes@) == Some((m.vertex_count(), m.face_seq())),
{
    match read_stl_faces(bytes) {
        Ok((n, faces)) => Ok(MeshTopology::new(n, faces)),
        Err(_) => Err(StlError::Unreadable),
    }
}

} // verus!
