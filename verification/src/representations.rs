use vstd::prelude::*;

verus! {

/// The output formats that a finished pattern can be written in.
#[derive(Clone, Copy, PartialEq, Eq, Structural, Debug)]
pub enum StitchFormatChoice {
    StitchPoint,
    CrochetParade,
    Worded,
}

/// A stitch position placed on a face of the mesh.
pub struct StitchPoint<P> {
    pub pos: P,
    pub face: usize,
    pub isoline_index: usize,
}

/// A point known to lie on a given face of the mesh.
#[derive(Clone, Copy)]
pub struct NodeOnFace<P> {
    pub pos: P,
    pub face: usize,
}

impl<P> From<StitchPoint<P>> for NodeOnFace<P> {
    /// Keeps the position and face of a stitch point, dropping its place on the isoline.
    fn from(value: StitchPoint<P>) -> (r: NodeOnFace<P>) {
        NodeOnFace { pos: value.pos, face: value.face }
    }
}

impl<P> vstd::std_specs::convert::FromSpecImpl<StitchPoint<P>> for NodeOnFace<P> {
    open spec fn obeys_from_spec() -> bool {
        true
    }

    open spec fn from_spec(value: StitchPoint<P>) -> NodeOnFace<P> {
        NodeOnFace { pos: value.pos, face: value.face }
    }
}

} // verus!
