use vstd::prelude::*;

verus! {

broadcast use vstd::seq_lib::group_seq_properties;

/// An undirected mesh edge, stored with its larger vertex index first.
#[derive(Clone, Copy, PartialEq, Eq, Structural, Debug, Hash)]
pub struct OnEdge {
    pub a: usize,
    pub b: usize,
}

impl OnEdge {
    /// The edge between `a` and `b`, whichever order they are given in.
    pub fn new(a: usize, b: usize) -> (e: OnEdge)
        ensures
            e == edge_of(a, b),
    {
        if a > b {
            OnEdge { a, b }
        } else {
            OnEdge { a: b, b: a }
        }
    }
}

/// The canonical form of the edge between two vertices.
pub open spec fn edge_of(a: usize, b: usize) -> OnEdge {
    if a > b {
        OnEdge { a, b }
    } else {
        OnEdge { a: b, b: a }
    }
}

/// Where a node of the geodesic graph sits: on a mesh vertex, or inside a mesh edge.
#[derive(Clone, Copy, PartialEq, Eq, Structural, Debug, Hash)]
pub enum Connectivity {
    OnVertex(usize),
    OnEdge(usize, usize),
}

/// The faces of `face` that name `v`, as copies of the face index `f`, in corner order.
pub open spec fn corner_hits(face: [usize; 3], f: int, v: usize, k: int) -> Seq<usize>
    decreases k,
{
    if k <= 0 {
        Seq::empty()
    } else {
        corner_hits(face, f, v, k - 1) + if face[k - 1] == v {
            seq![f as usize]
        } else {
            Seq::empty()
        }
    }
}

/// For every face that has `v` as a corner, its index (once per such corner), in face order.
pub open spec fn incident_faces(faces: Seq<[usize; 3]>, v: usize) -> Seq<usize>
    decreases faces.len(),
{
    if faces.len() == 0 {
        Seq::empty()
    } else {
        incident_faces(faces.drop_last(), v) + corner_hits(faces.last(), faces.len() - 1, v, 3)
    }
}

proof fn lemma_corner_hits(face: [usize; 3], f: int, v: usize, k: int)
    requires
        0 <= k <= 3,
    ensures
        forall|x: int|
            0 <= x < corner_hits(face, f, v, k).len() ==> #[trigger] corner_hits(face, f, v, k)[x]
                == f as usize && (face[0] == v || face[1] == v || face[2] == v),
    decreases k,
{
    if k > 0 {
        lemma_corner_hits(face, f, v, k - 1);
        assert forall|x: int|
            0 <= x < corner_hits(face, f, v, k).len() implies #[trigger] corner_hits(
            face,
            f,
            v,
            k,
        )[x] == f as usize && (face[0] == v || face[1] == v || face[2] == v) by {
            if x < corner_hits(face, f, v, k - 1).len() {
                assert(corner_hits(face, f, v, k)[x] == corner_hits(face, f, v, k - 1)[x]);
            } else {
                assert(face[k - 1] == v);
            }
        }
    }
}

/// Every face listed around `v` is a face of the mesh with `v` as one of its corners.
pub proof fn lemma_incident_in_range(faces: Seq<[usize; 3]>, v: usize)
    requires
        faces.len() <= usize::MAX,
    ensures
        forall|x: int|
            0 <= x < incident_faces(faces, v).len() ==> {
                let f = #[trigger] incident_faces(faces, v)[x];
                &&& f < faces.len()
                &&& (faces[f as int][0] == v || faces[f as int][1] == v || faces[f as int][2] == v)
            },
    decreases faces.len(),
{
    if faces.len() > 0 {
        let init = faces.drop_last();
        lemma_incident_in_range(init, v);
        lemma_corner_hits(faces.last(), faces.len() - 1, v, 3);
        assert forall|x: int| 0 <= x < incident_faces(faces, v).len() implies {
            let f = #[trigger] incident_faces(faces, v)[x];
            &&& f < faces.len()
            &&& (faces[f as int][0] == v || faces[f as int][1] == v || faces[f as int][2] == v)
        } by {
            if x < incident_faces(init, v).len() {
                let f = incident_faces(init, v)[x];
                assert(init[f as int] == faces[f as int]);
            } else {
                let y = x - incident_faces(init, v).len();
                assert(corner_hits(faces.last(), faces.len() - 1, v, 3)[y] == faces.len() - 1);
            }
        }
    }
}

/// A face is listed around `v` exactly when `v` is one of its corners.
proof fn lemma_incident_exact(faces: Seq<[usize; 3]>, v: usize, f: int)
    requires
        faces.len() <= usize::MAX,
        0 <= f < faces.len(),
    ensures
        incident_faces(faces, v).contains(f as usize) <==> (faces[f][0] == v || faces[f][1] == v || faces[f][2]
            == v),
    decreases faces.len(),
{
    let init = faces.drop_last();
    let last = faces.len() - 1;
    let hits = corner_hits(faces.last(), last, v, 3);
    lemma_corner_hits(faces.last(), last, v, 3);
    lemma_incident_in_range(init, v);
    assert(incident_faces(faces, v) == incident_faces(init, v) + hits);
    if f < last {
        lemma_incident_exact(init, v, f);
        assert(init[f] == faces[f]);
        if incident_faces(faces, v).contains(f as usize) {
            let x = choose|x: int| 0 <= x < incident_faces(faces, v).len() && incident_faces(faces, v)[x] == f as usize;
            if x >= incident_faces(init, v).len() {
                assert(hits[x - incident_faces(init, v).len()] == last as usize);
            } else {
                assert(incident_faces(init, v)[x] == f as usize);
            }
        }
        if incident_faces(init, v).contains(f as usize) {
            let x = choose|x: int| 0 <= x < incident_faces(init, v).len() && incident_faces(init, v)[x] == f as usize;
            assert(incident_faces(faces, v)[x] == f as usize);
        }
    } else {
        if incident_faces(faces, v).contains(f as usize) {
            let x = choose|x: int| 0 <= x < incident_faces(faces, v).len() && incident_faces(faces, v)[x] == f as usize;
            if x < incident_faces(init, v).len() {
                assert(incident_faces(init, v)[x] < init.len());
            } else {
                assert(hits[x - incident_faces(init, v).len()] == last as usize);
            }
        }
        if faces[f][0] == v || faces[f][1] == v || faces[f][2] == v {
            let face = faces.last();
            assert(corner_hits(face, last, v, 0) == Seq::<usize>::empty());
            assert(corner_hits(face, last, v, 1) =~= if face[0] == v { seq![last as usize] } else { Seq::<usize>::empty() });
            assert(corner_hits(face, last, v, 2) == corner_hits(face, last, v, 1) + if face[1] == v { seq![last as usize] } else { Seq::<usize>::empty() });
            assert(hits == corner_hits(face, last, v, 2) + if face[2] == v { seq![last as usize] } else { Seq::<usize>::empty() });
            assert(hits.len() > 0);
            assert(incident_faces(faces, v)[incident_faces(init, v).len() as int] == hits[0]);
        }
    }
}

/// Every corner of every face names a vertex below `n`.
pub open spec fn faces_in_range(faces: Seq<[usize; 3]>, n: nat) -> bool {
    forall|f: int, k: int| 0 <= f < faces.len() && 0 <= k < 3 ==> #[trigger] faces[f][k] < n
}

/// What a step of the geodesic walk can reach from a node: mesh edges to place points along,
/// and mesh vertices.
pub struct Neighbourhood {
    pub edges: Vec<(usize, usize)>,
    pub vertices: Vec<usize>,
}

/// The corners of a prefix of the listed faces are a prefix of their corners.
proof fn lemma_corners_prefix(faces: Seq<[usize; 3]>, fs: Seq<usize>, n: int)
    requires
        0 <= n <= fs.len(),
    ensures
        corners_of(faces, fs).len() == 3 * fs.len(),
        corners_of(faces, fs.take(n)) == corners_of(faces, fs).take(3 * n),
    decreases fs.len(),
{
    if fs.len() > 0 {
        let c = corners_of(faces, fs);
        let d = corners_of(faces, fs.drop_last());
        if n == fs.len() {
            lemma_corners_prefix(faces, fs.drop_last(), 0);
            assert(fs.take(n) =~= fs);
            assert(c.take(3 * n) =~= c);
        } else {
            lemma_corners_prefix(faces, fs.drop_last(), n);
            assert(fs.drop_last().take(n) =~= fs.take(n));
            assert(c.take(3 * n) =~= d.take(3 * n));
        }
    }
}

/// A vertex of the first listed face is among the corners of the listed faces.
proof fn lemma_first_corners(faces: Seq<[usize; 3]>, fs: Seq<usize>, v: usize)
    requires
        fs.len() > 0,
        faces[fs[0] as int][0] == v || faces[fs[0] as int][1] == v || faces[fs[0] as int][2] == v,
    ensures
        corners_of(faces, fs).contains(v),
{
    let f = fs[0];
    let one = fs.take(1);
    assert(one.drop_last() =~= Seq::<usize>::empty());
    assert(corners_of(faces, Seq::<usize>::empty()) == Seq::<usize>::empty());
    assert(corners_of(faces, one) =~= seq![faces[f as int][0], faces[f as int][1], faces[f as int][2]]);
    lemma_corners_prefix(faces, fs, 1);
    let c = corners_of(faces, fs);
    if faces[f as int][0] == v {
        assert(c[0] == v);
    } else if faces[f as int][1] == v {
        assert(c[1] == v);
    } else {
        assert(c[2] == v);
    }
}

/// Removing the `i`-th of distinct values by moving the last into its place leaves the other
/// values, each once.
proof fn lemma_swap_remove_distinct(d: Seq<usize>, i: int)
    requires
        d.no_duplicates(),
        0 <= i < d.len(),
    ensures
        d.update(i, d.last()).drop_last().no_duplicates(),
        forall|x: usize| #[trigger] d.update(i, d.last()).drop_last().contains(x) <==> (d.contains(x) && x != d[i]),
{
    let r = d.update(i, d.last()).drop_last();
    let n = d.len() - 1;
    assert forall|a: int, b: int| 0 <= a < r.len() && 0 <= b < r.len() && a != b implies r[a] != r[b] by {
        let ia = if a == i { n } else { a };
        let ib = if b == i { n } else { b };
        assert(r[a] == d[ia]);
        assert(r[b] == d[ib]);
    }
    assert forall|x: usize| #[trigger] r.contains(x) <==> (d.contains(x) && x != d[i]) by {
        if r.contains(x) {
            let a = choose|a: int| 0 <= a < r.len() && r[a] == x;
            let ia = if a == i { n } else { a };
            assert(d[ia] == x);
            assert(ia != i);
        }
        if d.contains(x) && x != d[i] {
            let a = choose|a: int| 0 <= a < d.len() && d[a] == x;
            if a == n {
                assert(r[i] == x);
            } else {
                assert(r[a] == x);
            }
        }
    }
}

/// Where `x` occurs in `v`, which holds it.
pub fn position_of(v: &Vec<usize>, x: usize) -> (i: usize)
    requires
        v@.contains(x),
    ensures
        i < v@.len(),
        v@[i as int] == x,
        forall|j: int| 0 <= j < i ==> v@[j] != x,
{
    let mut i: usize = 0;
    while i < v.len()
        invariant
            i <= v@.len(),
            v@.contains(x),
            forall|j: int| 0 <= j < i ==> v@[j] != x,
        decreases v@.len() - i,
    {
        if v[i] == x {
            return i;
        }
        i = i + 1;
    }
    i
}

/// The connectivity of a triangle mesh: its faces, and for each vertex the faces around it.
pub struct MeshTopology {
    n_vertices: usize,
    faces: Vec<[usize; 3]>,
    vertex_to_faces: Vec<Vec<usize>>,
}

impl MeshTopology {
    #[verifier::type_invariant]
    spec fn wf(self) -> bool {
        &&& faces_in_range(self.faces@, self.n_vertices as nat)
        &&& self.vertex_to_faces@.len() == self.n_vertices
        &&& forall|v: int|
            0 <= v < self.n_vertices ==> (#[trigger] self.vertex_to_faces@[v])@ == incident_faces(
                self.faces@,
                v as usize,
            )
    }

    pub closed spec fn vertex_count(self) -> nat {
        self.n_vertices as nat
    }

    pub closed spec fn face_seq(self) -> Seq<[usize; 3]> {
        self.faces@
    }

    /// The faces around vertex `v`, as `new` recorded them.
    pub open spec fn faces_around(self, v: usize) -> Seq<usize> {
        incident_faces(self.face_seq(), v)
    }

    /// The faces that have both `v1` and `v2` as corners, in the order they are listed around `v1`.
    pub open spec fn common_faces(self, v1: usize, v2: usize) -> Seq<usize> {
        self.faces_around(v1).filter(|f: usize| self.faces_around(v2).contains(f))
    }

    /// The faces that touch a node: those around its vertex, or those sharing its edge.
    pub open spec fn faces_touching(self, c: Connectivity) -> Seq<usize> {
        match c {
            Connectivity::OnVertex(v) => self.faces_around(v),
            Connectivity::OnEdge(a, b) => self.common_faces(a, b),
        }
    }

    /// Whether every vertex that a node names belongs to the mesh.
    pub open spec fn names_vertices(self, c: Connectivity) -> bool {
        match c {
            Connectivity::OnVertex(v) => v < self.vertex_count(),
            Connectivity::OnEdge(a, b) => a < self.vertex_count() && b < self.vertex_count(),
        }
    }

    /// The faces that have vertex `v` as a corner.
    pub fn vertex_faces(&self, v: usize) -> (faces: &Vec<usize>)
        requires
            v < self.vertex_count(),
        ensures
            faces@ == self.faces_around(v),
    {
        proof {
            use_type_invariant(self);
        }
        &self.vertex_to_faces[v]
    }

    /// The faces that have both `v1` and `v2` as corners.
    pub fn get_connected_faces(&self, v1: usize, v2: usize) -> (faces: Vec<usize>)
        requires
            v1 < self.vertex_count(),
            v2 < self.vertex_count(),
        ensures
            faces@ == self.common_faces(v1, v2),
    {
        retain_present(self.vertex_faces(v1), self.vertex_faces(v2))
    }

    /// The faces that touch the node with connectivity `c`.
    pub fn faces_of(&self, c: Connectivity) -> (faces: Vec<usize>)
        requires
            self.names_vertices(c),
        ensures
            faces@ == self.faces_touching(c),
    {
        match c {
            Connectivity::OnVertex(v) => copy_indices(self.vertex_faces(v)),
            Connectivity::OnEdge(a, b) => self.get_connected_faces(a, b),
        }
    }

    /// The faces that touch both nodes, in the order they touch the first.
    pub fn shared_faces(&self, c1: Connectivity, c2: Connectivity) -> (faces: Vec<usize>)
        requires
            self.names_vertices(c1),
            self.names_vertices(c2),
        ensures
            faces@ == self.faces_touching(c1).filter(|f: usize| self.faces_touching(c2).contains(f)),
    {
        let first = self.faces_of(c1);
        let second = self.faces_of(c2);
        retain_present(&first, &second)
    }

    /// One step of the vertex walk that shows a mesh's connectivity: from vertex `i`, the first
    /// corner `p2` of the first face around it, and the faces that `i` and `p2` share.
    pub fn debug_frame(&self, i: usize) -> (r: (usize, Vec<usize>))
        requires
            i < self.vertex_count(),
            self.faces_around(i).len() > 0,
        ensures
            r.0 == self.face_seq()[self.faces_around(i)[0] as int][0],
            r.1@ == self.common_faces(i, r.0),
    {
        let around = self.vertex_faces(i);
        proof {
            use_type_invariant(self);
            assert(self.faces@.len() == self.faces.len());
            lemma_incident_in_range(self.faces@, i);
        }
        let f = around[0];
        let face = self.face(f);
        let p2 = face[0];
        (p2, self.get_connected_faces(i, p2))
    }

    /// The corners of the listed faces, and those of their edges that a walk step from a node may
    /// follow.
    fn corners_and_edges(&self, fs: &Vec<usize>, c: Connectivity) -> (r: (Vec<usize>, Vec<(usize, usize)>))
        requires
            forall|x: int| 0 <= x < fs@.len() ==> #[trigger] fs@[x] < self.face_seq().len(),
        ensures
            r.0@ == corners_of(self.face_seq(), fs@),
            r.1@ == edges_away(self.face_seq(), fs@, c),
    {
        let mut edges: Vec<(usize, usize)> = Vec::new();
        let mut corners: Vec<usize> = Vec::new();
        let mut i: usize = 0;
        while i < fs.len()
            invariant
                i <= fs@.len(),
                forall|x: int| 0 <= x < fs@.len() ==> #[trigger] fs@[x] < self.face_seq().len(),
                corners@ == corners_of(self.face_seq(), fs@.take(i as int)),
                edges@ == edges_away(self.face_seq(), fs@.take(i as int), c),
            decreases fs@.len() - i,
        {
            proof {
                assert(fs@.take(i + 1).drop_last() =~= fs@.take(i as int));
            }
            let face = self.face(fs[i]);
            corners.push(face[0]);
            corners.push(face[1]);
            corners.push(face[2]);
            let ghost before = edges@;
            let es = face_edges(face);
            let mut k: usize = 0;
            while k < 3
                invariant
                    k <= 3,
                    es@ == spec_face_edges(face),
                    edges@ == before + if k == 0 {
                        Seq::empty()
                    } else if k == 1 {
                        if leads_away(es@[0], c) { seq![es@[0]] } else { Seq::empty() }
                    } else if k == 2 {
                        (if leads_away(es@[0], c) { seq![es@[0]] } else { Seq::empty() }) + (if leads_away(
                            es@[1],
                            c,
                        ) {
                            seq![es@[1]]
                        } else {
                            Seq::empty()
                        })
                    } else {
                        face_edges_away(face, c)
                    },
                decreases 3 - k,
            {
                let e = es[k];
                let keep = match c {
                    Connectivity::OnVertex(_) => true,
                    Connectivity::OnEdge(e1, e2) => !((e.0 == e1 && e.1 == e2) || (e.0 == e2 && e.1 == e1)),
                };
                if keep {
                    edges.push(e);
                }
                proof {
                    assert(keep == leads_away(es@[k as int], c));
                }
                k = k + 1;
            }
            proof {
                assert(corners@ =~= corners_of(self.face_seq(), fs@.take(i + 1)));
                assert(edges@ =~= edges_away(self.face_seq(), fs@.take(i + 1), c));
            }
            i = i + 1;
        }
        proof {
            assert(fs@.take(fs@.len() as int) =~= fs@);
        }
        (corners, edges)
    }

    /// The vertices next to a node: the corners of the faces that touch it, each once, in the order
    /// they first occur; a node on a vertex drops that vertex, by moving the last of the list into
    /// its place.
    pub open spec fn neighbour_vertices(self, c: Connectivity) -> Seq<usize> {
        let d = first_occurrences(corners_of(self.face_seq(), self.faces_touching(c)));
        match c {
            Connectivity::OnVertex(v) => {
                let i = d.index_of(v);
                d.update(i, d.last()).drop_last()
            },
            Connectivity::OnEdge(_, _) => d,
        }
    }

    /// Whether a node can be walked from: a node on a vertex needs a face around that vertex.
    pub open spec fn walkable(self, c: Connectivity) -> bool {
        &&& self.names_vertices(c)
        &&& match c {
            Connectivity::OnVertex(v) => self.faces_around(v).len() > 0,
            Connectivity::OnEdge(_, _) => true,
        }
    }

    /// The mesh edges and vertices that a step of the geodesic walk can reach from a node: the
    /// edges of the faces that touch it (but not the node's own edge), and
    /// the corners of those faces other than the node's own vertex.
    pub fn neighbourhood(&self, c: Connectivity) -> (n: Neighbourhood)
        requires
            self.walkable(c),
        ensures
            n.edges@ == edges_away(self.face_seq(), self.faces_touching(c), c),
            n.vertices@ == self.neighbour_vertices(c),
    {
        proof {
            use_type_invariant(self);
            assert(self.faces@.len() == self.faces.len());
            lemma_incident_in_range(self.faces@, match c {
                Connectivity::OnVertex(v) => v,
                Connectivity::OnEdge(a, _) => a,
            });
        }
        let fs = self.faces_of(c);
        proof {
            assert forall|x: int| 0 <= x < fs@.len() implies #[trigger] fs@[x] < self.faces@.len() by {
                match c {
                    Connectivity::OnVertex(v) => {},
                    Connectivity::OnEdge(a, b) => {
                        let p = |f: usize| self.faces_around(b).contains(f);
                        self.faces_around(a).lemma_filter_contains_rev(p, fs@[x]);
                        assert(fs@.contains(fs@[x]));
                    },
                }
            }
        }
        let (corners, edges) = self.corners_and_edges(&fs, c);
        let mut vertices = remove_duplicates(&corners);
        if let Connectivity::OnVertex(v) = c {
            proof {
                lemma_first_occurrences(corners@);
                lemma_first_corners(self.face_seq(), fs@, v);
            }
            let index = position_of(&vertices, v);
            proof {
                lemma_first_occurrences(corners@);
                let j = vertices@.index_of(v);
                assert(vertices@.contains(v));
                assert(0 <= j < vertices@.len() && vertices@[j] == v);
                assert(j == index);
            }
            vertices.swap_remove(index);
        }
        Neighbourhood { edges, vertices }
    }

    /// The corners of every face, three per face, narrowed to 32 bits each, for a renderer's
    /// index buffer.
    pub fn triangle_indices(&self) -> (r: Vec<u32>)
        ensures
            r@.len() == 3 * self.face_seq().len(),
            forall|f: int, k: int|
                0 <= f < self.face_seq().len() && 0 <= k < 3 ==> #[trigger] r@[3 * f + k]
                    == (self.face_seq()[f][k] as u32),
    {
        let mut r: Vec<u32> = Vec::new();
        let mut i: usize = 0;
        while i < self.faces.len()
            invariant
                i <= self.faces@.len(),
                r@.len() == 3 * i,
                forall|f: int, k: int|
                    0 <= f < i && 0 <= k < 3 ==> #[trigger] r@[3 * f + k] == (self.faces@[f][k] as u32),
            decreases self.faces@.len() - i,
        {
            let face = self.faces[i];
            r.push(face[0] as u32);
            r.push(face[1] as u32);
            r.push(face[2] as u32);
            assert forall|f: int, k: int|
                0 <= f < i + 1 && 0 <= k < 3 implies #[trigger] r@[3 * f + k] == (self.faces@[f][k] as u32) by {
                if f == i {
                    assert(3 * f + k == 3 * i + k);
                } else {
                    assert(3 * f + k < 3 * i);
                }
            }
            i = i + 1;
        }
        r
    }

    /// The vertices next to a node are the corners of the faces that touch it, each once, apart
    /// from the node's own vertex.
    pub proof fn lemma_neighbour_vertices(self, c: Connectivity)
        requires
            self.walkable(c),
        ensures
            self.neighbour_vertices(c).no_duplicates(),
            forall|x: usize| #[trigger] self.neighbour_vertices(c).contains(x) <==> (corners_of(
                self.face_seq(),
                self.faces_touching(c),
            ).contains(x) && c != Connectivity::OnVertex(x)),
    {
        let corners = corners_of(self.face_seq(), self.faces_touching(c));
        let d = first_occurrences(corners);
        lemma_first_occurrences(corners);
        if let Connectivity::OnVertex(v) = c {
            assert(self.faces@.len() == self.faces.len());
            lemma_incident_in_range(self.faces@, v);
            lemma_first_corners(self.face_seq(), self.faces_touching(c), v);
            assert(d.contains(v));
            let i = d.index_of(v);
            lemma_swap_remove_distinct(d, i);
        }
    }

    /// The faces listed around a vertex are exactly the faces that have it as a corner.
    pub proof fn lemma_faces_around(self, v: usize, f: usize)
        requires
            f < self.face_seq().len(),
        ensures
            self.faces_around(v).contains(f) <==> (self.face_seq()[f as int][0] == v || self.face_seq()[f as int][1]
                == v || self.face_seq()[f as int][2] == v),
    {
        assert(self.faces@.len() == self.faces.len());
        lemma_incident_exact(self.faces@, v, f as int);
    }

    /// The faces shared by two vertices are exactly the faces that have both as corners.
    pub proof fn lemma_common_faces(self, v1: usize, v2: usize, f: usize)
        requires
            f < self.face_seq().len(),
        ensures
            self.common_faces(v1, v2).contains(f) <==> ({
                let face = self.face_seq()[f as int];
                &&& (face[0] == v1 || face[1] == v1 || face[2] == v1)
                &&& (face[0] == v2 || face[1] == v2 || face[2] == v2)
            }),
    {
        self.lemma_faces_around(v1, f);
        self.lemma_faces_around(v2, f);
        let p = |x: usize| self.faces_around(v2).contains(x);
        if self.common_faces(v1, v2).contains(f) {
            self.faces_around(v1).lemma_filter_contains_rev(p, f);
        }
        if self.faces_around(v1).contains(f) && self.faces_around(v2).contains(f) {
            let x = choose|x: int| 0 <= x < self.faces_around(v1).len() && self.faces_around(v1)[x] == f;
            self.faces_around(v1).lemma_filter_contains(p, x);
        }
    }

    /// Two vertices share the same faces whichever is named first (the order of listing aside).
    pub proof fn lemma_common_faces_symmetric(self, v1: usize, v2: usize, f: usize)
        requires
            f < self.face_seq().len(),
        ensures
            self.common_faces(v1, v2).contains(f) <==> self.common_faces(v2, v1).contains(f),
    {
        self.lemma_common_faces(v1, v2, f);
        self.lemma_common_faces(v2, v1, f);
    }

    /// The number of vertices.
    pub fn n_vertices(&self) -> (n: usize)
        ensures
            n == self.vertex_count(),
    {
        self.n_vertices
    }

    /// The number of faces.
    pub fn face_count(&self) -> (n: usize)
        ensures
            n == self.face_seq().len(),
    {
        self.faces.len()
    }

    /// The corners of face `f`, each of them a vertex of the mesh.
    pub fn face(&self, f: usize) -> (face: [usize; 3])
        requires
            f < self.face_seq().len(),
        ensures
            face == self.face_seq()[f as int],
            face[0] < self.vertex_count(),
            face[1] < self.vertex_count(),
            face[2] < self.vertex_count(),
    {
        proof {
            use_type_invariant(self);
            assert(self.faces@[f as int][0] < self.n_vertices);
            assert(self.faces@[f as int][1] < self.n_vertices);
            assert(self.faces@[f as int][2] < self.n_vertices);
        }
        self.faces[f]
    }

    /// Builds the topology of a mesh with `n_vertices` vertices, recording for each vertex
    /// the faces that have it as a corner.
    pub fn new(n_vertices: usize, faces: Vec<[usize; 3]>) -> (m: MeshTopology)
        requires
            faces_in_range(faces@, n_vertices as nat),
        ensures
            m.vertex_count() == n_vertices,
            m.face_seq() == faces@,
    {
        let mut vertex_to_faces: Vec<Vec<usize>> = Vec::new();
        let mut v: usize = 0;
        while v < n_vertices
            invariant
                v <= n_vertices,
                vertex_to_faces@.len() == v,
                forall|u: int| 0 <= u < v ==> (#[trigger] vertex_to_faces@[u])@ == Seq::<usize>::empty(),
            decreases n_vertices - v,
        {
            vertex_to_faces.push(Vec::new());
            v = v + 1;
        }
        let mut i: usize = 0;
        while i < faces.len()
            invariant
                i <= faces@.len(),
                faces_in_range(faces@, n_vertices as nat),
                vertex_to_faces@.len() == n_vertices,
                forall|u: int|
                    0 <= u < n_vertices ==> (#[trigger] vertex_to_faces@[u])@ == incident_faces(
                        faces@.take(i as int),
                        u as usize,
                    ),
            decreases faces@.len() - i,
        {
            let face = faces[i];
            let mut k: usize = 0;
            while k < 3
                invariant
                    i < faces@.len(),
                    face == faces@[i as int],
                    k <= 3,
                    faces_in_range(faces@, n_vertices as nat),
                    vertex_to_faces@.len() == n_vertices,
                    forall|u: int|
                        0 <= u < n_vertices ==> (#[trigger] vertex_to_faces@[u])@ == incident_faces(
                            faces@.take(i as int),
                            u as usize,
                        ) + corner_hits(face, i as int, u as usize, k as int),
                decreases 3 - k,
            {
                let vertex = face[k];
                assert(vertex < n_vertices);
                vertex_to_faces[vertex].push(i);
                k = k + 1;
            }
            proof {
                assert(faces@.take(i + 1).drop_last() =~= faces@.take(i as int));
            }
            i = i + 1;
        }
        proof {
            assert(faces@.take(faces@.len() as int) =~= faces@);
        }
        MeshTopology { n_vertices, faces, vertex_to_faces }
    }
}

/// Whether a walk step from a node may follow edge `e`: every edge for a node on a vertex; for a
/// node on an edge, every edge but that edge itself (in either direction).
pub open spec fn leads_away(e: (usize, usize), c: Connectivity) -> bool {
    match c {
        Connectivity::OnVertex(_) => true,
        Connectivity::OnEdge(e1, e2) => !((e.0 == e1 && e.1 == e2) || (e.0 == e2 && e.1 == e1)),
    }
}

/// The edges of `face` that a walk step from a node may follow, in corner order.
pub open spec fn face_edges_away(face: [usize; 3], c: Connectivity) -> Seq<(usize, usize)> {
    let es = spec_face_edges(face);
    (if leads_away(es[0], c) { seq![es[0]] } else { Seq::empty() }) + (if leads_away(es[1], c) {
        seq![es[1]]
    } else {
        Seq::empty()
    }) + (if leads_away(es[2], c) { seq![es[2]] } else { Seq::empty() })
}

/// The corners of the listed faces, three per face, in order.
pub open spec fn corners_of(faces: Seq<[usize; 3]>, fs: Seq<usize>) -> Seq<usize>
    decreases fs.len(),
{
    if fs.len() == 0 {
        Seq::empty()
    } else {
        let face = faces[fs.last() as int];
        corners_of(faces, fs.drop_last()) + seq![face[0], face[1], face[2]]
    }
}

/// The edges of the listed faces that a walk step from a node may follow, face by face.
pub open spec fn edges_away(faces: Seq<[usize; 3]>, fs: Seq<usize>, c: Connectivity) -> Seq<(usize, usize)>
    decreases fs.len(),
{
    if fs.len() == 0 {
        Seq::empty()
    } else {
        let face = faces[fs.last() as int];
        edges_away(faces, fs.drop_last(), c) + face_edges_away(face, c)
    }
}

/// The entries of `s`, each kept where it first occurs.
pub open spec fn first_occurrences(s: Seq<usize>) -> Seq<usize>
    decreases s.len(),
{
    if s.len() == 0 {
        Seq::empty()
    } else {
        let d = first_occurrences(s.drop_last());
        if d.contains(s.last()) {
            d
        } else {
            d.push(s.last())
        }
    }
}

/// `first_occurrences` keeps exactly the values of `s`, each once.
pub proof fn lemma_first_occurrences(s: Seq<usize>)
    ensures
        first_occurrences(s).no_duplicates(),
        forall|x: usize| #[trigger] first_occurrences(s).contains(x) <==> s.contains(x),
    decreases s.len(),
{
    if s.len() > 0 {
        lemma_first_occurrences(s.drop_last());
        let d = first_occurrences(s.drop_last());
        assert forall|x: usize| #[trigger] first_occurrences(s).contains(x) <==> s.contains(x) by {
            if s.contains(x) && !d.contains(x) {
                let i = choose|i: int| 0 <= i < s.len() && s[i] == x;
                if i < s.len() - 1 {
                    assert(s.drop_last()[i] == x);
                }
            }
            if d.contains(x) {
                assert(s.drop_last().contains(x));
                let i = choose|i: int| 0 <= i < s.drop_last().len() && s.drop_last()[i] == x;
                assert(s[i] == x);
            }
        }
    }
}

/// Keeps each entry of `s` where it first occurs.
pub fn remove_duplicates(s: &Vec<usize>) -> (r: Vec<usize>)
    ensures
        r@ == first_occurrences(s@),
{
    let mut r: Vec<usize> = Vec::new();
    let mut i: usize = 0;
    while i < s.len()
        invariant
            i <= s@.len(),
            r@ == first_occurrences(s@.take(i as int)),
        decreases s@.len() - i,
    {
        proof {
            assert(s@.take(i + 1).drop_last() =~= s@.take(i as int));
        }
        let x = s[i];
        if !contains_index(&r, x) {
            r.push(x);
        }
        i = i + 1;
    }
    proof {
        assert(s@.take(s@.len() as int) =~= s@);
    }
    r
}

/// The edge that two nodes known to share one lie on: the first node's edge, or else the edge
/// from the first node's vertex to the second node's vertex or along the second node's edge.
pub open spec fn spec_shared_edge(c1: Connectivity, c2: Connectivity) -> (usize, usize) {
    match c1 {
        Connectivity::OnEdge(a, b) => (a, b),
        Connectivity::OnVertex(a) => match c2 {
            Connectivity::OnVertex(b) => (a, b),
            Connectivity::OnEdge(a2, b2) => (a2, b2),
        },
    }
}

/// The edge that two nodes lying on a common edge share.
pub fn shared_edge(c1: Connectivity, c2: Connectivity) -> (r: (usize, usize))
    ensures
        r == spec_shared_edge(c1, c2),
{
    match c1 {
        Connectivity::OnEdge(a, b) => (a, b),
        Connectivity::OnVertex(a) => match c2 {
            Connectivity::OnVertex(b) => (a, b),
            Connectivity::OnEdge(a2, b2) => (a2, b2),
        },
    }
}

/// The three edges of a triangle, each from one corner to the next.
pub open spec fn spec_face_edges(face: [usize; 3]) -> Seq<(usize, usize)> {
    seq![(face[0], face[1]), (face[1], face[2]), (face[2], face[0])]
}

/// The three edges of a triangle, each from one corner to the next.
pub fn face_edges(face: [usize; 3]) -> (edges: [(usize, usize); 3])
    ensures
        edges@ == spec_face_edges(face),
{
    let edges = [(face[0], face[1]), (face[1], face[2]), (face[2], face[0])];
    assert(edges@ =~= spec_face_edges(face));
    edges
}

/// Whether `x` occurs in `v`.
pub fn contains_index(v: &Vec<usize>, x: usize) -> (r: bool)
    ensures
        r == v@.contains(x),
{
    let mut i: usize = 0;
    while i < v.len()
        invariant
            i <= v@.len(),
            forall|j: int| 0 <= j < i ==> v@[j] != x,
        decreases v@.len() - i,
    {
        if v[i] == x {
            return true;
        }
        i = i + 1;
    }
    false
}

/// Keeps, in order, the entries of `a` that also occur in `b`.
pub fn retain_present(a: &Vec<usize>, b: &Vec<usize>) -> (r: Vec<usize>)
    ensures
        r@ == a@.filter(|f: usize| b@.contains(f)),
{
    let ghost p = |f: usize| b@.contains(f);
    let mut r: Vec<usize> = Vec::new();
    let mut i: usize = 0;
    while i < a.len()
        invariant
            i <= a@.len(),
            p == (|f: usize| b@.contains(f)),
            r@ == a@.take(i as int).filter(p),
        decreases a@.len() - i,
    {
        proof {
            assert(a@.take(i + 1) =~= a@.take(i as int).push(a@[i as int]));
            a@.take(i as int).lemma_filter_push(a@[i as int], p);
        }
        let x = a[i];
        if contains_index(b, x) {
            r.push(x);
            assert(p(x));
        } else {
            assert(!p(x));
        }
        i = i + 1;
    }
    proof {
        assert(a@.take(a@.len() as int) =~= a@);
    }
    r
}

/// An element-by-element copy of a list of indices.
pub fn copy_indices(a: &Vec<usize>) -> (r: Vec<usize>)
    ensures
        r@ == a@,
{
    let mut r: Vec<usize> = Vec::new();
    let mut i: usize = 0;
    while i < a.len()
        invariant
            i <= a@.len(),
            r@ == a@.take(i as int),
        decreases a@.len() - i,
    {
        r.push(a[i]);
        proof {
            assert(a@.take(i + 1) =~= a@.take(i as int).push(a@[i as int]));
        }
        i = i + 1;
    }
    proof {
        assert(a@.take(a@.len() as int) =~= a@);
    }
    r
}

} // verus!
