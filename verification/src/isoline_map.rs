use vstd::prelude::*;
use crate::mesh::{OnEdge, edge_of, spec_face_edges, face_edges};

verus! {

broadcast use vstd::seq_lib::group_seq_properties;

/// Where a node of an isoline sits: its row, its circle within the row, and its place on the
/// circle.
pub type NodeIndex = (usize, usize, usize);

/// The nodes among the first `n` of circle `j` of row `i` that lie on edge `e`, in order.
pub open spec fn circle_hits(c: Seq<OnEdge>, i: int, j: int, e: OnEdge, n: int) -> Seq<NodeIndex>
    decreases n,
{
    if n <= 0 {
        Seq::empty()
    } else {
        circle_hits(c, i, j, e, n - 1) + if c[n - 1] == e {
            seq![(i as usize, j as usize, (n - 1) as usize)]
        } else {
            Seq::empty()
        }
    }
}

/// The nodes of the first `m` circles of row `i` that lie on edge `e`, in order.
pub open spec fn row_hits(r: Seq<Vec<OnEdge>>, i: int, e: OnEdge, m: int) -> Seq<NodeIndex>
    decreases m,
{
    if m <= 0 {
        Seq::empty()
    } else {
        row_hits(r, i, e, m - 1) + circle_hits(r[m - 1]@, i, m - 1, e, r[m - 1]@.len() as int)
    }
}

/// The nodes of the first `p` rows that lie on edge `e`, row by row, circle by circle.
pub open spec fn rows_hits(rows: Seq<Vec<Vec<OnEdge>>>, e: OnEdge, p: int) -> Seq<NodeIndex>
    decreases p,
{
    if p <= 0 {
        Seq::empty()
    } else {
        rows_hits(rows, e, p - 1) + row_hits(rows[p - 1]@, p - 1, e, rows[p - 1]@.len() as int)
    }
}

/// Every node of the isolines that lies on edge `e`, row by row, circle by circle.
pub open spec fn nodes_on(rows: Seq<Vec<Vec<OnEdge>>>, e: OnEdge) -> Seq<NodeIndex> {
    rows_hits(rows, e, rows.len() as int)
}

proof fn lemma_concat_contains<A>(a: Seq<A>, b: Seq<A>, x: A)
    ensures
        (a + b).contains(x) <==> (a.contains(x) || b.contains(x)),
{
    if (a + b).contains(x) {
        let i = choose|i: int| 0 <= i < (a + b).len() && (a + b)[i] == x;
        if i < a.len() {
            assert(a[i] == x);
        } else {
            assert(b[i - a.len()] == x);
        }
    }
    if a.contains(x) {
        let i = choose|i: int| 0 <= i < a.len() && a[i] == x;
        assert((a + b)[i] == x);
    }
    if b.contains(x) {
        let i = choose|i: int| 0 <= i < b.len() && b[i] == x;
        assert((a + b)[a.len() + i] == x);
    }
}

proof fn lemma_circle_hits(c: Seq<OnEdge>, i: int, j: int, e: OnEdge, n: int, t: NodeIndex)
    requires
        0 <= i <= usize::MAX,
        0 <= j <= usize::MAX,
        0 <= n <= c.len(),
        c.len() <= usize::MAX,
    ensures
        circle_hits(c, i, j, e, n).contains(t) <==> (t.0 == i && t.1 == j && t.2 < n && c[t.2 as int] == e),
    decreases n,
{
    if n > 0 {
        lemma_circle_hits(c, i, j, e, n - 1, t);
        let tail = if c[n - 1] == e {
            seq![(i as usize, j as usize, (n - 1) as usize)]
        } else {
            Seq::empty()
        };
        lemma_concat_contains(circle_hits(c, i, j, e, n - 1), tail, t);
        if c[n - 1] == e {
            assert(tail[0] == (i as usize, j as usize, (n - 1) as usize));
        }
    }
}

proof fn lemma_row_hits(r: Seq<Vec<OnEdge>>, i: int, e: OnEdge, m: int, t: NodeIndex)
    requires
        0 <= i <= usize::MAX,
        0 <= m <= r.len(),
        r.len() <= usize::MAX,
    ensures
        row_hits(r, i, e, m).contains(t) <==> (t.0 == i && t.1 < m && t.2 < r[t.1 as int]@.len() && r[t.1 as int]@[t.2 as int]
            == e),
    decreases m,
{
    if m > 0 {
        lemma_row_hits(r, i, e, m - 1, t);
        assert(r[m - 1]@.len() == r[m - 1].len());
        lemma_circle_hits(r[m - 1]@, i, m - 1, e, r[m - 1]@.len() as int, t);
        lemma_concat_contains(row_hits(r, i, e, m - 1), circle_hits(r[m - 1]@, i, m - 1, e, r[m - 1]@.len() as int), t);
    }
}

proof fn lemma_rows_hits(rows: Seq<Vec<Vec<OnEdge>>>, e: OnEdge, p: int, t: NodeIndex)
    requires
        0 <= p <= rows.len(),
        rows.len() <= usize::MAX,
    ensures
        rows_hits(rows, e, p).contains(t) <==> (t.0 < p && t.1 < rows[t.0 as int]@.len() && t.2 < rows[t.0 as int]@[t.1 as int]@.len()
            && rows[t.0 as int]@[t.1 as int]@[t.2 as int] == e),
    decreases p,
{
    if p > 0 {
        lemma_rows_hits(rows, e, p - 1, t);
        assert(rows[p - 1]@.len() == rows[p - 1].len());
        lemma_row_hits(rows[p - 1]@, p - 1, e, rows[p - 1]@.len() as int, t);
        lemma_concat_contains(rows_hits(rows, e, p - 1), row_hits(rows[p - 1]@, p - 1, e, rows[p - 1]@.len() as int), t);
    }
}

/// The nodes listed on an edge are exactly the isoline nodes that lie on it.
pub proof fn lemma_nodes_on(rows: Seq<Vec<Vec<OnEdge>>>, e: OnEdge, t: NodeIndex)
    requires
        rows.len() <= usize::MAX,
    ensures
        nodes_on(rows, e).contains(t) <==> (t.0 < rows.len() && t.1 < rows[t.0 as int]@.len() && t.2 < rows[t.0 as int]@[t.1 as int]@.len()
            && rows[t.0 as int]@[t.1 as int]@[t.2 as int] == e),
{
    lemma_rows_hits(rows, e, rows.len() as int, t);
}

/// For each mesh edge, the isoline nodes that lie on it.
pub struct IsolinesMap {
    entries: Vec<(OnEdge, Vec<NodeIndex>)>,
}

/// The nodes listed for `e`, or none.
pub open spec fn lookup(entries: Seq<(OnEdge, Vec<NodeIndex>)>, e: OnEdge) -> Seq<NodeIndex> {
    if exists|x: int| 0 <= x < entries.len() && entries[x].0 == e {
        entries[choose|x: int| 0 <= x < entries.len() && entries[x].0 == e].1@
    } else {
        Seq::empty()
    }
}

/// No edge is listed twice, and every listed edge has at least one node.
pub open spec fn entries_wf(entries: Seq<(OnEdge, Vec<NodeIndex>)>) -> bool {
    &&& forall|x: int, y: int| 0 <= x < y < entries.len() ==> #[trigger] entries[x].0 != #[trigger] entries[y].0
    &&& forall|x: int| 0 <= x < entries.len() ==> (#[trigger] entries[x]).1@.len() > 0
}

impl IsolinesMap {
    #[verifier::type_invariant]
    spec fn wf(self) -> bool {
        entries_wf(self.entries@)
    }

    /// The nodes recorded on edge `e`, in the order they were added.
    pub closed spec fn nodes(self, e: OnEdge) -> Seq<NodeIndex> {
        lookup(self.entries@, e)
    }

    /// Records, for each edge, every isoline node on it: `rows[i][j][k]` is the edge that holds
    /// node `k` of circle `j` of row `i`.
    pub fn get_isoline_map(rows: &Vec<Vec<Vec<OnEdge>>>) -> (m: IsolinesMap)
        ensures
            forall|e: OnEdge| #[trigger] m.nodes(e) == nodes_on(rows@, e),
    {
        let mut entries: Vec<(OnEdge, Vec<NodeIndex>)> = Vec::new();
        let mut i: usize = 0;
        while i < rows.len()
            invariant
                i <= rows@.len(),
                entries_wf(entries@),
                forall|e: OnEdge| #[trigger] lookup(entries@, e) == rows_hits(rows@, e, i as int),
            decreases rows@.len() - i,
        {
            let row = &rows[i];
            let mut j: usize = 0;
            while j < row.len()
                invariant
                    i < rows@.len(),
                    row == rows@[i as int],
                    j <= row@.len(),
                    entries_wf(entries@),
                    forall|e: OnEdge|
                        #[trigger] lookup(entries@, e) == rows_hits(rows@, e, i as int) + row_hits(
                            row@,
                            i as int,
                            e,
                            j as int,
                        ),
                decreases row@.len() - j,
            {
                let circle = &row[j];
                let mut k: usize = 0;
                while k < circle.len()
                    invariant
                        i < rows@.len(),
                        row == rows@[i as int],
                        j < row@.len(),
                        circle == row@[j as int],
                        k <= circle@.len(),
                        entries_wf(entries@),
                        forall|e: OnEdge|
                            #[trigger] lookup(entries@, e) == rows_hits(rows@, e, i as int) + row_hits(
                                row@,
                                i as int,
                                e,
                                j as int,
                            ) + circle_hits(circle@, i as int, j as int, e, k as int),
                    decreases circle@.len() - k,
                {
                    let edge = circle[k];
                    add_node(&mut entries, edge, (i, j, k));
                    k = k + 1;
                }
                j = j + 1;
            }
            i = i + 1;
        }
        IsolinesMap { entries }
    }

    /// The nodes on edge `e`, if it holds any.
    pub fn get(&self, e: OnEdge) -> (r: Option<&Vec<NodeIndex>>)
        ensures
            r is Some <==> self.nodes(e).len() > 0,
            r matches Some(v) ==> v@ == self.nodes(e),
    {
        proof {
            use_type_invariant(self);
        }
        let mut x: usize = 0;
        while x < self.entries.len()
            invariant
                x <= self.entries@.len(),
                entries_wf(self.entries@),
                forall|y: int| 0 <= y < x ==> self.entries@[y].0 != e,
            decreases self.entries@.len() - x,
        {
            if self.entries[x].0 == e {
                proof {
                    lemma_lookup_at(self.entries@, e, x as int);
                }
                return Some(&self.entries[x].1);
            }
            x = x + 1;
        }
        None
    }
}

/// How the walk along an edge moved between isoline rows, from the row below the previous point
/// to the row below the next.
#[derive(Clone, Copy, PartialEq, Eq, Structural, Debug)]
pub enum RowCrossing {
    /// Both points lie between the same two rows.
    SameRow,
    /// The walk jumped over more than one row; the step is skipped.
    Skipped,
    /// The walk crossed exactly one row: this one.
    Boundary(i64),
}

/// How the walk between two points, whose rows below are `prev_floor` and `floor`, crosses rows.
pub open spec fn spec_row_crossing(prev_floor: i64, floor: i64) -> RowCrossing {
    if floor == prev_floor {
        RowCrossing::SameRow
    } else if floor == prev_floor + 1 {
        RowCrossing::Boundary(floor)
    } else if prev_floor == floor + 1 {
        RowCrossing::Boundary(prev_floor)
    } else {
        RowCrossing::Skipped
    }
}

/// How the walk between two points, whose rows below are `prev_floor` and `floor`, crosses rows.
pub fn row_crossing(prev_floor: i64, floor: i64) -> (r: RowCrossing)
    ensures
        r == spec_row_crossing(prev_floor, floor),
{
    if floor == prev_floor {
        RowCrossing::SameRow
    } else if prev_floor < i64::MAX && floor == prev_floor + 1 {
        RowCrossing::Boundary(floor)
    } else if floor < i64::MAX && prev_floor == floor + 1 {
        RowCrossing::Boundary(prev_floor)
    } else {
        RowCrossing::Skipped
    }
}

/// A step along an edge crosses the same rows whichever way it is walked: two points between the
/// same two rows cross nothing, points exactly one row apart cross the boundary of the upper of
/// the two rows, and points further apart are skipped.
pub proof fn lemma_row_crossing_is_symmetric(prev_floor: i64, floor: i64)
    ensures
        spec_row_crossing(prev_floor, floor) == spec_row_crossing(floor, prev_floor),
        prev_floor == floor ==> spec_row_crossing(prev_floor, floor) == RowCrossing::SameRow,
        prev_floor as int - floor as int == 1 ==> spec_row_crossing(prev_floor, floor) == RowCrossing::Boundary(prev_floor),
        floor as int - prev_floor as int == 1 ==> spec_row_crossing(prev_floor, floor) == RowCrossing::Boundary(floor),
        (prev_floor as int - floor as int > 1 || floor as int - prev_floor as int > 1) ==> spec_row_crossing(
            prev_floor,
            floor,
        ) == RowCrossing::Skipped,
{
}

/// Whether a node belongs to the row asked for (any row when none is asked for).
pub open spec fn on_row(row: Option<usize>, idx: NodeIndex) -> bool {
    match row {
        Some(r) => idx.0 == r,
        None => true,
    }
}

/// The nodes of `nodes` in the row asked for, each paired with edge `e`.
pub open spec fn tagged(e: OnEdge, nodes: Seq<NodeIndex>, row: Option<usize>) -> Seq<(OnEdge, NodeIndex)>
    decreases nodes.len(),
{
    if nodes.len() == 0 {
        Seq::empty()
    } else {
        tagged(e, nodes.drop_last(), row) + if on_row(row, nodes.last()) {
            seq![(e, nodes.last())]
        } else {
            Seq::empty()
        }
    }
}

/// The isoline nodes, in the row asked for, on the edges of a face: edge by edge, each with its
/// edge.
pub open spec fn face_nodes(m: IsolinesMap, face: [usize; 3], row: Option<usize>) -> Seq<(OnEdge, NodeIndex)> {
    let es = spec_face_edges(face);
    let e0 = edge_of(es[0].0, es[0].1);
    let e1 = edge_of(es[1].0, es[1].1);
    let e2 = edge_of(es[2].0, es[2].1);
    tagged(e0, m.nodes(e0), row) + tagged(e1, m.nodes(e1), row) + tagged(e2, m.nodes(e2), row)
}

/// Appends the nodes of `nodes` in the row asked for, each paired with edge `e`.
#[verifier::rlimit(30)]
fn push_tagged(out: &mut Vec<(OnEdge, NodeIndex)>, e: OnEdge, nodes: &Vec<NodeIndex>, row: Option<usize>)
    ensures
        final(out)@ == old(out)@ + tagged(e, nodes@, row),
{
    let ghost start = out@;
    let mut t: usize = 0;
    while t < nodes.len()
        invariant
            t <= nodes@.len(),
            out@ == start + tagged(e, nodes@.take(t as int), row),
        decreases nodes@.len() - t,
    {
        let idx = nodes[t];
        let ghost next = nodes@.take(t + 1);
        proof {
            assert(next.drop_last() =~= nodes@.take(t as int));
            assert(next.last() == idx);
            assert(tagged(e, next, row) == tagged(e, nodes@.take(t as int), row) + if on_row(row, idx) {
                seq![(e, idx)]
            } else {
                Seq::empty()
            });
        }
        let keep = match row {
            Some(r) => idx.0 == r,
            None => true,
        };
        if keep {
            out.push((e, idx));
        }
        proof {
            assert(out@ =~= start + tagged(e, next, row));
        }
        t = t + 1;
    }
    proof {
        assert(nodes@.take(nodes@.len() as int) =~= nodes@);
    }
}

impl IsolinesMap {
    /// The isoline nodes on the edges of a face, keeping only those of row `row` when one is
    /// given: edge by edge in the order of the face's corners, each with its edge.
    pub fn face_isoline_points(&self, face: [usize; 3], row: Option<usize>) -> (r: Vec<(OnEdge, NodeIndex)>)
        ensures
            r@ == face_nodes(*self, face, row),
    {
        let es = face_edges(face);
        let mut out: Vec<(OnEdge, NodeIndex)> = Vec::new();
        let mut x: usize = 0;
        while x < 3
            invariant
                x <= 3,
                es@ == spec_face_edges(face),
                out@ == if x == 0 {
                    Seq::empty()
                } else if x == 1 {
                    tagged(edge_of(es@[0].0, es@[0].1), self.nodes(edge_of(es@[0].0, es@[0].1)), row)
                } else if x == 2 {
                    tagged(edge_of(es@[0].0, es@[0].1), self.nodes(edge_of(es@[0].0, es@[0].1)), row) + tagged(
                        edge_of(es@[1].0, es@[1].1),
                        self.nodes(edge_of(es@[1].0, es@[1].1)),
                        row,
                    )
                } else {
                    face_nodes(*self, face, row)
                },
            decreases 3 - x,
        {
            let (a, b) = es[x];
            let e = OnEdge::new(a, b);
            match self.get(e) {
                Some(v) => push_tagged(&mut out, e, v, row),
                None => {
                    proof {
                        assert(self.nodes(e) =~= Seq::<NodeIndex>::empty());
                        assert(tagged(e, self.nodes(e), row) =~= Seq::<(OnEdge, NodeIndex)>::empty());
                    }
                },
            }
            proof {
                assert(Seq::<(OnEdge, NodeIndex)>::empty() + tagged(e, self.nodes(e), row) =~= tagged(
                    e,
                    self.nodes(e),
                    row,
                ));
            }
            x = x + 1;
        }
        out
    }
}

/// Without a row asked for, every node on the edge is kept, in order, each paired with the edge.
pub proof fn lemma_tagged_keeps_all(e: OnEdge, nodes: Seq<NodeIndex>)
    ensures
        tagged(e, nodes, None) == nodes.map_values(|x: NodeIndex| (e, x)),
    decreases nodes.len(),
{
    if nodes.len() > 0 {
        lemma_tagged_keeps_all(e, nodes.drop_last());
        assert(tagged(e, nodes, None) =~= nodes.map_values(|x: NodeIndex| (e, x)));
    } else {
        assert(tagged(e, nodes, None) =~= nodes.map_values(|x: NodeIndex| (e, x)));
    }
}

/// With row `r` asked for, the nodes kept on an edge are exactly those of row `r` among all of
/// its nodes, in the same order.
pub proof fn lemma_tagged_row_is_filter(e: OnEdge, nodes: Seq<NodeIndex>, r: usize)
    ensures
        tagged(e, nodes, Some(r)) == tagged(e, nodes, None).filter(|p: (OnEdge, NodeIndex)| p.1.0 == r),
    decreases nodes.len(),
{
    reveal(Seq::filter);
    let all = tagged(e, nodes, None);
    if nodes.len() > 0 {
        lemma_tagged_row_is_filter(e, nodes.drop_last(), r);
        assert(all.drop_last() =~= tagged(e, nodes.drop_last(), None));
        assert(all.last() == (e, nodes.last()));
        assert(tagged(e, nodes, Some(r)) =~= all.filter(|p: (OnEdge, NodeIndex)| p.1.0 == r));
    } else {
        assert(tagged(e, nodes, Some(r)) =~= all.filter(|p: (OnEdge, NodeIndex)| p.1.0 == r));
    }
}

/// Without a row asked for, a face gives every node on each of its three edges, edge by edge.
pub proof fn lemma_face_nodes_all(m: IsolinesMap, face: [usize; 3])
    ensures
        ({
            let es = spec_face_edges(face);
            let e0 = edge_of(es[0].0, es[0].1);
            let e1 = edge_of(es[1].0, es[1].1);
            let e2 = edge_of(es[2].0, es[2].1);
            face_nodes(m, face, None) == m.nodes(e0).map_values(|x: NodeIndex| (e0, x)) + m.nodes(
                e1,
            ).map_values(|x: NodeIndex| (e1, x)) + m.nodes(e2).map_values(|x: NodeIndex| (e2, x))
        }),
{
    let es = spec_face_edges(face);
    lemma_tagged_keeps_all(edge_of(es[0].0, es[0].1), m.nodes(edge_of(es[0].0, es[0].1)));
    lemma_tagged_keeps_all(edge_of(es[1].0, es[1].1), m.nodes(edge_of(es[1].0, es[1].1)));
    lemma_tagged_keeps_all(edge_of(es[2].0, es[2].1), m.nodes(edge_of(es[2].0, es[2].1)));
}

/// With row `r` asked for, a face gives exactly its nodes of row `r`: what it gives with no row
/// asked for, filtered by the row, in the same order.
pub proof fn lemma_face_nodes_row_is_filter(m: IsolinesMap, face: [usize; 3], r: usize)
    ensures
        face_nodes(m, face, Some(r)) == face_nodes(m, face, None).filter(|p: (OnEdge, NodeIndex)| p.1.0 == r),
{
    let es = spec_face_edges(face);
    let e0 = edge_of(es[0].0, es[0].1);
    let e1 = edge_of(es[1].0, es[1].1);
    let e2 = edge_of(es[2].0, es[2].1);
    let pred = |p: (OnEdge, NodeIndex)| p.1.0 == r;
    lemma_tagged_row_is_filter(e0, m.nodes(e0), r);
    lemma_tagged_row_is_filter(e1, m.nodes(e1), r);
    lemma_tagged_row_is_filter(e2, m.nodes(e2), r);
    let a = tagged(e0, m.nodes(e0), None);
    let b = tagged(e1, m.nodes(e1), None);
    let c = tagged(e2, m.nodes(e2), None);
    Seq::filter_distributes_over_add(a + b, c, pred);
    Seq::filter_distributes_over_add(a, b, pred);
}

/// With no edge listed twice, the nodes of the edge at `x` are its own.
proof fn lemma_lookup_at(entries: Seq<(OnEdge, Vec<NodeIndex>)>, e: OnEdge, x: int)
    requires
        entries_wf(entries),
        0 <= x < entries.len(),
        entries[x].0 == e,
    ensures
        lookup(entries, e) == entries[x].1@,
{
    let y = choose|y: int| 0 <= y < entries.len() && entries[y].0 == e;
    if y != x {
        if y < x {
            assert(entries[y].0 != entries[x].0);
        } else {
            assert(entries[x].0 != entries[y].0);
        }
    }
}

/// Appends node `n` to the nodes of edge `e`.
fn add_node(entries: &mut Vec<(OnEdge, Vec<NodeIndex>)>, e: OnEdge, n: NodeIndex)
    requires
        entries_wf(old(entries)@),
    ensures
        entries_wf(final(entries)@),
        forall|f: OnEdge|
            #[trigger] lookup(final(entries)@, f) == if f == e {
                lookup(old(entries)@, f).push(n)
            } else {
                lookup(old(entries)@, f)
            },
{
    let mut x: usize = 0;
    while x < entries.len()
        invariant
            x <= entries@.len(),
            entries@ == old(entries)@,
            entries_wf(entries@),
            forall|y: int| 0 <= y < x ==> entries@[y].0 != e,
        decreases entries@.len() - x,
    {
        if entries[x].0 == e {
            proof {
                lemma_lookup_at(entries@, e, x as int);
            }
            let ghost before = entries@;
            entries[x].1.push(n);
            proof {
                assert forall|f: OnEdge| #[trigger] lookup(entries@, f) == if f == e {
                    lookup(before, f).push(n)
                } else {
                    lookup(before, f)
                } by {
                    if f == e {
                        lemma_lookup_at(entries@, e, x as int);
                    } else if exists|y: int| 0 <= y < before.len() && before[y].0 == f {
                        let y = choose|y: int| 0 <= y < before.len() && before[y].0 == f;
                        lemma_lookup_at(before, f, y);
                        lemma_lookup_at(entries@, f, y);
                    } else {
                        assert(!exists|y: int| 0 <= y < entries@.len() && entries@[y].0 == f) by {
                            if exists|y: int| 0 <= y < entries@.len() && entries@[y].0 == f {
                                let y = choose|y: int| 0 <= y < entries@.len() && entries@[y].0 == f;
                                assert(before[y].0 == f);
                            }
                        }
                    }
                }
            }
            return;
        }
        x = x + 1;
    }
    let ghost before = entries@;
    let mut v: Vec<NodeIndex> = Vec::new();
    v.push(n);
    entries.push((e, v));
    proof {
        assert forall|f: OnEdge| #[trigger] lookup(entries@, f) == if f == e {
            lookup(before, f).push(n)
        } else {
            lookup(before, f)
        } by {
            if f == e {
                assert(!exists|y: int| 0 <= y < before.len() && before[y].0 == f);
                lemma_lookup_at(entries@, e, before.len() as int);
                assert(v@ =~= seq![n]);
            } else if exists|y: int| 0 <= y < before.len() && before[y].0 == f {
                let y = choose|y: int| 0 <= y < before.len() && before[y].0 == f;
                lemma_lookup_at(before, f, y);
                lemma_lookup_at(entries@, f, y);
            } else {
                assert(!exists|y: int| 0 <= y < entries@.len() && entries@[y].0 == f) by {
                    if exists|y: int| 0 <= y < entries@.len() && entries@[y].0 == f {
                        let y = choose|y: int| 0 <= y < entries@.len() && entries@[y].0 == f;
                        assert(before[y].0 == f);
                    }
                }
            }
        }
    }
}

} // verus!
