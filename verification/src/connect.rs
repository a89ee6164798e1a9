use vstd::prelude::*;

verus! {

broadcast use vstd::seq_lib::group_seq_properties;

/// A circle of the isolines, known by its row and its place in the row, together with the circle
/// of the row before from which it grows (none for the first row).
#[derive(Clone, Copy, Debug)]
pub struct IndexedCircle {
    pub circle: (usize, usize),
    pub prev: Option<(usize, usize)>,
}

/// The circles of the isolines as a tree: each circle holds the circles of the next row that grow
/// from it.
#[derive(Debug)]
pub struct IndexedCircleTree {
    pub circle: (usize, usize),
    pub children: Vec<IndexedCircleTree>,
}

/// A tree of circles carrying, for each circle, what the isolines hold for it.
#[derive(Debug)]
pub struct CircleTree<T> {
    pub circle: T,
    pub children: Vec<CircleTree<T>>,
}

/// The mathematical shape of a tree of circles.
pub struct CircleNode {
    pub circle: (usize, usize),
    pub children: Seq<CircleNode>,
}

impl IndexedCircleTree {
    /// The tree as a mathematical value.
    pub open spec fn model(self) -> CircleNode
        decreases self,
    {
        CircleNode {
            circle: self.circle,
            children: Seq::new(
                self.children@.len(),
                |i: int|
                    if 0 <= i < self.children@.len() {
                        proof {
                            vstd::std_specs::vec::axiom_vec_index_decreases(self.children, i);
                        }
                        self.children@[i].model()
                    } else {
                        CircleNode { circle: (0, 0), children: Seq::empty() }
                    },
            ),
        }
    }

    /// A deep copy of the tree.
    pub fn copy_tree(&self) -> (r: IndexedCircleTree)
        ensures
            r.model() == self.model(),
        decreases self,
    {
        let mut children: Vec<IndexedCircleTree> = Vec::new();
        let mut i: usize = 0;
        while i < self.children.len()
            invariant
                i <= self.children@.len(),
                children@.len() == i,
                forall|k: int| 0 <= k < i ==> (#[trigger] children@[k]).model() == self.children@[k].model(),
            decreases self.children@.len() - i,
        {
            proof {
                vstd::std_specs::vec::axiom_vec_index_decreases(self.children, i as int);
            }
            let c = self.children[i].copy_tree();
            children.push(c);
            i = i + 1;
        }
        let r = IndexedCircleTree { circle: self.circle, children };
        assert(r.model().children =~= self.model().children);
        r
    }
}

/// Whether every circle of the tree is one of the isolines.
pub open spec fn within<T>(t: CircleNode, isolines: Seq<Vec<T>>) -> bool
    decreases t, 0int,
{
    &&& t.circle.0 < isolines.len()
    &&& t.circle.1 < isolines[t.circle.0 as int]@.len()
    &&& all_within(t.children, isolines, t.children.len() as int)
}

/// Whether the first `n` trees lie within the isolines.
pub open spec fn all_within<T>(ts: Seq<CircleNode>, isolines: Seq<Vec<T>>, n: int) -> bool
    decreases ts, n,
{
    n <= 0 || (n <= ts.len() && all_within(ts, isolines, n - 1) && within(ts[n - 1], isolines))
}

/// Whether `r` has the shape of `t`, each circle carrying a clone of what the isolines hold for it.
pub open spec fn carries<T: Clone>(r: CircleTree<T>, t: CircleNode, isolines: Seq<Vec<T>>) -> bool
    decreases t, 0int,
{
    &&& cloned(isolines[t.circle.0 as int]@[t.circle.1 as int], r.circle)
    &&& r.children@.len() == t.children.len()
    &&& all_carry(r.children@, t.children, isolines, t.children.len() as int)
}

/// Whether the first `n` of `rs` carry the first `n` of `ts`.
pub open spec fn all_carry<T: Clone>(rs: Seq<CircleTree<T>>, ts: Seq<CircleNode>, isolines: Seq<Vec<T>>, n: int) -> bool
    decreases ts, n,
{
    n <= 0 || (n <= ts.len() && all_carry(rs, ts, isolines, n - 1) && carries(rs[n - 1], ts[n - 1], isolines))
}

proof fn lemma_all_within_at<T>(ts: Seq<CircleNode>, isolines: Seq<Vec<T>>, n: int, i: int)
    requires
        all_within(ts, isolines, n),
        0 <= i < n,
    ensures
        within(ts[i], isolines),
    decreases n,
{
    if i < n - 1 {
        lemma_all_within_at(ts, isolines, n - 1, i);
    }
}

proof fn lemma_all_carry_prefix<T: Clone>(rs: Seq<CircleTree<T>>, x: CircleTree<T>, ts: Seq<CircleNode>, isolines: Seq<Vec<T>>, n: int)
    requires
        0 <= n <= rs.len(),
        all_carry(rs, ts, isolines, n),
    ensures
        all_carry(rs.push(x), ts, isolines, n),
    decreases n,
{
    if n > 0 {
        lemma_all_carry_prefix(rs, x, ts, isolines, n - 1);
        assert(rs.push(x)[n - 1] == rs[n - 1]);
    }
}

/// Copies, for every circle of `t`, what the isolines hold for it, keeping the tree's shape.
fn carry_tree<T: Clone>(t: &IndexedCircleTree, isolines: &Vec<Vec<T>>) -> (r: CircleTree<T>)
    requires
        within(t.model(), isolines@),
    ensures
        carries(r, t.model(), isolines@),
    decreases t,
{
    let circle = isolines[t.circle.0][t.circle.1].clone();
    let ghost kids = t.model().children;
    let mut children: Vec<CircleTree<T>> = Vec::new();
    let mut done: usize = 0;
    while done < t.children.len()
        invariant
            kids == t.model().children,
            kids.len() == t.children@.len(),
            done <= kids.len(),
            children@.len() == done,
            all_within(kids, isolines@, kids.len() as int),
            all_carry(children@, kids, isolines@, done as int),
        decreases kids.len() - done,
    {
        proof {
            lemma_all_within_at(kids, isolines@, kids.len() as int, done as int);
            vstd::std_specs::vec::axiom_vec_index_decreases(t.children, done as int);
            assert(kids[done as int] == t.children@[done as int].model());
        }
        let child = carry_tree(&t.children[done], isolines);
        let ghost before = children@;
        children.push(child);
        proof {
            lemma_all_carry_prefix(before, child, kids, isolines@, done as int);
        }
        done = done + 1;
    }
    CircleTree { circle, children }
}

impl IndexedCircleTree {
    /// The tree with each circle replaced by a copy of what the isolines hold for it.
    pub fn into_circle_tree<T: Clone>(self, isolines: &Vec<Vec<T>>) -> (r: CircleTree<T>)
        requires
            within(self.model(), isolines@),
        ensures
            carries(r, self.model(), isolines@),
    {
        carry_tree(&self, isolines)
    }
}

impl Clone for IndexedCircleTree {
    fn clone(&self) -> (r: Self)
        ensures
            r.model() == self.model(),
    {
        self.copy_tree()
    }
}

/// The circles of row `l`, in the order they are listed.
pub open spec fn layer(items: Seq<IndexedCircle>, l: int) -> Seq<IndexedCircle> {
    items.filter(in_row(l))
}

/// Whether a circle belongs to row `l`.
pub open spec fn in_row(l: int) -> spec_fn(IndexedCircle) -> bool {
    |it: IndexedCircle| it.circle.0 == l
}

/// One more than the highest row named, or 0 for no circles.
pub open spec fn layer_count(items: Seq<IndexedCircle>) -> nat
    decreases items.len(),
{
    if items.len() == 0 {
        0
    } else {
        let rest = layer_count(items.drop_last());
        let top = (items.last().circle.0 + 1) as nat;
        if rest < top {
            top
        } else {
            rest
        }
    }
}

/// A circle with no circles grown from it.
pub open spec fn leaf(circle: (usize, usize)) -> CircleNode {
    CircleNode { circle, children: Seq::empty() }
}

/// The tree that grows from the `j`-th circle of row `l`: its children are the circles of row
/// `l + 1` that name it as the circle they grow from, in the order they are listed.
pub open spec fn subtree(items: Seq<IndexedCircle>, l: int, j: int) -> CircleNode
    decreases layer_count(items) - l, 0int,
{
    let c = layer(items, l)[j].circle;
    if l < 0 || l >= layer_count(items) {
        leaf(c)
    } else {
        CircleNode { circle: c, children: grown_from(items, l + 1, c, layer(items, l + 1).len() as int) }
    }
}

/// The trees of the first `n` circles of row `l` that grow from `parent`, in order.
pub open spec fn grown_from(items: Seq<IndexedCircle>, l: int, parent: (usize, usize), n: int) -> Seq<
    CircleNode,
>
    decreases layer_count(items) - l, n,
{
    if n <= 0 || l < 0 || l > layer_count(items) {
        Seq::empty()
    } else {
        let before = grown_from(items, l, parent, n - 1);
        if layer(items, l)[n - 1].prev == Some(parent) {
            before.push(subtree(items, l, n - 1))
        } else {
            before
        }
    }
}

/// The trees grown from `parent` among the first `n` circles of row `l` are exactly the trees of
/// those circles that name `parent`.
proof fn lemma_grown_from(items: Seq<IndexedCircle>, l: int, parent: (usize, usize), n: int)
    requires
        0 <= l <= layer_count(items),
        0 <= n <= layer(items, l).len(),
    ensures
        forall|k: int|
            0 <= k < grown_from(items, l, parent, n).len() ==> exists|m: int|
                0 <= m < n && #[trigger] grown_from(items, l, parent, n)[k] == subtree(items, l, m) && (#[trigger] layer(
                    items,
                    l,
                )[m]).prev == Some(parent),
        forall|m: int|
            0 <= m < n && (#[trigger] layer(items, l)[m]).prev == Some(parent) ==> exists|k: int|
                0 <= k < grown_from(items, l, parent, n).len() && #[trigger] grown_from(items, l, parent, n)[k]
                    == subtree(items, l, m),
    decreases n,
{
    if n > 0 {
        lemma_grown_from(items, l, parent, n - 1);
        let before = grown_from(items, l, parent, n - 1);
        let now = grown_from(items, l, parent, n);
        assert forall|k: int| 0 <= k < now.len() implies exists|m: int|
            0 <= m < n && #[trigger] now[k] == subtree(items, l, m) && (#[trigger] layer(items, l)[m]).prev == Some(
                parent,
            ) by {
            if k < before.len() {
                assert(now[k] == before[k]);
                let m = choose|m: int|
                    0 <= m < n - 1 && #[trigger] before[k] == subtree(items, l, m) && (#[trigger] layer(items, l)[m]).prev
                        == Some(parent);
                assert(layer(items, l)[m].prev == Some(parent));
            } else {
                assert(now[k] == subtree(items, l, n - 1));
                assert(layer(items, l)[n - 1].prev == Some(parent));
            }
        }
        assert forall|m: int| 0 <= m < n && (#[trigger] layer(items, l)[m]).prev == Some(parent) implies exists|k: int|
            0 <= k < now.len() && #[trigger] now[k] == subtree(items, l, m) by {
            if m < n - 1 {
                let k = choose|k: int| 0 <= k < before.len() && #[trigger] before[k] == subtree(items, l, m);
                assert(now[k] == before[k]);
            } else {
                assert(now[before.len() as int] == subtree(items, l, m));
            }
        }
    }
}

/// The tree of a circle holds that circle, and its children are exactly the trees of the circles
/// of the next row that name it as the circle they grow from, in the order they are listed.
pub proof fn lemma_children_are_next_row(items: Seq<IndexedCircle>, l: int, j: int)
    requires
        0 <= l < layer_count(items),
        0 <= j < layer(items, l).len(),
    ensures
        subtree(items, l, j).circle == layer(items, l)[j].circle,
        subtree(items, l, j).circle.0 == l,
        subtree(items, l, j).children == grown_from(
            items,
            l + 1,
            subtree(items, l, j).circle,
            layer(items, l + 1).len() as int,
        ),
        forall|k: int|
            0 <= k < subtree(items, l, j).children.len() ==> exists|m: int|
                0 <= m < layer(items, l + 1).len() && #[trigger] subtree(items, l, j).children[k] == subtree(
                    items,
                    l + 1,
                    m,
                ) && (#[trigger] layer(items, l + 1)[m]).prev == Some(subtree(items, l, j).circle),
        forall|m: int|
            0 <= m < layer(items, l + 1).len() && (#[trigger] layer(items, l + 1)[m]).prev == Some(
                subtree(items, l, j).circle,
            ) ==> exists|k: int|
                0 <= k < subtree(items, l, j).children.len() && #[trigger] subtree(items, l, j).children[k]
                    == subtree(items, l + 1, m),
{
    items.lemma_filter_pred(in_row(l), j);
    let t = subtree(items, l, j);
    let n = layer(items, l + 1).len() as int;
    let g = grown_from(items, l + 1, t.circle, n);
    lemma_grown_from(items, l + 1, t.circle, n);
    assert(t.children == g);
    assert forall|k: int| 0 <= k < t.children.len() implies exists|m: int|
        0 <= m < n && #[trigger] t.children[k] == subtree(items, l + 1, m) && (#[trigger] layer(items, l + 1)[m]).prev
            == Some(t.circle) by {
        assert(g[k] == t.children[k]);
    }
    assert forall|m: int| 0 <= m < n && (#[trigger] layer(items, l + 1)[m]).prev == Some(t.circle) implies exists|k: int|
        0 <= k < t.children.len() && #[trigger] t.children[k] == subtree(items, l + 1, m) by {
        let k = choose|k: int| 0 <= k < g.len() && #[trigger] g[k] == subtree(items, l + 1, m);
        assert(t.children[k] == g[k]);
    }
}

/// With circles listed, the last row below the row count holds some.
proof fn lemma_top_row_filled(items: Seq<IndexedCircle>)
    requires
        items.len() > 0,
    ensures
        layer(items, layer_count(items) - 1).len() > 0,
    decreases items.len(),
{
    let rest = items.drop_last();
    let top = layer_count(items) - 1;
    assert(items =~= rest.push(items.last()));
    rest.lemma_filter_push(items.last(), in_row(top));
    assert(layer(items, top) == if in_row(top)(items.last()) {
        layer(rest, top).push(items.last())
    } else {
        layer(rest, top)
    });
    if items.last().circle.0 == top {
        assert(in_row(top)(items.last()));
    } else {
        assert(layer_count(rest) == layer_count(items));
        assert(rest.len() > 0);
        lemma_top_row_filled(rest);
    }
}

/// Two lists with the same rows have the same row count.
proof fn lemma_same_rows_same_count(items: Seq<IndexedCircle>, other: Seq<IndexedCircle>)
    requires
        forall|l: int| #[trigger] layer(items, l) == layer(other, l),
    ensures
        layer_count(items) == layer_count(other),
{
    lemma_layer_count(items);
    lemma_layer_count(other);
    if items.len() > 0 {
        lemma_top_row_filled(items);
        assert(layer(other, layer_count(items) - 1).len() > 0);
    }
    if other.len() > 0 {
        lemma_top_row_filled(other);
        assert(layer(items, layer_count(other) - 1).len() > 0);
    }
    if items.len() == 0 && other.len() > 0 {
        assert(layer(items, layer_count(other) - 1) =~= Seq::<IndexedCircle>::empty()) by {
            reveal(Seq::filter);
        }
    }
    if other.len() == 0 && items.len() > 0 {
        assert(layer(other, layer_count(items) - 1) =~= Seq::<IndexedCircle>::empty()) by {
            reveal(Seq::filter);
        }
    }
}

proof fn lemma_subtree_same_rows(items: Seq<IndexedCircle>, other: Seq<IndexedCircle>, l: int, j: int)
    requires
        forall|m: int| #[trigger] layer(items, m) == layer(other, m),
        layer_count(items) == layer_count(other),
    ensures
        subtree(items, l, j) == subtree(other, l, j),
    decreases layer_count(items) - l, 0int,
{
    assert(layer(items, l) == layer(other, l));
    if 0 <= l < layer_count(items) {
        assert(layer(items, l + 1) == layer(other, l + 1));
        lemma_grown_same_rows(items, other, l + 1, layer(items, l)[j].circle, layer(items, l + 1).len() as int);
    }
}

proof fn lemma_grown_same_rows(
    items: Seq<IndexedCircle>,
    other: Seq<IndexedCircle>,
    l: int,
    parent: (usize, usize),
    n: int,
)
    requires
        forall|m: int| #[trigger] layer(items, m) == layer(other, m),
        layer_count(items) == layer_count(other),
    ensures
        grown_from(items, l, parent, n) == grown_from(other, l, parent, n),
    decreases layer_count(items) - l, n,
{
    if n > 0 && 0 <= l <= layer_count(items) {
        assert(layer(items, l) == layer(other, l));
        lemma_grown_same_rows(items, other, l, parent, n - 1);
        lemma_subtree_same_rows(items, other, l, n - 1);
    }
}

/// The tree depends only on the rows: listing the circles in another order that keeps the order
/// within each row gives the same tree.
pub proof fn lemma_row_order_decides_tree(items: Seq<IndexedCircle>, other: Seq<IndexedCircle>)
    requires
        forall|l: int| #[trigger] layer(items, l) == layer(other, l),
    ensures
        layer_count(items) == layer_count(other),
        forall|l: int, j: int| #[trigger] subtree(items, l, j) == subtree(other, l, j),
{
    lemma_same_rows_same_count(items, other);
    assert forall|l: int, j: int| #[trigger] subtree(items, l, j) == subtree(other, l, j) by {
        lemma_subtree_same_rows(items, other, l, j);
    }
}

/// Every listed circle lies below the row count, and rows from the row count on are empty.
pub proof fn lemma_layer_count(items: Seq<IndexedCircle>)
    ensures
        forall|i: int| 0 <= i < items.len() ==> #[trigger] items[i].circle.0 < layer_count(items),
        forall|l: int| l >= layer_count(items) ==> #[trigger] layer(items, l).len() == 0,
        items.len() > 0 ==> layer_count(items) > 0,
    decreases items.len(),
{
    if items.len() > 0 {
        let rest = items.drop_last();
        lemma_layer_count(rest);
        assert forall|i: int| 0 <= i < items.len() implies #[trigger] items[i].circle.0 < layer_count(items) by {
            if i < items.len() - 1 {
                assert(items[i] == rest[i]);
            }
        }
        assert forall|l: int| l >= layer_count(items) implies #[trigger] layer(items, l).len() == 0 by {
            assert(items =~= rest.push(items.last()));
            rest.lemma_filter_push(items.last(), in_row(l));
            assert(layer(rest, l).len() == 0);
        }
    }
}

/// Groups the circles by row: row `l` holds, in order, the circles listed with row `l`.
pub fn split_into_layers(items: &Vec<IndexedCircle>) -> (layers: Vec<Vec<IndexedCircle>>)
    requires
        forall|i: int| 0 <= i < items@.len() ==> #[trigger] items@[i].circle.0 < usize::MAX,
    ensures
        layers@.len() == layer_count(items@),
        forall|l: int| 0 <= l < layers@.len() ==> (#[trigger] layers@[l])@ == layer(items@, l),
{
    let mut layers: Vec<Vec<IndexedCircle>> = Vec::new();
    let mut n: usize = 0;
    while n < items.len()
        invariant
            n <= items@.len(),
            forall|i: int| 0 <= i < items@.len() ==> #[trigger] items@[i].circle.0 < usize::MAX,
            layers@.len() == layer_count(items@.take(n as int)),
            forall|l: int| 0 <= l < layers@.len() ==> (#[trigger] layers@[l])@ == layer(items@.take(n as int), l),
        decreases items@.len() - n,
    {
        let item = items[n];
        let ghost before = items@.take(n as int);
        proof {
            lemma_layer_count(before);
            assert(items@.take(n + 1) =~= before.push(item));
            assert(items@.take(n + 1).drop_last() =~= before);
        }
        while layers.len() <= item.circle.0
            invariant
                layer_count(before) <= layers@.len(),
                layers@.len() == layer_count(before) || layers@.len() <= item.circle.0 + 1,
                forall|l: int| 0 <= l < layers@.len() ==> (#[trigger] layers@[l])@ == layer(before, l),
                forall|l: int| l >= layer_count(before) ==> #[trigger] layer(before, l).len() == 0,
            decreases item.circle.0 + 1 - layers@.len(),
        {
            layers.push(Vec::new());
            proof {
                let l = layers@.len() - 1;
                assert(layer(before, l) =~= Seq::<IndexedCircle>::empty());
            }
        }
        layers[item.circle.0].push(item);
        proof {
            let after = items@.take(n + 1);
            assert forall|l: int| 0 <= l < layers@.len() implies (#[trigger] layers@[l])@ == layer(after, l) by {
                before.lemma_filter_push(item, in_row(l));
            }
        }
        n = n + 1;
    }
    proof {
        assert(items@.take(items@.len() as int) =~= items@);
    }
    layers
}

/// Why the circles of the isolines could not be joined into a tree.
#[derive(Clone, Copy, Debug)]
pub enum ConnectError {
    /// The first row already holds more than one circle.
    SplitBeforeFirstRow,
    /// Walking back from a circle met two circles of the row before at once.
    SeveralPreviousCircles { circle: (usize, usize), problem: (usize, usize) },
    /// Walking back from a circle reached the seed without meeting the row before.
    MeshTooSparseNearSeed,
}

/// The first row must be a single circle round the seed.
pub fn check_first_row(first_row_circles: usize) -> (r: Result<(), ConnectError>)
    ensures
        r is Ok <==> first_row_circles == 1,
        r matches Err(e) ==> e is SplitBeforeFirstRow,
{
    if first_row_circles == 1 {
        Ok(())
    } else {
        Err(ConnectError::SplitBeforeFirstRow)
    }
}

/// A circle `circle` of row `row + 1`, when row `row` is a single circle, grows from it.
pub fn link_to_single_previous(prev_row_circles: usize, row: usize, circle: usize) -> (r: Option<IndexedCircle>)
    requires
        row < usize::MAX,
    ensures
        prev_row_circles == 1 ==> (r matches Some(it) && it.circle == ((row + 1) as usize, circle) && it.prev
            == Some((row, 0usize))),
        prev_row_circles != 1 ==> r is None,
{
    if prev_row_circles == 1 {
        Some(IndexedCircle { circle: (row + 1, circle), prev: Some((row, 0)) })
    } else {
        None
    }
}

/// One step of the walk back towards the seed needs the next node towards it: having none left
/// means the mesh is too sparse near the seed to reach the row before.
pub fn parent_or_sparse<N>(parent: Option<N>) -> (r: Result<N, ConnectError>)
    ensures
        parent matches Some(p) ==> r matches Ok(q) && q == p,
        parent is None ==> r matches Err(ConnectError::MeshTooSparseNearSeed),
{
    match parent {
        Some(p) => Ok(p),
        None => Err(ConnectError::MeshTooSparseNearSeed),
    }
}

/// Whether every circle met equals the first.
pub open spec fn all_same(hits: Seq<(usize, usize)>) -> bool {
    forall|x: int| 0 <= x < hits.len() ==> #[trigger] hits[x] == hits[0]
}

/// The first circle met that differs from the first one met.
pub open spec fn first_other(hits: Seq<(usize, usize)>) -> (usize, usize) {
    hits[choose|x: int| 0 <= x < hits.len() && hits[x] != hits[0] && all_same(hits.take(x))]
}

/// What one step of the walk back towards the seed decides, given the circles of the row before
/// that the step crossed: nothing crossed means walking on; crossings of one circle mean the circle
/// grows from it; crossings of two circles are an error.
pub fn backtrack_decision(hits: &Vec<(usize, usize)>) -> (r: Result<Option<(usize, usize)>, ConnectError>)
    ensures
        hits@.len() == 0 ==> r matches Ok(None),
        hits@.len() > 0 && all_same(hits@) ==> (r matches Ok(Some(c)) && c == hits@.last()),
        hits@.len() > 0 && !all_same(hits@) ==> (r matches Err(
            ConnectError::SeveralPreviousCircles { circle, problem },
        ) && circle == hits@[0] && problem == first_other(hits@)),
{
    if hits.len() == 0 {
        return Ok(None);
    }
    let first = hits[0];
    let mut x: usize = 0;
    while x < hits.len()
        invariant
            x <= hits@.len(),
            hits@.len() > 0,
            first == hits@[0],
            forall|y: int| 0 <= y < x ==> hits@[y] == first,
        decreases hits@.len() - x,
    {
        let h = hits[x];
        if h.0 != first.0 || h.1 != first.1 {
            proof {
                assert(all_same(hits@.take(x as int)));
                let w = choose|w: int| 0 <= w < hits@.len() && hits@[w] != hits@[0] && all_same(hits@.take(w));
                assert(w == x) by {
                    if w < x {
                        assert(hits@[w] == first);
                    } else if w > x {
                        assert(hits@.take(w)[x as int] == hits@.take(w)[0]);
                    }
                }
            }
            return Err(ConnectError::SeveralPreviousCircles { circle: first, problem: h });
        }
        x = x + 1;
    }
    Ok(Some(hits[hits.len() - 1]))
}

/// Adding a subtree to a tree's children adds its shape to the children of the tree's shape.
proof fn lemma_model_push(before: IndexedCircleTree, after: IndexedCircleTree, child: IndexedCircleTree)
    requires
        after.circle == before.circle,
        after.children@ == before.children@.push(child),
    ensures
        after.model() == (CircleNode {
            circle: before.circle,
            children: before.model().children.push(child.model()),
        }),
{
    assert(after.model().children =~= before.model().children.push(child.model()));
}

/// Whether the rows of circles were grouped from `items`.
pub open spec fn layers_of(items: Seq<IndexedCircle>, layers: Seq<Vec<IndexedCircle>>) -> bool {
    &&& layers.len() == layer_count(items)
    &&& forall|l: int| 0 <= l < layers.len() ==> (#[trigger] layers[l])@ == layer(items, l)
}

/// Whether the trees of `rows` stand on the circles of `layers`, one tree per circle.
pub open spec fn rows_match(layers: Seq<Vec<IndexedCircle>>, rows: Seq<Vec<IndexedCircleTree>>) -> bool {
    &&& rows.len() == layers.len()
    &&& forall|l: int| 0 <= l < rows.len() ==> (#[trigger] rows[l])@.len() == layers[l]@.len()
}

/// Whether a circle that has possible parents in the row before names the circle it grows from.
pub open spec fn parents_named(items: Seq<IndexedCircle>) -> bool {
    forall|i: int|
        0 <= i < items.len() && #[trigger] items[i].circle.0 > 0 && layer(items, items[i].circle.0 - 1).len() > 0
            ==> items[i].prev is Some
}

/// Hangs the finished trees of row `i` under the circles of row `i - 1` that they grow from.
fn attach_row(
    Ghost(items): Ghost<Seq<IndexedCircle>>,
    layers: &Vec<Vec<IndexedCircle>>,
    rows: &mut Vec<Vec<IndexedCircleTree>>,
    i: usize,
)
    requires
        layers_of(items, layers@),
        rows_match(layers@, old(rows)@),
        parents_named(items),
        0 < i < layers@.len(),
        forall|l: int, j: int|
            i <= l < layers@.len() && 0 <= j < layers@[l]@.len() ==> (#[trigger] old(rows)@[l]@[j]).model()
                == subtree(items, l, j),
        forall|j: int|
            0 <= j < layers@[i - 1]@.len() ==> (#[trigger] old(rows)@[i - 1]@[j]).model() == leaf(
                layers@[i - 1]@[j].circle,
            ),
    ensures
        rows_match(layers@, final(rows)@),
        forall|l: int| 0 <= l < final(rows)@.len() && l != i - 1 ==> #[trigger] final(rows)@[l] == old(rows)@[l],
        forall|j: int|
            0 <= j < layers@[i - 1]@.len() ==> (#[trigger] final(rows)@[i - 1]@[j]).model() == subtree(
                items,
                i - 1,
                j,
            ),
{
    let ghost below = layer(items, i as int);
    let ghost above = layer(items, i - 1);
    proof {
        assert(layers@[i as int]@ == below);
        assert(layers@[i - 1]@ == above);
    }
    let mut j: usize = 0;
    while j < layers[i].len()
        invariant
            layers_of(items, layers@),
            rows_match(layers@, rows@),
            parents_named(items),
            0 < i < layers@.len(),
            below == layer(items, i as int),
            above == layer(items, i - 1),
            j <= below.len(),
            forall|l: int| 0 <= l < rows@.len() && l != i - 1 ==> #[trigger] rows@[l] == old(rows)@[l],
            forall|l: int, k: int|
                i <= l < layers@.len() && 0 <= k < layers@[l]@.len() ==> (#[trigger] old(rows)@[l]@[k]).model()
                    == subtree(items, l, k),
            forall|p: int|
                0 <= p < above.len() ==> (#[trigger] rows@[i - 1]@[p]).model() == (CircleNode {
                    circle: above[p].circle,
                    children: grown_from(items, i as int, above[p].circle, j as int),
                }),
        decreases below.len() - j,
    {
        let prev = layers[i][j].prev;
        proof {
            items.lemma_filter_pred(in_row(i as int), j as int);
        }
        let mut p: usize = 0;
        while p < rows[i - 1].len()
            invariant
                layers_of(items, layers@),
                rows_match(layers@, rows@),
                parents_named(items),
                0 < i < layers@.len(),
                below == layer(items, i as int),
                above == layer(items, i - 1),
                j < below.len(),
                prev == below[j as int].prev,
                below[j as int].circle.0 == i,
                p <= above.len(),
                forall|l: int| 0 <= l < rows@.len() && l != i - 1 ==> #[trigger] rows@[l] == old(rows)@[l],
                forall|l: int, k: int|
                    i <= l < layers@.len() && 0 <= k < layers@[l]@.len() ==> (#[trigger] old(
                        rows,
                    )@[l]@[k]).model() == subtree(items, l, k),
                forall|q: int|
                    0 <= q < above.len() ==> (#[trigger] rows@[i - 1]@[q]).model() == (CircleNode {
                        circle: above[q].circle,
                        children: grown_from(items, i as int, above[q].circle, if q < p {
                            j + 1
                        } else {
                            j as int
                        }),
                    }),
            decreases above.len() - p,
        {
            let pc = rows[i - 1][p].circle;
            proof {
                let x = below[j as int];
                let n = choose|n: int| 0 <= n < items.len() && items[n] == x;
                items.lemma_filter_contains_rev(in_row(i as int), x);
                assert(items.contains(x));
                assert(items[n].circle.0 > 0);
                assert(layer(items, items[n].circle.0 - 1).len() > 0);
            }
            let q = prev.unwrap();
            let ghost old_tree = rows@[i - 1]@[p as int];
            if pc.0 == q.0 && pc.1 == q.1 {
                let child = rows[i][j].copy_tree();
                proof {
                    assert(rows@[i as int] == old(rows)@[i as int]);
                    assert(child.model() == subtree(items, i as int, j as int));
                }
                rows[i - 1][p].children.push(child);
                proof {
                    lemma_model_push(old_tree, rows@[i - 1]@[p as int], child);
                    assert(grown_from(items, i as int, pc, j + 1) == grown_from(items, i as int, pc, j as int).push(
                        subtree(items, i as int, j as int),
                    ));
                }
            } else {
                proof {
                    assert(grown_from(items, i as int, pc, j + 1) == grown_from(items, i as int, pc, j as int));
                }
            }
            p = p + 1;
        }
        j = j + 1;
    }
    proof {
        assert forall|p: int|
            0 <= p < layers@[i - 1]@.len() implies (#[trigger] rows@[i - 1]@[p]).model() == subtree(items, i - 1, p) by {
        }
    }
}

/// Puts the circles into their tree: each circle hangs under the circle of the row before that
/// it names, and the tree returned is the one that grows from the first circle of row 0.
pub fn connect_tree(items: Vec<IndexedCircle>) -> (tree: IndexedCircleTree)
    requires
        layer(items@, 0).len() > 0,
        forall|i: int| 0 <= i < items@.len() ==> #[trigger] items@[i].circle.0 < usize::MAX,
        parents_named(items@),
    ensures
        tree.model() == subtree(items@, 0, 0),
{
    let layers = split_into_layers(&items);
    proof {
        lemma_layer_count(items@);
        assert(layers@.len() > 0);
    }
    let mut rows: Vec<Vec<IndexedCircleTree>> = Vec::new();
    let mut l: usize = 0;
    while l < layers.len()
        invariant
            layers_of(items@, layers@),
            l <= layers@.len(),
            rows@.len() == l,
            forall|m: int| 0 <= m < l ==> (#[trigger] rows@[m])@.len() == layers@[m]@.len(),
            forall|m: int, j: int|
                0 <= m < l && 0 <= j < layers@[m]@.len() ==> (#[trigger] rows@[m]@[j]).model() == leaf(
                    layers@[m]@[j].circle,
                ),
        decreases layers@.len() - l,
    {
        let mut row: Vec<IndexedCircleTree> = Vec::new();
        let mut j: usize = 0;
        while j < layers[l].len()
            invariant
                l < layers@.len(),
                j <= layers@[l as int]@.len(),
                row@.len() == j,
                forall|k: int| 0 <= k < j ==> (#[trigger] row@[k]).model() == leaf(layers@[l as int]@[k].circle),
            decreases layers@[l as int]@.len() - j,
        {
            let t = IndexedCircleTree { circle: layers[l][j].circle, children: Vec::new() };
            proof {
                assert(t.model().children =~= Seq::<CircleNode>::empty());
            }
            row.push(t);
            j = j + 1;
        }
        rows.push(row);
        l = l + 1;
    }
    let mut i: usize = layers.len() - 1;
    proof {
        let top = layers@.len() - 1;
        assert forall|j: int| 0 <= j < layers@[top]@.len() implies (#[trigger] rows@[top]@[j]).model() == subtree(
            items@,
            top,
            j,
        ) by {
            assert(layer(items@, top + 1).len() == 0);
        }
    }
    while i > 0
        invariant
            layers_of(items@, layers@),
            rows_match(layers@, rows@),
            parents_named(items@),
            i < layers@.len(),
            forall|m: int, j: int|
                i <= m < layers@.len() && 0 <= j < layers@[m]@.len() ==> (#[trigger] rows@[m]@[j]).model()
                    == subtree(items@, m, j),
            forall|m: int, j: int|
                0 <= m < i && 0 <= j < layers@[m]@.len() ==> (#[trigger] rows@[m]@[j]).model() == leaf(
                    layers@[m]@[j].circle,
                ),
        decreases i,
    {
        attach_row(Ghost(items@), &layers, &mut rows, i);
        i = i - 1;
    }
    proof {
        assert(layers@[0]@ == layer(items@, 0));
    }
    rows[0][0].copy_tree()
}

} // verus!
