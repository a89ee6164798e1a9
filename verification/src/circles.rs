use vstd::prelude::*;
use crate::isoline_map::NodeIndex;

verus! {

broadcast use vstd::seq_lib::group_seq_properties;

/// The circle that an isoline node lies on: its row and its place in the row.
pub open spec fn circle_of(p: NodeIndex) -> (usize, usize) {
    (p.0, p.1)
}

/// Whether some node is listed twice among the first `n`.
pub open spec fn has_repeat(points: Seq<NodeIndex>, n: int) -> bool {
    exists|x: int, y: int| 0 <= x < y < n && points[x] == points[y]
}

/// The nodes of one circle: the circle, and for each node its position in the list of points
/// and its place on the circle.
pub type CircleGroup = ((usize, usize), Vec<(usize, usize)>);

/// Whether `groups` sorts the first `n` of `points` by circle: one group per circle, in the order the circles
/// first occur; in each group every point of that circle once, in increasing place on the circle.
pub open spec fn groups_points(points: Seq<NodeIndex>, n: int, groups: Seq<CircleGroup>) -> bool {
    &&& forall|a: int, b: int| 0 <= a < b < groups.len() ==> #[trigger] groups[a].0 != #[trigger] groups[b].0
    &&& forall|a: int| 0 <= a < groups.len() ==> (#[trigger] groups[a]).1@.len() > 0
    &&& forall|a: int, t: int|
        0 <= a < groups.len() && 0 <= t < groups[a].1@.len() ==> {
            let m = #[trigger] groups[a].1@[t];
            &&& m.0 < n
            &&& circle_of(points[m.0 as int]) == groups[a].0
            &&& points[m.0 as int].2 == m.1
        }
    &&& forall|a: int, t: int, u: int|
        0 <= a < groups.len() && 0 <= t < u < groups[a].1@.len() ==> #[trigger] groups[a].1@[t].1
            < #[trigger] groups[a].1@[u].1
    &&& forall|x: int| 0 <= x < n ==> #[trigger] grouped(groups, x)
    &&& forall|a: int, b: int, y: int|
        0 <= a < b < groups.len() && 0 <= y < n && circle_of(points[y]) == #[trigger] groups[b].0
            ==> #[trigger] occurs_before(points, groups[a].0, y)
}

/// Whether point `x` belongs to some group.
pub open spec fn grouped(groups: Seq<CircleGroup>, x: int) -> bool {
    exists|a: int, t: int| 0 <= a < groups.len() && 0 <= t < groups[a].1@.len() && #[trigger] groups[a].1@[t].0 == x
}

/// Whether a point of circle `key` comes before the `y`-th point.
pub open spec fn occurs_before(points: Seq<NodeIndex>, key: (usize, usize), y: int) -> bool {
    exists|x: int| 0 <= x < y && circle_of(#[trigger] points[x]) == key
}

/// Where a node at place `k` goes in a group kept in increasing place: `Ok` where it already is,
/// `Err` where it would be inserted.
pub fn search_place(g: &Vec<(usize, usize)>, k: usize) -> (r: Result<usize, usize>)
    requires
        forall|t: int, u: int| 0 <= t < u < g@.len() ==> #[trigger] g@[t].1 < #[trigger] g@[u].1,
    ensures
        r matches Ok(i) ==> i < g@.len() && g@[i as int].1 == k,
        r matches Err(i) ==> i <= g@.len() && (forall|t: int| 0 <= t < i ==> #[trigger] g@[t].1 < k) && (
        forall|t: int| i <= t < g@.len() ==> #[trigger] g@[t].1 > k),
{
    let mut lo: usize = 0;
    let mut hi: usize = g.len();
    while lo < hi
        invariant
            forall|t: int, u: int| 0 <= t < u < g@.len() ==> #[trigger] g@[t].1 < #[trigger] g@[u].1,
            lo <= hi <= g@.len(),
            forall|t: int| 0 <= t < lo ==> #[trigger] g@[t].1 < k,
            forall|t: int| hi <= t < g@.len() ==> #[trigger] g@[t].1 > k,
        decreases hi - lo,
    {
        let mid = lo + (hi - lo) / 2;
        let v = g[mid].1;
        if v == k {
            return Ok(mid);
        } else if v < k {
            proof {
                assert forall|t: int| 0 <= t < mid + 1 implies #[trigger] g@[t].1 < k by {
                    if t < mid {
                        assert(g@[t].1 < g@[mid as int].1);
                    }
                }
            }
            lo = mid + 1;
        } else {
            proof {
                assert forall|t: int| mid <= t < g@.len() implies #[trigger] g@[t].1 > k by {
                    if t > mid {
                        assert(g@[mid as int].1 < g@[t].1);
                    }
                }
            }
            hi = mid;
        }
    }
    Err(lo)
}

/// The group of `key`, if there is one.
fn find_group(groups: &Vec<CircleGroup>, key: (usize, usize)) -> (r: Option<usize>)
    ensures
        r matches Some(a) ==> a < groups@.len() && groups@[a as int].0 == key,
        r is None ==> forall|a: int| 0 <= a < groups@.len() ==> #[trigger] groups@[a].0 != key,
{
    let mut a: usize = 0;
    while a < groups.len()
        invariant
            a <= groups@.len(),
            forall|b: int| 0 <= b < a ==> #[trigger] groups@[b].0 != key,
        decreases groups@.len() - a,
    {
        let g = &groups[a];
        if g.0.0 == key.0 && g.0.1 == key.1 {
            return Some(a);
        }
        a = a + 1;
    }
    None
}

/// Why the nodes could not be grouped by circle.
#[derive(Clone, Copy, PartialEq, Eq, Structural, Debug)]
pub enum GroupError {
    /// Some node was listed twice.
    PointTwice,
}

/// A new group for a circle not yet seen keeps the grouping.
proof fn lemma_new_group(points: Seq<NodeIndex>, n: int, groups: Seq<CircleGroup>, g: CircleGroup)
    requires
        0 <= n < points.len(),
        n <= usize::MAX,
        groups_points(points, n, groups),
        forall|a: int| 0 <= a < groups.len() ==> #[trigger] groups[a].0 != circle_of(points[n]),
        g.0 == circle_of(points[n]),
        g.1@ == seq![(n as usize, points[n].2)],
    ensures
        groups_points(points, n + 1, groups.push(g)),
        !has_repeat(points, n) ==> !has_repeat(points, n + 1),
{
    let gs = groups.push(g);
    assert forall|x: int| 0 <= x < n + 1 implies #[trigger] grouped(gs, x) by {
        if x < n {
            assert(grouped(groups, x));
            let (a, t) = choose|a: int, t: int|
                0 <= a < groups.len() && 0 <= t < groups[a].1@.len() && #[trigger] groups[a].1@[t].0 == x;
            assert(gs[a] == groups[a]);
        } else {
            assert(gs[groups.len() as int].1@[0].0 == x);
        }
    }
    assert forall|a: int, b: int, y: int|
        0 <= a < b < gs.len() && 0 <= y < n + 1 && circle_of(points[y]) == #[trigger] gs[b].0 implies #[trigger] occurs_before(
        points,
        gs[a].0,
        y,
    ) by {
        if b < groups.len() {
            if y < n {
                assert(occurs_before(points, groups[a].0, y));
            } else {
                assert(false);
            }
        } else {
            if y < n {
                assert(grouped(groups, y));
                let (c, t) = choose|c: int, t: int|
                    0 <= c < groups.len() && 0 <= t < groups[c].1@.len() && #[trigger] groups[c].1@[t].0 == y;
                assert(false);
            } else {
                let m = groups[a].1@[0];
                assert(circle_of(points[m.0 as int]) == groups[a].0);
            }
        }
    }
    if !has_repeat(points, n) && has_repeat(points, n + 1) {
        let (x, y) = choose|x: int, y: int| 0 <= x < y < n + 1 && points[x] == points[y];
        assert(y == n);
        assert(grouped(groups, x));
        let (c, t) = choose|c: int, t: int|
            0 <= c < groups.len() && 0 <= t < groups[c].1@.len() && #[trigger] groups[c].1@[t].0 == x;
        assert(circle_of(points[x]) == groups[c].0);
    }
}

/// Sorts the nodes by circle: one group per circle, in the order the circles first occur, each
/// holding its nodes (by their position in `points` and their place on the circle) in increasing
/// place. A node listed twice is an error.
pub fn group_circles(points: &Vec<NodeIndex>) -> (r: Result<Vec<CircleGroup>, GroupError>)
    ensures
        r is Err <==> has_repeat(points@, points@.len() as int),
        r matches Ok(groups) ==> groups_points(points@, points@.len() as int, groups@),
{
    let mut groups: Vec<CircleGroup> = Vec::new();
    let mut x: usize = 0;
    while x < points.len()
        invariant
            x <= points@.len(),
            groups_points(points@, x as int, groups@),
            !has_repeat(points@, x as int),
        decreases points@.len() - x,
    {
        let p = points[x];
        let key = (p.0, p.1);
        match find_group(&groups, key) {
            None => {
                let mut members: Vec<(usize, usize)> = Vec::new();
                members.push((x, p.2));
                proof {
                    lemma_new_group(points@, x as int, groups@, (key, members));
                }
                groups.push((key, members));
            },
            Some(a) => {
                match search_place(&groups[a].1, p.2) {
                    Ok(t) => {
                        proof {
                            let m = groups@[a as int].1@[t as int];
                            assert(points@[m.0 as int] == p);
                            assert(has_repeat(points@, x + 1));
                            lemma_repeat_grows(points@, x + 1, points@.len() as int);
                        }
                        return Err(GroupError::PointTwice);
                    },
                    Err(t) => {
                        let ghost before = groups@;
                        groups[a].1.insert(t, (x, p.2));
                        proof {
                            lemma_insert_member(points@, x as int, before, groups@, a as int, t as int);
                        }
                    },
                }
            },
        }
        x = x + 1;
    }
    Ok(groups)
}

/// A repeat among the first `n` nodes is a repeat among more.
proof fn lemma_repeat_grows(points: Seq<NodeIndex>, n: int, m: int)
    requires
        n <= m,
        has_repeat(points, n),
    ensures
        has_repeat(points, m),
{
    let (x, y) = choose|x: int, y: int| 0 <= x < y < n && points[x] == points[y];
    assert(0 <= x < y < m && points[x] == points[y]);
}

/// Inserting a node into its circle's group, where its place keeps the order, keeps the grouping.
proof fn lemma_insert_member(
    points: Seq<NodeIndex>,
    n: int,
    before: Seq<CircleGroup>,
    after: Seq<CircleGroup>,
    a: int,
    t: int,
)
    requires
        0 <= n < points.len(),
        n <= usize::MAX,
        groups_points(points, n, before),
        !has_repeat(points, n),
        0 <= a < before.len(),
        before[a].0 == circle_of(points[n]),
        0 <= t <= before[a].1@.len(),
        forall|u: int| 0 <= u < t ==> #[trigger] before[a].1@[u].1 < points[n].2,
        forall|u: int| t <= u < before[a].1@.len() ==> #[trigger] before[a].1@[u].1 > points[n].2,
        after.len() == before.len(),
        forall|b: int| 0 <= b < before.len() && b != a ==> #[trigger] after[b] == before[b],
        after[a].0 == before[a].0,
        after[a].1@ == before[a].1@.insert(t, (n as usize, points[n].2)),
    ensures
        groups_points(points, n + 1, after),
        !has_repeat(points, n + 1),
{
    let old_g = before[a].1@;
    let new_g = after[a].1@;
    assert forall|b: int, u: int|
        0 <= b < after.len() && 0 <= u < after[b].1@.len() implies {
        let m = #[trigger] after[b].1@[u];
        &&& m.0 < n + 1
        &&& circle_of(points[m.0 as int]) == after[b].0
        &&& points[m.0 as int].2 == m.1
    } by {
        if b == a {
            if u < t {
                assert(new_g[u] == old_g[u]);
            } else if u > t {
                assert(new_g[u] == old_g[u - 1]);
            }
        }
    }
    assert forall|b: int, u: int, v: int|
        0 <= b < after.len() && 0 <= u < v < after[b].1@.len() implies #[trigger] after[b].1@[u].1
        < #[trigger] after[b].1@[v].1 by {
        if b == a {
            if v < t {
            } else if u > t {
                assert(new_g[u] == old_g[u - 1]);
                assert(new_g[v] == old_g[v - 1]);
            } else if u == t {
                assert(new_g[v] == old_g[v - 1]);
            } else if v == t {
                assert(new_g[u] == old_g[u]);
            } else {
                assert(new_g[u] == old_g[u]);
                assert(new_g[v] == old_g[v - 1]);
            }
        }
    }
    assert forall|x: int| 0 <= x < n + 1 implies #[trigger] grouped(after, x) by {
        if x < n {
            assert(grouped(before, x));
            let (b, u) = choose|b: int, u: int|
                0 <= b < before.len() && 0 <= u < before[b].1@.len() && #[trigger] before[b].1@[u].0 == x;
            if b == a {
                if u < t {
                    assert(after[a].1@[u].0 == x);
                } else {
                    assert(after[a].1@[u + 1].0 == x);
                }
            } else {
                assert(after[b].1@[u].0 == x);
            }
        } else {
            assert(after[a].1@[t].0 == x);
        }
    }
    assert forall|b: int, c: int, y: int|
        0 <= b < c < after.len() && 0 <= y < n + 1 && circle_of(points[y]) == #[trigger] after[c].0 implies #[trigger] occurs_before(
        points,
        after[b].0,
        y,
    ) by {
        if y < n {
            assert(occurs_before(points, before[b].0, y));
        } else {
            assert(c == a) by {
                if c != a {
                    if c < a {
                        assert(before[c].0 != before[a].0);
                    } else {
                        assert(before[a].0 != before[c].0);
                    }
                }
            }
            let m = old_g[0];
            assert(circle_of(points[m.0 as int]) == before[a].0);
            assert(occurs_before(points, before[b].0, m.0 as int));
            let z = choose|z: int| 0 <= z < m.0 && circle_of(#[trigger] points[z]) == before[b].0;
            assert(0 <= z < y);
        }
    }
    if has_repeat(points, n + 1) {
        let (x, y) = choose|x: int, y: int| 0 <= x < y < n + 1 && points[x] == points[y];
        assert(y == n);
        assert(grouped(before, x));
        let (b, u) = choose|b: int, u: int|
            0 <= b < before.len() && 0 <= u < before[b].1@.len() && #[trigger] before[b].1@[u].0 == x;
        assert(circle_of(points[x]) == before[b].0);
        assert(b == a) by {
            if b != a {
                if b < a {
                    assert(before[b].0 != before[a].0);
                } else {
                    assert(before[a].0 != before[b].0);
                }
            }
        }
        assert(old_g[u].1 == points[n].2);
    }
}

} // verus!
