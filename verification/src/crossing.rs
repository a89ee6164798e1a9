use vstd::prelude::*;

verus! {

broadcast use vstd::seq_lib::group_seq_properties;

/// What has been seen, walking round a face, of one isoline segment and of the backtrack segment:
/// which of their ends have been passed, and in what order. Two segments cross when their ends
/// alternate round the face.
#[derive(Clone, Copy, PartialEq, Eq, Structural, Debug)]
pub enum Intersects {
    /// Between the two ends of the isoline segment only.
    Isoline,
    /// Between the two ends of the backtrack segment only.
    Backtrack,
    /// Inside the isoline segment, and then inside the backtrack segment.
    IsoBack,
    /// Inside the backtrack segment, and then inside the isoline segment.
    BackIso,
    /// The ends alternated: the segments cross.
    Intersects,
    /// Outside both segments.
    Outside,
}

/// The state after passing an end of the isoline segment.
pub open spec fn after_isoline(s: Intersects) -> Intersects {
    match s {
        Intersects::Backtrack => Intersects::BackIso,
        Intersects::IsoBack => Intersects::Intersects,
        Intersects::Outside => Intersects::Isoline,
        Intersects::Isoline => Intersects::Outside,
        Intersects::BackIso => Intersects::Backtrack,
        Intersects::Intersects => Intersects::Intersects,
    }
}

/// The state after passing an end of the backtrack segment.
pub open spec fn after_backtrack(s: Intersects) -> Intersects {
    match s {
        Intersects::Isoline => Intersects::IsoBack,
        Intersects::BackIso => Intersects::Intersects,
        Intersects::Outside => Intersects::Backtrack,
        Intersects::Backtrack => Intersects::Outside,
        Intersects::IsoBack => Intersects::Isoline,
        Intersects::Intersects => Intersects::Intersects,
    }
}

/// Whether a walk round the whole face can end in this state: every segment end comes in pairs,
/// so only these are left once both segments have been passed completely. (`Isoline` remains
/// possible because a segment may be counted from both of its circles.)
pub open spec fn settled(s: Intersects) -> bool {
    s == Intersects::Outside || s == Intersects::Intersects || s == Intersects::Isoline
}

/// Passing both ends of one segment brings the state back to where it was, until the segments
/// are known to cross; once they are, no further end changes that.
pub proof fn lemma_ends_pair_up(s: Intersects)
    ensures
        after_isoline(Intersects::Intersects) == Intersects::Intersects,
        after_backtrack(Intersects::Intersects) == Intersects::Intersects,
        s != Intersects::IsoBack && s != Intersects::Intersects ==> after_isoline(after_isoline(s)) == s,
        s != Intersects::BackIso && s != Intersects::Intersects ==> after_backtrack(after_backtrack(s)) == s,
{
}

/// Why the crossings of a face could not be counted.
#[derive(Clone, Copy, PartialEq, Eq, Structural, Debug)]
pub enum CrossingError {
    /// The walk round the face met an odd number of segment ends, or fewer than four.
    UnpairedEnds,
    /// The walk ended inside one of the segments.
    Unsettled(Intersects),
}

impl Intersects {
    pub fn new() -> (s: Intersects)
        ensures
            s == Intersects::Outside,
    {
        Intersects::Outside
    }

    /// Passes an end of the isoline segment.
    pub fn isoline(&mut self)
        ensures
            *final(self) == after_isoline(*old(self)),
    {
        *self = match *self {
            Intersects::Backtrack => Intersects::BackIso,
            Intersects::IsoBack => Intersects::Intersects,
            Intersects::Outside => Intersects::Isoline,
            Intersects::Isoline => Intersects::Outside,
            Intersects::BackIso => Intersects::Backtrack,
            Intersects::Intersects => Intersects::Intersects,
        };
    }

    /// Passes an end of the backtrack segment.
    pub fn backtrack(&mut self)
        ensures
            *final(self) == after_backtrack(*old(self)),
    {
        *self = match *self {
            Intersects::Isoline => Intersects::IsoBack,
            Intersects::BackIso => Intersects::Intersects,
            Intersects::Outside => Intersects::Backtrack,
            Intersects::Backtrack => Intersects::Outside,
            Intersects::IsoBack => Intersects::Isoline,
            Intersects::Intersects => Intersects::Intersects,
        };
    }

    /// Whether the segments cross, once the walk round the face is over; a walk that ended inside
    /// a segment is an error.
    pub fn intersects(self) -> (r: Result<bool, CrossingError>)
        ensures
            settled(self) ==> r == Ok::<bool, CrossingError>(self == Intersects::Intersects),
            !settled(self) ==> r == Err::<bool, CrossingError>(CrossingError::Unsettled(self)),
    {
        match self {
            Intersects::Outside | Intersects::Intersects | Intersects::Isoline => Ok(
                matches!(self, Intersects::Intersects),
            ),
            _ => Err(CrossingError::Unsettled(self)),
        }
    }
}

/// A point met on the walk round a face: an isoline node (by its place on its circle), or an end
/// of the backtrack segment.
#[derive(Clone, Copy, PartialEq, Eq, Structural, Debug)]
pub enum PointEvent {
    Isoline(usize),
    Backtrack,
}

/// Whether `ks` increases strictly.
pub open spec fn strictly_increasing(ks: Seq<usize>) -> bool {
    forall|a: int, b: int| 0 <= a < b < ks.len() ==> #[trigger] ks[a] < #[trigger] ks[b]
}

/// How many times meeting node `k` passes an end of the segment that ends at the `t`-th node (the
/// segment from the node before it on the circle): once if that segment ends at `k`, once if it
/// ends at the node after `k` (the first node of the circle coming after the last).
pub open spec fn touches(ks: Seq<usize>, circle_len: int, t: int, k: usize) -> nat {
    let own: nat = if ks[t] == k { 1 } else { 0 };
    let from_before: nat = if k != ks.last() {
        if t > 0 && ks[t - 1] == k && ks[t] == k + 1 { 1 } else { 0 }
    } else {
        if circle_len == k + 1 && ks[0] == 0 && t == 0 { 1 } else { 0 }
    };
    own + from_before
}

/// `after_isoline`, applied `c` times (at most twice).
pub open spec fn isoline_times(s: Intersects, c: nat) -> Intersects {
    if c == 0 {
        s
    } else if c == 1 {
        after_isoline(s)
    } else {
        after_isoline(after_isoline(s))
    }
}

/// The state of the segment ending at the `t`-th node once the first `n` points of the walk
/// have been met.
pub open spec fn state_after(ks: Seq<usize>, circle_len: int, events: Seq<PointEvent>, t: int, n: int) -> Intersects
    decreases n,
{
    if n <= 0 {
        Intersects::Outside
    } else {
        let s = state_after(ks, circle_len, events, t, n - 1);
        match events[n - 1] {
            PointEvent::Backtrack => after_backtrack(s),
            PointEvent::Isoline(k) => isoline_times(s, touches(ks, circle_len, t, k)),
        }
    }
}

/// Once a segment is known to cross the backtrack segment, the rest of the walk keeps it so.
pub proof fn lemma_crossing_is_final(ks: Seq<usize>, circle_len: int, events: Seq<PointEvent>, t: int, n: int, m: int)
    requires
        0 <= n <= m,
        state_after(ks, circle_len, events, t, n) == Intersects::Intersects,
    ensures
        state_after(ks, circle_len, events, t, m) == Intersects::Intersects,
    decreases m - n,
{
    if m > n {
        lemma_crossing_is_final(ks, circle_len, events, t, n, m - 1);
    }
}

/// The segment between two neighbouring nodes of the face, the last wrapping round to the first:
/// the `w`-th of them, counting from 1.
pub open spec fn window(n: int, w: int) -> (int, int) {
    (w - 1, if w < n { w } else { 0 })
}

/// The segments among the first `w` that the backtrack segment crosses and that join nodes
/// next to each other on the circle; an unsettled end state stops the count.
pub open spec fn crossed_windows(ks: Seq<usize>, circle_len: int, events: Seq<PointEvent>, w: int) -> Result<
    Seq<(usize, usize)>,
    CrossingError,
>
    decreases w,
{
    if w <= 0 {
        Ok(Seq::empty())
    } else {
        match crossed_windows(ks, circle_len, events, w - 1) {
            Err(e) => Err(e),
            Ok(found) => {
                let (a, b) = window(ks.len() as int, w);
                let st = state_after(ks, circle_len, events, b, events.len() as int);
                if !settled(st) {
                    Err(CrossingError::Unsettled(st))
                } else if st == Intersects::Intersects && (ks[a] + 1) % circle_len == ks[b] {
                    Ok(found.push((a as usize, b as usize)))
                } else {
                    Ok(found)
                }
            },
        }
    }
}

/// Whether a pair of places joins a node to the next node of the circle, the next place in the
/// list (or the first, from the last).
pub open spec fn joins_neighbours(ks: Seq<usize>, circle_len: int, p: (usize, usize)) -> bool {
    &&& p.0 < ks.len()
    &&& p.1 < ks.len()
    &&& (ks[p.0 as int] + 1) % circle_len == ks[p.1 as int]
    &&& (p.1 == p.0 + 1 || (p.0 == ks.len() - 1 && p.1 == 0))
}

proof fn lemma_crossed_pairs(ks: Seq<usize>, circle_len: int, events: Seq<PointEvent>, w: int)
    requires
        0 <= w <= ks.len(),
        ks.len() <= usize::MAX,
    ensures
        crossed_windows(ks, circle_len, events, w) matches Ok(v) ==> forall|x: int|
            0 <= x < v.len() ==> joins_neighbours(ks, circle_len, #[trigger] v[x]),
    decreases w,
{
    if w > 0 {
        lemma_crossed_pairs(ks, circle_len, events, w - 1);
    }
}

/// Every segment that the walk round a face reports as crossed joins a node to the node after it
/// on the circle: its first place comes before its second, except where the circle closes.
pub proof fn lemma_crossings_join_neighbours(ks: Seq<usize>, circle_len: int, events: Seq<PointEvent>)
    requires
        ks.len() <= usize::MAX,
    ensures
        spec_scan_circle(ks, circle_len, events) matches Ok(v) ==> forall|x: int|
            0 <= x < v.len() ==> joins_neighbours(ks, circle_len, #[trigger] v[x]),
{
    lemma_crossed_pairs(ks, circle_len, events, ks.len() as int);
}

/// The ends met by the walk, in order, as seen from the segment ending at the `t`-th node: `true`
/// for an end of that segment, `false` for an end of the backtrack segment.
pub open spec fn ends_met(ks: Seq<usize>, circle_len: int, events: Seq<PointEvent>, t: int, n: int) -> Seq<bool>
    decreases n,
{
    if n <= 0 {
        Seq::empty()
    } else {
        ends_met(ks, circle_len, events, t, n - 1) + match events[n - 1] {
            PointEvent::Backtrack => seq![false],
            PointEvent::Isoline(k) => {
                let c = touches(ks, circle_len, t, k);
                if c == 0 {
                    Seq::empty()
                } else if c == 1 {
                    seq![true]
                } else {
                    seq![true, true]
                }
            },
        }
    }
}

/// The state after meeting the given ends in order, from outside both segments.
pub open spec fn run_ends(ends: Seq<bool>) -> Intersects
    decreases ends.len(),
{
    if ends.len() == 0 {
        Intersects::Outside
    } else {
        let s = run_ends(ends.drop_last());
        if ends.last() {
            after_isoline(s)
        } else {
            after_backtrack(s)
        }
    }
}

/// Exactly two ends of each segment were met.
pub open spec fn two_and_two(ends: Seq<bool>) -> bool {
    &&& ends.len() == 4
    &&& (if ends[0] { 1int } else { 0 }) + (if ends[1] { 1int } else { 0 }) + (if ends[2] { 1int } else { 0 }) + (
    if ends[3] {
        1int
    } else {
        0
    }) == 2
}

/// The ends of the two segments alternate round the face.
pub open spec fn alternate(ends: Seq<bool>) -> bool {
    ends.len() == 4 && ends[0] != ends[1] && ends[1] != ends[2] && ends[2] != ends[3]
}

proof fn lemma_state_is_run_of_ends(ks: Seq<usize>, circle_len: int, events: Seq<PointEvent>, t: int, n: int)
    ensures
        state_after(ks, circle_len, events, t, n) == run_ends(ends_met(ks, circle_len, events, t, n)),
    decreases n,
{
    if n > 0 {
        lemma_state_is_run_of_ends(ks, circle_len, events, t, n - 1);
        let before = ends_met(ks, circle_len, events, t, n - 1);
        let s0 = run_ends(before);
        let now = ends_met(ks, circle_len, events, t, n);
        match events[n - 1] {
            PointEvent::Backtrack => {
                assert(now == before + seq![false]);
                assert(now.drop_last() =~= before);
                assert(run_ends(now) == after_backtrack(s0));
            },
            PointEvent::Isoline(k) => {
                let c = touches(ks, circle_len, t, k);
                if c == 0 {
                    assert(now =~= before);
                } else if c == 1 {
                    assert(now == before + seq![true]);
                    assert(now.drop_last() =~= before);
                    assert(run_ends(now) == after_isoline(s0));
                } else {
                    assert(now == before + seq![true, true]);
                    let mid = before.push(true);
                    assert(now.drop_last() =~= mid);
                    assert(mid.drop_last() =~= before);
                    assert(run_ends(mid) == after_isoline(s0));
                    assert(run_ends(now) == after_isoline(run_ends(mid)));
                }
            },
        }
    }
}

/// With two ends of each segment met, the segments cross exactly when their ends alternate; else
/// the walk ends outside both.
pub proof fn lemma_alternation_decides(ends: Seq<bool>)
    requires
        two_and_two(ends),
    ensures
        run_ends(ends) == if alternate(ends) {
            Intersects::Intersects
        } else {
            Intersects::Outside
        },
{
    let e3 = ends.drop_last();
    let e2 = e3.drop_last();
    let e1 = e2.drop_last();
    let e0 = e1.drop_last();
    assert(e0.len() == 0);
    assert(e1.last() == ends[0] && e2.last() == ends[1] && e3.last() == ends[2] && ends.last() == ends[3]);
    let r0 = run_ends(e0);
    assert(r0 == Intersects::Outside);
    let r1 = run_ends(e1);
    assert(r1 == if ends[0] { after_isoline(r0) } else { after_backtrack(r0) });
    let r2 = run_ends(e2);
    assert(r2 == if ends[1] { after_isoline(r1) } else { after_backtrack(r1) });
    let r3 = run_ends(e3);
    assert(r3 == if ends[2] { after_isoline(r2) } else { after_backtrack(r2) });
    assert(run_ends(ends) == if ends[3] { after_isoline(r3) } else { after_backtrack(r3) });
}

/// A segment that the walk meets two ends of, besides the two ends of the backtrack segment,
/// crosses the backtrack segment exactly when their ends alternate round the face.
pub proof fn lemma_crossing_iff_ends_alternate(ks: Seq<usize>, circle_len: int, events: Seq<PointEvent>, t: int)
    requires
        two_and_two(ends_met(ks, circle_len, events, t, events.len() as int)),
    ensures
        state_after(ks, circle_len, events, t, events.len() as int) == if alternate(
            ends_met(ks, circle_len, events, t, events.len() as int),
        ) {
            Intersects::Intersects
        } else {
            Intersects::Outside
        },
{
    lemma_state_is_run_of_ends(ks, circle_len, events, t, events.len() as int);
    lemma_alternation_decides(ends_met(ks, circle_len, events, t, events.len() as int));
}

/// The `w`-th segment between neighbouring nodes, as a pair of places.
pub open spec fn window_pair(n: int, w: int) -> (usize, usize) {
    (window(n, w).0 as usize, window(n, w).1 as usize)
}

/// Whether the walk reports the `w`-th segment: its ends and the backtrack's alternate, and it
/// joins neighbouring nodes of the circle.
pub open spec fn reported(ks: Seq<usize>, circle_len: int, events: Seq<PointEvent>, w: int) -> bool {
    let (a, b) = window(ks.len() as int, w);
    &&& alternate(ends_met(ks, circle_len, events, b, events.len() as int))
    &&& (ks[a] + 1) % circle_len == ks[b]
}

proof fn lemma_windows_reported(ks: Seq<usize>, circle_len: int, events: Seq<PointEvent>, w: int)
    requires
        0 <= w <= ks.len(),
        ks.len() <= usize::MAX,
        forall|t: int| 0 <= t < ks.len() ==> two_and_two(#[trigger] ends_met(ks, circle_len, events, t, events.len() as int)),
    ensures
        crossed_windows(ks, circle_len, events, w) matches Ok(v) && forall|p: (usize, usize)|
            v.contains(p) <==> exists|x: int| 1 <= x <= w && #[trigger] window_pair(ks.len() as int, x) == p && reported(
                ks,
                circle_len,
                events,
                x,
            ),
    decreases w,
{
    if w > 0 {
        lemma_windows_reported(ks, circle_len, events, w - 1);
        let n = ks.len() as int;
        let (a, b) = window(n, w);
        lemma_crossing_iff_ends_alternate(ks, circle_len, events, b);
        let prev = crossed_windows(ks, circle_len, events, w - 1)->Ok_0;
        let now = crossed_windows(ks, circle_len, events, w)->Ok_0;
        assert forall|p: (usize, usize)| now.contains(p) <==> exists|x: int|
            1 <= x <= w && #[trigger] window_pair(n, x) == p && reported(ks, circle_len, events, x) by {
            if reported(ks, circle_len, events, w) {
                assert(now == prev.push(window_pair(n, w)));
                if now.contains(p) && !prev.contains(p) {
                    let i = choose|i: int| 0 <= i < now.len() && now[i] == p;
                    assert(i == prev.len());
                }
                if prev.contains(p) {
                    let i = choose|i: int| 0 <= i < prev.len() && prev[i] == p;
                    assert(now[i] == p);
                }
                if p == window_pair(n, w) {
                    assert(now[prev.len() as int] == p);
                }
            } else {
                assert(now == prev);
                if exists|x: int| 1 <= x <= w && #[trigger] window_pair(n, x) == p && reported(ks, circle_len, events, x) {
                    let x = choose|x: int| 1 <= x <= w && #[trigger] window_pair(n, x) == p && reported(ks, circle_len, events, x);
                    assert(x != w);
                }
            }
        }
    }
}

/// When the walk meets two ends of every segment and the two ends of the backtrack segment, it
/// reports exactly the segments between neighbouring nodes of the circle whose ends alternate
/// with the backtrack's round the face.
pub proof fn lemma_reported_iff_alternating(ks: Seq<usize>, circle_len: int, events: Seq<PointEvent>)
    requires
        2 <= ks.len() <= usize::MAX,
        events.len() >= 4,
        events.len() % 2 == 0,
        forall|t: int| 0 <= t < ks.len() ==> two_and_two(#[trigger] ends_met(ks, circle_len, events, t, events.len() as int)),
    ensures
        spec_scan_circle(ks, circle_len, events) matches Ok(v) && forall|p: (usize, usize)|
            v.contains(p) <==> exists|w: int|
                1 <= w <= ks.len() && #[trigger] window_pair(ks.len() as int, w) == p && reported(ks, circle_len, events, w),
{
    lemma_windows_reported(ks, circle_len, events, ks.len() as int);
}

/// The node before node `x` on a circle of `circle_len` nodes: the last node comes before node 0.
pub open spec fn circle_pred(x: usize, circle_len: int) -> int {
    if x == 0 {
        circle_len - 1
    } else {
        x - 1
    }
}

/// The ends of the segment that ends at the `t`-th node met when meeting node `k`: one if `k` is
/// that node, one if `k` is the node before it on the circle.
pub open spec fn node_ends(ks: Seq<usize>, circle_len: int, t: int, k: usize) -> Seq<bool> {
    (if k == ks[t] { seq![true] } else { Seq::empty() }) + (if k == circle_pred(ks[t], circle_len) {
        seq![true]
    } else {
        Seq::empty()
    })
}

/// The ends met in the first `n` points of the walk by the segment that ends at the `t`-th node
/// (it runs from the node before it on the circle): `true` for its own ends, `false` for the
/// backtrack's.
pub open spec fn segment_ends(ks: Seq<usize>, circle_len: int, events: Seq<PointEvent>, t: int, n: int) -> Seq<bool>
    decreases n,
{
    if n <= 0 {
        Seq::empty()
    } else {
        segment_ends(ks, circle_len, events, t, n - 1) + match events[n - 1] {
            PointEvent::Backtrack => seq![false],
            PointEvent::Isoline(k) => node_ends(ks, circle_len, t, k),
        }
    }
}

/// Whether the places on the circle are increasing, below the circle's length, and every node the
/// walk meets is one of them.
pub open spec fn walk_wf(ks: Seq<usize>, circle_len: int, events: Seq<PointEvent>) -> bool {
    &&& strictly_increasing(ks)
    &&& forall|i: int| 0 <= i < ks.len() ==> #[trigger] ks[i] < circle_len
    &&& forall|m: int| 0 <= m < events.len() ==> (#[trigger] events[m] matches PointEvent::Isoline(k) ==> ks.contains(k))
}

/// Meeting node `k` passes one end of the segment that ends at the `t`-th node if `k` is that node,
/// and one if `k` is the node before it on the circle (node `circle_len - 1` before node 0).
pub proof fn lemma_touches_own_node_and_predecessor(ks: Seq<usize>, circle_len: int, t: int, k: usize)
    requires
        strictly_increasing(ks),
        forall|i: int| 0 <= i < ks.len() ==> #[trigger] ks[i] < circle_len,
        0 <= t < ks.len(),
        ks.contains(k),
    ensures
        touches(ks, circle_len, t, k) == (if k == ks[t] { 1nat } else { 0nat }) + (if k == circle_pred(
            ks[t],
            circle_len,
        ) {
            1nat
        } else {
            0nat
        }),
{
    let n = ks.len() as int;
    let i = choose|i: int| 0 <= i < n && ks[i] == k;
    assert(ks.last() == ks[n - 1]);
    if ks[t] == 0 {
        assert(t == 0) by {
            if t > 0 {
                assert(ks[0] < ks[t]);
            }
        }
        if k == circle_len - 1 {
            assert(i == n - 1) by {
                if i < n - 1 {
                    assert(ks[i] < ks[n - 1]);
                }
            }
        } else if k != ks.last() {
        } else {
        }
    } else {
        if k == ks[t] - 1 {
            assert(i == t - 1) by {
                if i < t - 1 {
                    assert(ks[i] < ks[t - 1]);
                    assert(ks[t - 1] < ks[t]);
                } else if i >= t {
                    assert(ks[t] <= ks[i]) by {
                        if i > t {
                            assert(ks[t] < ks[i]);
                        }
                    }
                }
            }
            assert(k != ks.last()) by {
                assert(ks[i] < ks[t]) by {
                    assert(i < t);
                }
                if t < n - 1 {
                    assert(ks[t] < ks[n - 1]);
                }
            }
        } else {
            if k != ks.last() && t > 0 && ks[t - 1] == k {
                assert(ks[t] == k + 1 ==> false);
            }
        }
    }
}

/// What the walk meets, seen from one segment, is the ends of that segment (at its own node and at
/// the node before it) and the ends of the backtrack segment.
pub proof fn lemma_ends_met_are_segment_ends(ks: Seq<usize>, circle_len: int, events: Seq<PointEvent>, t: int, n: int)
    requires
        walk_wf(ks, circle_len, events),
        0 <= t < ks.len(),
        0 <= n <= events.len(),
    ensures
        ends_met(ks, circle_len, events, t, n) == segment_ends(ks, circle_len, events, t, n),
    decreases n,
{
    if n > 0 {
        lemma_ends_met_are_segment_ends(ks, circle_len, events, t, n - 1);
        if let PointEvent::Isoline(k) = events[n - 1] {
            assert(events[n - 1] matches PointEvent::Isoline(k) ==> ks.contains(k));
            lemma_touches_own_node_and_predecessor(ks, circle_len, t, k);
            let own: Seq<bool> = if k == ks[t] { seq![true] } else { Seq::empty() };
            let before: Seq<bool> = if k == circle_pred(ks[t], circle_len) { seq![true] } else { Seq::empty() };
            assert(own + before =~= {
                let c = touches(ks, circle_len, t, k);
                if c == 0 {
                    Seq::<bool>::empty()
                } else if c == 1 {
                    seq![true]
                } else {
                    seq![true, true]
                }
            });
        }
    }
}

/// Whether the `w`-th segment between neighbouring listed nodes (counting from 1; the last runs
/// from the last listed node to the first) joins neighbouring nodes of the circle, and its two ends
/// alternate, in the order met round the face, with the two ends of the backtrack segment.
pub open spec fn crosses_backtrack(ks: Seq<usize>, circle_len: int, events: Seq<PointEvent>, w: int) -> bool {
    let a = w - 1;
    let b = if w < ks.len() { w } else { 0 };
    let e = segment_ends(ks, circle_len, events, b, events.len() as int);
    &&& e[0] != e[1]
    &&& e[1] != e[2]
    &&& e[2] != e[3]
    &&& (ks[a] + 1) % circle_len == ks[b]
}

/// Exactly two ends of the segment and two of the backtrack segment are met.
pub open spec fn two_of_each(e: Seq<bool>) -> bool {
    &&& e.len() == 4
    &&& (if e[0] { 1int } else { 0 }) + (if e[1] { 1int } else { 0 }) + (if e[2] { 1int } else { 0 }) + (if e[3] {
        1int
    } else {
        0
    }) == 2
}

/// The walk round a face reports, of the segments between neighbouring listed nodes (each node
/// with the next, the last with the first), exactly those that join neighbouring nodes of the
/// circle and whose two ends alternate, in the order met, with the two ends of the backtrack
/// segment. Here every segment has two of its ends met (one at its own node, one at the node
/// before it on the circle, the last node coming before node 0), and the backtrack's two.
pub proof fn lemma_crossed_exactly_when_ends_alternate(ks: Seq<usize>, circle_len: int, events: Seq<PointEvent>)
    requires
        walk_wf(ks, circle_len, events),
        2 <= ks.len() <= usize::MAX,
        events.len() >= 4,
        events.len() % 2 == 0,
        forall|t: int| 0 <= t < ks.len() ==> two_of_each(#[trigger] segment_ends(ks, circle_len, events, t, events.len() as int)),
    ensures
        spec_scan_circle(ks, circle_len, events) matches Ok(v) && forall|p: (usize, usize)|
            v.contains(p) <==> exists|w: int|
                1 <= w <= ks.len() && p == ((w - 1) as usize, (if w < ks.len() { w } else { 0 }) as usize)
                    && #[trigger] crosses_backtrack(ks, circle_len, events, w),
{
    let n = ks.len() as int;
    let m = events.len() as int;
    assert forall|t: int| 0 <= t < n implies two_and_two(#[trigger] ends_met(ks, circle_len, events, t, m)) by {
        lemma_ends_met_are_segment_ends(ks, circle_len, events, t, m);
        assert(two_of_each(segment_ends(ks, circle_len, events, t, m)));
    }
    lemma_reported_iff_alternating(ks, circle_len, events);
    let v = spec_scan_circle(ks, circle_len, events)->Ok_0;
    assert forall|p: (usize, usize)| v.contains(p) <==> exists|w: int|
        1 <= w <= n && p == ((w - 1) as usize, (if w < n { w } else { 0 }) as usize) && #[trigger] crosses_backtrack(
            ks,
            circle_len,
            events,
            w,
        ) by {
        if v.contains(p) {
            let w = choose|w: int| 1 <= w <= n && #[trigger] window_pair(n, w) == p && reported(ks, circle_len, events, w);
            let b = if w < n { w } else { 0 };
            lemma_ends_met_are_segment_ends(ks, circle_len, events, b, m);
            assert(crosses_backtrack(ks, circle_len, events, w));
        }
        if exists|w: int|
            1 <= w <= n && p == ((w - 1) as usize, (if w < n { w } else { 0 }) as usize) && #[trigger] crosses_backtrack(
                ks,
                circle_len,
                events,
                w,
            ) {
            let w = choose|w: int|
                1 <= w <= n && p == ((w - 1) as usize, (if w < n { w } else { 0 }) as usize) && #[trigger] crosses_backtrack(
                    ks,
                    circle_len,
                    events,
                    w,
                );
            let b = if w < n { w } else { 0 };
            lemma_ends_met_are_segment_ends(ks, circle_len, events, b, m);
            assert(window_pair(n, w) == p);
            assert(reported(ks, circle_len, events, w));
        }
    }
}

/// Once a count of crossed segments has stopped on an error, counting more segments keeps it.
proof fn lemma_error_persists(ks: Seq<usize>, circle_len: int, events: Seq<PointEvent>, w: int, m: int)
    requires
        0 <= w <= m,
        crossed_windows(ks, circle_len, events, w) is Err,
    ensures
        crossed_windows(ks, circle_len, events, m) == crossed_windows(ks, circle_len, events, w),
    decreases m - w,
{
    if m > w {
        lemma_error_persists(ks, circle_len, events, w, m - 1);
    }
}

/// What walking round a face gives for one circle: an error if the walk met an odd number of
/// points or fewer than four, else the crossed segments.
pub open spec fn spec_scan_circle(ks: Seq<usize>, circle_len: int, events: Seq<PointEvent>) -> Result<
    Seq<(usize, usize)>,
    CrossingError,
> {
    if events.len() < 4 || events.len() % 2 != 0 {
        Err(CrossingError::UnpairedEnds)
    } else if ks.len() >= 2 {
        crossed_windows(ks, circle_len, events, ks.len() as int)
    } else {
        Ok(Seq::empty())
    }
}

/// The segments between neighbouring nodes of a circle's nodes on a face, as pairs of positions:
/// each node with the next, and the last with the first.
pub fn circle_windows(n: usize) -> (r: Vec<(usize, usize)>)
    requires
        n > 0,
    ensures
        r@.len() == n,
        forall|w: int| 1 <= w <= n ==> #[trigger] r@[w - 1] == (window(n as int, w).0 as usize, window(n as int, w).1 as usize),
{
    let mut r: Vec<(usize, usize)> = Vec::new();
    let mut x: usize = 0;
    while x < n
        invariant
            x <= n,
            r@.len() == x,
            forall|w: int| 1 <= w <= x ==> #[trigger] r@[w - 1] == (window(n as int, w).0 as usize, window(n as int, w).1 as usize),
        decreases n - x,
    {
        let b = if x + 1 < n {
            x + 1
        } else {
            0
        };
        r.push((x, b));
        x = x + 1;
    }
    r
}

/// Whether place `k2` comes straight after place `k1` on a circle of `circle_len` nodes.
pub fn follows_on_circle(k1: usize, k2: usize, circle_len: usize) -> (r: bool)
    requires
        circle_len > 0,
        k1 < usize::MAX,
    ensures
        r == ((k1 + 1) % (circle_len as int) == k2),
{
    (k1 + 1) % circle_len == k2
}

/// Where `k` sits in the strictly increasing `ks`, which holds it.
pub fn find_k(ks: &Vec<usize>, k: usize) -> (i: usize)
    requires
        strictly_increasing(ks@),
        ks@.contains(k),
    ensures
        i < ks@.len(),
        ks@[i as int] == k,
{
    let mut lo: usize = 0;
    let mut hi: usize = ks.len();
    while lo + 1 < hi
        invariant
            strictly_increasing(ks@),
            hi <= ks@.len(),
            lo < hi,
            exists|x: int| lo <= x < hi && ks@[x] == k,
        decreases hi - lo,
    {
        let mid = lo + (hi - lo) / 2;
        if ks[mid] <= k {
            lo = mid;
        } else {
            hi = mid;
        }
    }
    lo
}

/// Walks round a face for one circle of an isoline. `ks` are the places on the circle of the
/// circle's nodes on the face, in increasing order; `events` are the points met on the walk.
/// Each node ends the segment from the node before it on the circle; meeting a node passes an end
/// of the segment it ends and of the segment it starts, meeting an end of the backtrack segment
/// passes an end of it for every segment. The result lists, as pairs of places in `ks`, the segments
/// that the backtrack segment crosses.
pub fn scan_circle(ks: &Vec<usize>, events: &Vec<PointEvent>, circle_len: usize) -> (r: Result<
    Vec<(usize, usize)>,
    CrossingError,
>)
    requires
        strictly_increasing(ks@),
        ks@.len() > 0,
        circle_len > 0,
        forall|t: int| 0 <= t < ks@.len() ==> #[trigger] ks@[t] < usize::MAX,
        forall|n: int|
            0 <= n < events@.len() ==> (#[trigger] events@[n] matches PointEvent::Isoline(k) ==> ks@.contains(k)),
    ensures
        r matches Ok(v) ==> spec_scan_circle(ks@, circle_len as int, events@) == Ok::<
            Seq<(usize, usize)>,
            CrossingError,
        >(v@),
        r matches Err(e) ==> spec_scan_circle(ks@, circle_len as int, events@) == Err::<
            Seq<(usize, usize)>,
            CrossingError,
        >(e),
{
    if events.len() < 4 || events.len() % 2 != 0 {
        return Err(CrossingError::UnpairedEnds);
    }
    let n = ks.len();
    let ghost cl = circle_len as int;
    let mut tests: Vec<Intersects> = Vec::new();
    let mut t: usize = 0;
    while t < n
        invariant
            n == ks@.len(),
            t <= n,
            tests@.len() == t,
            forall|u: int| 0 <= u < t ==> #[trigger] tests@[u] == Intersects::Outside,
        decreases n - t,
    {
        tests.push(Intersects::new());
        t = t + 1;
    }
    let mut e: usize = 0;
    while e < events.len()
        invariant
            n == ks@.len(),
            n > 0,
            cl == circle_len,
            strictly_increasing(ks@),
            forall|t: int| 0 <= t < ks@.len() ==> #[trigger] ks@[t] < usize::MAX,
            forall|m: int|
                0 <= m < events@.len() ==> (#[trigger] events@[m] matches PointEvent::Isoline(k) ==> ks@.contains(k)),
            e <= events@.len(),
            tests@.len() == n,
            forall|u: int| 0 <= u < n ==> #[trigger] tests@[u] == state_after(ks@, cl, events@, u, e as int),
        decreases events@.len() - e,
    {
        match events[e] {
            PointEvent::Isoline(k) => {
                proof {
                    assert(events@[e as int] matches PointEvent::Isoline(k) ==> ks@.contains(k));
                }
                let ghost before = tests@;
                let index = find_k(ks, k);
                tests[index].isoline();
                if index + 1 < n {
                    if ks[index + 1] == k + 1 {
                        tests[index + 1].isoline();
                    }
                } else if circle_len == k + 1 && ks[0] == 0 {
                    tests[0].isoline();
                }
                proof {
                    assert forall|u: int| 0 <= u < n implies #[trigger] tests@[u] == isoline_times(
                        before[u],
                        touches(ks@, cl, u, k),
                    ) by {
                        if ks@[u] == k {
                            assert(u == index) by {
                                if u < index {
                                    assert(ks@[u] < ks@[index as int]);
                                } else if u > index {
                                    assert(ks@[index as int] < ks@[u]);
                                }
                            }
                        } else {
                            assert(u != index);
                        }
                        if k != ks@.last() {
                            assert(index + 1 < n) by {
                                if index + 1 >= n {
                                    assert(index == n - 1);
                                }
                            }
                            if u > 0 && ks@[u - 1] == k {
                                assert(u - 1 == index) by {
                                    if u - 1 < index {
                                        assert(ks@[u - 1] < ks@[index as int]);
                                    } else if u - 1 > index {
                                        assert(ks@[index as int] < ks@[u - 1]);
                                    }
                                }
                            }
                        } else {
                            assert(index == n - 1) by {
                                if index < n - 1 {
                                    assert(ks@[index as int] < ks@[n - 1]);
                                }
                            }
                        }
                    }
                }
            },
            PointEvent::Backtrack => {
                let ghost before = tests@;
                let mut t: usize = 0;
                while t < n
                    invariant
                        n == ks@.len(),
                        tests@.len() == n,
                        t <= n,
                        forall|u: int| 0 <= u < t ==> #[trigger] tests@[u] == after_backtrack(before[u]),
                        forall|u: int| t <= u < n ==> #[trigger] tests@[u] == before[u],
                    decreases n - t,
                {
                    tests[t].backtrack();
                    t = t + 1;
                }
            },
        }
        e = e + 1;
    }
    let mut found: Vec<(usize, usize)> = Vec::new();
    if n >= 2 {
        let mut x: usize = 0;
        while x < n
            invariant
                n == ks@.len(),
                n >= 2,
                cl == circle_len,
                cl > 0,
                forall|t: int| 0 <= t < ks@.len() ==> #[trigger] ks@[t] < usize::MAX,
                x <= n,
                !(events@.len() < 4 || events@.len() % 2 != 0),
                tests@.len() == n,
                forall|u: int|
                    0 <= u < n ==> #[trigger] tests@[u] == state_after(ks@, cl, events@, u, events@.len() as int),
                crossed_windows(ks@, cl, events@, x as int) == Ok::<Seq<(usize, usize)>, CrossingError>(found@),
            decreases n - x,
        {
            let a = x;
            let b = if x + 1 < n {
                x + 1
            } else {
                0
            };
            match tests[b].intersects() {
                Err(err) => {
                    proof {
                        assert(tests@[b as int] == state_after(ks@, cl, events@, b as int, events@.len() as int));
                        assert(window(n as int, x + 1) == (a as int, b as int));
                        assert(crossed_windows(ks@, cl, events@, x + 1) == Err::<Seq<(usize, usize)>, CrossingError>(
                            err,
                        ));
                        lemma_error_persists(ks@, cl, events@, x + 1, n as int);
                    }
                    return Err(err);
                },
                Ok(crosses) => {
                    if crosses && (ks[a] + 1) % circle_len == ks[b] {
                        found.push((a, b));
                    }
                },
            }
            x = x + 1;
        }
    }
    Ok(found)
}

} // verus!
