use crochet_generator::circles::{group_circles, search_place, GroupError};
use crochet_generator::crossing::{
    circle_windows, find_k, follows_on_circle, scan_circle, CrossingError, Intersects, PointEvent,
};

#[test]
fn state_machine_transitions() {
    let mut s = Intersects::new();
    assert_eq!(s, Intersects::Outside);
    s.isoline();
    assert_eq!(s, Intersects::Isoline);
    s.backtrack();
    assert_eq!(s, Intersects::IsoBack);
    s.isoline();
    assert_eq!(s, Intersects::Intersects);
    s.backtrack();
    assert_eq!(s, Intersects::Intersects);
    assert_eq!(s.intersects(), Ok(true));
    assert_eq!(Intersects::Outside.intersects(), Ok(false));
    assert_eq!(Intersects::Isoline.intersects(), Ok(false));
    assert_eq!(Intersects::Backtrack.intersects(), Err(CrossingError::Unsettled(Intersects::Backtrack)));
}

#[test]
fn nested_ends_do_not_cross() {
    let mut s = Intersects::new();
    s.isoline();
    s.backtrack();
    s.backtrack();
    s.isoline();
    assert_eq!(s, Intersects::Outside);
}

#[test]
fn scan_finds_crossed_segment() {
    // Nodes 0 and 1 of a circle of 5, with the backtrack segment between them round the face.
    let ks = vec![0, 1];
    let events = vec![PointEvent::Isoline(0), PointEvent::Backtrack, PointEvent::Isoline(1), PointEvent::Backtrack];
    assert_eq!(scan_circle(&ks, &events, 5), Ok(vec![(0, 1)]));
}

#[test]
fn scan_finds_no_crossing_when_ends_do_not_alternate() {
    let ks = vec![0, 1];
    let events = vec![PointEvent::Isoline(0), PointEvent::Isoline(1), PointEvent::Backtrack, PointEvent::Backtrack];
    assert_eq!(scan_circle(&ks, &events, 5), Ok(vec![]));
}

#[test]
fn scan_wraps_round_the_circle() {
    // Nodes 0 and 3 of a circle of 4: the segment from 3 wraps round to 0.
    let ks = vec![0, 3];
    let events = vec![PointEvent::Isoline(3), PointEvent::Backtrack, PointEvent::Isoline(0), PointEvent::Backtrack];
    assert_eq!(scan_circle(&ks, &events, 4), Ok(vec![(1, 0)]));
}

#[test]
fn scan_rejects_unpaired_walks() {
    let ks = vec![0, 1];
    assert_eq!(
        scan_circle(&ks, &vec![PointEvent::Isoline(0), PointEvent::Backtrack, PointEvent::Isoline(1)], 5),
        Err(CrossingError::UnpairedEnds)
    );
    assert_eq!(scan_circle(&ks, &vec![PointEvent::Backtrack, PointEvent::Backtrack], 5), Err(CrossingError::UnpairedEnds));
}

#[test]
fn scan_reports_unsettled_state() {
    let ks = vec![0, 1];
    let events = vec![PointEvent::Backtrack, PointEvent::Backtrack, PointEvent::Backtrack, PointEvent::Backtrack, PointEvent::Backtrack, PointEvent::Backtrack, PointEvent::Isoline(0), PointEvent::Backtrack];
    assert_eq!(scan_circle(&ks, &events, 5), Err(CrossingError::Unsettled(Intersects::IsoBack)));
}

#[test]
fn windows_close_the_circle() {
    assert_eq!(circle_windows(3), vec![(0, 1), (1, 2), (2, 0)]);
    assert_eq!(circle_windows(1), vec![(0, 0)]);
    assert!(follows_on_circle(4, 0, 5));
    assert!(follows_on_circle(1, 2, 5));
    assert!(!follows_on_circle(1, 3, 5));
}

#[test]
fn binary_searches() {
    assert_eq!(find_k(&vec![1, 4, 9, 12], 9), 2);
    assert_eq!(find_k(&vec![1, 4, 9, 12], 1), 0);
    let g = vec![(7, 2), (3, 5), (9, 8)];
    assert_eq!(search_place(&g, 5), Ok(1));
    assert_eq!(search_place(&g, 6), Err(2));
    assert_eq!(search_place(&g, 1), Err(0));
    assert_eq!(search_place(&g, 10), Err(3));
}

#[test]
fn grouping_sorts_each_circle() {
    let points = vec![(1, 0, 5), (1, 1, 2), (1, 0, 3), (2, 0, 0), (1, 1, 1)];
    let groups = group_circles(&points).unwrap();
    assert_eq!(groups.len(), 3);
    assert_eq!(groups[0], ((1, 0), vec![(2, 3), (0, 5)]));
    assert_eq!(groups[1], ((1, 1), vec![(4, 1), (1, 2)]));
    assert_eq!(groups[2], ((2, 0), vec![(3, 0)]));
}

#[test]
fn grouping_rejects_a_point_listed_twice() {
    let points = vec![(1, 0, 5), (1, 1, 2), (1, 0, 5)];
    assert_eq!(group_circles(&points), Err(GroupError::PointTwice));
}
