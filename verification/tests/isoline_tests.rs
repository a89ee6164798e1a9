use crochet_generator::isoline_map::{row_crossing, IsolinesMap, RowCrossing};
use crochet_generator::mesh::OnEdge;

fn e(a: usize, b: usize) -> OnEdge {
    OnEdge::new(a, b)
}

fn sample() -> Vec<Vec<Vec<OnEdge>>> {
    vec![
        vec![vec![e(0, 1), e(1, 2), e(2, 0)]],
        vec![vec![e(0, 1), e(3, 4)], vec![e(1, 2)]],
    ]
}

#[test]
fn isoline_map_lists_nodes_per_edge_in_order() {
    let m = IsolinesMap::get_isoline_map(&sample());
    assert_eq!(m.get(e(1, 0)), Some(&vec![(0, 0, 0), (1, 0, 0)]));
    assert_eq!(m.get(e(2, 1)), Some(&vec![(0, 0, 1), (1, 1, 0)]));
    assert_eq!(m.get(e(0, 2)), Some(&vec![(0, 0, 2)]));
    assert_eq!(m.get(e(4, 3)), Some(&vec![(1, 0, 1)]));
    assert_eq!(m.get(e(5, 6)), None);
}

#[test]
fn face_points_gathered_edge_by_edge() {
    let m = IsolinesMap::get_isoline_map(&sample());
    let all = m.face_isoline_points([0, 1, 2], None);
    assert_eq!(
        all,
        vec![
            (e(0, 1), (0, 0, 0)),
            (e(0, 1), (1, 0, 0)),
            (e(1, 2), (0, 0, 1)),
            (e(1, 2), (1, 1, 0)),
            (e(2, 0), (0, 0, 2)),
        ]
    );
    let row1 = m.face_isoline_points([0, 1, 2], Some(1));
    assert_eq!(row1, vec![(e(0, 1), (1, 0, 0)), (e(1, 2), (1, 1, 0))]);
    assert!(m.face_isoline_points([5, 6, 7], None).is_empty());
}

#[test]
fn row_crossings() {
    assert_eq!(row_crossing(3, 3), RowCrossing::SameRow);
    assert_eq!(row_crossing(3, 4), RowCrossing::Boundary(4));
    assert_eq!(row_crossing(4, 3), RowCrossing::Boundary(4));
    assert_eq!(row_crossing(1, 3), RowCrossing::Skipped);
    assert_eq!(row_crossing(i64::MIN, i64::MAX), RowCrossing::Skipped);
}
