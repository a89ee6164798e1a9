use crochet_generator::connect::{
    backtrack_decision, check_first_row, connect_tree, link_to_single_previous, split_into_layers, ConnectError,
    IndexedCircle, IndexedCircleTree,
};

fn ic(circle: (usize, usize), prev: Option<(usize, usize)>) -> IndexedCircle {
    IndexedCircle { circle, prev }
}

fn shape(t: &IndexedCircleTree) -> String {
    let kids: Vec<String> = t.children.iter().map(shape).collect();
    format!("{}.{}[{}]", t.circle.0, t.circle.1, kids.join(","))
}

#[test]
fn connect_tree_builds_branching_tree() {
    let items = vec![
        ic((0, 0), None),
        ic((1, 0), Some((0, 0))),
        ic((2, 0), Some((1, 0))),
        ic((2, 1), Some((1, 0))),
        ic((3, 0), Some((2, 1))),
        ic((3, 1), Some((2, 0))),
    ];
    let tree = connect_tree(items);
    assert_eq!(shape(&tree), "0.0[1.0[2.0[3.1[]],2.1[3.0[]]]]");
}

#[test]
fn connect_tree_accepts_items_in_any_order() {
    let items = vec![
        ic((2, 0), Some((1, 0))),
        ic((1, 0), Some((0, 0))),
        ic((0, 0), None),
        ic((1, 1), Some((0, 0))),
    ];
    let tree = connect_tree(items);
    assert_eq!(shape(&tree), "0.0[1.0[2.0[]],1.1[]]");
}

#[test]
fn connect_tree_single_circle() {
    let tree = connect_tree(vec![ic((0, 0), None)]);
    assert_eq!(shape(&tree), "0.0[]");
}

#[test]
fn connect_tree_drops_circles_that_name_no_parent() {
    let items = vec![ic((0, 0), None), ic((1, 0), Some((0, 5))), ic((1, 1), Some((0, 0)))];
    let tree = connect_tree(items);
    assert_eq!(shape(&tree), "0.0[1.1[]]");
}

#[test]
fn layers_group_by_row() {
    let items = vec![ic((2, 0), Some((1, 0))), ic((0, 0), None), ic((2, 1), Some((1, 0)))];
    let layers = split_into_layers(&items);
    assert_eq!(layers.len(), 3);
    assert_eq!(layers[0].len(), 1);
    assert_eq!(layers[1].len(), 0);
    assert_eq!(layers[2].len(), 2);
    assert_eq!(layers[2][1].circle, (2, 1));
}

#[test]
fn clone_copies_whole_tree() {
    let items = vec![ic((0, 0), None), ic((1, 0), Some((0, 0))), ic((1, 1), Some((0, 0)))];
    let tree = connect_tree(items);
    let copy = tree.clone();
    assert_eq!(shape(&copy), shape(&tree));
}

#[test]
fn into_circle_tree_carries_isoline_data() {
    let items = vec![ic((0, 0), None), ic((1, 0), Some((0, 0))), ic((1, 1), Some((0, 0)))];
    let tree = connect_tree(items);
    let isolines = vec![vec!["seed".to_string()], vec!["left".to_string(), "right".to_string()]];
    let carried = tree.into_circle_tree(&isolines);
    assert_eq!(carried.circle, "seed");
    assert_eq!(carried.children.len(), 2);
    assert_eq!(carried.children[0].circle, "left");
    assert_eq!(carried.children[1].circle, "right");
}

#[test]
fn first_row_must_be_single() {
    assert!(check_first_row(1).is_ok());
    assert!(matches!(check_first_row(2), Err(ConnectError::SplitBeforeFirstRow)));
    assert!(matches!(check_first_row(0), Err(ConnectError::SplitBeforeFirstRow)));
}

#[test]
fn single_previous_circle_is_parent() {
    let it = link_to_single_previous(1, 3, 2).unwrap();
    assert_eq!(it.circle, (4, 2));
    assert_eq!(it.prev, Some((3, 0)));
    assert!(link_to_single_previous(2, 3, 2).is_none());
}

#[test]
fn backtrack_decisions() {
    assert!(matches!(backtrack_decision(&vec![]), Ok(None)));
    assert!(matches!(backtrack_decision(&vec![(2, 1), (2, 1)]), Ok(Some((2, 1)))));
    match backtrack_decision(&vec![(2, 1), (2, 1), (2, 0), (2, 3)]) {
        Err(ConnectError::SeveralPreviousCircles { circle, problem }) => {
            assert_eq!(circle, (2, 1));
            assert_eq!(problem, (2, 0));
        },
        other => panic!("unexpected {:?}", other),
    }
}
