use algorithms::{layout_tree, Shown};

fn value_of(s: Shown<i32>) -> Option<(bool, i32)> {
    match s {
        Shown::Value(v) => Some((true, v)),
        Shown::Leaf(v) => Some((false, v)),
        _ => None,
    }
}

#[test]
fn layout_of_empty_array() {
    let grid = layout_tree::<i32>(&vec![]).unwrap();
    assert_eq!(grid.rows(), 0);
    assert_eq!(grid.cols(), 0);
}

#[test]
fn layout_of_single_node() {
    let grid = layout_tree(&vec![7]).unwrap();
    assert_eq!(grid.rows(), 1);
    assert_eq!(grid.cols(), 1);
    assert_eq!(value_of(grid.get(0, 0)), Some((false, 7)));
}

#[test]
fn layout_of_three_nodes() {
    let grid = layout_tree(&vec![9, 4, 6]).unwrap();
    assert_eq!(grid.rows(), 3);
    assert_eq!(grid.cols(), 3);
    assert_eq!(value_of(grid.get(0, 1)), Some((true, 9)));
    assert!(matches!(grid.get(1, 0), Shown::Slash));
    assert!(matches!(grid.get(1, 2), Shown::BackSlash));
    assert_eq!(value_of(grid.get(2, 0)), Some((false, 4)));
    assert_eq!(value_of(grid.get(2, 2)), Some((false, 6)));
    assert!(matches!(grid.get(0, 0), Shown::Empty));
    assert!(matches!(grid.get(1, 1), Shown::Empty));
}

#[test]
fn layout_of_seven_nodes() {
    let grid = layout_tree(&vec![9, 8, 5, 7, 3, 1, 0]).unwrap();
    assert_eq!(grid.rows(), 5);
    assert_eq!(grid.cols(), 7);
    assert_eq!(value_of(grid.get(0, 3)), Some((true, 9)));
    assert!(matches!(grid.get(0, 2), Shown::Dash));
    assert!(matches!(grid.get(0, 4), Shown::Dash));
    assert!(matches!(grid.get(1, 1), Shown::Slash));
    assert!(matches!(grid.get(1, 5), Shown::BackSlash));
    assert_eq!(value_of(grid.get(2, 1)), Some((true, 8)));
    assert_eq!(value_of(grid.get(2, 5)), Some((true, 5)));
    assert_eq!(value_of(grid.get(4, 0)), Some((false, 7)));
    assert_eq!(value_of(grid.get(4, 2)), Some((false, 3)));
    assert_eq!(value_of(grid.get(4, 4)), Some((false, 1)));
    assert_eq!(value_of(grid.get(4, 6)), Some((false, 0)));
}

#[test]
fn layout_of_four_nodes_tags_by_half() {
    let grid = layout_tree(&vec![10, 9, 8, 7]).unwrap();
    assert_eq!(grid.rows(), 5);
    assert_eq!(grid.cols(), 7);
    assert_eq!(value_of(grid.get(0, 3)), Some((true, 10)));
    assert_eq!(value_of(grid.get(2, 1)), Some((true, 9)));
    assert_eq!(value_of(grid.get(2, 5)), Some((false, 8)));
    assert_eq!(value_of(grid.get(4, 0)), Some((false, 7)));
    assert!(matches!(grid.get(3, 0), Shown::Slash));
}

#[test]
fn layout_leaves_other_cells_empty() {
    let grid = layout_tree(&vec![9, 8, 5, 7, 3, 1, 0]).unwrap();
    let mut drawn = 0;
    for r in 0..grid.rows() {
        for c in 0..grid.cols() {
            if value_of(grid.get(r, c)).is_some() {
                drawn += 1;
            }
        }
    }
    assert_eq!(drawn, 7);
    assert!(matches!(grid.get(2, 0), Shown::Empty));
    assert!(matches!(grid.get(3, 1), Shown::Empty));
}
