use yabai_rs::tree::{Direction, NodeKind, Ratio, SplitDirection, Tree};

#[test]
fn insert_single_window_becomes_root() {
    let mut tree = Tree::new();
    let id = tree.insert_window(1);
    assert_eq!(tree.root(), Some(id));
    assert!(matches!(tree.get(id).unwrap().kind, NodeKind::Window { window_id: 1 }));
}

#[test]
fn insert_two_windows_creates_container() {
    let mut tree = Tree::new();
    tree.insert_window(1);
    tree.insert_window(2);
    let root = tree.root().unwrap();
    assert!(matches!(tree.get(root).unwrap().kind, NodeKind::Container { .. }));
}

#[test]
fn remove_one_of_two_leaves_single_root() {
    let mut tree = Tree::new();
    tree.insert_window(1);
    tree.insert_window(2);
    tree.remove_window(1);
    let root = tree.root().unwrap();
    assert!(matches!(tree.get(root).unwrap().kind, NodeKind::Window { window_id: 2 }));
}

#[test]
fn remove_last_window_clears_tree() {
    let mut tree = Tree::new();
    tree.insert_window(42);
    tree.remove_window(42);
    assert!(tree.root().is_none());
}

#[test]
fn find_window_works() {
    let mut tree = Tree::new();
    tree.insert_window(10);
    tree.insert_window(20);
    assert!(tree.find_window(10).is_some());
    assert!(tree.find_window(99).is_none());
}

#[test]
fn three_windows_neighbor_navigation() {
    let mut tree = Tree::new();
    tree.insert_window(1);
    tree.insert_window(2);
    tree.insert_window(3);

    let n1 = tree.find_window(1).unwrap();
    let _n2 = tree.find_window(2).unwrap();

    // n1 should have a right neighbor (n2 or deeper)
    let right_of_1 = tree.neighbor(n1, Direction::Right);
    assert!(right_of_1.is_some());
}

#[test]
fn direction_debug_contains_name() {
    let d = Direction::Left;
    assert!(format!("{d:?}").contains("Left"));
}

#[test]
fn node_ids_count_up_from_one() {
    let mut tree = Tree::new();
    assert_eq!(tree.insert_window(7), 1);
    // the second insert takes id 2 for the leaf and id 3 for the new root container
    assert_eq!(tree.insert_window(8), 2);
    assert_eq!(tree.root(), Some(3));
    assert_eq!(tree.last_id_exec(), 3);
}

#[test]
fn second_window_splits_root_horizontally_in_halves() {
    let mut tree = Tree::new();
    let a = tree.insert_window(1);
    let b = tree.insert_window(2);
    let root = tree.root().unwrap();
    let node = tree.get(root).unwrap();
    match &node.kind {
        NodeKind::Container { split, children } => {
            assert_eq!(*split, SplitDirection::Horizontal);
            assert_eq!(children, &vec![a, b]);
        }
        NodeKind::Window { .. } => panic!("root should be a container"),
    }
    assert_eq!(node.parent, None);
    assert_eq!(node.ratio, Ratio { num: 1, den: 1 });
    assert_eq!(tree.get(a).unwrap().parent, Some(root));
    assert_eq!(tree.get(a).unwrap().ratio, Ratio { num: 1, den: 2 });
    assert_eq!(tree.get(b).unwrap().ratio, Ratio { num: 1, den: 2 });
}

#[test]
fn collapse_gives_survivor_the_whole_share() {
    let mut tree = Tree::new();
    tree.insert_window(1);
    tree.insert_window(2);
    tree.insert_window(3);
    // root = C[C[1, 2], 3]; removing 1 puts 2 in place of the inner container
    tree.remove_window(1);
    let two = tree.find_window(2).unwrap();
    let three = tree.find_window(3).unwrap();
    let root = tree.root().unwrap();
    assert_eq!(tree.get(two).unwrap().parent, Some(root));
    assert_eq!(tree.get(two).unwrap().ratio, Ratio { num: 1, den: 1 });
    assert_eq!(tree.get(three).unwrap().ratio, Ratio { num: 1, den: 2 });
    match &tree.get(root).unwrap().kind {
        NodeKind::Container { children, .. } => assert_eq!(children, &vec![two, three]),
        NodeKind::Window { .. } => panic!("root should be a container"),
    }
}

#[test]
fn remove_absent_window_changes_nothing() {
    let mut tree = Tree::new();
    tree.insert_window(1);
    tree.insert_window(2);
    let root = tree.root();
    tree.remove_window(9);
    assert_eq!(tree.root(), root);
    let mut ids = tree.window_ids();
    ids.sort();
    assert_eq!(ids, vec![1, 2]);
}

#[test]
fn window_ids_lists_each_leaf_once() {
    let mut tree = Tree::new();
    tree.insert_window(5);
    tree.insert_window(6);
    tree.insert_window(5);
    let mut ids = tree.window_ids();
    ids.sort();
    assert_eq!(ids, vec![5, 5, 6]);
    tree.remove_window(5);
    let mut ids = tree.window_ids();
    ids.sort();
    assert_eq!(ids, vec![5, 6]);
}

#[test]
fn insert_then_remove_restores_window_set() {
    let mut tree = Tree::new();
    tree.insert_window(1);
    tree.insert_window(2);
    tree.insert_window(3);
    tree.remove_window(3);
    let mut ids = tree.window_ids();
    ids.sort();
    assert_eq!(ids, vec![1, 2]);
}

#[test]
fn neighbors_follow_the_split_axis() {
    let mut tree = Tree::new();
    let a = tree.insert_window(1);
    let b = tree.insert_window(2);
    assert_eq!(tree.neighbor(a, Direction::Right), Some(b));
    assert_eq!(tree.neighbor(b, Direction::Left), Some(a));
    assert_eq!(tree.neighbor(a, Direction::Left), None);
    assert_eq!(tree.neighbor(b, Direction::Right), None);
    // a horizontal split has no vertical neighbours
    assert_eq!(tree.neighbor(a, Direction::Up), None);
    assert_eq!(tree.neighbor(a, Direction::Down), None);
}

#[test]
fn neighbor_descends_to_first_leaf() {
    let mut tree = Tree::new();
    let a = tree.insert_window(1);
    let _b = tree.insert_window(2);
    let c = tree.insert_window(3);
    // root = C[C[a, b], c]: left of c is the inner container, whose first leaf is a
    assert_eq!(tree.neighbor(c, Direction::Left), Some(a));
}

#[test]
fn neighbor_of_unknown_node_is_none() {
    let mut tree = Tree::new();
    tree.insert_window(1);
    assert_eq!(tree.neighbor(99, Direction::Right), None);
}

#[test]
fn get_mut_relabels_a_leaf() {
    let mut tree = Tree::new();
    let a = tree.insert_window(1);
    if let Some(n) = tree.get_mut(a) {
        n.kind = NodeKind::Window { window_id: 9 };
    }
    assert_eq!(tree.find_window(9), Some(a));
    assert!(tree.get_mut(77).is_none());
}

#[test]
fn split_direction_opposite() {
    assert_eq!(SplitDirection::Horizontal.opposite(), SplitDirection::Vertical);
    assert_eq!(SplitDirection::Vertical.opposite(), SplitDirection::Horizontal);
    assert_eq!(SplitDirection::Vertical.opposite().opposite(), SplitDirection::Vertical);
}

#[test]
fn insert_then_remove_restores_nodes_and_root() {
    let mut tree = Tree::new();
    tree.insert_window(1);
    tree.insert_window(2);
    let root = tree.root();
    let last = tree.last_id_exec();
    let before: Vec<String> = (0..=last).map(|k| format!("{:?}", tree.get(k))).collect();
    tree.insert_window(9);
    tree.remove_window(9);
    assert_eq!(tree.root(), root);
    let after: Vec<String> = (0..=last).map(|k| format!("{:?}", tree.get(k))).collect();
    assert_eq!(after, before);
    assert!(tree.get(last + 1).is_none());
    assert!(tree.get(last + 2).is_none());
}
