use pane::{remove, Node, SplitDir};

fn leaf(id: u64) -> Node {
    Node::Leaf(id)
}

fn ids(t: &Node) -> Vec<u64> {
    let mut v = vec![];
    t.window_ids(&mut v);
    v
}

#[test]
fn insert_splits_the_target_leaf() {
    let mut t = leaf(1);
    assert!(t.insert(1, 2, SplitDir::Vertical, false));
    assert_eq!(t.leaf_count(), 2);
    assert!(t.contains(1) && t.contains(2));
}

#[test]
fn close_after_open_restores_tree() {
    let before = leaf(1);
    let mut after = before.clone();
    after.insert(1, 2, SplitDir::Horizontal, false);
    let (restored, found) = remove(Some(after), 2);
    assert!(found);
    assert_eq!(restored, Some(before));
}

#[test]
fn remove_promotes_sibling() {
    let mut t = leaf(1);
    t.insert(1, 2, SplitDir::Vertical, false);
    t.insert(2, 3, SplitDir::Horizontal, false);
    let (t, found) = remove(Some(t), 1);
    assert!(found);
    let t = t.unwrap();
    assert_eq!(t.leaf_count(), 2);
    assert!(t.contains(2) && t.contains(3) && !t.contains(1));
}

#[test]
fn swap_exchanges_positions() {
    let mut t = leaf(1);
    t.insert(1, 2, SplitDir::Vertical, false);
    assert_eq!(ids(&t), vec![1, 2]);
    assert!(t.swap(1, 2));
    assert_eq!(ids(&t), vec![2, 1]);
}

#[test]
fn resize_grows_focused_window() {
    let mut t = leaf(1);
    t.insert(1, 2, SplitDir::Vertical, false);
    assert!(t.resize(1, SplitDir::Vertical, 100));
    if let Node::Split { ratio, .. } = t {
        assert_eq!(ratio, 600);
    } else {
        panic!("expected split");
    }
}

#[test]
fn resize_clamps_to_range() {
    let mut t = leaf(1);
    t.insert(1, 2, SplitDir::Vertical, false);
    for _ in 0..100 {
        t.resize(1, SplitDir::Vertical, 500);
    }
    assert!(t.ratios_in_range());
}

#[test]
fn insert_misses_an_absent_target() {
    let mut t = leaf(1);
    assert!(!t.insert(7, 2, SplitDir::Vertical, false));
    assert_eq!(t, leaf(1));
}

#[test]
fn insert_new_first_puts_the_new_window_first() {
    let mut t = leaf(1);
    t.insert(1, 2, SplitDir::Vertical, true);
    assert_eq!(ids(&t), vec![2, 1]);
    assert_eq!(t.first_leaf(), 2);
}

#[test]
fn remove_of_a_missing_window_changes_nothing() {
    let mut t = leaf(1);
    t.insert(1, 2, SplitDir::Vertical, false);
    let before = t.clone();
    let (after, found) = remove(Some(t), 9);
    assert!(!found);
    assert_eq!(after, Some(before));
    assert_eq!(remove(None, 1), (None, false));
}

#[test]
fn remove_of_the_only_window_leaves_no_tree() {
    assert_eq!(remove(Some(leaf(4)), 4), (None, true));
}

#[test]
fn swap_refuses_missing_or_equal_ids() {
    let mut t = leaf(1);
    t.insert(1, 2, SplitDir::Vertical, false);
    assert!(!t.swap(1, 1));
    assert!(!t.swap(1, 5));
    assert_eq!(ids(&t), vec![1, 2]);
}

#[test]
fn resize_from_the_second_side_shrinks_the_first() {
    let mut t = leaf(1);
    t.insert(1, 2, SplitDir::Horizontal, false);
    assert!(t.resize(2, SplitDir::Horizontal, 50));
    if let Node::Split { ratio, .. } = &t {
        assert_eq!(*ratio, 450);
    } else {
        panic!("expected split");
    }
    // No split of the other orientation above the leaf: nothing changes.
    assert!(!t.resize(2, SplitDir::Vertical, 50));
    // Not in the tree at all.
    assert!(!t.resize(9, SplitDir::Horizontal, 50));
}

#[test]
fn resize_finds_the_nearest_matching_ancestor() {
    let mut t = leaf(1);
    t.insert(1, 2, SplitDir::Vertical, false);
    t.insert(2, 3, SplitDir::Horizontal, false);
    // Window 3 is the second child of the horizontal split, which is the second child of
    // the vertical split. A vertical resize skips the horizontal split.
    assert!(t.resize(3, SplitDir::Vertical, 50));
    if let Node::Split { ratio, b, .. } = &t {
        assert_eq!(*ratio, 450);
        if let Node::Split { ratio, .. } = &**b {
            assert_eq!(*ratio, 500);
        } else {
            panic!("expected split");
        }
    } else {
        panic!("expected split");
    }
}

#[test]
fn collect_tiles_the_area() {
    let mut t = leaf(1);
    t.insert(1, 2, SplitDir::Vertical, false);
    let mut out = vec![];
    t.collect(pane::Rect::new(0, 0, 100, 50), 0, &mut out);
    assert_eq!(out.len(), 2);
    assert_eq!(out[0].cell, pane::Rect::new(0, 0, 50, 50));
    assert_eq!(out[1].cell, pane::Rect::new(50, 0, 50, 50));
    assert_eq!(out[0].rect, out[0].cell);
}
