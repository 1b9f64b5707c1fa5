use pane::{Dir, Rect, SplitDir, Workspace};

const SCREEN: Rect = Rect { x: 0, y: 0, w: 1000, h: 800 };

#[test]
fn open_grows_the_tree() {
    let mut ws = Workspace::new();
    ws.open(1, SplitDir::Vertical);
    ws.open(2, SplitDir::Vertical);
    assert_eq!(ws.tiled(SCREEN, 0).len(), 2);
    assert_eq!(ws.focus, Some(2));
}

#[test]
fn close_after_open_restores() {
    let mut ws = Workspace::new();
    ws.open(1, SplitDir::Vertical);
    let before = ws.tree.clone();
    ws.open(2, SplitDir::Horizontal);
    ws.close();
    assert_eq!(ws.tree, before);
}

#[test]
fn focus_moves_right() {
    let mut ws = Workspace::new();
    ws.open(1, SplitDir::Vertical);
    ws.open(2, SplitDir::Vertical);
    ws.focus = Some(1);
    assert!(ws.focus_dir(Dir::Right, SCREEN, 0));
    assert_eq!(ws.focus, Some(2));
}

#[test]
fn monocle_shows_one_fullscreen_window() {
    let mut ws = Workspace::new();
    ws.open(1, SplitDir::Vertical);
    ws.open(2, SplitDir::Vertical);
    ws.open(3, SplitDir::Horizontal);
    assert_eq!(ws.tiled(SCREEN, 0).len(), 3);
    ws.toggle_monocle();
    let placements = ws.tiled(SCREEN, 0);
    assert_eq!(placements.len(), 1);
    assert_eq!(placements[0].cell, SCREEN);
    assert_eq!(placements[0].id, 3);
}

#[test]
fn monocle_preserves_tree_on_exit() {
    let mut ws = Workspace::new();
    ws.open(1, SplitDir::Vertical);
    ws.open(2, SplitDir::Horizontal);
    let before = ws.tiled(SCREEN, 4);
    ws.toggle_monocle();
    ws.toggle_monocle();
    assert_eq!(ws.tiled(SCREEN, 4), before);
}

#[test]
fn monocle_focus_cycles_tree_order() {
    let mut ws = Workspace::new();
    ws.open(1, SplitDir::Vertical);
    ws.open(2, SplitDir::Vertical);
    ws.open(3, SplitDir::Vertical);
    ws.focus = Some(1);
    ws.toggle_monocle();
    assert!(ws.focus_dir(Dir::Right, SCREEN, 0));
    assert_eq!(ws.focus, Some(2));
    assert!(ws.focus_dir(Dir::Right, SCREEN, 0));
    assert_eq!(ws.focus, Some(3));
    assert!(ws.focus_dir(Dir::Right, SCREEN, 0));
    assert_eq!(ws.focus, Some(1));
    assert!(ws.focus_dir(Dir::Left, SCREEN, 0));
    assert_eq!(ws.focus, Some(3));
}

#[test]
fn monocle_move_swaps_in_tree_order() {
    let mut ws = Workspace::new();
    ws.open(1, SplitDir::Vertical);
    ws.open(2, SplitDir::Vertical);
    ws.focus = Some(1);
    ws.toggle_monocle();
    assert!(ws.move_dir(Dir::Right, SCREEN, 0));
    assert_eq!(ws.tree_order(), vec![2, 1]);
    assert_eq!(ws.focus, Some(1));
}

#[test]
fn float_toggle_round_trips() {
    let mut ws = Workspace::new();
    ws.open(1, SplitDir::Vertical);
    ws.open(2, SplitDir::Vertical);
    ws.focus = Some(2);
    assert!(ws.toggle_float(SCREEN));
    assert!(ws.focus_is_floating());
    assert_eq!(ws.tiled(SCREEN, 0).len(), 1);
    assert!(ws.toggle_float(SCREEN));
    assert!(!ws.focus_is_floating());
    assert_eq!(ws.tiled(SCREEN, 0).len(), 2);
}

#[test]
fn floated_window_is_centered_at_half_size() {
    let mut ws = Workspace::new();
    ws.open(1, SplitDir::Vertical);
    assert!(ws.toggle_float(SCREEN));
    assert!(ws.tree.is_none());
    assert_eq!(ws.floating.len(), 1);
    assert_eq!(ws.floating[0].id, 1);
    assert_eq!(ws.floating[0].rect, Rect::new(250, 200, 500, 400));
}

#[test]
fn close_falls_back_to_first_tiled_then_floating() {
    let mut ws = Workspace::new();
    ws.open(1, SplitDir::Vertical);
    ws.open(2, SplitDir::Vertical);
    ws.open(3, SplitDir::Vertical);
    ws.focus = Some(3);
    ws.toggle_float(SCREEN);
    // Close tiled window 2: focus goes to the first tiled window.
    ws.focus = Some(2);
    assert_eq!(ws.close(), Some(2));
    assert_eq!(ws.focus, Some(1));
    // Close the last tiled window: focus goes to the floating one.
    assert_eq!(ws.close(), Some(1));
    assert_eq!(ws.focus, Some(3));
    // Close the floating one: nothing is left.
    assert_eq!(ws.close(), Some(3));
    assert_eq!(ws.focus, None);
    assert_eq!(ws.close(), None);
}

#[test]
fn focus_moves_by_geometry_in_every_direction() {
    // 1 on the left half, 2 over 3 on the right half.
    let mut ws = Workspace::new();
    ws.open(1, SplitDir::Vertical);
    ws.open(2, SplitDir::Vertical);
    ws.open(3, SplitDir::Horizontal);
    assert_eq!(ws.tiled(SCREEN, 0).len(), 3);
    ws.focus = Some(1);
    assert!(!ws.focus_dir(Dir::Left, SCREEN, 0));
    assert!(ws.focus_dir(Dir::Right, SCREEN, 0));
    assert_eq!(ws.focus, Some(2));
    assert!(ws.focus_dir(Dir::Down, SCREEN, 0));
    assert_eq!(ws.focus, Some(3));
    assert!(!ws.focus_dir(Dir::Down, SCREEN, 0));
    assert!(!ws.focus_dir(Dir::Right, SCREEN, 0));
    assert_eq!(ws.focus, Some(3));
    assert!(ws.focus_dir(Dir::Up, SCREEN, 0));
    assert_eq!(ws.focus, Some(2));
    assert!(!ws.focus_dir(Dir::Up, SCREEN, 0));
    assert!(ws.focus_dir(Dir::Left, SCREEN, 0));
    assert_eq!(ws.focus, Some(1));
}

#[test]
fn move_swaps_with_the_neighbour() {
    let mut ws = Workspace::new();
    ws.open(1, SplitDir::Vertical);
    ws.open(2, SplitDir::Vertical);
    ws.focus = Some(1);
    assert!(ws.move_dir(Dir::Right, SCREEN, 0));
    assert_eq!(ws.tree_order(), vec![2, 1]);
    assert_eq!(ws.focus, Some(1));
    assert!(!ws.move_dir(Dir::Right, SCREEN, 0));
}

#[test]
fn resize_grows_toward_the_direction() {
    let mut ws = Workspace::new();
    ws.open(1, SplitDir::Vertical);
    ws.open(2, SplitDir::Vertical);
    ws.focus = Some(1);
    assert!(ws.resize(Dir::Right, 50));
    let placements = ws.tiled(SCREEN, 0);
    assert_eq!(placements[0].cell.w, 550);
    assert!(ws.resize(Dir::Left, 50));
    assert_eq!(ws.tiled(SCREEN, 0)[0].cell.w, 500);
    assert!(!ws.resize(Dir::Up, 50));
}

#[test]
fn nearest_breaks_distance_ties_by_smaller_id() {
    // Window 1 on the left, 2 above 3 on the right: both right hand windows are at the
    // same distance from window 1, so the smaller id wins.
    let mut ws = Workspace::new();
    ws.open(1, SplitDir::Vertical);
    ws.open(2, SplitDir::Vertical);
    ws.open(3, SplitDir::Horizontal);
    ws.focus = Some(1);
    assert!(ws.focus_dir(Dir::Right, SCREEN, 0));
    assert_eq!(ws.focus, Some(2));
}
