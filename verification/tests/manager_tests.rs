use pane::manager::Op;
use pane::{Dir, Rect, SplitDir, WindowManager};

fn manager() -> WindowManager {
    WindowManager::new(Rect::new(0, 0, 1200, 800), 0)
}

#[test]
fn parse_round_trip() {
    assert_eq!(Op::parse(&["open"]).unwrap(), Op::Open(SplitDir::Vertical));
    assert_eq!(Op::parse(&["open", "h"]).unwrap(), Op::Open(SplitDir::Horizontal));
    assert_eq!(Op::parse(&["focus", "left"]).unwrap(), Op::Focus(Dir::Left));
    assert_eq!(Op::parse(&["ws", "2"]).unwrap(), Op::Workspace(2));
    assert!(Op::parse(&["bogus"]).is_err());
    assert!(Op::parse(&["focus"]).is_err());
}

#[test]
fn apply_open_and_report_holds() {
    let mut wm = manager();
    wm.apply(Op::Open(SplitDir::Vertical));
    wm.apply(Op::Open(SplitDir::Horizontal));
    wm.apply(Op::Open(SplitDir::Vertical));
    assert!(wm.report().ok);
    assert_eq!(wm.frame().tiled.len(), 3);
}

#[test]
fn workspaces_are_independent() {
    let mut wm = manager();
    wm.apply(Op::Open(SplitDir::Vertical));
    wm.apply(Op::Workspace(1));
    assert_eq!(wm.frame().tiled.len(), 0);
    wm.apply(Op::Open(SplitDir::Vertical));
    wm.apply(Op::Open(SplitDir::Vertical));
    assert_eq!(wm.frame().tiled.len(), 2);
    wm.apply(Op::Workspace(0));
    assert_eq!(wm.frame().tiled.len(), 1);
}

#[test]
fn gap_is_accounted_exactly() {
    let mut wm = WindowManager::new(Rect::new(0, 0, 1200, 800), 8);
    for _ in 0..5 {
        wm.apply(Op::Open(SplitDir::Vertical));
    }
    let r = wm.report();
    assert!(r.ok);
    assert!(r.gap_area > 0);
    assert_eq!(r.covered + r.gap_area, wm.screen().area());
}

#[test]
fn parse_accepts_every_verb_and_alias() {
    assert_eq!(Op::parse(&["open", "v"]).unwrap(), Op::Open(SplitDir::Vertical));
    assert_eq!(Op::parse(&["open", "horizontal"]).unwrap(), Op::Open(SplitDir::Horizontal));
    assert_eq!(Op::parse(&["close"]).unwrap(), Op::Close);
    assert_eq!(Op::parse(&["move", "up"]).unwrap(), Op::Move(Dir::Up));
    assert_eq!(Op::parse(&["resize", "down"]).unwrap(), Op::Resize(Dir::Down));
    assert_eq!(Op::parse(&["focus", "right"]).unwrap(), Op::Focus(Dir::Right));
    assert_eq!(Op::parse(&["float"]).unwrap(), Op::Float);
    assert_eq!(Op::parse(&["monocle"]).unwrap(), Op::Monocle);
    assert_eq!(Op::parse(&["workspace", "0"]).unwrap(), Op::Workspace(0));
    assert_eq!(Op::parse(&["OPEN", "H"]).unwrap(), Op::Open(SplitDir::Horizontal));
}

#[test]
fn parse_errors_name_the_problem() {
    assert_eq!(Op::parse(&[]).unwrap_err(), "empty command");
    assert_eq!(Op::parse(&["bogus"]).unwrap_err(), "unknown command 'bogus'");
    assert_eq!(Op::parse(&["open", "diagonal"]).unwrap_err(), "unknown split direction 'diagonal'");
    assert_eq!(Op::parse(&["focus", "north"]).unwrap_err(), "unknown direction 'north'");
    assert_eq!(Op::parse(&["ws"]).unwrap_err(), "workspace needs a number");
    assert_eq!(Op::parse(&["ws", "x"]).unwrap_err(), "workspace number must be a non negative integer");
    assert_eq!(Op::parse(&["focus"]).unwrap_err(), "direction required");
    assert_eq!(Op::parse(&["Frob"]).unwrap_err(), "unknown command 'frob'");
}

#[test]
fn fresh_manager_is_empty_and_consistent() {
    let wm = manager();
    assert_eq!(wm.active(), 0);
    assert_eq!(wm.workspace_count(), 1);
    assert_eq!(wm.focus(), None);
    assert_eq!(wm.active_window_count(), 0);
    assert!(wm.consistency_errors().is_empty());
    let r = wm.report();
    assert!(r.ok);
    assert_eq!(r.covered, 0);
    assert_eq!(r.gap_area, 1200 * 800);
}

#[test]
fn ids_are_handed_out_in_order() {
    let mut wm = manager();
    wm.apply(Op::Open(SplitDir::Vertical));
    assert_eq!(wm.focus(), Some(1));
    wm.apply(Op::Open(SplitDir::Vertical));
    assert_eq!(wm.focus(), Some(2));
    wm.apply(Op::Close);
    wm.apply(Op::Open(SplitDir::Vertical));
    assert_eq!(wm.focus(), Some(3));
}

#[test]
fn close_after_open_on_the_manager_restores_tiling() {
    let mut wm = manager();
    wm.apply(Op::Open(SplitDir::Vertical));
    wm.apply(Op::Open(SplitDir::Horizontal));
    let before: Vec<Rect> = wm.frame().tiled.iter().map(|p| p.rect).collect();
    wm.apply(Op::Open(SplitDir::Vertical));
    wm.apply(Op::Close);
    let after: Vec<Rect> = wm.frame().tiled.iter().map(|p| p.rect).collect();
    assert_eq!(before, after);
}

#[test]
fn monocle_op_shows_only_the_focused_window() {
    let mut wm = manager();
    wm.apply(Op::Open(SplitDir::Vertical));
    wm.apply(Op::Open(SplitDir::Vertical));
    wm.apply(Op::Monocle);
    let f = wm.frame();
    assert!(f.monocle);
    assert_eq!(f.tiled.len(), 1);
    assert_eq!(f.tiled[0].id, 2);
    assert_eq!(f.tiled[0].rect, Rect::new(0, 0, 1200, 800));
    assert!(wm.report().ok);
    wm.apply(Op::Monocle);
    assert_eq!(wm.frame().tiled.len(), 2);
}

#[test]
fn active_window_count_sees_floating_windows() {
    let mut wm = manager();
    wm.apply(Op::Open(SplitDir::Vertical));
    wm.apply(Op::Open(SplitDir::Vertical));
    wm.apply(Op::Float);
    assert_eq!(wm.active_window_count(), 2);
    assert_eq!(wm.frame().tiled.len(), 1);
    assert_eq!(wm.frame().floating.len(), 1);
}

#[test]
fn can_apply_accepts_ordinary_operations() {
    let wm = manager();
    assert!(wm.can_apply(Op::Open(SplitDir::Vertical)));
    assert!(wm.can_apply(Op::Workspace(3)));
    assert!(wm.can_apply(Op::Close));
    assert!(!wm.can_apply(Op::Workspace(usize::MAX)));
}

#[test]
fn switching_creates_missing_workspaces() {
    let mut wm = manager();
    wm.apply(Op::Workspace(3));
    assert_eq!(wm.active(), 3);
    assert_eq!(wm.workspace_count(), 4);
    assert!(wm.consistency_errors().is_empty());
}

#[test]
fn resize_op_moves_the_shared_edge() {
    let mut wm = manager();
    wm.apply(Op::Open(SplitDir::Vertical));
    wm.apply(Op::Open(SplitDir::Vertical));
    wm.apply(Op::Focus(Dir::Left));
    wm.apply(Op::Resize(Dir::Right));
    let f = wm.frame();
    assert_eq!(f.tiled[0].rect, Rect::new(0, 0, 660, 800));
    assert_eq!(f.tiled[1].rect, Rect::new(660, 0, 540, 800));
}
