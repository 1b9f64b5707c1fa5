use pane::manager::Op;
use pane::{Dir, Rect, Renderer, SplitDir, TextRenderer, WindowManager};

fn cells_containing(wm: &WindowManager, px: i64, py: i64) -> usize {
    wm.frame()
        .tiled
        .iter()
        .filter(|p| {
            let c = p.cell;
            c.x <= px && px < c.x + c.w && c.y <= py && py < c.y + c.h
        })
        .count()
}

#[test]
fn every_point_lies_in_exactly_one_cell() {
    let mut wm = WindowManager::new(Rect::new(0, 0, 7, 5), 1);
    for op in [
        Op::Open(SplitDir::Vertical),
        Op::Open(SplitDir::Horizontal),
        Op::Open(SplitDir::Vertical),
        Op::Focus(Dir::Left),
        Op::Open(SplitDir::Horizontal),
        Op::Resize(Dir::Down),
    ] {
        wm.apply(op);
        for py in 0..5 {
            for px in 0..7 {
                assert_eq!(cells_containing(&wm, px, py), 1, "point ({px}, {py}) after {op:?}");
            }
        }
    }
}

#[test]
fn resize_grows_the_focused_window() {
    let mut wm = WindowManager::new(Rect::new(0, 0, 1000, 1000), 0);
    wm.apply(Op::Open(SplitDir::Vertical));
    wm.apply(Op::Open(SplitDir::Vertical));
    // Window 2 is the second child: a grow request moves the shared edge left.
    let before = wm.frame().tiled[1].cell;
    wm.apply(Op::Resize(Dir::Right));
    let after = wm.frame().tiled[1].cell;
    assert_eq!(before, Rect::new(500, 0, 500, 1000));
    assert_eq!(after, Rect::new(450, 0, 550, 1000));
    // Growing stops at the ratio bound.
    for _ in 0..40 {
        wm.apply(Op::Resize(Dir::Right));
    }
    assert_eq!(wm.frame().tiled[1].cell, Rect::new(50, 0, 950, 1000));
    // No horizontal split holds the window: nothing changes.
    wm.apply(Op::Resize(Dir::Up));
    assert_eq!(wm.frame().tiled[1].cell, Rect::new(50, 0, 950, 1000));
}

#[test]
fn switching_away_and_back_restores_the_tiling() {
    let mut wm = WindowManager::new(Rect::new(0, 0, 1200, 800), 4);
    wm.apply(Op::Open(SplitDir::Vertical));
    wm.apply(Op::Open(SplitDir::Horizontal));
    let before = wm.frame().tiled;
    wm.apply(Op::Workspace(2));
    wm.apply(Op::Open(SplitDir::Vertical));
    wm.apply(Op::Float);
    wm.apply(Op::Workspace(0));
    assert_eq!(wm.frame().tiled, before);
}

#[test]
fn floating_twice_returns_the_window_to_the_tiling() {
    let mut wm = WindowManager::new(Rect::new(0, 0, 1200, 800), 0);
    wm.apply(Op::Open(SplitDir::Vertical));
    wm.apply(Op::Open(SplitDir::Horizontal));
    wm.apply(Op::Open(SplitDir::Vertical));
    let mut before: Vec<u64> = wm.frame().tiled.iter().map(|p| p.id).collect();
    wm.apply(Op::Float);
    assert_eq!(wm.frame().floating.len(), 1);
    assert_eq!(wm.frame().tiled.len(), 2);
    wm.apply(Op::Float);
    assert_eq!(wm.focus(), Some(3));
    assert!(wm.frame().floating.is_empty());
    let mut after: Vec<u64> = wm.frame().tiled.iter().map(|p| p.id).collect();
    before.sort();
    after.sort();
    assert_eq!(before, after);
    assert!(wm.report().ok);
}

#[test]
fn monocle_twice_restores_the_tiling() {
    let mut wm = WindowManager::new(Rect::new(0, 0, 1200, 800), 8);
    wm.apply(Op::Open(SplitDir::Vertical));
    wm.apply(Op::Open(SplitDir::Horizontal));
    let before = wm.frame().tiled;
    wm.apply(Op::Monocle);
    assert_eq!(wm.frame().tiled.len(), 1);
    assert!(wm.report().ok);
    wm.apply(Op::Monocle);
    assert_eq!(wm.frame().tiled, before);
}

#[test]
fn same_operations_render_the_same_text() {
    let ops = [
        Op::Open(SplitDir::Vertical),
        Op::Open(SplitDir::Horizontal),
        Op::Focus(Dir::Up),
        Op::Resize(Dir::Right),
        Op::Float,
        Op::Monocle,
    ];
    let run = || {
        let mut wm = WindowManager::new(Rect::new(0, 0, 640, 480), 2);
        let mut r = TextRenderer::new();
        for op in ops {
            wm.apply(op);
            r.render(&wm.frame());
        }
        r.buffer
    };
    assert_eq!(run(), run());
}

#[test]
fn every_operation_keeps_the_workspace_consistent() {
    let mut wm = WindowManager::new(Rect::new(0, 0, 300, 200), 3);
    for op in [
        Op::Close,
        Op::Open(SplitDir::Vertical),
        Op::Float,
        Op::Open(SplitDir::Horizontal),
        Op::Move(Dir::Down),
        Op::Monocle,
        Op::Focus(Dir::Right),
        Op::Move(Dir::Left),
        Op::Close,
        Op::Close,
        Op::Close,
    ] {
        wm.apply(op);
        assert!(wm.consistency_errors().is_empty(), "after {op:?}");
        assert!(wm.report().ok, "after {op:?}");
    }
    assert_eq!(wm.focus(), None);
}

#[test]
fn move_keeps_the_shape_of_the_tiling() {
    let mut wm = WindowManager::new(Rect::new(0, 0, 1200, 800), 6);
    wm.apply(Op::Open(SplitDir::Vertical));
    wm.apply(Op::Open(SplitDir::Vertical));
    wm.apply(Op::Open(SplitDir::Horizontal));
    let before = wm.frame().tiled;
    wm.apply(Op::Move(Dir::Left));
    let after = wm.frame().tiled;
    assert_eq!(before.len(), after.len());
    for (p, q) in before.iter().zip(after.iter()) {
        assert_eq!(p.cell, q.cell);
        assert_eq!(p.rect, q.rect);
    }
    assert_eq!(before[0].id, 1);
    assert_eq!(after[0].id, 3);
    assert_eq!(after[2].id, 1);
    assert_eq!(wm.focus(), Some(3));
}

#[test]
fn open_splits_only_the_focused_cell() {
    let mut wm = WindowManager::new(Rect::new(0, 0, 1200, 800), 0);
    wm.apply(Op::Open(SplitDir::Vertical));
    wm.apply(Op::Open(SplitDir::Vertical));
    wm.apply(Op::Focus(Dir::Left));
    let before = wm.frame().tiled;
    wm.apply(Op::Open(SplitDir::Horizontal));
    let after = wm.frame().tiled;
    assert_eq!(after.len(), 3);
    assert_eq!(after[0].id, 1);
    assert_eq!(after[0].cell, Rect::new(0, 0, 600, 400));
    assert_eq!(after[1].id, 3);
    assert_eq!(after[1].cell, Rect::new(0, 400, 600, 400));
    assert_eq!(after[2], before[1]);
}
