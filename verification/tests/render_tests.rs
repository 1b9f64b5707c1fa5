use pane::{check, Frame, Placement, Rect, Renderer, TextRenderer};

#[test]
fn text_renderer_lists_windows() {
    let screen = Rect::new(0, 0, 100, 100);
    let tiled = vec![Placement {
        id: 1,
        cell: screen,
        rect: screen,
    }];
    let report = check(screen, &tiled);
    let frame = Frame {
        workspace: 0,
        screen,
        gap: 0,
        monocle: false,
        tiled,
        floating: vec![],
        focus: Some(1),
        report,
    };
    let mut r = TextRenderer::new();
    r.render(&frame);
    assert!(r.buffer.contains("window 1 *"));
    assert!(r.buffer.contains("invariant HOLDS"));
}

#[test]
fn text_renderer_writes_the_exact_frame_text() {
    let screen = Rect::new(0, 0, 100, 100);
    let tiled = vec![
        Placement { id: 1, cell: Rect::new(0, 0, 50, 100), rect: Rect::new(0, 0, 50, 100) },
        Placement { id: 2, cell: Rect::new(50, 0, 50, 100), rect: Rect::new(50, 0, 50, 100) },
    ];
    let report = check(screen, &tiled);
    let frame = Frame {
        workspace: 2,
        screen,
        gap: 0,
        monocle: true,
        tiled,
        floating: vec![pane::Floating { id: 7, rect: Rect::new(-5, 10, 20, 30) }],
        focus: Some(2),
        report,
    };
    let mut r = TextRenderer::new();
    r.render(&frame);
    let expected = "workspace 2 screen 100x100 gap 0 [monocle]\n\
                    \x20 window 1 rect x=0 y=0 w=50 h=100\n\
                    \x20 window 2 * rect x=50 y=0 w=50 h=100\n\
                    \x20 float  7 rect x=-5 y=10 w=20 h=30\n\
                    \x20 invariant HOLDS | screen area 10000 = windows 10000 + gaps 0\n";
    assert_eq!(r.buffer, expected);
}

#[test]
fn text_renderer_appends_frames() {
    let screen = Rect::new(0, 0, 10, 10);
    let report = check(screen, &[]);
    let frame = Frame {
        workspace: 0,
        screen,
        gap: 3,
        monocle: false,
        tiled: vec![],
        floating: vec![],
        focus: None,
        report,
    };
    let mut r = TextRenderer::new();
    r.render(&frame);
    let once = r.buffer.clone();
    r.render(&frame);
    assert_eq!(r.buffer, format!("{once}{once}"));
    assert!(once.starts_with("workspace 0 screen 10x10 gap 3\n"));
}
