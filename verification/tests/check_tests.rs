use pane::{check, Placement, Rect};

fn place(id: u64, cell: Rect, rect: Rect) -> Placement {
    Placement { id, cell, rect }
}

#[test]
fn empty_layout_is_all_gap() {
    let screen = Rect::new(0, 0, 100, 100);
    let r = check(screen, &[]);
    assert!(r.ok);
    assert_eq!(r.gap_area, 10_000);
}

#[test]
fn perfect_two_way_split_holds() {
    let screen = Rect::new(0, 0, 100, 100);
    let placements = vec![
        place(1, Rect::new(0, 0, 50, 100), Rect::new(0, 0, 50, 100)),
        place(2, Rect::new(50, 0, 50, 100), Rect::new(50, 0, 50, 100)),
    ];
    assert!(check(screen, &placements).ok);
}

#[test]
fn overlap_is_caught() {
    let screen = Rect::new(0, 0, 100, 100);
    let placements = vec![
        place(1, Rect::new(0, 0, 60, 100), Rect::new(0, 0, 60, 100)),
        place(2, Rect::new(50, 0, 50, 100), Rect::new(50, 0, 50, 100)),
    ];
    assert!(!check(screen, &placements).ok);
}

#[test]
fn uncovered_gap_is_caught() {
    let screen = Rect::new(0, 0, 100, 100);
    let placements = vec![place(1, Rect::new(0, 0, 50, 100), Rect::new(0, 0, 50, 100))];
    assert!(!check(screen, &placements).ok);
}

#[test]
fn cell_escaping_the_screen_is_caught() {
    let screen = Rect::new(0, 0, 100, 100);
    // A single cell that reaches past the right edge. Its area equals the screen area, so
    // only the containment check can catch it.
    let placements = vec![place(1, Rect::new(10, 0, 100, 100), Rect::new(10, 0, 100, 100))];
    let report = check(screen, &placements);
    assert!(!report.ok);
    assert!(report.errors.iter().any(|e| e.contains("escapes the screen")));
}

#[test]
fn window_escaping_its_cell_is_caught() {
    let screen = Rect::new(0, 0, 100, 100);
    let placements = vec![
        // The visible rect spills outside the cell it was assigned.
        place(1, Rect::new(0, 0, 50, 100), Rect::new(0, 0, 60, 100)),
        place(2, Rect::new(50, 0, 50, 100), Rect::new(50, 0, 50, 100)),
    ];
    let report = check(screen, &placements);
    assert!(!report.ok);
    assert!(report.errors.iter().any(|e| e.contains("escapes its cell")));
}

#[test]
fn overshooting_cell_area_is_caught() {
    let screen = Rect::new(0, 0, 100, 100);
    // Cells cover more than the screen: the area sum exceeds the screen area.
    let placements = vec![
        place(1, Rect::new(0, 0, 60, 100), Rect::new(0, 0, 60, 100)),
        place(2, Rect::new(40, 0, 60, 100), Rect::new(40, 0, 60, 100)),
    ];
    let report = check(screen, &placements);
    assert!(!report.ok);
    // Both the area mismatch and the overlap should be reported.
    assert!(report.errors.iter().any(|e| e.contains("cell areas sum")));
    assert!(report.errors.iter().any(|e| e.contains("overlap")));
}

#[test]
fn single_pixel_screen_holds() {
    let screen = Rect::new(0, 0, 1, 1);
    let placements = vec![place(1, screen, screen)];
    assert!(check(screen, &placements).ok);
}

#[test]
fn zero_area_slivers_are_accepted() {
    // A degenerate split can leave a zero width cell. It contributes no area and cannot
    // overlap anything, so the partition still holds exactly.
    let screen = Rect::new(0, 0, 10, 10);
    let placements = vec![
        place(1, Rect::new(0, 0, 10, 10), Rect::new(0, 0, 10, 10)),
        place(2, Rect::new(10, 0, 0, 10), Rect::new(10, 0, 0, 10)),
    ];
    assert!(check(screen, &placements).ok);
}

#[test]
fn error_lines_are_exact_and_in_order() {
    let screen = Rect::new(0, 0, 100, 100);
    let placements = vec![
        place(1, Rect::new(0, 0, 60, 100), Rect::new(0, 0, 60, 100)),
        place(2, Rect::new(40, 0, 60, 100), Rect::new(40, 0, 70, 100)),
    ];
    let report = check(screen, &placements);
    assert_eq!(
        report.errors,
        vec![
            "window 2 escapes its cell".to_string(),
            "cell areas sum to 12000 but screen area is 10000".to_string(),
            "cells for windows 1 and 2 overlap".to_string(),
            "windows 1 and 2 overlap".to_string(),
            "gap accounting disagrees: screen minus windows is -3000 but cell minus window sum is -1000"
                .to_string(),
        ]
    );
    assert_eq!(report.covered, 13000);
    assert_eq!(report.gap_area, -3000);
}

#[test]
fn gap_accounting_with_insets() {
    let screen = Rect::new(0, 0, 100, 100);
    let left = Rect::new(0, 0, 50, 100);
    let right = Rect::new(50, 0, 50, 100);
    let placements = vec![place(1, left, left.inset(5)), place(2, right, right.inset(5))];
    let report = check(screen, &placements);
    assert!(report.ok);
    assert_eq!(report.covered, 2 * 40 * 90);
    assert_eq!(report.gap_area, 10_000 - 7200);
    assert_eq!(report.covered + report.gap_area, screen.area());
}

#[test]
fn readout_reports_both_outcomes() {
    let screen = Rect::new(0, 0, 100, 100);
    let good = check(screen, &[place(1, screen, screen.inset(10))]);
    assert_eq!(good.readout(), "invariant HOLDS | screen area 10000 = windows 6400 + gaps 3600");
    let bad = check(screen, &[place(1, Rect::new(0, 0, 50, 100), Rect::new(0, 0, 50, 100))]);
    assert_eq!(bad.readout(), "invariant VIOLATED | screen area 10000 = windows 5000 + gaps 5000");
}
