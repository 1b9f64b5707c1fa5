use pane::{Rect, SplitDir};

#[test]
fn split_covers_parent_exactly_vertical() {
    let r = Rect::new(0, 0, 100, 50);
    let (a, b) = r.split(SplitDir::Vertical, 500);
    assert_eq!(a.area() + b.area(), r.area());
    assert!(!a.overlaps(b));
    assert_eq!(a.right(), b.x);
}

#[test]
fn split_covers_parent_exactly_horizontal() {
    let r = Rect::new(10, 20, 101, 51);
    let (a, b) = r.split(SplitDir::Horizontal, 370);
    assert_eq!(a.area() + b.area(), r.area());
    assert!(!a.overlaps(b));
    assert_eq!(a.bottom(), b.y);
}

#[test]
fn split_keeps_both_children_positive() {
    let r = Rect::new(0, 0, 100, 100);
    let (a, b) = r.split(SplitDir::Vertical, 1);
    assert!(a.w >= 1 && b.w >= 1);
}

#[test]
fn inset_stays_inside() {
    let r = Rect::new(0, 0, 40, 30);
    let i = r.inset(5);
    assert!(i.within(r));
    assert_eq!(i, Rect::new(5, 5, 30, 20));
}

#[test]
fn inset_clamps_when_too_small() {
    let r = Rect::new(0, 0, 6, 6);
    let i = r.inset(5);
    assert!(i.within(r));
    assert_eq!(i.w, 0);
    assert_eq!(i.h, 0);
}

#[test]
fn overlap_edges_do_not_count() {
    let a = Rect::new(0, 0, 10, 10);
    let b = Rect::new(10, 0, 10, 10);
    assert!(!a.overlaps(b));
}

#[test]
fn new_clamps_negative_extents() {
    let r = Rect::new(3, -4, -7, 9);
    assert_eq!(r, Rect { x: 3, y: -4, w: 0, h: 9 });
}

#[test]
fn edges_area_and_center() {
    let r = Rect::new(10, 20, 101, 51);
    assert_eq!(r.right(), 111);
    assert_eq!(r.bottom(), 71);
    assert_eq!(r.area(), 5151);
    assert_eq!(r.center(), (60, 45));
}

#[test]
fn overlap_needs_area_on_both_sides() {
    let a = Rect::new(0, 0, 10, 10);
    let b = Rect::new(5, 5, 10, 10);
    let sliver = Rect::new(5, 5, 0, 10);
    assert!(a.overlaps(b));
    assert!(!a.overlaps(sliver));
}

#[test]
fn split_rounds_half_away_from_zero() {
    // 5 * 0.5 = 2.5 rounds to 3 for the first child.
    let r = Rect::new(0, 0, 5, 4);
    let (a, b) = r.split(SplitDir::Vertical, 500);
    assert_eq!(a, Rect::new(0, 0, 3, 4));
    assert_eq!(b, Rect::new(3, 0, 2, 4));
    // 101 * 0.37 = 37.37 rounds to 37.
    let (top, bottom) = Rect::new(0, 0, 10, 101).split(SplitDir::Horizontal, 370);
    assert_eq!(top.h, 37);
    assert_eq!(bottom.h, 64);
}

#[test]
fn split_clamps_extreme_ratios() {
    let r = Rect::new(0, 0, 10, 10);
    let (a, b) = r.split(SplitDir::Vertical, 5000);
    assert_eq!((a.w, b.w), (9, 1));
    let (a, b) = r.split(SplitDir::Vertical, -5000);
    assert_eq!((a.w, b.w), (1, 9));
}

#[test]
fn split_of_a_one_pixel_extent_gives_all_to_the_first_child() {
    let r = Rect::new(0, 0, 1, 8);
    let (a, b) = r.split(SplitDir::Vertical, 500);
    assert_eq!(a, Rect::new(0, 0, 1, 8));
    assert_eq!(b, Rect::new(1, 0, 0, 8));
}

#[test]
fn flip_swaps_orientation() {
    assert_eq!(SplitDir::Vertical.flip(), SplitDir::Horizontal);
    assert_eq!(SplitDir::Horizontal.flip(), SplitDir::Vertical);
}

#[test]
fn inset_with_no_gap_is_identity() {
    let r = Rect::new(1, 2, 3, 4);
    assert_eq!(r.inset(0), r);
    assert_eq!(r.inset(-3), r);
}
