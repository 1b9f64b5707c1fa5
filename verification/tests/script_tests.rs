use pane::manager::Op;
use pane::text::{parse_i64, parse_usize, to_lower};
use pane::{demo, parse_screen, parse_script, Dir, Rect, SplitDir};

#[test]
fn script_splits_on_semicolons_and_newlines() {
    let ops = parse_script("open; open h\nfocus up;; \n  resize right ;float").unwrap();
    assert_eq!(
        ops,
        vec![
            Op::Open(SplitDir::Vertical),
            Op::Open(SplitDir::Horizontal),
            Op::Focus(Dir::Up),
            Op::Resize(Dir::Right),
            Op::Float,
        ]
    );
}

#[test]
fn empty_script_has_no_operations() {
    assert_eq!(parse_script("").unwrap(), vec![]);
    assert_eq!(parse_script(" ;\n; ").unwrap(), vec![]);
}

#[test]
fn script_reports_the_first_bad_command() {
    assert_eq!(parse_script("open; jump; frob").unwrap_err(), "unknown command 'jump'");
    assert_eq!(parse_script("open\nfocus").unwrap_err(), "direction required");
}

#[test]
fn screen_sizes_parse() {
    assert_eq!(parse_screen("1200x800").unwrap(), Rect::new(0, 0, 1200, 800));
    assert_eq!(parse_screen(" 640 X 480 ").unwrap(), Rect::new(0, 0, 640, 480));
    assert_eq!(parse_screen("+3x4").unwrap(), Rect::new(0, 0, 3, 4));
}

#[test]
fn bad_screen_sizes_are_refused() {
    assert_eq!(parse_screen("1200").unwrap_err(), "screen must look like 1200x800");
    assert_eq!(parse_screen("abcx800").unwrap_err(), "bad screen width");
    assert_eq!(parse_screen("1200x").unwrap_err(), "bad screen height");
    assert_eq!(parse_screen("0x800").unwrap_err(), "screen dimensions must be positive");
    assert_eq!(parse_screen("-5x800").unwrap_err(), "screen dimensions must be positive");
    assert_eq!(parse_screen("10x10x10").unwrap_err(), "bad screen height");
}

#[test]
fn demo_walks_through_every_step() {
    let text = demo();
    assert!(text.starts_with("pane demo on a 1200x800 screen with an 8px gap\n\n$ open    # first window fills the screen\n"));
    assert!(text.contains("workspace 0 screen 1200x800 gap 8\n"));
    assert!(text.contains("$ float    # float the focused window over the tiling\n"));
    assert_eq!(text.matches("invariant HOLDS").count(), 7);
    assert!(!text.contains("VIOLATED"));
    assert!(text.contains("  window 1 * rect x=8 y=8 w=1184 h=784\n"));
}

#[test]
fn integers_parse_like_std() {
    assert_eq!(parse_usize("42"), Some(42));
    assert_eq!(parse_usize("+7"), Some(7));
    assert_eq!(parse_usize(""), None);
    assert_eq!(parse_usize("-1"), None);
    assert_eq!(parse_usize("1 2"), None);
    assert_eq!(parse_usize("18446744073709551615"), Some(usize::MAX));
    assert_eq!(parse_usize("18446744073709551616"), None);
    assert_eq!(parse_i64("-9223372036854775808"), Some(i64::MIN));
    assert_eq!(parse_i64("9223372036854775807"), Some(i64::MAX));
    assert_eq!(parse_i64("9223372036854775808"), None);
    assert_eq!(parse_i64("-"), None);
    assert_eq!(parse_i64("+"), None);
    assert_eq!(parse_i64("-12"), Some(-12));
}

#[test]
fn lowercasing_touches_only_ascii_letters() {
    assert_eq!(to_lower("OpEn H"), "open h");
    assert_eq!(to_lower("ÄB1"), "Äb1");
}
