//! Pane: a tiling window manager engine.
//!
//! It treats the screen as an abstract rectangle and computes where every window goes,
//! which makes it headless and lets its core property be proven: for any sequence of
//! window operations the tiled windows form an exact partition of the screen.
//!
//! - `geometry`: integer rectangles and the exact split math.
//! - `tree`: the binary space partition layout tree.
//! - `workspace`: one layout tree plus floating windows and focus.
//! - `manager`: the operation interface over multiple workspaces.
//! - `partition`: the partition invariant checker.
//! - `render`: the output abstraction and a text renderer.
//! - `script`: scripts of operations and screen sizes as text, and the demo.
//! - `text`: decimal rendering and parsing, whitespace and case handling.
use vstd::prelude::*;

pub mod geometry;
pub mod manager;
pub mod partition;
pub mod render;
pub mod script;
pub mod text;
pub mod tree;
pub mod workspace;

pub use geometry::{Dir, Rect, SplitDir, WindowId};
pub use manager::{Op, WindowManager, RESIZE_STEP};
pub use partition::{check, PartitionReport};
pub use render::{Frame, Renderer, TextRenderer};
pub use script::{demo, parse_screen, parse_script};
pub use tree::{remove, Node, Placement};
pub use workspace::{Floating, Workspace};

verus! {

} // verus!
