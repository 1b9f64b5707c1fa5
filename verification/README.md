# Pane

A headless tiling window manager engine, verified with Verus. The screen is an abstract
integer rectangle; the engine decides where every window goes. Its central property is
proved, not tested: for any sequence of operations the tiled cells exactly partition the
screen, every point of the screen lies in exactly one cell, and the windows plus the
gaps account for the whole screen area.

## Layout

- `src/geometry.rs`: rectangles, the exact split math, insets.
- `src/tree.rs`: the binary layout tree (open, close, swap, resize) and its partition proof.
- `src/workspace.rs`: one tree plus floating windows, focus and monocle mode.
- `src/manager.rs`: the operation interface over several workspaces, and its laws.
- `src/partition.rs`: the partition checker and its report.
- `src/render.rs`: frames and the text renderer.
- `src/script.rs`: scripts of operations, screen sizes, the guided demo.
- `src/text.rs`: decimal output, parsing, whitespace and case handling.
- `app/main.rs`: the command line driver (arguments, standard input and output).

## Ratios

Split ratios are integers: the first child's share in thousandths of its parent, kept in
`[50, 950]`. A split point is `len * ratio / 1000` rounded half away from zero, then
clamped to `[1, len - 1]` so both children keep a positive extent.

## Checking

`verus` verifies `src/`; the tests under `tests/` run the library on concrete values and
randomised operation sequences.
