//! Output abstraction. The engine produces a `Frame` and hands it to a `Renderer`; the
//! bundled `TextRenderer` writes a plain text description of it.
use vstd::prelude::*;

use crate::geometry::{Rect, WindowId};
use crate::partition::PartitionReport;
use crate::text::{decimal, signed_decimal};
use crate::text::{push_decimal, push_signed, push_str};
use crate::tree::Placement;
use crate::workspace::Floating;

verus! {

/// A complete snapshot of one workspace ready to be drawn.
#[derive(Debug, Clone)]
pub struct Frame {
    pub workspace: usize,
    pub screen: Rect,
    pub gap: i64,
    pub monocle: bool,
    pub tiled: Vec<Placement>,
    pub floating: Vec<Floating>,
    pub focus: Option<WindowId>,
    pub report: PartitionReport,
}

/// Anything that can turn a frame into output.
pub trait Renderer {
    fn render(&mut self, frame: &Frame);
}

/// A renderer that writes a plain text description of each frame to a string buffer.
#[derive(Debug)]
pub struct TextRenderer {
    pub buffer: String,
}

pub open spec fn mark(focus: Option<WindowId>, id: WindowId) -> Seq<char> {
    if focus == Some(id) {
        " *"@
    } else {
        ""@
    }
}

pub open spec fn rect_text(r: Rect) -> Seq<char> {
    " rect x="@ + signed_decimal(r.x as int) + " y="@ + signed_decimal(r.y as int) + " w="@
        + signed_decimal(r.w as int) + " h="@ + signed_decimal(r.h as int) + "\n"@
}

pub open spec fn header_text(workspace: int, screen: Rect, gap: int, monocle: bool) -> Seq<char> {
    "workspace "@ + decimal(workspace as nat) + " screen "@ + signed_decimal(screen.w as int) + "x"@
        + signed_decimal(screen.h as int) + " gap "@ + signed_decimal(gap) + (if monocle {
        " [monocle]"@
    } else {
        ""@
    }) + "\n"@
}

/// One line per tiled window: its id, a star when focused, and its visible rectangle.
pub open spec fn tiled_text(ps: Seq<Placement>, focus: Option<WindowId>) -> Seq<char>
    decreases ps.len(),
{
    if ps.len() == 0 {
        seq![]
    } else {
        let p = ps.last();
        tiled_text(ps.drop_last(), focus) + "  window "@ + decimal(p.id as nat) + mark(focus, p.id)
            + rect_text(p.rect)
    }
}

/// One line per floating window: its id, a star when focused, and its rectangle.
pub open spec fn floating_text(fs: Seq<Floating>, focus: Option<WindowId>) -> Seq<char>
    decreases fs.len(),
{
    if fs.len() == 0 {
        seq![]
    } else {
        let w = fs.last();
        floating_text(fs.drop_last(), focus) + "  float  "@ + decimal(w.id as nat) + mark(focus, w.id)
            + rect_text(w.rect)
    }
}

/// The text of a frame given by its parts: a header line, the tiled windows, the
/// floating windows and the readout line.
pub open spec fn frame_parts_text(
    workspace: int,
    screen: Rect,
    gap: int,
    monocle: bool,
    tiled: Seq<Placement>,
    floating: Seq<Floating>,
    focus: Option<WindowId>,
    readout: Seq<char>,
) -> Seq<char> {
    header_text(workspace, screen, gap, monocle) + tiled_text(tiled, focus) + floating_text(
        floating,
        focus,
    ) + "  "@ + readout + "\n"@
}

/// The text a frame renders to.
pub open spec fn frame_text(f: Frame) -> Seq<char> {
    frame_parts_text(
        f.workspace as int,
        f.screen,
        f.gap as int,
        f.monocle,
        f.tiled@,
        f.floating@,
        f.focus,
        f.report.readout_text(),
    )
}

fn push_rect(s: &mut String, r: Rect)
    ensures
        final(s)@ == old(s)@ + rect_text(r),
{
    push_str(s, " rect x=");
    push_signed(s, r.x);
    push_str(s, " y=");
    push_signed(s, r.y);
    push_str(s, " w=");
    push_signed(s, r.w);
    push_str(s, " h=");
    push_signed(s, r.h);
    push_str(s, "\n");
    assert(s@ =~= old(s)@ + rect_text(r));
}

fn push_mark(s: &mut String, focus: Option<WindowId>, id: WindowId)
    ensures
        final(s)@ == old(s)@ + mark(focus, id),
{
    let focused = match focus {
        Some(f) => f == id,
        None => false,
    };
    if focused {
        push_str(s, " *");
    } else {
        push_str(s, "");
    }
}

impl TextRenderer {
    /// A renderer with an empty buffer.
    pub fn new() -> (r: TextRenderer)
        ensures
            r.buffer@ == Seq::<char>::empty(),
    {
        TextRenderer { buffer: String::new() }
    }
}

fn push_header(b: &mut String, frame: &Frame)
    ensures
        final(b)@ == old(b)@ + header_text(
            frame.workspace as int,
            frame.screen,
            frame.gap as int,
            frame.monocle,
        ),
{
    push_str(b, "workspace ");
    push_decimal(b, frame.workspace as u64);
    push_str(b, " screen ");
    push_signed(b, frame.screen.w);
    push_str(b, "x");
    push_signed(b, frame.screen.h);
    push_str(b, " gap ");
    push_signed(b, frame.gap);
    if frame.monocle {
        push_str(b, " [monocle]");
    } else {
        push_str(b, "");
    }
    push_str(b, "\n");
    assert(b@ =~= old(b)@ + header_text(
        frame.workspace as int,
        frame.screen,
        frame.gap as int,
        frame.monocle,
    ));
}

fn push_tiled(b: &mut String, tiled: &Vec<Placement>, focus: Option<WindowId>)
    ensures
        final(b)@ == old(b)@ + tiled_text(tiled@, focus),
{
    let mut i: usize = 0;
    while i < tiled.len()
        invariant
            0 <= i <= tiled@.len(),
            b@ == old(b)@ + tiled_text(tiled@.take(i as int), focus),
        decreases tiled@.len() - i,
    {
        let p = tiled[i];
        push_str(b, "  window ");
        push_decimal(b, p.id);
        push_mark(b, focus, p.id);
        push_rect(b, p.rect);
        assert(tiled@.take(i + 1).drop_last() =~= tiled@.take(i as int));
        assert(b@ =~= old(b)@ + tiled_text(tiled@.take(i + 1), focus));
        i = i + 1;
    }
    assert(tiled@.take(tiled@.len() as int) =~= tiled@);
}

fn push_floating(b: &mut String, floating: &Vec<Floating>, focus: Option<WindowId>)
    ensures
        final(b)@ == old(b)@ + floating_text(floating@, focus),
{
    let mut j: usize = 0;
    while j < floating.len()
        invariant
            0 <= j <= floating@.len(),
            b@ == old(b)@ + floating_text(floating@.take(j as int), focus),
        decreases floating@.len() - j,
    {
        let w = floating[j];
        push_str(b, "  float  ");
        push_decimal(b, w.id);
        push_mark(b, focus, w.id);
        push_rect(b, w.rect);
        assert(floating@.take(j + 1).drop_last() =~= floating@.take(j as int));
        assert(b@ =~= old(b)@ + floating_text(floating@.take(j + 1), focus));
        j = j + 1;
    }
    assert(floating@.take(floating@.len() as int) =~= floating@);
}

impl Default for TextRenderer {
    /// A renderer with an empty buffer.
    fn default() -> (r: TextRenderer)
        ensures
            r.buffer@ == Seq::<char>::empty(),
    {
        TextRenderer::new()
    }
}

impl Renderer for TextRenderer {
    /// Append the text of `frame` to the buffer.
    fn render(&mut self, frame: &Frame)
        ensures
            final(self).buffer@ == old(self).buffer@ + frame_text(*frame),
    {
        let b = &mut self.buffer;
        let ghost start = b@;
        push_header(b, frame);
        push_tiled(b, &frame.tiled, frame.focus);
        push_floating(b, &frame.floating, frame.focus);
        push_str(b, "  ");
        let line = frame.report.readout();
        push_str(b, line.as_str());
        push_str(b, "\n");
        assert(b@ =~= start + frame_text(*frame));
    }
}

} // verus!
