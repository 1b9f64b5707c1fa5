//! Scripts of operations and screen sizes as text, and the guided demo.
use vstd::prelude::*;

use crate::geometry::Rect;
use crate::manager::{empty_workspace, frame_matches, op_ok, op_spec, tokens_view};
use crate::manager::{ManagerView, Op, WindowManager};
use crate::partition::{readout_parts, rect_area_sum};
use crate::render::{frame_parts_text, frame_text, Frame, Renderer, TextRenderer};
use crate::text::push_str;
use crate::text::{chars_of, is_whitespace, parse_i64, parse_signed, push_char, split_words};
use crate::text::{string_of, strs_view, trim_end, trim_start, trimmed, words};

verus! {

broadcast use vstd::seq_lib::group_seq_properties;

/// Commands in a script are separated by `;` or a line break.
pub open spec fn is_sep(c: char) -> bool {
    c == ';' || c == '\n'
}

/// The pieces of a script between separators, in order (std `str::split`): one more
/// piece than there are separators, possibly empty.
pub open spec fn pieces(s: Seq<char>) -> Seq<Seq<char>>
    decreases s.len(),
{
    if s.len() == 0 {
        seq![seq![]]
    } else {
        let r = pieces(s.drop_last());
        let c = s.last();
        if is_sep(c) {
            r.push(seq![])
        } else {
            r.update(r.len() - 1, r.last().push(c))
        }
    }
}

/// One piece's contribution: nothing when it has no words, else its parsed operation;
/// the first error stops everything.
pub open spec fn chunk_step(prior: Result<Seq<Op>, Seq<char>>, chunk: Seq<char>) -> Result<
    Seq<Op>,
    Seq<char>,
> {
    match prior {
        Err(e) => Err(e),
        Ok(ops) => {
            let toks = words(chunk);
            if toks.len() == 0 {
                Ok(ops)
            } else {
                match op_spec(toks) {
                    Ok(op) => Ok(ops.push(op)),
                    Err(e) => Err(e),
                }
            }
        },
    }
}

pub open spec fn script_ops(chunks: Seq<Seq<char>>) -> Result<Seq<Op>, Seq<char>>
    decreases chunks.len(),
{
    if chunks.len() == 0 {
        Ok(seq![])
    } else {
        chunk_step(script_ops(chunks.drop_last()), chunks.last())
    }
}

/// The operations a script names, in order, or the error line of its first bad command.
pub open spec fn script_spec(s: Seq<char>) -> Result<Seq<Op>, Seq<char>> {
    script_ops(pieces(s))
}

pub open spec fn is_x(c: char) -> bool {
    c == 'x' || c == 'X'
}

/// The index of the first `x` or `X`, if any.
pub open spec fn first_x(s: Seq<char>) -> Option<int> {
    if exists|i: int| 0 <= i < s.len() && is_x(s[i]) {
        Some(choose|i: int| 0 <= i < s.len() && is_x(s[i]) && forall|j: int| 0 <= j < i ==> !is_x(s[j]))
    } else {
        None
    }
}

/// The screen a `WxH` value names (both parts trimmed, parsed as `i64`, positive), or
/// the error line for it.
pub open spec fn screen_spec(val: Seq<char>) -> Result<Rect, Seq<char>> {
    match first_x(val) {
        None => Err("screen must look like 1200x800"@),
        Some(k) => match parse_signed(trimmed(val.take(k))) {
            None => Err("bad screen width"@),
            Some(w) => match parse_signed(trimmed(val.skip(k + 1))) {
                None => Err("bad screen height"@),
                Some(h) => if w <= 0 || h <= 0 {
                    Err("screen dimensions must be positive"@)
                } else {
                    Ok(Rect::make(0, 0, w, h))
                },
            },
        },
    }
}

proof fn lemma_pieces_nonempty(s: Seq<char>)
    ensures
        pieces(s).len() >= 1,
    decreases s.len(),
{
    if s.len() > 0 {
        lemma_pieces_nonempty(s.drop_last());
    }
}

/// The operation a piece of script names: none when it has no words.
fn chunk_op(chunk: &Vec<char>) -> (r: Result<Option<Op>, String>)
    ensures
        match r {
            Ok(None) => words(chunk@).len() == 0,
            Ok(Some(op)) => words(chunk@).len() > 0 && op_spec(words(chunk@)) == Ok::<Op, Seq<char>>(op),
            Err(e) => words(chunk@).len() > 0 && op_spec(words(chunk@)) == Err::<Op, Seq<char>>(e@),
        },
{
    let ws = split_words(chunk);
    if ws.len() == 0 {
        return Ok(None);
    }
    let mut toks: Vec<&str> = Vec::new();
    let mut i: usize = 0;
    while i < ws.len()
        invariant
            0 <= i <= ws@.len(),
            toks@.len() == i,
            forall|k: int| 0 <= k < i ==> (#[trigger] toks@[k])@ == ws@[k]@,
        decreases ws@.len() - i,
    {
        toks.push(ws[i].as_str());
        i = i + 1;
    }
    assert(tokens_view(toks@) =~= strs_view(ws@));
    match Op::parse(toks.as_slice()) {
        Ok(op) => Ok(Some(op)),
        Err(e) => Err(e),
    }
}

/// Split a script into operations. Commands are separated by `;` or line breaks and each
/// command is a whitespace separated token group; empty commands are skipped. The first
/// bad command's error line is returned.
pub fn parse_script(script: &str) -> (r: Result<Vec<Op>, String>)
    ensures
        match r {
            Ok(ops) => script_spec(script@) == Ok::<Seq<Op>, Seq<char>>(ops@),
            Err(e) => script_spec(script@) == Err::<Seq<Op>, Seq<char>>(e@),
        },
{
    let cs = chars_of(script);
    let mut ops: Vec<Op> = Vec::new();
    let mut failure: Option<String> = None;
    let mut chunk: Vec<char> = Vec::new();
    let mut i: usize = 0;
    proof {
        assert(cs@.take(0) =~= Seq::<char>::empty());
    }
    while i < cs.len()
        invariant
            0 <= i <= cs@.len(),
            pieces(cs@.take(i as int)).len() >= 1,
            chunk@ == pieces(cs@.take(i as int)).last(),
            match failure {
                None => script_ops(pieces(cs@.take(i as int)).drop_last()) == Ok::<
                    Seq<Op>,
                    Seq<char>,
                >(ops@),
                Some(e) => script_ops(pieces(cs@.take(i as int)).drop_last()) == Err::<
                    Seq<Op>,
                    Seq<char>,
                >(e@),
            },
        decreases cs@.len() - i,
    {
        let c = cs[i];
        let ghost prev = pieces(cs@.take(i as int));
        proof {
            assert(cs@.take(i + 1).drop_last() =~= cs@.take(i as int));
            assert(cs@.take(i + 1).last() == c);
            lemma_pieces_nonempty(cs@.take(i + 1));
        }
        if c == ';' || c == '\n' {
            let ghost done = prev.drop_last();
            let ghost next = pieces(cs@.take(i + 1));
            assert(next.drop_last() =~= done.push(chunk@));
            assert(next.drop_last().drop_last() =~= done);
            if failure.is_none() {
                match chunk_op(&chunk) {
                    Ok(Some(op)) => {
                        ops.push(op);
                    },
                    Ok(None) => {},
                    Err(e) => {
                        failure = Some(e);
                    },
                }
            }
            chunk = Vec::new();
            assert(chunk@ =~= next.last());
        } else {
            chunk.push(c);
            let ghost next = pieces(cs@.take(i + 1));
            assert(next.drop_last() =~= prev.drop_last());
        }
        i = i + 1;
    }
    assert(cs@.take(cs@.len() as int) =~= cs@);
    proof {
        lemma_pieces_nonempty(cs@);
        assert(pieces(cs@).drop_last().push(pieces(cs@).last()) =~= pieces(cs@));
    }
    if failure.is_none() {
        match chunk_op(&chunk) {
            Ok(Some(op)) => {
                ops.push(op);
            },
            Ok(None) => {},
            Err(e) => {
                failure = Some(e);
            },
        }
    }
    match failure {
        Some(e) => Err(e),
        None => Ok(ops),
    }
}

/// The characters of `cs` between `lo` and `hi`, without leading and trailing
/// whitespace, as a string.
fn trimmed_string(cs: &Vec<char>, lo: usize, hi: usize) -> (r: String)
    requires
        lo <= hi <= cs@.len(),
    ensures
        r@ == trimmed(cs@.subrange(lo as int, hi as int)),
{
    let mut a = lo;
    while a < hi && is_whitespace(cs[a])
        invariant
            lo <= a <= hi <= cs@.len(),
            trim_start(cs@.subrange(lo as int, hi as int)) == trim_start(
                cs@.subrange(a as int, hi as int),
            ),
        decreases hi - a,
    {
        assert(cs@.subrange(a as int, hi as int).drop_first() =~= cs@.subrange(a + 1, hi as int));
        a = a + 1;
    }
    assert(trim_start(cs@.subrange(a as int, hi as int)) == cs@.subrange(a as int, hi as int));
    let mut b = hi;
    while b > a && is_whitespace(cs[b - 1])
        invariant
            lo <= a <= b <= hi <= cs@.len(),
            trim_end(cs@.subrange(a as int, hi as int)) == trim_end(cs@.subrange(a as int, b as int)),
        decreases b - a,
    {
        assert(cs@.subrange(a as int, b as int).drop_last() =~= cs@.subrange(a as int, b - 1));
        b = b - 1;
    }
    assert(trim_end(cs@.subrange(a as int, b as int)) == cs@.subrange(a as int, b as int));
    let mut r = String::new();
    let mut k = a;
    while k < b
        invariant
            a <= k <= b <= cs@.len(),
            r@ == cs@.subrange(a as int, k as int),
        decreases b - k,
    {
        push_char(&mut r, cs[k]);
        assert(r@ =~= cs@.subrange(a as int, k + 1));
        k = k + 1;
    }
    r
}

/// Parse a screen size like `1200x800` (or `1200X800`, with whitespace around either
/// number) into a rectangle at the origin.
pub fn parse_screen(val: &str) -> (r: Result<Rect, String>)
    ensures
        match r {
            Ok(rect) => screen_spec(val@) == Ok::<Rect, Seq<char>>(rect),
            Err(e) => screen_spec(val@) == Err::<Rect, Seq<char>>(e@),
        },
{
    let cs = chars_of(val);
    let mut k: usize = 0;
    while k < cs.len() && !(cs[k] == 'x' || cs[k] == 'X')
        invariant
            0 <= k <= cs@.len(),
            forall|j: int| 0 <= j < k ==> !is_x(cs@[j]),
        decreases cs@.len() - k,
    {
        k = k + 1;
    }
    if k == cs.len() {
        assert(!exists|i: int| 0 <= i < val@.len() && is_x(val@[i]));
        return Err(string_of("screen must look like 1200x800"));
    }
    proof {
        let c = choose|i: int|
            0 <= i < val@.len() && is_x(val@[i]) && forall|j: int| 0 <= j < i ==> !is_x(val@[j]);
        assert(0 <= k < val@.len() && is_x(val@[k as int]));
        assert(c == k);
        assert(cs@.subrange(0, k as int) =~= val@.take(k as int));
        assert(cs@.subrange(k + 1, cs@.len() as int) =~= val@.skip(k + 1));
    }
    let ws = trimmed_string(&cs, 0, k);
    let hs = trimmed_string(&cs, k + 1, cs.len());
    let w = match parse_i64(ws.as_str()) {
        Some(w) => w,
        None => return Err(string_of("bad screen width")),
    };
    let h = match parse_i64(hs.as_str()) {
        Some(h) => h,
        None => return Err(string_of("bad screen height")),
    };
    if w <= 0 || h <= 0 {
        return Err(string_of("screen dimensions must be positive"));
    }
    Ok(Rect::new(0, 0, w, h))
}

/// The text a manager's frame renders to.
pub open spec fn manager_text(m: ManagerView) -> Seq<char> {
    let ps = m.tiled();
    let covered = rect_area_sum(ps);
    let area = m.screen.spec_area();
    frame_parts_text(
        m.active,
        m.screen,
        m.gap,
        m.current().monocle,
        ps,
        m.current().floating,
        m.current().focus,
        readout_parts(true, area, covered, area - covered),
    )
}

/// The state after applying `ops` in order, skipping any that `apply` does not accept.
pub open spec fn run_ops(m: ManagerView, ops: Seq<Op>) -> ManagerView
    decreases ops.len(),
{
    if ops.len() == 0 {
        m
    } else {
        let m1 = run_ops(m, ops.drop_last());
        if op_ok(m1, ops.last()) {
            m1.applied(ops.last())
        } else {
            m1
        }
    }
}

/// The state after running a script; a script with an error changes nothing.
pub open spec fn script_effect(m: ManagerView, script: Seq<char>) -> ManagerView {
    match script_spec(script) {
        Ok(ops) => run_ops(m, ops),
        Err(_) => m,
    }
}

/// The demo's steps: a script and a note each.
pub open spec fn demo_steps() -> Seq<(Seq<char>, Seq<char>)> {
    seq![
        ("open"@, "first window fills the screen"@),
        ("open h"@, "split horizontally, two stacked windows"@),
        ("open v"@, "split the focused one vertically"@),
        ("focus up"@, "move focus to the top window"@),
        ("open v"@, "split the top window"@),
        ("resize right"@, "grow the focused window to the right"@),
        ("float"@, "float the focused window over the tiling"@),
    ]
}

/// The demo starts on a 1200x800 screen with an 8 pixel gap.
pub open spec fn demo_start() -> ManagerView {
    ManagerView {
        workspaces: seq![empty_workspace()],
        active: 0,
        screen: Rect { x: 0, y: 0, w: 1200, h: 800 },
        gap: 8,
        next_id: 1,
    }
}

pub open spec fn demo_state(k: nat) -> ManagerView
    decreases k,
{
    if k == 0 {
        demo_start()
    } else {
        script_effect(demo_state((k - 1) as nat), demo_steps()[k - 1].0)
    }
}

pub open spec fn demo_body(k: nat) -> Seq<char>
    decreases k,
{
    if k == 0 {
        seq![]
    } else {
        demo_body((k - 1) as nat) + "$ "@ + demo_steps()[k - 1].0 + "    # "@ + demo_steps()[k
            - 1].1 + "\n"@ + manager_text(demo_state(k)) + "\n"@
    }
}

/// The demo's whole output: a title, then for each step its script and note followed by
/// the frame after running it.
pub open spec fn demo_text() -> Seq<char> {
    "pane demo on a 1200x800 screen with an 8px gap\n\n"@ + demo_body(7)
}

fn run_script_ops(wm: &mut WindowManager, ops: &Vec<Op>)
    requires
        old(wm)@.wf(),
    ensures
        final(wm)@ == run_ops(old(wm)@, ops@),
        final(wm)@.wf(),
{
    let mut i: usize = 0;
    while i < ops.len()
        invariant
            0 <= i <= ops@.len(),
            wm@ == run_ops(old(wm)@, ops@.take(i as int)),
            wm@.wf(),
        decreases ops@.len() - i,
    {
        let op = ops[i];
        assert(ops@.take(i + 1).drop_last() =~= ops@.take(i as int));
        assert(ops@.take(i + 1).last() == op);
        if wm.can_apply(op) {
            wm.apply(op);
        }
        i = i + 1;
    }
    assert(ops@.take(ops@.len() as int) =~= ops@);
}

fn run_script(wm: &mut WindowManager, script: &str)
    requires
        old(wm)@.wf(),
    ensures
        final(wm)@ == script_effect(old(wm)@, script@),
        final(wm)@.wf(),
{
    match parse_script(script) {
        Ok(ops) => run_script_ops(wm, &ops),
        Err(_) => {},
    }
}

/// Determinism: the text a manager's frame renders to is a function of the manager's
/// state alone. With `apply` a function of the state and the operation, two managers
/// driven from the same state through the same operations render the same output.
pub proof fn lemma_render_determined(m: ManagerView, f1: Frame, f2: Frame)
    requires
        frame_matches(m, f1),
        frame_matches(m, f2),
    ensures
        frame_text(f1) == manager_text(m),
        frame_text(f1) == frame_text(f2),
{
}

fn render_manager(wm: &WindowManager) -> (s: String)
    requires
        wm@.sound(),
    ensures
        s@ == manager_text(wm@),
{
    let frame = wm.frame();
    let mut r = TextRenderer::new();
    r.render(&frame);
    proof {
        lemma_render_determined(wm@, frame, frame);
    }
    assert(r.buffer@ =~= manager_text(wm@));
    r.buffer
}

fn demo_step(wm: &mut WindowManager, out: &mut String, script: &str, note: &str)
    requires
        old(wm)@.wf(),
    ensures
        final(wm)@ == script_effect(old(wm)@, script@),
        final(wm)@.wf(),
        final(out)@ == old(out)@ + "$ "@ + script@ + "    # "@ + note@ + "\n"@ + manager_text(
            final(wm)@,
        ) + "\n"@,
{
    run_script(wm, script);
    push_str(out, "$ ");
    push_str(out, script);
    push_str(out, "    # ");
    push_str(out, note);
    push_str(out, "\n");
    let text = render_manager(wm);
    push_str(out, text.as_str());
    push_str(out, "\n");
    assert(out@ =~= old(out)@ + "$ "@ + script@ + "    # "@ + note@ + "\n"@ + manager_text(wm@)
        + "\n"@);
}

/// A short guided demo that opens several windows, moves focus, resizes and floats one,
/// returning the tiling and the invariant readout after each step.
pub fn demo() -> (s: String)
    ensures
        s@ == demo_text(),
{
    let steps: Vec<(&str, &str)> = vec![
        ("open", "first window fills the screen"),
        ("open h", "split horizontally, two stacked windows"),
        ("open v", "split the focused one vertically"),
        ("focus up", "move focus to the top window"),
        ("open v", "split the top window"),
        ("resize right", "grow the focused window to the right"),
        ("float", "float the focused window over the tiling"),
    ];
    assert(steps@.len() == 7);
    assert forall|k: int| 0 <= k < 7 implies (#[trigger] steps@[k]).0@ == demo_steps()[k].0
        && steps@[k].1@ == demo_steps()[k].1 by {}
    let mut wm = WindowManager::new(Rect::new(0, 0, 1200, 800), 8);
    assert(wm@ == demo_start());
    let mut out = string_of("pane demo on a 1200x800 screen with an 8px gap\n\n");
    let ghost title = out@;
    let mut k: usize = 0;
    while k < steps.len()
        invariant
            steps@.len() == 7,
            forall|j: int| 0 <= j < 7 ==> (#[trigger] steps@[j]).0@ == demo_steps()[j].0
                && steps@[j].1@ == demo_steps()[j].1,
            0 <= k <= 7,
            wm@ == demo_state(k as nat),
            wm@.wf(),
            out@ == title + demo_body(k as nat),
        decreases 7 - k,
    {
        let (script, note) = steps[k];
        let ghost before = out@;
        demo_step(&mut wm, &mut out, script, note);
        assert(out@ =~= title + demo_body((k + 1) as nat));
        k = k + 1;
    }
    out
}

} // verus!
