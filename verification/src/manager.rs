//! The window manager: a set of workspaces over one screen, plus the operation interface
//! used by the command line, the tests and any real backend.
use vstd::prelude::*;

use crate::geometry::{lemma_bounded_sane, lemma_common_point_overlaps, lemma_within_bounded};
use crate::geometry::{Dir, Rect, SplitDir, WindowId};
use crate::partition::{all_sized, check, check_fits, is_partition, lemma_rect_sum_le_cell_sum};
use crate::partition::{cell_area_sum, lemma_sums_equal_without_gap, partition_errors};
use crate::partition::{rect_area_sum, PartitionReport};
use crate::render::Frame;
use crate::text::{ascii_lower, decimal, eq_lit, parse_unsigned, parse_usize, push_decimal};
use crate::text::{push_str, string_of, strs_view, to_lower};
use crate::tree::Placement;
use crate::workspace::{float_ids, lemma_closed_wf, lemma_float_toggled_wf, lemma_moves_wf};
use crate::workspace::{lemma_close_after_open, lemma_opened_wf, lemma_resized_wf};
use crate::workspace::{lemma_tiled_bounded, lemma_tiled_covers, lemma_tiled_partition, tree_ids};
use crate::workspace::{Floating, Workspace, WorkspaceView};

verus! {

broadcast use vstd::seq_lib::group_seq_properties;

/// A single operation that can be applied to the manager: the whole verb set of the
/// engine.
#[derive(Debug, Clone, Copy, PartialEq, Eq, Structural)]
pub enum Op {
    /// Open a new window, splitting the focused leaf in the given orientation.
    Open(SplitDir),
    /// Close the focused window.
    Close,
    /// Move focus in a direction.
    Focus(Dir),
    /// Swap the focused window with its neighbour in a direction.
    Move(Dir),
    /// Resize the focused window in a direction by the default step.
    Resize(Dir),
    /// Toggle the focused window between tiled and floating.
    Float,
    /// Toggle monocle (fullscreen zoom) on the active workspace.
    Monocle,
    /// Switch to a workspace, creating it if needed.
    Workspace(usize),
}

/// The fraction, in thousandths, that a single resize step adds to or removes from a
/// split ratio.
pub const RESIZE_STEP: i64 = 50;

/// The window manager. Owns the workspaces, the active index, the screen, the gap and the
/// counter that hands out window ids.
#[derive(Debug, Clone)]
pub struct WindowManager {
    workspaces: Vec<Workspace>,
    active: usize,
    screen: Rect,
    gap: i64,
    next_id: WindowId,
}

/// The mathematical value of a window manager.
pub struct ManagerView {
    pub workspaces: Seq<WorkspaceView>,
    pub active: int,
    pub screen: Rect,
    pub gap: int,
    pub next_id: int,
}

pub open spec fn empty_workspace() -> WorkspaceView {
    WorkspaceView { tree: None, floating: seq![], focus: None, monocle: false }
}

pub open spec fn views_of(ws: Seq<Workspace>) -> Seq<WorkspaceView> {
    ws.map_values(|w: Workspace| w@)
}

impl View for WindowManager {
    type V = ManagerView;

    closed spec fn view(&self) -> ManagerView {
        ManagerView {
            workspaces: views_of(self.workspaces@),
            active: self.active as int,
            screen: self.screen,
            gap: self.gap as int,
            next_id: self.next_id as int,
        }
    }
}

impl ManagerView {
    pub open spec fn current(self) -> WorkspaceView {
        self.workspaces[self.active]
    }

    /// The active index is valid, the screen is bounded, the gap is not negative, every
    /// workspace is well formed and every window id is below the id counter.
    pub open spec fn wf(self) -> bool {
        &&& 0 <= self.active < self.workspaces.len()
        &&& 0 <= self.next_id <= u64::MAX
        &&& self.screen.bounded()
        &&& self.gap >= 0
        &&& forall|i: int| 0 <= i < self.workspaces.len() ==> (#[trigger] self.workspaces[i]).wf()
        &&& forall|i: int, id: WindowId|
            0 <= i < self.workspaces.len() && #[trigger] self.workspaces[i].holds(id) ==> id
                < self.next_id
    }

    pub open spec fn with_current(self, w: WorkspaceView) -> ManagerView {
        ManagerView { workspaces: self.workspaces.update(self.active, w), ..self }
    }

    /// The state after applying `op`.
    pub open spec fn applied(self, op: Op) -> ManagerView {
        let w = self.current();
        match op {
            Op::Open(dir) => ManagerView {
                next_id: self.next_id + 1,
                ..self.with_current(w.opened(self.next_id as WindowId, dir))
            },
            Op::Close => self.with_current(w.closed().0),
            Op::Focus(dir) => self.with_current(w.focus_moved(dir, self.screen, self.gap).0),
            Op::Move(dir) => self.with_current(w.window_moved(dir, self.screen, self.gap).0),
            Op::Resize(dir) => self.with_current(w.resized(dir, RESIZE_STEP as int).0),
            Op::Float => self.with_current(w.float_toggled(self.screen).0),
            Op::Monocle => self.with_current(w.monocle_toggled()),
            Op::Workspace(n) => ManagerView {
                workspaces: if n < self.workspaces.len() {
                    self.workspaces
                } else {
                    self.workspaces + Seq::new(
                        (n + 1 - self.workspaces.len()) as nat,
                        |i: int| empty_workspace(),
                    )
                },
                active: n as int,
                ..self
            },
        }
    }

    /// The active index is valid and the screen is bounded.
    pub open spec fn sound(self) -> bool {
        &&& 0 <= self.active < self.workspaces.len()
        &&& self.screen.bounded()
    }

    /// The tiled placements of the active workspace.
    pub open spec fn tiled(self) -> Seq<Placement> {
        self.current().tiled(self.screen, self.gap)
    }
}

/// `f` is the frame of `m`'s active workspace: its index, screen, gap, monocle flag,
/// tiled placements, floating windows and focus, and the clean report of its tiling.
pub open spec fn frame_matches(m: ManagerView, f: Frame) -> bool {
    &&& f.workspace == m.active
    &&& f.screen == m.screen
    &&& f.gap == m.gap
    &&& f.monocle == m.current().monocle
    &&& f.tiled@ == m.tiled()
    &&& f.floating@ == m.current().floating
    &&& f.focus == m.current().focus
    &&& f.report.screen == m.screen
    &&& f.report.covered == rect_area_sum(m.tiled())
    &&& f.report.gap_area == m.screen.spec_area() - rect_area_sum(m.tiled())
    &&& strs_view(f.report.errors@) == partition_errors(m.screen, m.tiled())
    &&& f.report.ok
}

/// What `apply` asks of an operation: a fresh id must be available for `Open`, and a
/// workspace index must leave room for the count of workspaces.
pub open spec fn op_ok(m: ManagerView, op: Op) -> bool {
    match op {
        Op::Open(_) => m.next_id < u64::MAX,
        Op::Workspace(n) => n < usize::MAX,
        _ => true,
    }
}

impl WindowManager {
    /// Create a manager for `screen` with `gap` (negative gaps count as zero) and a single
    /// empty workspace.
    pub fn new(screen: Rect, gap: i64) -> (m: WindowManager)
        requires
            screen.bounded(),
        ensures
            m@.workspaces == seq![empty_workspace()],
            m@.active == 0,
            m@.screen == screen,
            m@.gap == (if gap < 0 { 0 } else { gap as int }),
            m@.next_id == 1,
            m@.wf(),
    {
        let mut workspaces = Vec::new();
        workspaces.push(Workspace::new());
        let m = WindowManager {
            workspaces,
            active: 0,
            screen,
            gap: if gap < 0 { 0 } else { gap },
            next_id: 1,
        };
        assert(m@.workspaces =~= seq![empty_workspace()]);
        assert(empty_workspace().ids() =~= Seq::<WindowId>::empty());
        m
    }

    /// The active workspace index.
    pub fn active(&self) -> (a: usize)
        ensures
            a == self@.active,
    {
        self.active
    }

    /// The number of workspaces that currently exist.
    pub fn workspace_count(&self) -> (n: usize)
        ensures
            n == self@.workspaces.len(),
    {
        self.workspaces.len()
    }

    /// The screen rectangle.
    pub fn screen(&self) -> (r: Rect)
        ensures
            r == self@.screen,
    {
        self.screen
    }

    /// The configured gap.
    pub fn gap(&self) -> (g: i64)
        ensures
            g == self@.gap,
    {
        self.gap
    }

    /// The id of the focused window in the active workspace.
    pub fn focus(&self) -> (f: Option<WindowId>)
        requires
            self@.sound(),
        ensures
            f == self@.current().focus,
    {
        self.workspaces[self.active].focus
    }

    /// A borrow of the active workspace, for inspection and testing.
    pub fn workspace(&self) -> (w: &Workspace)
        requires
            self@.sound(),
        ensures
            w@ == self@.current(),
    {
        &self.workspaces[self.active]
    }

    /// The number of live windows, tiled and floating, in the active workspace.
    pub fn active_window_count(&self) -> (n: usize)
        requires
            self@.sound(),
        ensures
            n == (if self@.current().ids().len() <= usize::MAX {
                self@.current().ids().len() as int
            } else {
                usize::MAX as int
            }),
    {
        let ws = &self.workspaces[self.active];
        let tiled = match &ws.tree {
            Some(t) => {
                proof {
                    crate::tree::lemma_leaves_nonempty(*t);
                }
                let mut ids = Vec::new();
                t.window_ids(&mut ids);
                assert(ids@ =~= t.leaves());
                ids.len()
            },
            None => 0,
        };
        proof {
            assert(float_ids(ws.floating@).len() == ws.floating@.len());
        }
        if tiled > usize::MAX - ws.floating.len() {
            usize::MAX
        } else {
            tiled + ws.floating.len()
        }
    }

    /// Whether `apply` accepts `op` now: a fresh window id is left for `Open`, and a
    /// workspace index leaves room for the count of workspaces.
    pub fn can_apply(&self, op: Op) -> (b: bool)
        ensures
            b == op_ok(self@, op),
    {
        match op {
            Op::Open(_) => self.next_id < u64::MAX,
            Op::Workspace(n) => n < usize::MAX,
            _ => true,
        }
    }

    /// Apply one operation to the active workspace (or switch workspaces). Every operation
    /// keeps the manager well formed and leaves the other workspaces untouched.
    pub fn apply(&mut self, op: Op)
        requires
            old(self)@.wf(),
            op_ok(old(self)@, op),
        ensures
            final(self)@ == old(self)@.applied(op),
            final(self)@.wf(),
    {
        proof {
            lemma_applied_wf(self@, op);
        }
        match op {
            Op::Workspace(n) => self.switch_to(n),
            _ => self.apply_active(op),
        }
    }

    fn switch_to(&mut self, n: usize)
        requires
            n < usize::MAX,
        ensures
            final(self)@ == old(self)@.applied(Op::Workspace(n)),
    {
        let ghost start = views_of(self.workspaces@);
        while self.workspaces.len() <= n
            invariant
                n < usize::MAX,
                start.len() <= self.workspaces.len(),
                self.workspaces.len() <= start.len() || self.workspaces.len() <= n + 1,
                views_of(self.workspaces@) == start + Seq::new(
                    (self.workspaces.len() - start.len()) as nat,
                    |i: int| empty_workspace(),
                ),
                self.screen == old(self).screen,
                self.gap == old(self).gap,
                self.next_id == old(self).next_id,
            decreases n + 1 - self.workspaces.len(),
        {
            let ghost prev = views_of(self.workspaces@);
            let fresh = Workspace::new();
            assert(fresh@ == empty_workspace());
            self.workspaces.push(fresh);
            assert(views_of(self.workspaces@) =~= prev.push(empty_workspace()));
            assert(views_of(self.workspaces@) =~= start + Seq::new(
                (self.workspaces.len() - start.len()) as nat,
                |i: int| empty_workspace(),
            ));
        }
        self.active = n;
        proof {
            if n < start.len() {
                assert(views_of(self.workspaces@) =~= start);
            }
        }
    }

    fn apply_active(&mut self, op: Op)
        requires
            old(self)@.wf(),
            op_ok(old(self)@, op),
            !(op is Workspace),
        ensures
            final(self)@ == old(self)@.applied(op),
    {
        let screen = self.screen;
        let gap = self.gap;
        let a = self.active;
        let ghost before = self@;
        let ghost w = before.current();
        assert(self.workspaces@[a as int]@ == w);
        let ghost after: WorkspaceView = match op {
            Op::Open(dir) => w.opened(before.next_id as WindowId, dir),
            Op::Close => w.closed().0,
            Op::Focus(dir) => w.focus_moved(dir, screen, gap as int).0,
            Op::Move(dir) => w.window_moved(dir, screen, gap as int).0,
            Op::Resize(dir) => w.resized(dir, RESIZE_STEP as int).0,
            Op::Float => w.float_toggled(screen).0,
            _ => w.monocle_toggled(),
        };
        match op {
            Op::Open(dir) => {
                let id = self.next_id;
                self.next_id = self.next_id + 1;
                self.workspaces[a].open(id, dir);
            },
            Op::Close => {
                self.workspaces[a].close();
            },
            Op::Focus(dir) => {
                self.workspaces[a].focus_dir(dir, screen, gap);
            },
            Op::Move(dir) => {
                self.workspaces[a].move_dir(dir, screen, gap);
            },
            Op::Resize(dir) => {
                self.workspaces[a].resize(dir, RESIZE_STEP);
            },
            Op::Float => {
                self.workspaces[a].toggle_float(screen);
            },
            _ => {
                self.workspaces[a].toggle_monocle();
            },
        }
        assert(self.workspaces@[a as int]@ == after);
        assert(views_of(self.workspaces@) =~= before.workspaces.update(a as int, after));
        assert(self@ == before.applied(op));
    }
}

/// Every operation keeps the manager well formed.
pub proof fn lemma_applied_wf(m: ManagerView, op: Op)
    requires
        m.wf(),
        op_ok(m, op),
    ensures
        m.applied(op).wf(),
{
    let w = m.current();
    let r = m.applied(op);
    assert(w.wf());
    match op {
        Op::Open(dir) => {
            let id = m.next_id as WindowId;
            assert(!w.holds(id));
            lemma_opened_wf(w, id, dir);
            assert forall|i: int, x: WindowId|
                0 <= i < r.workspaces.len() && #[trigger] r.workspaces[i].holds(x) implies x
                < r.next_id by {
                if i == m.active {
                    assert(w.opened(id, dir).holds(x) <==> (w.holds(x) || x == id));
                } else {
                    assert(r.workspaces[i] == m.workspaces[i]);
                }
            }
        },
        Op::Close => {
            lemma_closed_wf(w);
            assert forall|i: int, x: WindowId|
                0 <= i < r.workspaces.len() && #[trigger] r.workspaces[i].holds(x) implies x
                < r.next_id by {
                if i == m.active {
                    if w.closed().0.holds(x) {
                        assert(w.holds(x));
                    }
                } else {
                    assert(r.workspaces[i] == m.workspaces[i]);
                }
            }
        },
        Op::Focus(dir) => {
            lemma_moves_wf(w, dir, m.screen, m.gap);
            assert forall|i: int, x: WindowId|
                0 <= i < r.workspaces.len() && #[trigger] r.workspaces[i].holds(x) implies x
                < r.next_id by {
                if i == m.active {
                    assert(w.focus_moved(dir, m.screen, m.gap).0.holds(x) <==> w.holds(x));
                } else {
                    assert(r.workspaces[i] == m.workspaces[i]);
                }
            }
        },
        Op::Move(dir) => {
            lemma_moves_wf(w, dir, m.screen, m.gap);
            assert forall|i: int, x: WindowId|
                0 <= i < r.workspaces.len() && #[trigger] r.workspaces[i].holds(x) implies x
                < r.next_id by {
                if i == m.active {
                    assert(w.window_moved(dir, m.screen, m.gap).0.holds(x) <==> w.holds(x));
                } else {
                    assert(r.workspaces[i] == m.workspaces[i]);
                }
            }
        },
        Op::Resize(dir) => {
            lemma_resized_wf(w, dir, RESIZE_STEP as int);
            assert forall|i: int, x: WindowId|
                0 <= i < r.workspaces.len() && #[trigger] r.workspaces[i].holds(x) implies x
                < r.next_id by {
                if i == m.active {
                    assert(w.resized(dir, RESIZE_STEP as int).0.ids() == w.ids());
                    assert(w.holds(x));
                } else {
                    assert(r.workspaces[i] == m.workspaces[i]);
                }
            }
        },
        Op::Float => {
            lemma_float_toggled_wf(w, m.screen);
            assert forall|i: int, x: WindowId|
                0 <= i < r.workspaces.len() && #[trigger] r.workspaces[i].holds(x) implies x
                < r.next_id by {
                if i == m.active {
                    assert(w.float_toggled(m.screen).0.holds(x) <==> w.holds(x));
                } else {
                    assert(r.workspaces[i] == m.workspaces[i]);
                }
            }
        },
        Op::Monocle => {
            assert forall|i: int, x: WindowId|
                0 <= i < r.workspaces.len() && #[trigger] r.workspaces[i].holds(x) implies x
                < r.next_id by {
                if i == m.active {
                    assert(w.monocle_toggled().ids() == w.ids());
                    assert(w.holds(x));
                } else {
                    assert(r.workspaces[i] == m.workspaces[i]);
                }
            }
        },
        Op::Workspace(n) => {
            assert(empty_workspace().ids() =~= Seq::<WindowId>::empty());
            assert forall|i: int| 0 <= i < r.workspaces.len() implies (#[trigger] r.workspaces[i]).wf()
                && forall|x: WindowId| r.workspaces[i].holds(x) ==> x < r.next_id by {
                if i < m.workspaces.len() {
                    assert(r.workspaces[i] == m.workspaces[i]);
                } else {
                    assert(r.workspaces[i] == empty_workspace());
                }
            }
        },
    }
}

/// Opening a window and closing it right away restores the active workspace's exact
/// tiling and floating windows.
pub proof fn lemma_manager_close_after_open(m: ManagerView, dir: SplitDir)
    requires
        m.wf(),
        op_ok(m, Op::Open(dir)),
    ensures
        m.applied(Op::Open(dir)).applied(Op::Close).current().tree == m.current().tree,
        m.applied(Op::Open(dir)).applied(Op::Close).current().floating == m.current().floating,
        m.applied(Op::Open(dir)).applied(Op::Close).tiled().len() == m.tiled().len(),
        forall|i: int|
            0 <= i < m.tiled().len() ==> (#[trigger] m.applied(Op::Open(dir)).applied(
                Op::Close,
            ).tiled()[i]).cell == m.tiled()[i].cell && m.applied(Op::Open(dir)).applied(
                Op::Close,
            ).tiled()[i].rect == m.tiled()[i].rect,
{
    let w = m.current();
    assert(w.wf());
    assert(!w.holds(m.next_id as WindowId));
    lemma_close_after_open(w, m.next_id as WindowId, dir);
    let m2 = m.applied(Op::Open(dir)).applied(Op::Close);
    assert(m2.current() == w.opened(m.next_id as WindowId, dir).closed().0);
}

/// An operation only ever changes the active workspace; switching workspaces changes
/// none of them. So a layout built on one workspace is left untouched by work on another,
/// and switching back restores it exactly.
pub proof fn lemma_other_workspaces_untouched(m: ManagerView, op: Op, i: int)
    requires
        m.wf(),
        0 <= i < m.workspaces.len(),
        i != m.active || op is Workspace,
    ensures
        m.applied(op).workspaces[i] == m.workspaces[i],
        m.applied(op).workspaces.len() >= m.workspaces.len(),
{
    match op {
        Op::Workspace(n) => {},
        Op::Open(dir) => {},
        _ => {},
    }
}

/// Switching to any workspace and back to the one that was active (`back`) restores the
/// active workspace, and so its tiling, exactly.
pub proof fn lemma_switch_back_restores(m: ManagerView, n: usize, back: usize)
    requires
        m.wf(),
        n < usize::MAX,
        back == m.active,
    ensures
        m.applied(Op::Workspace(n)).applied(Op::Workspace(back)).active == m.active,
        m.applied(Op::Workspace(n)).applied(Op::Workspace(back)).current() == m.current(),
        m.applied(Op::Workspace(n)).applied(Op::Workspace(back)).tiled() == m.tiled(),
{
    let m1 = m.applied(Op::Workspace(n));
    assert(m1.workspaces[m.active] == m.workspaces[m.active]);
}

pub open spec fn consistency_lines(w: WorkspaceView) -> Seq<Seq<char>> {
    (if w.tree matches Some(t) && !t.ratios_ok() {
        seq!["a split ratio is out of range"@]
    } else {
        seq![]
    }) + (if !w.ids().no_duplicates() {
        seq!["a window id appears more than once"@]
    } else {
        seq![]
    }) + match w.focus {
        None => if w.ids().len() > 0 {
            seq!["focus is None but windows exist"@]
        } else {
            seq![]
        },
        Some(f) => if !w.ids().contains(f) {
            seq!["focus points at missing window "@ + decimal(f as nat)]
        } else {
            seq![]
        },
    }
}

/// The consistency check reports nothing exactly when the workspace is well formed.
pub proof fn lemma_consistency_lines_empty(w: WorkspaceView)
    ensures
        consistency_lines(w).len() == 0 <==> w.wf(),
{
}

/// The check of any manager's tiling holds: the cells exactly partition the screen,
/// windows plus gaps account for the screen area, and with no gap and at least one tiled
/// window the windows fill the screen.
pub proof fn lemma_report_holds(m: ManagerView)
    requires
        m.sound(),
    ensures
        check_fits(m.screen, m.tiled()),
        all_sized(m.tiled()),
        is_partition(m.screen, m.tiled()),
        m.gap == 0 && m.tiled().len() > 0 ==> rect_area_sum(m.tiled()) == m.screen.spec_area(),
{
    let ps = m.tiled();
    let w = m.current();
    lemma_bounded_sane(m.screen);
    lemma_tiled_partition(w, m.screen, m.gap);
    lemma_tiled_bounded(w, m.screen, m.gap);
    assert forall|i: int| 0 <= i < ps.len() implies (#[trigger] ps[i]).cell.sane()
        && ps[i].rect.sane() by {
        lemma_bounded_sane(ps[i].cell);
        lemma_within_bounded(ps[i].rect, ps[i].cell);
        lemma_bounded_sane(ps[i].rect);
    }
    lemma_rect_sum_le_cell_sum(ps);
    if ps.len() == 0 {
        assert(cell_area_sum(ps) == 0);
    }
    if m.gap == 0 {
        assert forall|i: int| 0 <= i < ps.len() implies (#[trigger] ps[i]).rect == ps[i].cell by {
            crate::geometry::lemma_inset_within(ps[i].cell, 0);
        }
        lemma_sums_equal_without_gap(ps);
    }
}

/// No holes and no double cover: while a window is tiled on the active workspace, every
/// integer point of the screen lies in the cell of exactly one tiled window.
pub proof fn lemma_tiling_covers_screen(m: ManagerView, px: int, py: int)
    requires
        m.sound(),
        m.tiled().len() > 0,
        m.screen.spec_contains_point(px, py),
    ensures
        exists|i: int| 0 <= i < m.tiled().len() && (#[trigger] m.tiled()[i]).cell.spec_contains_point(px, py),
        forall|i: int, j: int|
            0 <= i < m.tiled().len() && 0 <= j < m.tiled().len() && (#[trigger] m.tiled()[i]).cell.spec_contains_point(
                px,
                py,
            ) && (#[trigger] m.tiled()[j]).cell.spec_contains_point(px, py) ==> i == j,
{
    let ps = m.tiled();
    let w = m.current();
    lemma_bounded_sane(m.screen);
    lemma_tiled_partition(w, m.screen, m.gap);
    lemma_tiled_covers(w, m.screen, m.gap, px, py);
    assert forall|i: int, j: int|
        0 <= i < ps.len() && 0 <= j < ps.len() && (#[trigger] ps[i]).cell.spec_contains_point(px, py)
            && (#[trigger] ps[j]).cell.spec_contains_point(px, py) implies i == j by {
        if i < j {
            lemma_common_point_overlaps(ps[i].cell, ps[j].cell, px, py);
        } else if j < i {
            lemma_common_point_overlaps(ps[j].cell, ps[i].cell, px, py);
        }
    }
}

fn has_duplicates(v: &Vec<WindowId>) -> (r: bool)
    ensures
        r == !v@.no_duplicates(),
{
    let n = v.len();
    let mut i: usize = 0;
    while i < n
        invariant
            n == v.len(),
            0 <= i <= n,
            forall|a: int, b: int| 0 <= a < i && a < b < n ==> v@[a] != v@[b],
        decreases n - i,
    {
        let mut j: usize = i + 1;
        while j < n
            invariant
                n == v.len(),
                0 <= i < n,
                i + 1 <= j <= n,
                forall|a: int, b: int| 0 <= a < i && a < b < n ==> v@[a] != v@[b],
                forall|b: int| i < b < j ==> v@[i as int] != v@[b],
            decreases n - j,
        {
            if v[i] == v[j] {
                return true;
            }
            j = j + 1;
        }
        i = i + 1;
    }
    false
}

fn contains_id(v: &Vec<WindowId>, x: WindowId) -> (r: bool)
    ensures
        r == v@.contains(x),
{
    let mut i: usize = 0;
    while i < v.len()
        invariant
            0 <= i <= v.len(),
            forall|j: int| 0 <= j < i ==> v@[j] != x,
        decreases v.len() - i,
    {
        if v[i] == x {
            return true;
        }
        i = i + 1;
    }
    false
}

impl WindowManager {
    /// The partition report for the active workspace's tiled windows. It always holds:
    /// the cells partition the screen, windows plus gaps equal the screen area, and with
    /// no gap and at least one tiled window the gap area is zero.
    pub fn report(&self) -> (r: PartitionReport)
        requires
            self@.sound(),
        ensures
            r.screen == self@.screen,
            r.covered == rect_area_sum(self@.tiled()),
            r.gap_area == self@.screen.spec_area() - rect_area_sum(self@.tiled()),
            strs_view(r.errors@) == partition_errors(self@.screen, self@.tiled()),
            r.ok,
            r.errors@.len() == 0,
            r.covered + r.gap_area == self@.screen.spec_area(),
            self@.gap == 0 && self@.tiled().len() > 0 ==> r.gap_area == 0,
    {
        proof {
            lemma_report_holds(self@);
            lemma_bounded_sane(self.screen);
        }
        let tiled = self.workspaces[self.active].tiled(self.screen, self.gap);
        check(self.screen, tiled.as_slice())
    }

    /// Build a render frame for the active workspace.
    pub fn frame(&self) -> (f: Frame)
        requires
            self@.sound(),
        ensures
            frame_matches(self@, f),
    {
        proof {
            lemma_report_holds(self@);
            lemma_bounded_sane(self.screen);
        }
        let ws = &self.workspaces[self.active];
        let tiled = ws.tiled(self.screen, self.gap);
        let report = check(self.screen, tiled.as_slice());
        Frame {
            workspace: self.active,
            screen: self.screen,
            gap: self.gap,
            monocle: ws.monocle,
            tiled,
            floating: ws.floating.clone(),
            focus: ws.focus,
            report,
        }
    }

    /// Check that the active workspace is well formed and return a line per problem:
    /// a split ratio out of range, a window id appearing twice, focus on no window while
    /// windows exist, or focus on a missing window.
    pub fn consistency_errors(&self) -> (errors: Vec<String>)
        requires
            self@.sound(),
        ensures
            strs_view(errors@) == consistency_lines(self@.current()),
            self@.wf() ==> errors@.len() == 0,
    {
        let ws = &self.workspaces[self.active];
        let ghost w = ws@;
        let mut errors: Vec<String> = Vec::new();
        let mut all_ids: Vec<WindowId> = Vec::new();
        match &ws.tree {
            Some(t) => {
                if !t.ratios_in_range() {
                    errors.push(string_of("a split ratio is out of range"));
                }
                t.window_ids(&mut all_ids);
            },
            None => {},
        }
        let mut i: usize = 0;
        while i < ws.floating.len()
            invariant
                0 <= i <= ws.floating@.len(),
                all_ids@ == tree_ids(w.tree) + float_ids(ws.floating@).take(i as int),
            decreases ws.floating@.len() - i,
        {
            all_ids.push(ws.floating[i].id);
            assert(float_ids(ws.floating@).take(i + 1) =~= float_ids(ws.floating@).take(
                i as int,
            ).push(ws.floating@[i as int].id));
            assert(all_ids@ =~= tree_ids(w.tree) + float_ids(ws.floating@).take(i + 1));
            i = i + 1;
        }
        assert(float_ids(ws.floating@).take(ws.floating@.len() as int) =~= float_ids(
            ws.floating@,
        ));
        assert(all_ids@ == w.ids());
        let ghost first = strs_view(errors@);
        if has_duplicates(&all_ids) {
            errors.push(string_of("a window id appears more than once"));
        }
        let ghost second = strs_view(errors@);
        match ws.focus {
            None => {
                if all_ids.len() > 0 {
                    errors.push(string_of("focus is None but windows exist"));
                }
            },
            Some(f) => {
                if !contains_id(&all_ids, f) {
                    let mut line = string_of("focus points at missing window ");
                    push_decimal(&mut line, f);
                    errors.push(line);
                }
            },
        }
        assert(strs_view(errors@) =~= consistency_lines(self@.current()));
        proof {
            lemma_consistency_lines_empty(w);
            if self@.wf() {
                assert(self@.workspaces[self@.active].wf());
            }
        }
        errors
    }
}

/// The direction a token names: `left|l`, `right|r`, `up|u`, `down|d`, in any ASCII case.
pub open spec fn dir_spec(tok: Option<Seq<char>>) -> Result<Dir, Seq<char>> {
    match tok {
        None => Err("direction required"@),
        Some(t) => {
            let s = ascii_lower(t);
            if s == "left"@ || s == "l"@ {
                Ok(Dir::Left)
            } else if s == "right"@ || s == "r"@ {
                Ok(Dir::Right)
            } else if s == "up"@ || s == "u"@ {
                Ok(Dir::Up)
            } else if s == "down"@ || s == "d"@ {
                Ok(Dir::Down)
            } else {
                Err("unknown direction '"@ + s + "'"@)
            }
        },
    }
}

pub open spec fn with_dir(d: Result<Dir, Seq<char>>, make: spec_fn(Dir) -> Op) -> Result<Op, Seq<char>> {
    match d {
        Ok(dir) => Ok(make(dir)),
        Err(e) => Err(e),
    }
}

/// The operation a command token group names, or the error line for it. Grammar: `open
/// [h|v]`, `close`, `focus <dir>`, `move <dir>`, `resize <dir>`, `float`, `monocle`,
/// `workspace <n>`, with the short forms `o`, `c`, `f`, `m`, `r`, `ws`, in any ASCII case.
pub open spec fn op_spec(tokens: Seq<Seq<char>>) -> Result<Op, Seq<char>> {
    if tokens.len() == 0 {
        Err("empty command"@)
    } else {
        let head = ascii_lower(tokens[0]);
        let first = if tokens.len() > 1 {
            Some(tokens[1])
        } else {
            None
        };
        if head == "open"@ || head == "o"@ {
            match first {
                None => Ok(Op::Open(SplitDir::Vertical)),
                Some(t) => {
                    let s = ascii_lower(t);
                    if s == "v"@ || s == "vertical"@ {
                        Ok(Op::Open(SplitDir::Vertical))
                    } else if s == "h"@ || s == "horizontal"@ {
                        Ok(Op::Open(SplitDir::Horizontal))
                    } else {
                        Err("unknown split direction '"@ + s + "'"@)
                    }
                },
            }
        } else if head == "close"@ || head == "c"@ {
            Ok(Op::Close)
        } else if head == "focus"@ || head == "f"@ {
            with_dir(dir_spec(first), |d: Dir| Op::Focus(d))
        } else if head == "move"@ || head == "m"@ {
            with_dir(dir_spec(first), |d: Dir| Op::Move(d))
        } else if head == "resize"@ || head == "r"@ {
            with_dir(dir_spec(first), |d: Dir| Op::Resize(d))
        } else if head == "float"@ {
            Ok(Op::Float)
        } else if head == "monocle"@ {
            Ok(Op::Monocle)
        } else if head == "workspace"@ || head == "ws"@ {
            match first {
                None => Err("workspace needs a number"@),
                Some(t) => match parse_unsigned(t) {
                    Some(n) => Ok(Op::Workspace(n as usize)),
                    None => Err("workspace number must be a non negative integer"@),
                },
            }
        } else {
            Err("unknown command '"@ + head + "'"@)
        }
    }
}

pub open spec fn result_view<T>(r: Result<T, String>) -> Result<T, Seq<char>> {
    match r {
        Ok(v) => Ok(v),
        Err(e) => Err(e@),
    }
}

pub open spec fn tokens_view(tokens: Seq<&str>) -> Seq<Seq<char>> {
    tokens.map_values(|t: &str| t@)
}

fn quoted_error(prefix: &str, s: &String) -> (e: String)
    ensures
        e@ == prefix@ + s@ + "'"@,
{
    let mut e = string_of(prefix);
    push_str(&mut e, s.as_str());
    push_str(&mut e, "'");
    e
}

fn parse_dir(tok: Option<&str>) -> (r: Result<Dir, String>)
    ensures
        result_view(r) == dir_spec(
            match tok {
                Some(t) => Some(t@),
                None => None,
            },
        ),
{
    match tok {
        None => Err(string_of("direction required")),
        Some(t) => {
            let s = to_lower(t);
            if eq_lit(&s, "left") || eq_lit(&s, "l") {
                Ok(Dir::Left)
            } else if eq_lit(&s, "right") || eq_lit(&s, "r") {
                Ok(Dir::Right)
            } else if eq_lit(&s, "up") || eq_lit(&s, "u") {
                Ok(Dir::Up)
            } else if eq_lit(&s, "down") || eq_lit(&s, "d") {
                Ok(Dir::Down)
            } else {
                Err(quoted_error("unknown direction '", &s))
            }
        },
    }
}

impl Op {
    /// Parse one whitespace separated command token group into an operation, or an error
    /// line naming the bad token.
    pub fn parse(tokens: &[&str]) -> (r: Result<Op, String>)
        ensures
            result_view(r) == op_spec(tokens_view(tokens@)),
    {
        let ghost tv = tokens_view(tokens@);
        if tokens.len() == 0 {
            return Err(string_of("empty command"));
        }
        let head = to_lower(tokens[0]);
        let first: Option<&str> = if tokens.len() > 1 {
            Some(tokens[1])
        } else {
            None
        };
        assert(tv[0] == tokens@[0]@);
        assert(tokens.len() > 1 ==> tv[1] == tokens@[1]@);
        if eq_lit(&head, "open") || eq_lit(&head, "o") {
            match first {
                None => Ok(Op::Open(SplitDir::Vertical)),
                Some(t) => {
                    let s = to_lower(t);
                    if eq_lit(&s, "v") || eq_lit(&s, "vertical") {
                        Ok(Op::Open(SplitDir::Vertical))
                    } else if eq_lit(&s, "h") || eq_lit(&s, "horizontal") {
                        Ok(Op::Open(SplitDir::Horizontal))
                    } else {
                        Err(quoted_error("unknown split direction '", &s))
                    }
                },
            }
        } else if eq_lit(&head, "close") || eq_lit(&head, "c") {
            Ok(Op::Close)
        } else if eq_lit(&head, "focus") || eq_lit(&head, "f") {
            match parse_dir(first) {
                Ok(d) => Ok(Op::Focus(d)),
                Err(e) => Err(e),
            }
        } else if eq_lit(&head, "move") || eq_lit(&head, "m") {
            match parse_dir(first) {
                Ok(d) => Ok(Op::Move(d)),
                Err(e) => Err(e),
            }
        } else if eq_lit(&head, "resize") || eq_lit(&head, "r") {
            match parse_dir(first) {
                Ok(d) => Ok(Op::Resize(d)),
                Err(e) => Err(e),
            }
        } else if eq_lit(&head, "float") {
            Ok(Op::Float)
        } else if eq_lit(&head, "monocle") {
            Ok(Op::Monocle)
        } else if eq_lit(&head, "workspace") || eq_lit(&head, "ws") {
            match first {
                None => Err(string_of("workspace needs a number")),
                Some(t) => match parse_usize(t) {
                    Some(n) => Ok(Op::Workspace(n)),
                    None => Err(string_of("workspace number must be a non negative integer")),
                },
            }
        } else {
            Err(quoted_error("unknown command '", &head))
        }
    }
}

} // verus!
