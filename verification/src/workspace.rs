//! A workspace: one independent layout tree plus its floating windows and focus.
use vstd::prelude::*;

use crate::geometry::{lemma_bounded_sane, lemma_mul_bound, lemma_within_bounded};
use crate::geometry::{clamp_int, Dir, Rect, SplitDir, WindowId, MAX_RATIO, MIN_RATIO};
use crate::geometry::{lemma_inset_within, lemma_within_area};
use crate::partition::{all_sized, cell_area_sum, is_partition, rects_inside_cells};
use crate::tree::{lemma_inserted_found, lemma_inserted_holds, lemma_inserted_wf};
use crate::tree::{lemma_layout_ids, lemma_layout_partition, lemma_leaves_nonempty};
use crate::tree::{lemma_leaf_holds, lemma_no_dup_concat, lemma_remove_after_insert};
use crate::tree::{lemma_removed_found, lemma_removed_holds, lemma_removed_ratios};
use crate::tree::{lemma_resized_shape, lemma_swapped_leaves, swap_id};
use crate::tree::{lemma_inserted_layout, lemma_resize_grows, lemma_swapped_layout, split_pair};
use crate::tree::{remove, spec_remove, Node, Placement, ResizeState};

verus! {

broadcast use vstd::seq_lib::group_seq_properties;

/// A window that has been pulled out of the tiling and overlays it at an explicit
/// rectangle. Floating windows take no tiled space and are not part of the partition.
#[derive(Debug, Clone, Copy, PartialEq, Eq, Structural)]
pub struct Floating {
    pub id: WindowId,
    pub rect: Rect,
}

/// One workspace: an optional tiled tree, a list of floating windows, the focused window
/// (tiled or floating) and the monocle flag. In monocle mode only one tiled window is
/// shown, filling the whole tiling region; the tree is left untouched.
#[derive(Debug, Clone, PartialEq)]
pub struct Workspace {
    pub tree: Option<Node>,
    pub floating: Vec<Floating>,
    pub focus: Option<WindowId>,
    pub monocle: bool,
}

/// The mathematical value of a workspace.
pub struct WorkspaceView {
    pub tree: Option<Node>,
    pub floating: Seq<Floating>,
    pub focus: Option<WindowId>,
    pub monocle: bool,
}

impl View for Workspace {
    type V = WorkspaceView;

    open spec fn view(&self) -> WorkspaceView {
        WorkspaceView {
            tree: self.tree,
            floating: self.floating@,
            focus: self.focus,
            monocle: self.monocle,
        }
    }
}

pub open spec fn float_ids(s: Seq<Floating>) -> Seq<WindowId> {
    s.map_values(|f: Floating| f.id)
}

/// The floating windows other than `id`, in order.
pub open spec fn without_float(s: Seq<Floating>, id: WindowId) -> Seq<Floating>
    decreases s.len(),
{
    if s.len() == 0 {
        s
    } else {
        let r = without_float(s.drop_last(), id);
        if s.last().id == id {
            r
        } else {
            r.push(s.last())
        }
    }
}

pub open spec fn tree_ids(t: Option<Node>) -> Seq<WindowId> {
    match t {
        Some(n) => n.leaves(),
        None => seq![],
    }
}

/// The index of the first occurrence of `x` in `s`, if any.
pub open spec fn first_index(s: Seq<WindowId>, x: WindowId) -> Option<int> {
    if s.contains(x) {
        Some(choose|i: int| 0 <= i < s.len() && s[i] == x && forall|j: int| 0 <= j < i ==> s[j] != x)
    } else {
        None
    }
}

pub open spec fn placement_ids(ps: Seq<Placement>) -> Seq<WindowId> {
    ps.map_values(|p: Placement| p.id)
}

impl WorkspaceView {
    /// Every window of the workspace: tiled ones in tree order, then floating ones.
    pub open spec fn ids(self) -> Seq<WindowId> {
        tree_ids(self.tree) + float_ids(self.floating)
    }

    pub open spec fn holds(self, id: WindowId) -> bool {
        self.ids().contains(id)
    }

    /// Ratios in range, no window twice, and focus on a real window (no focus only when
    /// the workspace is empty).
    pub open spec fn wf(self) -> bool {
        &&& (self.tree matches Some(t) ==> t.ratios_ok())
        &&& self.ids().no_duplicates()
        &&& match self.focus {
            None => self.ids().len() == 0,
            Some(f) => self.ids().contains(f),
        }
    }

    pub open spec fn is_floating(self, id: WindowId) -> bool {
        float_ids(self.floating).contains(id)
    }

    pub open spec fn focus_floating(self) -> bool {
        match self.focus {
            Some(f) => self.is_floating(f),
            None => false,
        }
    }

    pub open spec fn with_focus(self, focus: Option<WindowId>) -> WorkspaceView {
        WorkspaceView { focus, ..self }
    }

    pub open spec fn with_tree(self, tree: Option<Node>) -> WorkspaceView {
        WorkspaceView { tree, ..self }
    }

    /// The window monocle mode shows: the focused window when it is tiled, otherwise the
    /// first tiled window.
    pub open spec fn monocle_target(self, t: Node) -> WindowId {
        match self.focus {
            Some(f) => if t.holds(f) {
                f
            } else {
                t.leaves()[0]
            },
            None => t.leaves()[0],
        }
    }

    /// The tiled placements over `screen` with `gap`.
    pub open spec fn tiled(self, screen: Rect, gap: int) -> Seq<Placement> {
        match self.tree {
            None => seq![],
            Some(t) => if self.monocle {
                seq![
                    Placement {
                        id: self.monocle_target(t),
                        cell: screen,
                        rect: screen.spec_inset(gap),
                    },
                ]
            } else {
                t.layout(screen, gap)
            },
        }
    }

    /// The focus after a close: the first tiled window, else the first floating one.
    pub open spec fn default_focus(self) -> Option<WindowId> {
        match self.tree {
            Some(t) => Some(t.leaves()[0]),
            None => if self.floating.len() > 0 {
                Some(self.floating[0].id)
            } else {
                None
            },
        }
    }

    pub open spec fn opened(self, new_id: WindowId, dir: SplitDir) -> WorkspaceView {
        let tree = match self.tree {
            None => Node::Leaf(new_id),
            Some(t) => {
                let anchor = match self.focus {
                    Some(f) => if t.holds(f) {
                        f
                    } else {
                        t.leaves()[0]
                    },
                    None => t.leaves()[0],
                };
                t.inserted(anchor, new_id, dir, false).0
            },
        };
        WorkspaceView { tree: Some(tree), focus: Some(new_id), ..self }
    }

    pub open spec fn closed(self) -> (WorkspaceView, Option<WindowId>) {
        match self.focus {
            None => (self, None),
            Some(target) => {
                let removed = if self.is_floating(target) {
                    WorkspaceView { floating: without_float(self.floating, target), ..self }
                } else {
                    WorkspaceView { tree: spec_remove(self.tree, target).0, ..self }
                };
                (removed.with_focus(removed.default_focus()), Some(target))
            },
        }
    }

    pub open spec fn monocle_toggled(self) -> WorkspaceView {
        WorkspaceView { monocle: !self.monocle, ..self }
    }

    pub open spec fn resized(self, dir: Dir, delta: int) -> (WorkspaceView, bool) {
        match (self.focus, self.tree) {
            (Some(current), Some(t)) => {
                let (want, signed) = match dir {
                    Dir::Right => (SplitDir::Vertical, delta),
                    Dir::Left => (SplitDir::Vertical, -delta),
                    Dir::Down => (SplitDir::Horizontal, delta),
                    Dir::Up => (SplitDir::Horizontal, -delta),
                };
                let (nt, st) = t.resized(current, want, signed);
                (self.with_tree(Some(nt)), st == ResizeState::Applied)
            },
            _ => (self, false),
        }
    }
}

impl Workspace {
    /// An empty workspace.
    pub fn new() -> (ws: Workspace)
        ensures
            ws@.tree is None,
            ws@.floating == Seq::<Floating>::empty(),
            ws@.focus is None,
            !ws@.monocle,
            ws@.wf(),
    {
        let ws = Workspace { tree: None, floating: Vec::new(), focus: None, monocle: false };
        assert(ws@.floating =~= Seq::<Floating>::empty());
        assert(ws@.ids() =~= Seq::<WindowId>::empty());
        ws
    }

    /// True when the focused window is currently floating.
    pub fn focus_is_floating(&self) -> (r: bool)
        ensures
            r == self@.focus_floating(),
    {
        match self.focus {
            Some(f) => has_floating(&self.floating, f),
            None => false,
        }
    }

    /// The tiled placements for this workspace over `screen` with `gap`. Normally the
    /// tree is walked so the cells tile the screen exactly; in monocle mode a single
    /// placement takes the whole screen as its cell.
    pub fn tiled(&self, screen: Rect, gap: i64) -> (out: Vec<Placement>)
        requires
            screen.sized(),
            screen.edges_fit(),
        ensures
            out@ == self@.tiled(screen, gap as int),
    {
        let mut out = Vec::new();
        match &self.tree {
            Some(t) => {
                if self.monocle {
                    let id = self.monocle_target(t);
                    out.push(Placement { id, cell: screen, rect: screen.inset(gap) });
                    assert(out@ =~= self@.tiled(screen, gap as int));
                } else {
                    t.collect(screen, gap, &mut out);
                    assert(out@ =~= self@.tiled(screen, gap as int));
                }
            },
            None => {
                assert(out@ =~= self@.tiled(screen, gap as int));
            },
        }
        out
    }

    fn monocle_target(&self, tree: &Node) -> (id: WindowId)
        ensures
            id == self@.monocle_target(*tree),
    {
        match self.focus {
            Some(f) => {
                if tree.contains(f) {
                    f
                } else {
                    tree.first_leaf()
                }
            },
            None => tree.first_leaf(),
        }
    }

    /// Toggle monocle (fullscreen zoom) mode. The tree is left intact.
    pub fn toggle_monocle(&mut self) -> (r: bool)
        ensures
            final(self)@ == old(self)@.monocle_toggled(),
            r,
    {
        self.monocle = !self.monocle;
        true
    }

    /// The tiled window ids in left to right tree order.
    pub fn tree_order(&self) -> (ids: Vec<WindowId>)
        ensures
            ids@ == tree_ids(self@.tree),
    {
        let mut ids = Vec::new();
        match &self.tree {
            Some(t) => {
                t.window_ids(&mut ids);
                assert(ids@ =~= tree_ids(self@.tree));
            },
            None => {
                assert(ids@ =~= tree_ids(self@.tree));
            },
        }
        ids
    }

    /// Open a new window, splitting the focused tiled leaf in `dir`. When the tree is
    /// empty the new window becomes the whole tiling; when focus is not on a tiled window
    /// the split is applied at the first tiled leaf. The new window takes focus.
    pub fn open(&mut self, new_id: WindowId, dir: SplitDir)
        ensures
            final(self)@ == old(self)@.opened(new_id, dir),
    {
        if self.tree.is_none() {
            self.tree = Some(Node::Leaf(new_id));
        } else {
            let mut t = self.tree.take().unwrap();
            let anchor = match self.focus {
                Some(f) => {
                    if t.contains(f) {
                        f
                    } else {
                        t.first_leaf()
                    }
                },
                None => t.first_leaf(),
            };
            t.insert(anchor, new_id, dir, false);
            self.tree = Some(t);
        }
        self.focus = Some(new_id);
    }

    /// Close the focused window. Returns the closed id if there was one. Focus falls back
    /// to the first tiled window, then to the first floating one, then to nothing.
    pub fn close(&mut self) -> (r: Option<WindowId>)
        ensures
            (final(self)@, r) == old(self)@.closed(),
    {
        let target = match self.focus {
            Some(t) => t,
            None => return None,
        };
        if has_floating(&self.floating, target) {
            self.floating = without_floating(&self.floating, target);
        } else {
            let (new_tree, _) = remove(self.tree.take(), target);
            self.tree = new_tree;
        }
        self.focus = self.default_focus();
        Some(target)
    }

    /// Resize the focused window along `dir` by `delta` thousandths: `Right` and `Down`
    /// grow it toward that side, `Left` and `Up` toward the other.
    pub fn resize(&mut self, dir: Dir, delta: i64) -> (r: bool)
        ensures
            (final(self)@, r) == old(self)@.resized(dir, delta as int),
    {
        let current = match self.focus {
            Some(c) => c,
            None => return false,
        };
        if self.tree.is_none() {
            return false;
        }
        let (want, signed): (SplitDir, i128) = match dir {
            Dir::Right => (SplitDir::Vertical, delta as i128),
            Dir::Left => (SplitDir::Vertical, -(delta as i128)),
            Dir::Down => (SplitDir::Horizontal, delta as i128),
            Dir::Up => (SplitDir::Horizontal, -(delta as i128)),
        };
        let mut t = self.tree.take().unwrap();
        let st = t.resize_inner(current, want, signed);
        self.tree = Some(t);
        match st {
            ResizeState::Applied => true,
            _ => false,
        }
    }

    fn default_focus(&self) -> (f: Option<WindowId>)
        ensures
            f == self@.default_focus(),
    {
        match &self.tree {
            Some(t) => Some(t.first_leaf()),
            None => {
                if self.floating.len() > 0 {
                    Some(self.floating[0].id)
                } else {
                    None
                }
            },
        }
    }
}

impl Default for Workspace {
    /// An empty workspace.
    fn default() -> (ws: Workspace)
        ensures
            ws@.tree is None,
            ws@.floating == Seq::<Floating>::empty(),
            ws@.focus is None,
            !ws@.monocle,
    {
        Workspace::new()
    }
}

fn has_floating(v: &Vec<Floating>, id: WindowId) -> (r: bool)
    ensures
        r == float_ids(v@).contains(id),
{
    let mut i: usize = 0;
    while i < v.len()
        invariant
            0 <= i <= v.len(),
            forall|j: int| 0 <= j < i ==> v@[j].id != id,
        decreases v.len() - i,
    {
        if v[i].id == id {
            assert(float_ids(v@)[i as int] == id);
            return true;
        }
        i = i + 1;
    }
    assert forall|j: int| 0 <= j < float_ids(v@).len() implies float_ids(v@)[j] != id by {
        assert(float_ids(v@)[j] == v@[j].id);
    }
    false
}

fn without_floating(v: &Vec<Floating>, id: WindowId) -> (r: Vec<Floating>)
    ensures
        r@ == without_float(v@, id),
{
    let mut r: Vec<Floating> = Vec::new();
    let mut i: usize = 0;
    while i < v.len()
        invariant
            0 <= i <= v.len(),
            r@ == without_float(v@.take(i as int), id),
        decreases v.len() - i,
    {
        assert(v@.take(i + 1).drop_last() =~= v@.take(i as int));
        assert(v@.take(i + 1).last() == v@[i as int]);
        if v[i].id != id {
            r.push(v[i]);
        }
        i = i + 1;
    }
    assert(v@.take(v.len() as int) =~= v@);
    r
}

/// The candidate's center lies on the `dir` side of `from`'s center.
pub open spec fn qualifies(from: Rect, dir: Dir, c: Rect) -> bool {
    let f = from.spec_center();
    let p = c.spec_center();
    match dir {
        Dir::Left => p.0 < f.0,
        Dir::Right => p.0 > f.0,
        Dir::Up => p.1 < f.1,
        Dir::Down => p.1 > f.1,
    }
}

/// Squared distance between the centers.
pub open spec fn sq_dist(from: Rect, c: Rect) -> int {
    let f = from.spec_center();
    let p = c.spec_center();
    (p.0 - f.0) * (p.0 - f.0) + (p.1 - f.1) * (p.1 - f.1)
}

pub open spec fn is_candidate(from: Rect, dir: Dir, p: Placement, current: WindowId) -> bool {
    p.id != current && qualifies(from, dir, p.cell)
}

/// Lexicographic order on (distance, id).
pub open spec fn key_le(d1: int, id1: WindowId, d2: int, id2: WindowId) -> bool {
    d1 < d2 || (d1 == d2 && id1 <= id2)
}

/// Placement `i` is a candidate with the smallest (distance, id) among all candidates.
pub open spec fn nearest_at(
    from: Rect,
    dir: Dir,
    ps: Seq<Placement>,
    current: WindowId,
    i: int,
) -> bool {
    &&& 0 <= i < ps.len()
    &&& is_candidate(from, dir, ps[i], current)
    &&& forall|j: int|
        0 <= j < ps.len() && is_candidate(from, dir, #[trigger] ps[j], current) ==> key_le(
            sq_dist(from, ps[i].cell),
            ps[i].id,
            sq_dist(from, ps[j].cell),
            ps[j].id,
        )
}

/// The window nearest to `from` in direction `dir`, other than `current`: among the
/// placements whose cell center lies on the correct side, the smallest squared distance,
/// the smaller id breaking ties.
pub open spec fn nearest_spec(from: Rect, dir: Dir, ps: Seq<Placement>, current: WindowId) -> Option<
    WindowId,
> {
    if exists|i: int| nearest_at(from, dir, ps, current, i) {
        Some(ps[choose|i: int| nearest_at(from, dir, ps, current, i)].id)
    } else {
        None
    }
}

/// The index one step forward (`Right`, `Down`) or backward (`Left`, `Up`) in a cyclic
/// order of length `n`.
pub open spec fn step_index(idx: int, n: int, dir: Dir) -> int {
    match dir {
        Dir::Right | Dir::Down => (idx + 1) % n,
        Dir::Left | Dir::Up => (idx + n - 1) % n,
    }
}

/// A successful swap of `x` and `y` in the tree of `ws`, if the tree holds both.
pub open spec fn swap_in(ws: WorkspaceView, x: WindowId, y: WindowId) -> (WorkspaceView, bool) {
    match ws.tree {
        Some(t) => if x != y && t.holds(x) && t.holds(y) {
            (ws.with_tree(Some(t.swapped(x, y))), true)
        } else {
            (ws, false)
        },
        None => (ws, false),
    }
}

/// The rectangle a newly floated window gets: centered, half the screen in each extent.
pub open spec fn float_rect(screen: Rect) -> Rect {
    Rect::make(screen.x + screen.w / 4, screen.y + screen.h / 4, screen.w / 2, screen.h / 2)
}

impl WorkspaceView {
    pub open spec fn focus_cycled(self, dir: Dir) -> (WorkspaceView, bool) {
        let order = tree_ids(self.tree);
        if order.len() < 2 {
            (self, false)
        } else {
            match self.focus {
                None => (self, false),
                Some(cur) => match first_index(order, cur) {
                    None => (self, false),
                    Some(idx) => (
                        self.with_focus(Some(order[step_index(idx, order.len() as int, dir)])),
                        true,
                    ),
                },
            }
        }
    }

    pub open spec fn move_cycled(self, dir: Dir) -> (WorkspaceView, bool) {
        let order = tree_ids(self.tree);
        if order.len() < 2 {
            (self, false)
        } else {
            match self.focus {
                None => (self, false),
                Some(cur) => match first_index(order, cur) {
                    None => (self, false),
                    Some(idx) => swap_in(self, cur, order[step_index(idx, order.len() as int, dir)]),
                },
            }
        }
    }

    /// The window reached from the focused one by geometry, if any.
    pub open spec fn neighbour(self, dir: Dir, screen: Rect, gap: int) -> Option<WindowId> {
        match self.focus {
            None => None,
            Some(cur) => {
                let ps = self.tiled(screen, gap);
                match first_index(placement_ids(ps), cur) {
                    None => None,
                    Some(k) => nearest_spec(ps[k].cell, dir, ps, cur),
                }
            },
        }
    }

    pub open spec fn focus_moved(self, dir: Dir, screen: Rect, gap: int) -> (WorkspaceView, bool) {
        if self.monocle {
            self.focus_cycled(dir)
        } else {
            match self.neighbour(dir, screen, gap) {
                Some(t) => (self.with_focus(Some(t)), true),
                None => (self, false),
            }
        }
    }

    pub open spec fn window_moved(self, dir: Dir, screen: Rect, gap: int) -> (WorkspaceView, bool) {
        if self.monocle {
            self.move_cycled(dir)
        } else {
            match (self.focus, self.neighbour(dir, screen, gap)) {
                (Some(cur), Some(t)) => swap_in(self, cur, t),
                _ => (self, false),
            }
        }
    }

    pub open spec fn float_toggled(self, screen: Rect) -> (WorkspaceView, bool) {
        match self.focus {
            None => (self, false),
            Some(cur) => if self.is_floating(cur) {
                let tree = match self.tree {
                    None => Node::Leaf(cur),
                    Some(t) => t.inserted(t.leaves()[0], cur, SplitDir::Vertical, false).0,
                };
                (
                    WorkspaceView {
                        tree: Some(tree),
                        floating: without_float(self.floating, cur),
                        ..self
                    },
                    true,
                )
            } else if self.tree matches Some(t) && t.holds(cur) {
                (
                    WorkspaceView {
                        tree: spec_remove(self.tree, cur).0,
                        floating: self.floating.push(Floating { id: cur, rect: float_rect(screen) }),
                        ..self
                    },
                    true,
                )
            } else {
                (self, false)
            },
        }
    }
}

fn position(v: &Vec<WindowId>, x: WindowId) -> (r: Option<usize>)
    ensures
        match r {
            None => first_index(v@, x) is None,
            Some(k) => first_index(v@, x) == Some(k as int) && k < v.len(),
        },
{
    let mut i: usize = 0;
    while i < v.len()
        invariant
            0 <= i <= v.len(),
            forall|j: int| 0 <= j < i ==> v@[j] != x,
        decreases v.len() - i,
    {
        if v[i] == x {
            proof {
                let k = i as int;
                assert(v@.contains(x));
                let c = choose|c: int|
                    0 <= c < v@.len() && v@[c] == x && forall|j: int| 0 <= j < c ==> v@[j] != x;
                assert(0 <= k < v@.len() && v@[k] == x && forall|j: int| 0 <= j < k ==> v@[j] != x);
                assert(c == k);
            }
            return Some(i);
        }
        i = i + 1;
    }
    proof {
        false_contains(v@, x);
    }
    None
}

proof fn false_contains(s: Seq<WindowId>, x: WindowId)
    requires
        forall|j: int| 0 <= j < s.len() ==> s[j] != x,
    ensures
        !s.contains(x),
{
}

fn find_placement(ps: &Vec<Placement>, id: WindowId) -> (r: Option<usize>)
    ensures
        match r {
            None => first_index(placement_ids(ps@), id) is None,
            Some(k) => first_index(placement_ids(ps@), id) == Some(k as int) && k < ps.len(),
        },
{
    let ghost ids = placement_ids(ps@);
    let mut i: usize = 0;
    while i < ps.len()
        invariant
            0 <= i <= ps.len(),
            ids == placement_ids(ps@),
            forall|j: int| 0 <= j < i ==> ids[j] != id,
        decreases ps.len() - i,
    {
        if ps[i].id == id {
            proof {
                let k = i as int;
                assert(ids[k] == id);
                assert(ids.contains(id));
                let c = choose|c: int|
                    0 <= c < ids.len() && ids[c] == id && forall|j: int| 0 <= j < c ==> ids[j] != id;
                assert(c == k);
            }
            return Some(i);
        }
        i = i + 1;
    }
    proof {
        false_contains(ids, id);
    }
    None
}

proof fn lemma_nearest_unique(from: Rect, dir: Dir, ps: Seq<Placement>, current: WindowId, i: int)
    requires
        nearest_at(from, dir, ps, current, i),
    ensures
        nearest_spec(from, dir, ps, current) == Some(ps[i].id),
{
    let c = choose|c: int| nearest_at(from, dir, ps, current, c);
    assert(nearest_at(from, dir, ps, current, c));
    assert(is_candidate(from, dir, ps[i], current));
    assert(is_candidate(from, dir, ps[c], current));
}

/// Find the nearest window to `from` in direction `dir`, excluding `current`. All cells
/// lie inside `outer`, whose size keeps every squared distance representable.
fn nearest(
    from: Rect,
    dir: Dir,
    placements: &Vec<Placement>,
    current: WindowId,
    Ghost(outer): Ghost<Rect>,
) -> (r: Option<WindowId>)
    requires
        outer.bounded(),
        from.sized(),
        from.spec_within(outer),
        forall|i: int|
            0 <= i < placements@.len() ==> (#[trigger] placements@[i]).cell.sized()
                && placements@[i].cell.spec_within(outer),
    ensures
        r == nearest_spec(from, dir, placements@, current),
{
    let ghost ps = placements@;
    proof {
        lemma_within_bounded(from, outer);
        lemma_bounded_sane(from);
    }
    let (fx, fy) = from.center();
    let mut best: Option<(i64, WindowId)> = None;
    let ghost mut best_i: int = 0;
    let mut i: usize = 0;
    while i < placements.len()
        invariant
            0 <= i <= ps.len(),
            ps == placements@,
            outer.bounded(),
            from.sized(),
            from.spec_within(outer),
            forall|k: int|
                0 <= k < ps.len() ==> (#[trigger] ps[k]).cell.sized() && ps[k].cell.spec_within(
                    outer,
                ),
            fx == from.spec_center().0,
            fy == from.spec_center().1,
            best is None ==> forall|j: int| 0 <= j < i ==> !is_candidate(from, dir, #[trigger] ps[j], current),
            best matches Some(b) ==> {
                &&& 0 <= best_i < i
                &&& is_candidate(from, dir, ps[best_i], current)
                &&& b.1 == ps[best_i].id
                &&& b.0 == sq_dist(from, ps[best_i].cell)
                &&& forall|j: int|
                    0 <= j < i && is_candidate(from, dir, #[trigger] ps[j], current) ==> key_le(
                        b.0 as int,
                        b.1,
                        sq_dist(from, ps[j].cell),
                        ps[j].id,
                    )
            },
        decreases ps.len() - i,
    {
        let p = placements[i];
        if p.id == current {
            i = i + 1;
            continue;
        }
        proof {
            assert(ps[i as int] == p);
            lemma_within_bounded(p.cell, outer);
            lemma_bounded_sane(p.cell);
        }
        let (cx, cy) = p.cell.center();
        let qualifies = match dir {
            Dir::Left => cx < fx,
            Dir::Right => cx > fx,
            Dir::Up => cy < fy,
            Dir::Down => cy > fy,
        };
        if !qualifies {
            i = i + 1;
            continue;
        }
        let dx = cx - fx;
        let dy = cy - fy;
        proof {
            lemma_mul_bound(dx as int, dx as int, outer.w as int, outer.w as int);
            lemma_mul_bound(dy as int, dy as int, outer.h as int, outer.h as int);
        }
        let dist = dx * dx + dy * dy;
        let keep = match best {
            Some((bd, bid)) => bd < dist || (bd == dist && bid <= p.id),
            None => false,
        };
        if !keep {
            best = Some((dist, p.id));
            proof {
                best_i = i as int;
            }
        }
        i = i + 1;
    }
    match best {
        Some((_, id)) => {
            proof {
                lemma_nearest_unique(from, dir, ps, current, best_i);
            }
            Some(id)
        },
        None => {
            assert(!exists|k: int| nearest_at(from, dir, ps, current, k));
            None
        },
    }
}

impl Workspace {
    /// Move focus to the nearest window in `dir`, chosen by cell geometry. In monocle mode
    /// focus instead cycles through the tree order, wrapping around.
    pub fn focus_dir(&mut self, dir: Dir, screen: Rect, gap: i64) -> (r: bool)
        requires
            screen.bounded(),
        ensures
            (final(self)@, r) == old(self)@.focus_moved(dir, screen, gap as int),
    {
        if self.monocle {
            return self.cycle_focus(dir);
        }
        match self.neighbour(dir, screen, gap) {
            Some(target) => {
                self.focus = Some(target);
                true
            },
            None => false,
        }
    }

    /// Swap the focused window with its neighbour in `dir`, keeping focus on the moved
    /// window. In monocle mode the neighbour is chosen by tree order.
    pub fn move_dir(&mut self, dir: Dir, screen: Rect, gap: i64) -> (r: bool)
        requires
            screen.bounded(),
        ensures
            (final(self)@, r) == old(self)@.window_moved(dir, screen, gap as int),
    {
        if self.monocle {
            return self.cycle_move(dir);
        }
        let current = match self.focus {
            Some(c) => c,
            None => return false,
        };
        match self.neighbour(dir, screen, gap) {
            Some(target) => self.swap_in_tree(current, target),
            None => false,
        }
    }

    fn swap_in_tree(&mut self, x: WindowId, y: WindowId) -> (r: bool)
        ensures
            (final(self)@, r) == swap_in(old(self)@, x, y),
    {
        if self.tree.is_none() {
            return false;
        }
        let mut t = self.tree.take().unwrap();
        let r = t.swap(x, y);
        self.tree = Some(t);
        r
    }

    fn neighbour(&self, dir: Dir, screen: Rect, gap: i64) -> (r: Option<WindowId>)
        requires
            screen.bounded(),
        ensures
            r == self@.neighbour(dir, screen, gap as int),
    {
        proof {
            lemma_bounded_sane(screen);
            lemma_tiled_bounded(self@, screen, gap as int);
        }
        let placements = self.tiled(screen, gap);
        let current = match self.focus {
            Some(c) => c,
            None => return None,
        };
        proof {
            let ps = placements@;
            assert forall|i: int| 0 <= i < ps.len() implies (#[trigger] ps[i]).cell.sized()
                && ps[i].cell.spec_within(screen) by {
                assert(ps[i] == self@.tiled(screen, gap as int)[i]);
            }
        }
        match find_placement(&placements, current) {
            Some(k) => nearest(placements[k].cell, dir, &placements, current, Ghost(screen)),
            None => None,
        }
    }

    /// Step the focus one window forward or backward in tree order, wrapping around.
    fn cycle_focus(&mut self, dir: Dir) -> (r: bool)
        ensures
            (final(self)@, r) == old(self)@.focus_cycled(dir),
    {
        let order = self.tree_order();
        if order.len() < 2 {
            return false;
        }
        let current = match self.focus {
            Some(c) => c,
            None => return false,
        };
        let idx = match position(&order, current) {
            Some(i) => i,
            None => return false,
        };
        let n = order.len();
        let next = match dir {
            Dir::Right | Dir::Down => (idx + 1) % n,
            Dir::Left | Dir::Up => if idx == 0 { n - 1 } else { idx - 1 },
        };
        proof {
            lemma_step_back(idx as int, n as int);
        }
        self.focus = Some(order[next]);
        true
    }

    /// Swap the focused window with the next or previous window in tree order.
    fn cycle_move(&mut self, dir: Dir) -> (r: bool)
        ensures
            (final(self)@, r) == old(self)@.move_cycled(dir),
    {
        let order = self.tree_order();
        if order.len() < 2 {
            return false;
        }
        let current = match self.focus {
            Some(c) => c,
            None => return false,
        };
        let idx = match position(&order, current) {
            Some(i) => i,
            None => return false,
        };
        let n = order.len();
        let other = match dir {
            Dir::Right | Dir::Down => order[(idx + 1) % n],
            Dir::Left | Dir::Up => order[if idx == 0 { n - 1 } else { idx - 1 }],
        };
        proof {
            lemma_step_back(idx as int, n as int);
        }
        self.swap_in_tree(current, other)
    }

    /// Toggle the focused window between tiled and floating. A newly floated window gets
    /// a centered rectangle half the size of the screen; a window returning to the tiling
    /// is inserted at the first tiled leaf.
    pub fn toggle_float(&mut self, screen: Rect) -> (r: bool)
        requires
            screen.sized(),
            screen.edges_fit(),
        ensures
            (final(self)@, r) == old(self)@.float_toggled(screen),
    {
        let current = match self.focus {
            Some(c) => c,
            None => return false,
        };
        if has_floating(&self.floating, current) {
            self.floating = without_floating(&self.floating, current);
            if self.tree.is_none() {
                self.tree = Some(Node::Leaf(current));
            } else {
                let mut t = self.tree.take().unwrap();
                let anchor = t.first_leaf();
                t.insert(anchor, current, SplitDir::Vertical, false);
                self.tree = Some(t);
            }
            true
        } else {
            let tiled = match &self.tree {
                Some(t) => t.contains(current),
                None => false,
            };
            if tiled {
                let (new_tree, _) = remove(self.tree.take(), current);
                self.tree = new_tree;
                let rect = Rect::new(
                    screen.x + screen.w / 4,
                    screen.y + screen.h / 4,
                    screen.w / 2,
                    screen.h / 2,
                );
                self.floating.push(Floating { id: current, rect });
                true
            } else {
                false
            }
        }
    }
}

proof fn lemma_step_back(idx: int, n: int)
    requires
        0 <= idx < n,
    ensures
        (idx + n - 1) % n == (if idx == 0 { n - 1 } else { idx - 1 }),
        0 <= (idx + 1) % n < n,
{
    if idx == 0 {
        vstd::arithmetic::div_mod::lemma_small_mod((n - 1) as nat, n as nat);
    } else {
        vstd::arithmetic::div_mod::lemma_mod_add_multiples_vanish(idx - 1, n);
        vstd::arithmetic::div_mod::lemma_small_mod((idx - 1) as nat, n as nat);
    }
    vstd::arithmetic::div_mod::lemma_mod_bound(idx + 1, n);
}

/// The cells of a workspace's tiling are sized, lie inside the screen and are bounded
/// when the screen is.
pub proof fn lemma_tiled_bounded(ws: WorkspaceView, screen: Rect, gap: int)
    requires
        screen.bounded(),
    ensures
        forall|i: int|
            0 <= i < ws.tiled(screen, gap).len() ==> (#[trigger] ws.tiled(screen, gap)[i]).cell.bounded()
                && ws.tiled(screen, gap)[i].cell.spec_within(screen),
{
    lemma_bounded_sane(screen);
    let ps = ws.tiled(screen, gap);
    match ws.tree {
        None => {},
        Some(t) => {
            if !ws.monocle {
                lemma_layout_partition(t, screen, gap);
                assert forall|i: int| 0 <= i < ps.len() implies (#[trigger] ps[i]).cell.bounded() by {
                    lemma_within_bounded(ps[i].cell, screen);
                }
            }
        },
    }
}

proof fn lemma_float_ids_push(s: Seq<Floating>, f: Floating)
    ensures
        float_ids(s.push(f)) == float_ids(s).push(f.id),
        float_ids(s).len() == s.len(),
{
    assert(float_ids(s.push(f)) =~= float_ids(s).push(f.id));
}

/// Dropping the floating window `id` keeps the others, in order.
pub proof fn lemma_without_float(s: Seq<Floating>, id: WindowId)
    ensures
        forall|x: WindowId| #[trigger] float_ids(without_float(s, id)).contains(x) <==> (float_ids(
            s,
        ).contains(x) && x != id),
        float_ids(s).no_duplicates() ==> float_ids(without_float(s, id)).no_duplicates(),
        !float_ids(s).contains(id) ==> without_float(s, id) == s,
    decreases s.len(),
{
    if s.len() > 0 {
        let q = s.drop_last();
        let l = s.last();
        lemma_without_float(q, id);
        assert(s == q.push(l));
        lemma_float_ids_push(q, l);
        let r = without_float(q, id);
        lemma_float_ids_push(r, l);
        if float_ids(s).no_duplicates() {
            assert(float_ids(q).no_duplicates()) by {
                assert forall|i: int, j: int|
                    0 <= i < float_ids(q).len() && 0 <= j < float_ids(q).len() && i != j implies float_ids(
                    q,
                )[i] != float_ids(q)[j] by {
                    assert(float_ids(q)[i] == float_ids(s)[i]);
                    assert(float_ids(q)[j] == float_ids(s)[j]);
                }
            }
            if l.id != id {
                assert(!float_ids(q).contains(l.id)) by {
                    if float_ids(q).contains(l.id) {
                        let k = choose|k: int| 0 <= k < float_ids(q).len() && float_ids(q)[k] == l.id;
                        assert(float_ids(s)[k] == l.id);
                        assert(float_ids(s)[q.len() as int] == l.id);
                    }
                }
                assert(float_ids(r.push(l)).no_duplicates()) by {
                    assert forall|i: int, j: int|
                        0 <= i < float_ids(r.push(l)).len() && 0 <= j < float_ids(r.push(l)).len()
                            && i != j implies float_ids(r.push(l))[i] != float_ids(r.push(l))[j] by {
                        if i == r.len() {
                            assert(float_ids(r).contains(float_ids(r.push(l))[j]));
                        } else if j == r.len() {
                            assert(float_ids(r).contains(float_ids(r.push(l))[i]));
                        } else {
                            assert(float_ids(r.push(l))[i] == float_ids(r)[i]);
                            assert(float_ids(r.push(l))[j] == float_ids(r)[j]);
                        }
                    }
                }
            }
        }
        if !float_ids(s).contains(id) {
            assert(float_ids(s)[q.len() as int] == l.id);
            assert(!float_ids(q).contains(id)) by {
                if float_ids(q).contains(id) {
                    let k = choose|k: int| 0 <= k < float_ids(q).len() && float_ids(q)[k] == id;
                    assert(float_ids(s)[k] == id);
                }
            }
        }
    }
}

/// Every tiled placement belongs to a tiled window.
pub proof fn lemma_tiled_ids(ws: WorkspaceView, screen: Rect, gap: int, i: int)
    requires
        0 <= i < ws.tiled(screen, gap).len(),
    ensures
        tree_ids(ws.tree).contains(ws.tiled(screen, gap)[i].id),
{
    match ws.tree {
        None => {},
        Some(t) => {
            lemma_leaves_nonempty(t);
            if ws.monocle {
                assert(t.leaves().contains(t.leaves()[0]));
            } else {
                lemma_layout_ids(t, screen, gap);
                assert(t.leaves()[i] == ws.tiled(screen, gap)[i].id);
            }
        },
    }
}

/// The tiling of any workspace partitions the screen exactly: every cell inside the
/// screen, no overlaps, cell areas summing to the screen area, every window its cell
/// inset by the gap. It is empty exactly when there is no tiled window.
pub proof fn lemma_tiled_partition(ws: WorkspaceView, screen: Rect, gap: int)
    requires
        screen.sized(),
        screen.edges_fit(),
    ensures
        is_partition(screen, ws.tiled(screen, gap)),
        all_sized(ws.tiled(screen, gap)),
        rects_inside_cells(ws.tiled(screen, gap)),
        forall|i: int|
            0 <= i < ws.tiled(screen, gap).len() ==> (#[trigger] ws.tiled(screen, gap)[i]).rect
                == ws.tiled(screen, gap)[i].cell.spec_inset(gap),
        (ws.tiled(screen, gap).len() == 0) <==> ws.tree is None,
        ws.tiled(screen, gap).len() > 0 ==> cell_area_sum(ws.tiled(screen, gap)) == screen.spec_area(),
{
    let ps = ws.tiled(screen, gap);
    match ws.tree {
        None => {},
        Some(t) => {
            if ws.monocle {
                lemma_inset_within(screen, gap);
                assert(ps.drop_last() =~= Seq::<Placement>::empty());
                assert(cell_area_sum(ps.drop_last()) == 0);
            } else {
                lemma_layout_partition(t, screen, gap);
                lemma_layout_ids(t, screen, gap);
                lemma_leaves_nonempty(t);
                crate::partition::lemma_rects_disjoint_from_cells(ps);
            }
        },
    }
}

proof fn lemma_ids_split(ws: WorkspaceView)
    ensures
        ws.ids().no_duplicates() <==> (tree_ids(ws.tree).no_duplicates() && float_ids(
            ws.floating,
        ).no_duplicates() && forall|x: WindowId|
            tree_ids(ws.tree).contains(x) ==> !float_ids(ws.floating).contains(x)),
        forall|x: WindowId| #[trigger] ws.ids().contains(x) <==> (tree_ids(ws.tree).contains(x) || float_ids(
            ws.floating,
        ).contains(x)),
{
    lemma_no_dup_concat(tree_ids(ws.tree), float_ids(ws.floating));
}

/// The parts of well formedness, stated over the tree and the floating windows apart.
proof fn lemma_wf_parts(w: WorkspaceView)
    requires
        w.tree matches Some(t) ==> t.ratios_ok(),
        tree_ids(w.tree).no_duplicates(),
        float_ids(w.floating).no_duplicates(),
        forall|x: WindowId| tree_ids(w.tree).contains(x) ==> !float_ids(w.floating).contains(x),
        match w.focus {
            None => tree_ids(w.tree).len() == 0 && w.floating.len() == 0,
            Some(f) => tree_ids(w.tree).contains(f) || float_ids(w.floating).contains(f),
        },
    ensures
        w.wf(),
{
    lemma_ids_split(w);
    if w.focus is None {
        assert(w.ids() =~= Seq::<WindowId>::empty());
    }
}

proof fn lemma_default_focus(w: WorkspaceView)
    ensures
        match w.default_focus() {
            None => tree_ids(w.tree).len() == 0 && w.floating.len() == 0,
            Some(f) => tree_ids(w.tree).contains(f) || float_ids(w.floating).contains(f),
        },
{
    match w.tree {
        Some(t) => {
            lemma_leaves_nonempty(t);
            assert(t.leaves().contains(t.leaves()[0]));
        },
        None => {
            if w.floating.len() > 0 {
                assert(float_ids(w.floating)[0] == w.floating[0].id);
                assert(float_ids(w.floating).contains(w.floating[0].id));
            }
        },
    }
}

proof fn lemma_single_leaf(id: WindowId)
    ensures
        tree_ids(Some(Node::Leaf(id))).no_duplicates(),
        tree_ids(Some(Node::Leaf(id))).len() == 1,
        Node::Leaf(id).ratios_ok(),
        forall|x: WindowId| #[trigger] tree_ids(Some(Node::Leaf(id))).contains(x) <==> x == id,
{
    lemma_leaf_holds(id, id);
    assert forall|x: WindowId| #[trigger] tree_ids(Some(Node::Leaf(id))).contains(x) <==> x == id by {
        lemma_leaf_holds(id, x);
    }
}

/// Opening a fresh window keeps a workspace well formed.
pub proof fn lemma_opened_wf(ws: WorkspaceView, new_id: WindowId, dir: SplitDir)
    requires
        ws.wf(),
        !ws.holds(new_id),
    ensures
        ws.opened(new_id, dir).wf(),
        ws.opened(new_id, dir).holds(new_id),
        forall|x: WindowId| #[trigger] ws.opened(new_id, dir).holds(x) <==> (ws.holds(x) || x == new_id),
{
    let w = ws.opened(new_id, dir);
    lemma_ids_split(ws);
    lemma_ids_split(w);
    assert(w.floating == ws.floating);
    assert(!float_ids(ws.floating).contains(new_id));
    assert(!tree_ids(ws.tree).contains(new_id));
    match ws.tree {
        None => {
            lemma_single_leaf(new_id);
            assert(forall|x: WindowId| !tree_ids(ws.tree).contains(x));
            assert(w.tree == Some(Node::Leaf(new_id)));
            assert(tree_ids(w.tree).contains(new_id));
            assert forall|x: WindowId| #[trigger] w.holds(x) <==> (ws.holds(x) || x == new_id) by {
                assert(tree_ids(w.tree).contains(x) <==> x == new_id);
            }
        },
        Some(t) => {
            lemma_leaves_nonempty(t);
            let anchor = match ws.focus {
                Some(f) => if t.holds(f) {
                    f
                } else {
                    t.leaves()[0]
                },
                None => t.leaves()[0],
            };
            assert(t.holds(anchor));
            lemma_inserted_holds(t, anchor, new_id, dir, false);
            lemma_inserted_wf(t, anchor, new_id, dir, false);
            let m = t.inserted(anchor, new_id, dir, false).0;
            assert(w.tree == Some(m));
            assert forall|x: WindowId| tree_ids(w.tree).contains(x) implies !float_ids(
                w.floating,
            ).contains(x) by {
                assert(m.holds(x));
            }
            assert(m.holds(new_id));
            assert forall|x: WindowId| #[trigger] w.holds(x) <==> (ws.holds(x) || x == new_id) by {
                assert(m.holds(x) <==> (t.holds(x) || x == new_id));
            }
        },
    }
    lemma_wf_parts(w);
}

/// Closing the focused window keeps a workspace well formed and removes exactly it.
pub proof fn lemma_closed_wf(ws: WorkspaceView)
    requires
        ws.wf(),
    ensures
        ws.closed().0.wf(),
        ws.closed().1 == ws.focus,
        ws.focus matches Some(f) ==> forall|x: WindowId| #[trigger] ws.closed().0.holds(x) <==> (
        ws.holds(x) && x != f),
{
    let w = ws.closed().0;
    match ws.focus {
        None => {},
        Some(target) => {
            lemma_ids_split(ws);
            lemma_ids_split(w);
            lemma_without_float(ws.floating, target);
            lemma_default_focus(w.with_focus(ws.focus));
            if ws.is_floating(target) {
                assert(w.tree == ws.tree);
                assert(w.floating == without_float(ws.floating, target));
                assert(!tree_ids(ws.tree).contains(target));
                assert forall|x: WindowId| tree_ids(w.tree).contains(x) implies !float_ids(
                    w.floating,
                ).contains(x) by {}
                lemma_wf_parts(w);
                assert forall|x: WindowId| #[trigger] w.holds(x) <==> (ws.holds(x) && x != target) by {
                    assert(float_ids(w.floating).contains(x) <==> (float_ids(ws.floating).contains(x)
                        && x != target));
                }
            } else {
                let t = ws.tree->0;
                assert(t.holds(target));
                lemma_removed_holds(t, target);
                lemma_removed_ratios(t, target);
                assert(w.floating == ws.floating);
                match t.removed(target).0 {
                    None => {
                        assert(w.tree is None);
                        assert forall|x: WindowId| t.holds(x) <==> x == target by {
                            lemma_leaf_holds(target, x);
                        }
                        assert(forall|x: WindowId| !tree_ids(w.tree).contains(x));
                        assert forall|x: WindowId| #[trigger] w.holds(x) <==> (ws.holds(x) && x
                            != target) by {
                            assert(t.holds(x) <==> x == target);
                        }
                    },
                    Some(m) => {
                        assert(w.tree == Some(m));
                        assert forall|x: WindowId| tree_ids(w.tree).contains(x) implies !float_ids(
                            w.floating,
                        ).contains(x) by {
                            assert(m.holds(x));
                        }
                        assert forall|x: WindowId| #[trigger] w.holds(x) <==> (ws.holds(x) && x
                            != target) by {
                            assert(m.holds(x) <==> (t.holds(x) && x != target));
                        }
                    },
                }
                lemma_wf_parts(w);
            }
        },
    }
}

/// The tiling leaves no point of the screen uncovered while a window is tiled.
pub proof fn lemma_tiled_covers(ws: WorkspaceView, screen: Rect, gap: int, px: int, py: int)
    requires
        screen.sized(),
        screen.edges_fit(),
        ws.tree is Some,
        screen.spec_contains_point(px, py),
    ensures
        exists|i: int|
            0 <= i < ws.tiled(screen, gap).len() && (#[trigger] ws.tiled(
                screen,
                gap,
            )[i]).cell.spec_contains_point(px, py),
{
    let ps = ws.tiled(screen, gap);
    let t = ws.tree->0;
    if ws.monocle {
        assert(ps[0].cell == screen);
    } else {
        crate::tree::lemma_layout_covers(t, screen, gap, px, py);
    }
}

/// Closing a window right after opening it restores the exact prior tiling and floating
/// windows.
pub proof fn lemma_close_after_open(ws: WorkspaceView, new_id: WindowId, dir: SplitDir)
    requires
        ws.wf(),
        !ws.holds(new_id),
    ensures
        ws.opened(new_id, dir).closed().0.tree == ws.tree,
        ws.opened(new_id, dir).closed().0.floating == ws.floating,
        ws.opened(new_id, dir).closed().0.monocle == ws.monocle,
        ws.opened(new_id, dir).closed().1 == Some(new_id),
{
    lemma_ids_split(ws);
    let w = ws.opened(new_id, dir);
    assert(!w.is_floating(new_id));
    match ws.tree {
        None => {
            lemma_leaf_holds(new_id, new_id);
            assert(Node::Leaf(new_id).removed(new_id) == (None::<Node>, true));
        },
        Some(t) => {
            lemma_leaves_nonempty(t);
            let anchor = match ws.focus {
                Some(f) => if t.holds(f) {
                    f
                } else {
                    t.leaves()[0]
                },
                None => t.leaves()[0],
            };
            assert(t.holds(anchor));
            lemma_remove_after_insert(t, anchor, new_id, dir, false);
        },
    }
}

/// Toggling monocle twice restores the workspace exactly; the tree is never touched.
pub proof fn lemma_monocle_round_trip(ws: WorkspaceView)
    ensures
        ws.monocle_toggled().monocle_toggled() == ws,
        ws.monocle_toggled().tree == ws.tree,
        ws.wf() ==> ws.monocle_toggled().wf(),
{
}

/// A resize never changes which windows exist and keeps ratios in range.
pub proof fn lemma_resized_wf(ws: WorkspaceView, dir: Dir, delta: int)
    requires
        ws.wf(),
    ensures
        ws.resized(dir, delta).0.wf(),
        ws.resized(dir, delta).0.ids() == ws.ids(),
{
    if let (Some(current), Some(t)) = (ws.focus, ws.tree) {
        let (want, signed) = match dir {
            Dir::Right => (SplitDir::Vertical, delta),
            Dir::Left => (SplitDir::Vertical, -delta),
            Dir::Down => (SplitDir::Horizontal, delta),
            Dir::Up => (SplitDir::Horizontal, -delta),
        };
        lemma_resized_shape(t, current, want, signed);
    }
}

/// Swapping two tiled windows keeps the set of windows and the well formedness.
proof fn lemma_swap_in_wf(ws: WorkspaceView, x: WindowId, y: WindowId)
    requires
        ws.wf(),
    ensures
        swap_in(ws, x, y).0.wf(),
        forall|z: WindowId| #[trigger] swap_in(ws, x, y).0.holds(z) <==> ws.holds(z),
{
    let w = swap_in(ws, x, y).0;
    if let Some(t) = ws.tree {
        if x != y && t.holds(x) && t.holds(y) {
            lemma_swapped_leaves(t, x, y);
            lemma_ids_split(ws);
            lemma_ids_split(w);
            let m = t.swapped(x, y);
            assert(w.tree == Some(m));
            assert(w.floating == ws.floating);
            assert forall|z: WindowId| #[trigger] m.holds(z) <==> t.holds(z) by {
                assert(m.holds(z) <==> t.holds(swap_id(z, x, y)));
                if z == x {
                    assert(swap_id(z, x, y) == y);
                } else if z == y {
                    assert(swap_id(z, x, y) == x);
                } else {
                    assert(swap_id(z, x, y) == z);
                }
            }
            assert forall|z: WindowId| tree_ids(w.tree).contains(z) implies !float_ids(
                w.floating,
            ).contains(z) by {
                assert(m.holds(z));
            }
            let f = ws.focus->0;
            assert(ws.ids().contains(f));
            assert(t.holds(f) || float_ids(ws.floating).contains(f));
            assert(m.holds(f) <==> t.holds(f));
            lemma_wf_parts(w);
            assert forall|z: WindowId| #[trigger] w.holds(z) <==> ws.holds(z) by {
                assert(m.holds(z) <==> t.holds(z));
            }
        }
    }
}

proof fn lemma_focus_cycled_wf(ws: WorkspaceView, dir: Dir)
    requires
        ws.wf(),
    ensures
        ws.focus_cycled(dir).0.wf(),
        ws.move_cycled(dir).0.wf(),
        ws.focus_cycled(dir).0.ids() == ws.ids(),
        forall|z: WindowId| #[trigger] ws.move_cycled(dir).0.holds(z) <==> ws.holds(z),
{
    let order = tree_ids(ws.tree);
    lemma_ids_split(ws);
    if order.len() >= 2 {
        if let Some(cur) = ws.focus {
            if let Some(idx) = first_index(order, cur) {
                let k = step_index(idx, order.len() as int, dir);
                assert(0 <= idx < order.len());
                lemma_step_back(idx, order.len() as int);
                assert(order.contains(order[k]));
                lemma_swap_in_wf(ws, cur, order[k]);
            }
        }
    }
}

/// Directional focus and move keep a workspace well formed: focus only ever lands on a
/// tiled window and a move only exchanges two tiled windows.
pub proof fn lemma_moves_wf(ws: WorkspaceView, dir: Dir, screen: Rect, gap: int)
    requires
        ws.wf(),
    ensures
        ws.focus_moved(dir, screen, gap).0.wf(),
        ws.window_moved(dir, screen, gap).0.wf(),
        forall|z: WindowId| #[trigger] ws.focus_moved(dir, screen, gap).0.holds(z) <==> ws.holds(z),
        forall|z: WindowId| #[trigger] ws.window_moved(dir, screen, gap).0.holds(z) <==> ws.holds(z),
{
    lemma_focus_cycled_wf(ws, dir);
    lemma_ids_split(ws);
    match ws.neighbour(dir, screen, gap) {
        Some(t) => {
            let cur = ws.focus->0;
            let ps = ws.tiled(screen, gap);
            let k = first_index(placement_ids(ps), cur)->0;
            let from = ps[k].cell;
            let c = choose|i: int| nearest_at(from, dir, ps, cur, i);
            lemma_tiled_ids(ws, screen, gap, c);
            lemma_swap_in_wf(ws, cur, t);
        },
        None => {},
    }
}

/// Toggling float keeps a workspace well formed and keeps its windows.
pub proof fn lemma_float_toggled_wf(ws: WorkspaceView, screen: Rect)
    requires
        ws.wf(),
    ensures
        ws.float_toggled(screen).0.wf(),
        forall|z: WindowId| #[trigger] ws.float_toggled(screen).0.holds(z) <==> ws.holds(z),
{
    let w = ws.float_toggled(screen).0;
    lemma_ids_split(ws);
    lemma_ids_split(w);
    if let Some(cur) = ws.focus {
        lemma_without_float(ws.floating, cur);
        if ws.is_floating(cur) {
            assert(!tree_ids(ws.tree).contains(cur));
            assert(w.floating == without_float(ws.floating, cur));
            match ws.tree {
                None => {
                    lemma_single_leaf(cur);
                    assert(forall|x: WindowId| !tree_ids(ws.tree).contains(x));
                    assert(w.tree == Some(Node::Leaf(cur)));
                    assert(tree_ids(w.tree).contains(cur));
                    assert forall|x: WindowId| #[trigger] w.holds(x) <==> ws.holds(x) by {
                        assert(tree_ids(w.tree).contains(x) <==> x == cur);
                    }
                },
                Some(t) => {
                    lemma_leaves_nonempty(t);
                    assert(t.holds(t.leaves()[0]));
                    lemma_inserted_holds(t, t.leaves()[0], cur, SplitDir::Vertical, false);
                    lemma_inserted_wf(t, t.leaves()[0], cur, SplitDir::Vertical, false);
                    let m = t.inserted(t.leaves()[0], cur, SplitDir::Vertical, false).0;
                    assert(w.tree == Some(m));
                    assert forall|x: WindowId| tree_ids(w.tree).contains(x) implies !float_ids(
                        w.floating,
                    ).contains(x) by {
                        assert(m.holds(x));
                    }
                    assert(m.holds(cur));
                    assert forall|x: WindowId| #[trigger] w.holds(x) <==> ws.holds(x) by {
                        assert(m.holds(x) <==> (t.holds(x) || x == cur));
                    }
                },
            }
            lemma_wf_parts(w);
        } else if ws.tree matches Some(t) && t.holds(cur) {
            let t = ws.tree->0;
            lemma_removed_holds(t, cur);
            lemma_removed_ratios(t, cur);
            let f = Floating { id: cur, rect: float_rect(screen) };
            lemma_float_ids_push(ws.floating, f);
            let fs = float_ids(ws.floating);
            assert(float_ids(w.floating) == fs.push(cur));
            assert(!fs.contains(cur));
            assert forall|z: WindowId| #[trigger] fs.push(cur).contains(z) <==> (fs.contains(z) || z == cur) by {
                if fs.push(cur).contains(z) {
                    let k = choose|k: int| 0 <= k < fs.push(cur).len() && fs.push(cur)[k] == z;
                    if k < fs.len() {
                        assert(fs[k] == z);
                    }
                }
                if fs.contains(z) {
                    let k = choose|k: int| 0 <= k < fs.len() && fs[k] == z;
                    assert(fs.push(cur)[k] == z);
                }
                if z == cur {
                    assert(fs.push(cur)[fs.len() as int] == z);
                }
            }
            assert(float_ids(w.floating).no_duplicates()) by {
                assert forall|i: int, j: int|
                    0 <= i < fs.push(cur).len() && 0 <= j < fs.push(cur).len() && i != j implies fs.push(
                    cur,
                )[i] != fs.push(cur)[j] by {
                    if i == fs.len() {
                        assert(fs.contains(fs.push(cur)[j]));
                    } else if j == fs.len() {
                        assert(fs.contains(fs.push(cur)[i]));
                    }
                }
            }
            match t.removed(cur).0 {
                None => {
                    assert(w.tree is None);
                    assert forall|x: WindowId| t.holds(x) <==> x == cur by {
                        lemma_leaf_holds(cur, x);
                    }
                    assert(forall|x: WindowId| !tree_ids(w.tree).contains(x));
                    assert forall|x: WindowId| #[trigger] w.holds(x) <==> ws.holds(x) by {
                        assert(t.holds(x) <==> x == cur);
                        assert(fs.push(cur).contains(x) <==> (fs.contains(x) || x == cur));
                    }
                },
                Some(m) => {
                    assert(w.tree == Some(m));
                    assert forall|x: WindowId| tree_ids(w.tree).contains(x) implies !float_ids(
                        w.floating,
                    ).contains(x) by {
                        assert(m.holds(x));
                    }
                    assert forall|x: WindowId| #[trigger] w.holds(x) <==> ws.holds(x) by {
                        assert(m.holds(x) <==> (t.holds(x) && x != cur));
                        assert(fs.push(cur).contains(x) <==> (fs.contains(x) || x == cur));
                    }
                },
            }
            assert(fs.push(cur).contains(cur));
            lemma_wf_parts(w);
        }
    }
}

/// Floating a tiled window and toggling it back returns it to the tiling: focus stays
/// on it, the floating windows are as before and the tiling has as many windows again.
pub proof fn lemma_float_round_trip(ws: WorkspaceView, screen: Rect)
    requires
        ws.wf(),
        ws.focus matches Some(f) && !ws.is_floating(f),
    ensures
        ws.float_toggled(screen).1,
        ws.float_toggled(screen).0.focus_floating(),
        ws.float_toggled(screen).0.float_toggled(screen).1,
        ws.float_toggled(screen).0.float_toggled(screen).0.focus == ws.focus,
        !ws.float_toggled(screen).0.float_toggled(screen).0.focus_floating(),
        ws.float_toggled(screen).0.float_toggled(screen).0.floating == ws.floating,
        tree_ids(ws.float_toggled(screen).0.float_toggled(screen).0.tree).len() == tree_ids(
            ws.tree,
        ).len(),
        forall|y: WindowId|
            #[trigger] tree_ids(ws.float_toggled(screen).0.float_toggled(screen).0.tree).contains(y)
                <==> tree_ids(ws.tree).contains(y),
{
    let f = ws.focus->0;
    lemma_ids_split(ws);
    let t = ws.tree->0;
    let w1 = ws.float_toggled(screen).0;
    let fl = Floating { id: f, rect: float_rect(screen) };
    lemma_float_ids_push(ws.floating, fl);
    assert(float_ids(w1.floating).contains(f)) by {
        assert(float_ids(w1.floating)[ws.floating.len() as int] == f);
    }
    lemma_removed_holds(t, f);
    lemma_without_float(ws.floating, f);
    assert(without_float(ws.floating.push(fl), f) == without_float(ws.floating, f)) by {
        assert(ws.floating.push(fl).drop_last() =~= ws.floating);
    }
    let w2 = w1.float_toggled(screen).0;
    lemma_without_float(w1.floating, f);
    match w1.tree {
        None => {
            lemma_leaf_holds(f, f);
            assert(t.leaves().len() == 1);
            assert(t.leaves() == seq![f]);
            assert forall|y: WindowId| #[trigger] tree_ids(w2.tree).contains(y) <==> tree_ids(
                ws.tree,
            ).contains(y) by {
                lemma_leaf_holds(f, y);
            }
        },
        Some(m) => {
            lemma_leaves_nonempty(m);
            assert(m.holds(m.leaves()[0]));
            lemma_inserted_holds(m, m.leaves()[0], f, SplitDir::Vertical, false);
            assert forall|y: WindowId| #[trigger] tree_ids(w2.tree).contains(y) <==> tree_ids(
                ws.tree,
            ).contains(y) by {
                let m2 = m.inserted(m.leaves()[0], f, SplitDir::Vertical, false).0;
                assert(w2.tree == Some(m2));
                assert(m2.holds(y) <==> (m.holds(y) || y == f));
                assert(m.holds(y) <==> (t.holds(y) && y != f));
                assert(t.holds(f));
            }
        },
    }
    assert(!float_ids(w2.floating).contains(f));
}

/// A move never changes the shape of the tiling: every cell and every window rectangle
/// stays where it was, only two windows trade places (in monocle mode the one visible
/// cell stays the whole screen).
pub proof fn lemma_move_keeps_shape(ws: WorkspaceView, dir: Dir, screen: Rect, gap: int)
    ensures
        ws.window_moved(dir, screen, gap).0.tiled(screen, gap).len() == ws.tiled(screen, gap).len(),
        forall|i: int|
            0 <= i < ws.tiled(screen, gap).len() ==> (#[trigger] ws.window_moved(
                dir,
                screen,
                gap,
            ).0.tiled(screen, gap)[i]).cell == ws.tiled(screen, gap)[i].cell && ws.window_moved(
                dir,
                screen,
                gap,
            ).0.tiled(screen, gap)[i].rect == ws.tiled(screen, gap)[i].rect,
{
    let w2 = ws.window_moved(dir, screen, gap).0;
    assert(w2.monocle == ws.monocle);
    if let Some(t) = ws.tree {
        if w2.tree != ws.tree {
            let (x, y) = choose|x: WindowId, y: WindowId| w2.tree == Some(t.swapped(x, y));
            lemma_swapped_layout(t, x, y, screen, gap);
        }
    }
}

/// Opening a window splits the focused tiled window's cell in two: the focused window
/// keeps the first half, the new window takes the second, and every other window keeps
/// its cell and rectangle. The returned index is the focused window's placement.
pub proof fn lemma_open_splits_focused_cell(
    ws: WorkspaceView,
    new_id: WindowId,
    dir: SplitDir,
    screen: Rect,
    gap: int,
) -> (k: int)
    requires
        !ws.monocle,
        ws.focus matches Some(f) && ws.tree matches Some(t) && t.holds(f),
    ensures
        0 <= k < ws.tiled(screen, gap).len(),
        Some(ws.tiled(screen, gap)[k].id) == ws.focus,
        ws.opened(new_id, dir).tiled(screen, gap) == ws.tiled(screen, gap).take(k) + split_pair(
            ws.tiled(screen, gap)[k].cell,
            dir,
            gap,
            ws.focus->0,
            new_id,
        ) + ws.tiled(screen, gap).skip(k + 1),
{
    let f = ws.focus->0;
    let t = ws.tree->0;
    lemma_inserted_layout(t, f, new_id, dir, false, screen, gap)
}

/// Inserting a window at the first leaf splits the first cell of the layout: its window
/// keeps the first half, the new window takes the second, every other placement stays.
proof fn lemma_first_leaf_split(t: Node, new_id: WindowId, dir: SplitDir, area: Rect, gap: int)
    ensures
        t.inserted(t.leaves()[0], new_id, dir, false).0.layout(area, gap) == split_pair(
            t.layout(area, gap)[0].cell,
            dir,
            gap,
            t.layout(area, gap)[0].id,
            new_id,
        ) + t.layout(area, gap).skip(1),
{
    lemma_leaves_nonempty(t);
    assert(t.holds(t.leaves()[0]));
    lemma_layout_ids(t, area, gap);
    let ps = t.layout(area, gap);
    let k = lemma_inserted_layout(t, t.leaves()[0], new_id, dir, false, area, gap);
    assert(ps[0].id == t.leaves()[0]);
    assert(k == 0);
    assert(ps.take(0) + split_pair(ps[0].cell, dir, gap, ps[0].id, new_id) =~= split_pair(
        ps[0].cell,
        dir,
        gap,
        ps[0].id,
        new_id,
    ));
}

/// Opening while the focus is not on a tiled window (no focus, or a floating one) splits
/// the first tiled cell in tree order: its window keeps the first half, the new window
/// takes the second half and gets the focus, and every other cell is unchanged.
pub proof fn lemma_open_off_tiling_splits_first_cell(
    ws: WorkspaceView,
    new_id: WindowId,
    dir: SplitDir,
    area: Rect,
    gap: int,
)
    requires
        ws.tree is Some,
        !(ws.focus matches Some(f) && ws.tree->0.holds(f)),
    ensures
        ws.opened(new_id, dir).focus == Some(new_id),
        ws.opened(new_id, dir).tree matches Some(t2) && t2.layout(area, gap) == split_pair(
            ws.tree->0.layout(area, gap)[0].cell,
            dir,
            gap,
            ws.tree->0.layout(area, gap)[0].id,
            new_id,
        ) + ws.tree->0.layout(area, gap).skip(1),
{
    lemma_first_leaf_split(ws.tree->0, new_id, dir, area, gap);
}

/// Toggling a floating focused window back into a non-empty tiling splits the first tiled
/// cell in tree order vertically: that window keeps the left half, the returning window
/// takes the right half and stays focused, no longer floating, and every other cell is
/// unchanged.
pub proof fn lemma_unfloat_splits_first_cell(ws: WorkspaceView, screen: Rect, area: Rect, gap: int)
    requires
        ws.focus matches Some(f) && ws.is_floating(f),
        ws.tree is Some,
    ensures
        ws.float_toggled(screen).1,
        ws.float_toggled(screen).0.focus == ws.focus,
        !ws.float_toggled(screen).0.is_floating(ws.focus->0),
        ws.float_toggled(screen).0.tree matches Some(t2) && t2.layout(area, gap) == split_pair(
            ws.tree->0.layout(area, gap)[0].cell,
            SplitDir::Vertical,
            gap,
            ws.tree->0.layout(area, gap)[0].id,
            ws.focus->0,
        ) + ws.tree->0.layout(area, gap).skip(1),
{
    let f = ws.focus->0;
    lemma_first_leaf_split(ws.tree->0, f, SplitDir::Vertical, area, gap);
    lemma_without_float(ws.floating, f);
}

/// Resizing grows the focused window toward `Right` and `Down` and shrinks it toward
/// `Left` and `Up`: at the nearest split of the matching axis (vertical for left and
/// right, horizontal for up and down) the focused window's share becomes its old share
/// plus `delta` for `Right` and `Down`, minus `delta` for `Left` and `Up`, clamped to
/// `[MIN_RATIO, MAX_RATIO]`. The resize happens exactly when such a split exists; the
/// focus and the floating windows never change.
pub proof fn lemma_resize_direction(ws: WorkspaceView, dir: Dir, delta: int)
    requires
        ws.focus matches Some(f) && ws.tree matches Some(t) && t.holds(f),
    ensures
        ws.resized(dir, delta).0.focus == ws.focus,
        ws.resized(dir, delta).0.floating == ws.floating,
        ws.resized(dir, delta).0.tree is Some,
        dir == Dir::Down ==> (ws.resized(dir, delta).1 <==> ws.tree->0.side_share(
            ws.focus->0,
            SplitDir::Horizontal,
        ) is Some) && (ws.tree->0.side_share(ws.focus->0, SplitDir::Horizontal) matches Some(s)
            ==> ws.resized(dir, delta).0.tree->0.side_share(ws.focus->0, SplitDir::Horizontal)
            == Some(clamp_int(s + delta, MIN_RATIO as int, MAX_RATIO as int))),
        dir == Dir::Up ==> (ws.resized(dir, delta).1 <==> ws.tree->0.side_share(
            ws.focus->0,
            SplitDir::Horizontal,
        ) is Some) && (ws.tree->0.side_share(ws.focus->0, SplitDir::Horizontal) matches Some(s)
            ==> ws.resized(dir, delta).0.tree->0.side_share(ws.focus->0, SplitDir::Horizontal)
            == Some(clamp_int(s - delta, MIN_RATIO as int, MAX_RATIO as int))),
        dir == Dir::Right ==> (ws.resized(dir, delta).1 <==> ws.tree->0.side_share(
            ws.focus->0,
            SplitDir::Vertical,
        ) is Some) && (ws.tree->0.side_share(ws.focus->0, SplitDir::Vertical) matches Some(s)
            ==> ws.resized(dir, delta).0.tree->0.side_share(ws.focus->0, SplitDir::Vertical)
            == Some(clamp_int(s + delta, MIN_RATIO as int, MAX_RATIO as int))),
        dir == Dir::Left ==> (ws.resized(dir, delta).1 <==> ws.tree->0.side_share(
            ws.focus->0,
            SplitDir::Vertical,
        ) is Some) && (ws.tree->0.side_share(ws.focus->0, SplitDir::Vertical) matches Some(s)
            ==> ws.resized(dir, delta).0.tree->0.side_share(ws.focus->0, SplitDir::Vertical)
            == Some(clamp_int(s - delta, MIN_RATIO as int, MAX_RATIO as int))),
{
    let f = ws.focus->0;
    let t = ws.tree->0;
    match dir {
        Dir::Right => lemma_resize_grows(t, f, SplitDir::Vertical, delta),
        Dir::Left => lemma_resize_grows(t, f, SplitDir::Vertical, -delta),
        Dir::Down => lemma_resize_grows(t, f, SplitDir::Horizontal, delta),
        Dir::Up => lemma_resize_grows(t, f, SplitDir::Horizontal, -delta),
    }
}

/// In a sequence without repeats, the first index of the item at `i` is `i`.
proof fn lemma_first_index_unique(s: Seq<WindowId>, i: int)
    requires
        s.no_duplicates(),
        0 <= i < s.len(),
    ensures
        first_index(s, s[i]) == Some(i),
{
    assert(s.contains(s[i]));
    assert(forall|j: int| 0 <= j < i ==> s[j] != s[i]);
    let c = choose|c: int| 0 <= c < s.len() && s[c] == s[i] && forall|j: int| 0 <= j < c ==> s[j] != s[i];
    assert(c == i);
}

/// In monocle mode focus and move step through the windows in tree order, wrapping
/// around: `Right` and `Down` go to the next window, `Left` and `Up` to the previous
/// one. Focus moves there; move swaps the focused window with it and keeps the focus.
pub proof fn lemma_monocle_cycles_tree_order(ws: WorkspaceView, dir: Dir, screen: Rect, gap: int, i: int)
    requires
        ws.wf(),
        ws.monocle,
        tree_ids(ws.tree).len() >= 2,
        0 <= i < tree_ids(ws.tree).len(),
        ws.focus == Some(tree_ids(ws.tree)[i]),
    ensures
        ({
            let o = tree_ids(ws.tree);
            let n = o.len() as int;
            let next = o[(i + 1) % n];
            let prev = o[(i + n - 1) % n];
            let target = if dir == Dir::Right || dir == Dir::Down { next } else { prev };
            &&& (dir == Dir::Right || dir == Dir::Down) ==> target == next
            &&& (dir == Dir::Left || dir == Dir::Up) ==> target == prev
            &&& target != o[i]
            &&& ws.focus_moved(dir, screen, gap).1
            &&& ws.focus_moved(dir, screen, gap).0.focus == Some(target)
            &&& ws.focus_moved(dir, screen, gap).0.tree == ws.tree
            &&& ws.window_moved(dir, screen, gap).1
            &&& ws.window_moved(dir, screen, gap).0.focus == ws.focus
            &&& ws.window_moved(dir, screen, gap).0.tree == Some(ws.tree->0.swapped(o[i], target))
        }),
{
    let o = tree_ids(ws.tree);
    let n = o.len() as int;
    lemma_ids_split(ws);
    lemma_first_index_unique(o, i);
    let a = (i + 1) % n;
    let b = (i + n - 1) % n;
    assert(a == if i + 1 < n { i + 1 } else { 0 }) by (nonlinear_arith)
        requires
            a == (i + 1) % n,
            0 <= i < n,
            n >= 2,
    {
        if i + 1 == n {
            assert(n % n == 0);
        }
    }
    assert(b == if i == 0 { n - 1 } else { i - 1 }) by (nonlinear_arith)
        requires
            b == (i + n - 1) % n,
            0 <= i < n,
            n >= 2,
    {
        if i > 0 {
            assert((i + n - 1) % n == i - 1);
        }
    }
    assert(0 <= a < n && a != i);
    assert(0 <= b < n && b != i);
    assert(o.contains(o[a]) && o.contains(o[b]) && o.contains(o[i]));
}

/// `c` lies strictly beyond `f` in direction `dir`: strictly left of, right of, above
/// or below it.
pub open spec fn strictly_beyond(dir: Dir, f: (int, int), c: (int, int)) -> bool {
    match dir {
        Dir::Left => c.0 < f.0,
        Dir::Right => c.0 > f.0,
        Dir::Up => c.1 < f.1,
        Dir::Down => c.1 > f.1,
    }
}

/// Squared distance between two points.
pub open spec fn point_dist2(a: (int, int), b: (int, int)) -> int {
    (a.0 - b.0) * (a.0 - b.0) + (a.1 - b.1) * (a.1 - b.1)
}

/// The placement `j` is a window other than `f` whose cell center lies strictly beyond
/// the center of placement `k` in direction `dir`.
pub open spec fn beyond_at(ps: Seq<Placement>, k: int, dir: Dir, j: int) -> bool {
    &&& 0 <= j < ps.len()
    &&& ps[j].id != ps[k].id
    &&& strictly_beyond(dir, ps[k].cell.spec_center(), ps[j].cell.spec_center())
}

/// Among the placements beyond `k`, `j` has the smallest squared center distance, the
/// smaller id breaking ties.
pub open spec fn closest_beyond(ps: Seq<Placement>, k: int, dir: Dir, j: int) -> bool {
    &&& beyond_at(ps, k, dir, j)
    &&& forall|j2: int|
        #[trigger] beyond_at(ps, k, dir, j2) ==> {
            let c = ps[k].cell.spec_center();
            let dj = point_dist2(ps[j].cell.spec_center(), c);
            let d2 = point_dist2(ps[j2].cell.spec_center(), c);
            dj < d2 || (dj == d2 && ps[j].id <= ps[j2].id)
        }
}

spec fn min_upto(from: Rect, dir: Dir, ps: Seq<Placement>, cur: WindowId, m: int, i: int) -> bool {
    &&& 0 <= i < m
    &&& is_candidate(from, dir, ps[i], cur)
    &&& forall|j: int|
        0 <= j < m && is_candidate(from, dir, #[trigger] ps[j], cur) ==> key_le(
            sq_dist(from, ps[i].cell),
            ps[i].id,
            sq_dist(from, ps[j].cell),
            ps[j].id,
        )
}

/// Among finitely many candidates there is a nearest one.
proof fn lemma_min_exists(from: Rect, dir: Dir, ps: Seq<Placement>, cur: WindowId, m: int) -> (i: int)
    requires
        0 <= m <= ps.len(),
        exists|j: int| 0 <= j < m && is_candidate(from, dir, #[trigger] ps[j], cur),
    ensures
        min_upto(from, dir, ps, cur, m, i),
    decreases m,
{
    let last = m - 1;
    if exists|j: int| 0 <= j < last && is_candidate(from, dir, #[trigger] ps[j], cur) {
        let i0 = lemma_min_exists(from, dir, ps, cur, last);
        if is_candidate(from, dir, ps[last], cur) && !key_le(
            sq_dist(from, ps[i0].cell),
            ps[i0].id,
            sq_dist(from, ps[last].cell),
            ps[last].id,
        ) {
            assert forall|j: int|
                0 <= j < m && is_candidate(from, dir, #[trigger] ps[j], cur) implies key_le(
                sq_dist(from, ps[last].cell),
                ps[last].id,
                sq_dist(from, ps[j].cell),
                ps[j].id,
            ) by {
                if j < last {
                    assert(key_le(
                        sq_dist(from, ps[i0].cell),
                        ps[i0].id,
                        sq_dist(from, ps[j].cell),
                        ps[j].id,
                    ));
                }
            }
            last
        } else {
            i0
        }
    } else {
        assert(is_candidate(from, dir, ps[last], cur));
        assert forall|j: int|
            0 <= j < m && is_candidate(from, dir, #[trigger] ps[j], cur) implies key_le(
            sq_dist(from, ps[last].cell),
            ps[last].id,
            sq_dist(from, ps[j].cell),
            ps[j].id,
        ) by {
            assert(j == last);
        }
        last
    }
}

/// Outside monocle mode, focus and move go by geometry. From the focused window's
/// placement `k`, a step in `dir` succeeds exactly when some other window's cell center
/// lies strictly beyond the focused cell's center in that direction (strictly left,
/// right, above or below; a window level with it never counts), and it reaches the one
/// of those with the nearest center, the smaller id breaking ties. Focus moves there;
/// move swaps the two windows and keeps the focus. When no window lies beyond, nothing
/// changes.
pub proof fn lemma_directional_steps(ws: WorkspaceView, dir: Dir, screen: Rect, gap: int, k: int)
    requires
        ws.wf(),
        !ws.monocle,
        0 <= k < ws.tiled(screen, gap).len(),
        ws.focus == Some(ws.tiled(screen, gap)[k].id),
    ensures
        ({
            let ps = ws.tiled(screen, gap);
            &&& ws.focus_moved(dir, screen, gap).1 <==> exists|j: int| #[trigger] beyond_at(ps, k, dir, j)
            &&& ws.window_moved(dir, screen, gap).1 <==> exists|j: int| #[trigger] beyond_at(ps, k, dir, j)
            &&& !ws.focus_moved(dir, screen, gap).1 ==> ws.focus_moved(dir, screen, gap).0 == ws
            &&& !ws.window_moved(dir, screen, gap).1 ==> ws.window_moved(dir, screen, gap).0 == ws
            &&& ws.focus_moved(dir, screen, gap).1 ==> exists|j: int|
                #[trigger] closest_beyond(ps, k, dir, j) && ws.focus_moved(dir, screen, gap).0.focus
                    == Some(ps[j].id) && ws.focus_moved(dir, screen, gap).0.tree == ws.tree
            &&& ws.window_moved(dir, screen, gap).1 ==> exists|j: int|
                #[trigger] closest_beyond(ps, k, dir, j) && ws.window_moved(dir, screen, gap).0.focus
                    == ws.focus && ws.window_moved(dir, screen, gap).0.tree == Some(
                    ws.tree->0.swapped(ps[k].id, ps[j].id),
                )
        }),
{
    let ps = ws.tiled(screen, gap);
    let f = ps[k].id;
    let t = ws.tree->0;
    lemma_ids_split(ws);
    lemma_layout_ids(t, screen, gap);
    let ids = placement_ids(ps);
    assert(ids =~= t.leaves());
    lemma_first_index_unique(ids, k);
    let from = ps[k].cell;
    assert forall|j: int| #[trigger] beyond_at(ps, k, dir, j) <==> (0 <= j < ps.len() && is_candidate(
        from,
        dir,
        ps[j],
        f,
    )) by {}
    if exists|j: int| #[trigger] beyond_at(ps, k, dir, j) {
        let j0 = choose|j: int| #[trigger] beyond_at(ps, k, dir, j);
        assert(is_candidate(from, dir, ps[j0], f));
        let m = lemma_min_exists(from, dir, ps, f, ps.len() as int);
        assert(nearest_at(from, dir, ps, f, m));
        let c = choose|c: int| nearest_at(from, dir, ps, f, c);
        assert(nearest_at(from, dir, ps, f, c));
        assert(closest_beyond(ps, k, dir, c)) by {
            assert forall|j2: int| #[trigger] beyond_at(ps, k, dir, j2) implies {
                let cc = ps[k].cell.spec_center();
                let dj = point_dist2(ps[c].cell.spec_center(), cc);
                let d2 = point_dist2(ps[j2].cell.spec_center(), cc);
                dj < d2 || (dj == d2 && ps[c].id <= ps[j2].id)
            } by {
                assert(is_candidate(from, dir, ps[j2], f));
            }
        }
        assert(ws.neighbour(dir, screen, gap) == Some(ps[c].id));
        assert(t.leaves().contains(ps[c].id)) by {
            assert(t.leaves()[c] == ps[c].id);
        }
        assert(t.leaves().contains(f)) by {
            assert(t.leaves()[k] == f);
        }
    } else {
        assert forall|i: int| !nearest_at(from, dir, ps, f, i) by {
            if nearest_at(from, dir, ps, f, i) {
                assert(beyond_at(ps, k, dir, i));
            }
        }
        assert(ws.neighbour(dir, screen, gap) is None);
    }
}

} // verus!
