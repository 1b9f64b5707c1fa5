//! The layout tree.
//!
//! A workspace's tiled windows live in a binary tree. Every leaf holds one window and
//! every internal node is a split with an orientation and a ratio. Each split cuts its
//! region into exactly two, so the leaves always form an exact partition of whatever
//! region the root is given.
use vstd::prelude::*;

use crate::geometry::{clamp_int, lemma_split_partitions, lemma_within_trans};
use crate::geometry::{Rect, SplitDir, WindowId, HALF_RATIO, MAX_RATIO, MIN_RATIO, RATIO_SCALE};
use crate::partition::{all_sized, cell_area_sum, cells_disjoint, cells_inside};
use crate::partition::{lemma_cell_sum_concat, rects_inside_cells};

verus! {

broadcast use vstd::seq_lib::group_seq_properties;

/// A single tiled window placement produced by walking the tree.
#[derive(Debug, Clone, Copy, PartialEq, Eq, Structural)]
pub struct Placement {
    pub id: WindowId,
    /// The full cell owned by this window before any gap is applied.
    pub cell: Rect,
    /// The visible window rectangle, the cell shrunk by the gap.
    pub rect: Rect,
}

/// A node in the layout tree.
#[derive(Debug, PartialEq, Eq)]
pub enum Node {
    /// A window at a leaf.
    Leaf(WindowId),
    /// A split of the region into two children; `ratio` is the first child's share in
    /// thousandths, kept in `[MIN_RATIO, MAX_RATIO]`.
    Split { dir: SplitDir, ratio: i64, a: Box<Node>, b: Box<Node> },
}

/// Progress of a resize walk through a subtree.
#[derive(PartialEq, Eq, Structural)]
pub enum ResizeState {
    /// The target leaf is not in this subtree.
    NotHere,
    /// The target leaf is in this subtree but no matching split has been adjusted yet.
    Found,
    /// A split has been adjusted.
    Applied,
}

impl Clone for Node {
    fn clone(&self) -> (r: Node)
        ensures
            r == *self,
        decreases self,
    {
        match self {
            Node::Leaf(x) => Node::Leaf(*x),
            Node::Split { dir, ratio, a, b } => Node::Split {
                dir: *dir,
                ratio: *ratio,
                a: Box::new(Node::clone(a)),
                b: Box::new(Node::clone(b)),
            },
        }
    }
}

pub open spec fn swap_id(id: WindowId, x: WindowId, y: WindowId) -> WindowId {
    if id == x {
        y
    } else if id == y {
        x
    } else {
        id
    }
}

pub open spec fn clamp_ratio(v: int) -> i64 {
    clamp_int(v, MIN_RATIO as int, MAX_RATIO as int) as i64
}

impl Node {
    /// The window ids of the subtree, left to right.
    pub open spec fn leaves(self) -> Seq<WindowId>
        decreases self,
    {
        match self {
            Node::Leaf(x) => seq![x],
            Node::Split { a, b, .. } => a.leaves() + b.leaves(),
        }
    }

    pub open spec fn holds(self, id: WindowId) -> bool {
        self.leaves().contains(id)
    }

    /// Every split ratio lies in `[MIN_RATIO, MAX_RATIO]`.
    pub open spec fn ratios_ok(self) -> bool
        decreases self,
    {
        match self {
            Node::Leaf(_) => true,
            Node::Split { ratio, a, b, .. } => MIN_RATIO <= ratio <= MAX_RATIO && a.ratios_ok()
                && b.ratios_ok(),
        }
    }

    /// Ratios in range and no window twice.
    pub open spec fn wf(self) -> bool {
        self.ratios_ok() && self.leaves().no_duplicates()
    }

    /// The placements of the subtree over `area`: each split divides its area with
    /// `Rect::split`, each leaf takes its area as cell and the inset area as window.
    pub open spec fn layout(self, area: Rect, gap: int) -> Seq<Placement>
        decreases self,
    {
        match self {
            Node::Leaf(id) => seq![Placement { id, cell: area, rect: area.spec_inset(gap) }],
            Node::Split { dir, ratio, a, b } => {
                let (ra, rb) = area.spec_split(dir, ratio as int);
                a.layout(ra, gap) + b.layout(rb, gap)
            },
        }
    }

    /// The tree after splitting the leftmost leaf `target`, and whether it was found.
    pub open spec fn inserted(
        self,
        target: WindowId,
        new_id: WindowId,
        dir: SplitDir,
        new_first: bool,
    ) -> (Node, bool)
        decreases self,
    {
        match self {
            Node::Leaf(id) => if id == target {
                let existing = Node::Leaf(id);
                let fresh = Node::Leaf(new_id);
                (
                    Node::Split {
                        dir,
                        ratio: HALF_RATIO,
                        a: Box::new(if new_first { fresh } else { existing }),
                        b: Box::new(if new_first { existing } else { fresh }),
                    },
                    true,
                )
            } else {
                (self, false)
            },
            Node::Split { dir: d, ratio, a, b } => {
                let (na, fa) = a.inserted(target, new_id, dir, new_first);
                if fa {
                    (Node::Split { dir: d, ratio, a: Box::new(na), b }, true)
                } else {
                    let (nb, fb) = b.inserted(target, new_id, dir, new_first);
                    (Node::Split { dir: d, ratio, a, b: Box::new(nb) }, fb)
                }
            },
        }
    }

    /// The tree with the ids `x` and `y` exchanged at every leaf.
    pub open spec fn swapped(self, x: WindowId, y: WindowId) -> Node
        decreases self,
    {
        match self {
            Node::Leaf(id) => Node::Leaf(swap_id(id, x, y)),
            Node::Split { dir, ratio, a, b } => Node::Split {
                dir,
                ratio,
                a: Box::new(a.swapped(x, y)),
                b: Box::new(b.swapped(x, y)),
            },
        }
    }

    /// The tree after nudging the nearest ancestor split of `id` with orientation `want`
    /// by `delta` (added on the first side, subtracted on the second, then clamped).
    pub open spec fn resized(self, id: WindowId, want: SplitDir, delta: int) -> (Node, ResizeState)
        decreases self,
    {
        match self {
            Node::Leaf(x) => (self, if x == id { ResizeState::Found } else { ResizeState::NotHere }),
            Node::Split { dir, ratio, a, b } => {
                let (na, sa) = a.resized(id, want, delta);
                match sa {
                    ResizeState::Applied => (
                        Node::Split { dir, ratio, a: Box::new(na), b },
                        ResizeState::Applied,
                    ),
                    ResizeState::Found => if dir == want {
                        (
                            Node::Split { dir, ratio: clamp_ratio(ratio + delta), a: Box::new(na), b },
                            ResizeState::Applied,
                        )
                    } else {
                        (Node::Split { dir, ratio, a: Box::new(na), b }, ResizeState::Found)
                    },
                    ResizeState::NotHere => {
                        let (nb, sb) = b.resized(id, want, delta);
                        match sb {
                            ResizeState::Applied => (
                                Node::Split { dir, ratio, a: Box::new(na), b: Box::new(nb) },
                                ResizeState::Applied,
                            ),
                            ResizeState::Found => if dir == want {
                                (
                                    Node::Split {
                                        dir,
                                        ratio: clamp_ratio(ratio - delta),
                                        a: Box::new(na),
                                        b: Box::new(nb),
                                    },
                                    ResizeState::Applied,
                                )
                            } else {
                                (
                                    Node::Split { dir, ratio, a: Box::new(na), b: Box::new(nb) },
                                    ResizeState::Found,
                                )
                            },
                            ResizeState::NotHere => (
                                Node::Split { dir, ratio, a: Box::new(na), b: Box::new(nb) },
                                ResizeState::NotHere,
                            ),
                        }
                    },
                }
            },
        }
    }

    /// The tree after removing the leftmost leaf `id`, its sibling promoted into the
    /// parent's place, and whether it was found.
    pub open spec fn removed(self, id: WindowId) -> (Option<Node>, bool)
        decreases self,
    {
        match self {
            Node::Leaf(x) => if x == id {
                (None, true)
            } else {
                (Some(self), false)
            },
            Node::Split { dir, ratio, a, b } => {
                let (na, fa) = a.removed(id);
                if fa {
                    match na {
                        Some(n) => (Some(Node::Split { dir, ratio, a: Box::new(n), b }), true),
                        None => (Some(*b), true),
                    }
                } else {
                    let (nb, fb) = b.removed(id);
                    if fb {
                        match nb {
                            Some(n) => (Some(Node::Split { dir, ratio, a, b: Box::new(n) }), true),
                            None => (Some(*a), true),
                        }
                    } else {
                        (Some(self), false)
                    }
                }
            },
        }
    }

    /// The share, in thousandths, that the side holding `id` has at its nearest ancestor
    /// split of orientation `want`: the ratio when `id` is on the first side, the rest of
    /// the parent when it is on the second. None when no such split exists.
    pub open spec fn side_share(self, id: WindowId, want: SplitDir) -> Option<int>
        decreases self,
    {
        match self {
            Node::Leaf(_) => None,
            Node::Split { dir, ratio, a, b } => if a.holds(id) {
                match a.side_share(id, want) {
                    Some(s) => Some(s),
                    None => if dir == want {
                        Some(ratio as int)
                    } else {
                        None
                    },
                }
            } else if b.holds(id) {
                match b.side_share(id, want) {
                    Some(s) => Some(s),
                    None => if dir == want {
                        Some(RATIO_SCALE - ratio)
                    } else {
                        None
                    },
                }
            } else {
                None
            },
        }
    }

    /// Number of windows in the subtree.
    pub fn leaf_count(&self) -> (n: usize)
        requires
            self.leaves().len() <= usize::MAX,
        ensures
            n == self.leaves().len(),
        decreases self,
    {
        match self {
            Node::Leaf(_) => 1,
            Node::Split { a, b, .. } => a.leaf_count() + b.leaf_count(),
        }
    }

    /// True when `id` is somewhere in the subtree.
    pub fn contains(&self, id: WindowId) -> (r: bool)
        ensures
            r == self.holds(id),
        decreases self,
    {
        match self {
            Node::Leaf(x) => {
                assert(self.leaves() =~= seq![*x]);
                *x == id
            },
            Node::Split { a, b, .. } => a.contains(id) || b.contains(id),
        }
    }

    /// Append every window id in the subtree, left to right.
    pub fn window_ids(&self, out: &mut Vec<WindowId>)
        ensures
            final(out)@ == old(out)@ + self.leaves(),
        decreases self,
    {
        match self {
            Node::Leaf(x) => {
                out.push(*x);
            },
            Node::Split { a, b, .. } => {
                let ghost before = out@;
                a.window_ids(out);
                b.window_ids(out);
                assert(out@ =~= before + (a.leaves() + b.leaves()));
            },
        }
    }

    /// The first (leftmost) window id in the subtree.
    pub fn first_leaf(&self) -> (id: WindowId)
        ensures
            self.leaves().len() > 0,
            id == self.leaves()[0],
        decreases self,
    {
        proof {
            lemma_leaves_nonempty(*self);
        }
        match self {
            Node::Leaf(x) => *x,
            Node::Split { a, .. } => {
                proof {
                    lemma_leaves_nonempty(**a);
                }
                a.first_leaf()
            },
        }
    }

    /// Walk the subtree over `area`, appending a placement per window. Each split divides
    /// its area exactly in two, so the cells always tile `area`.
    pub fn collect(&self, area: Rect, gap: i64, out: &mut Vec<Placement>)
        requires
            area.sized(),
            area.edges_fit(),
        ensures
            final(out)@ == old(out)@ + self.layout(area, gap as int),
        decreases self,
    {
        match self {
            Node::Leaf(id) => {
                out.push(Placement { id: *id, cell: area, rect: area.inset(gap) });
            },
            Node::Split { dir, ratio, a, b } => {
                let (ra, rb) = area.split(*dir, *ratio);
                let ghost before = out@;
                a.collect(ra, gap, out);
                b.collect(rb, gap, out);
                assert(out@ =~= before + (a.layout(ra, gap as int) + b.layout(rb, gap as int)));
            },
        }
    }

    /// Split the leftmost leaf holding `target`, adding `new_id` as a sibling with ratio
    /// one half. The existing window keeps its place. Returns false, leaving the tree
    /// unchanged, when `target` is not a leaf of this subtree.
    pub fn insert(&mut self, target: WindowId, new_id: WindowId, dir: SplitDir, new_first: bool) -> (r:
        bool)
        ensures
            (*final(self), r) == old(self).inserted(target, new_id, dir, new_first),
            r == old(self).holds(target),
            !r ==> *final(self) == *old(self),
        decreases *old(self),
    {
        proof {
            lemma_inserted_found(*old(self), target, new_id, dir, new_first);
        }
        match self {
            Node::Leaf(id) => {
                if *id == target {
                    let existing = Node::Leaf(*id);
                    let fresh = Node::Leaf(new_id);
                    let (a, b) = if new_first {
                        (fresh, existing)
                    } else {
                        (existing, fresh)
                    };
                    *self = Node::Split { dir, ratio: HALF_RATIO, a: Box::new(a), b: Box::new(b) };
                    true
                } else {
                    false
                }
            },
            Node::Split { a, b, .. } => {
                if a.insert(target, new_id, dir, new_first) {
                    true
                } else {
                    b.insert(target, new_id, dir, new_first)
                }
            },
        }
    }

    /// Swap the positions of two windows in the tree. Returns true, having exchanged
    /// them, when the ids differ and both are in the tree; otherwise the tree is unchanged.
    pub fn swap(&mut self, x: WindowId, y: WindowId) -> (r: bool)
        ensures
            r == (x != y && old(self).holds(x) && old(self).holds(y)),
            r ==> *final(self) == old(self).swapped(x, y),
            !r ==> *final(self) == *old(self),
    {
        if x == y || !self.contains(x) || !self.contains(y) {
            return false;
        }
        self.swap_inner(x, y);
        true
    }

    fn swap_inner(&mut self, x: WindowId, y: WindowId)
        ensures
            *final(self) == old(self).swapped(x, y),
        decreases *old(self),
    {
        match self {
            Node::Leaf(id) => {
                if *id == x {
                    *id = y;
                } else if *id == y {
                    *id = x;
                }
            },
            Node::Split { a, b, .. } => {
                a.swap_inner(x, y);
                b.swap_inner(x, y);
            },
        }
    }

    /// Adjust the ratio of the nearest ancestor split of `id` whose orientation is `want`.
    /// `delta` (in thousandths) is added when the leaf is on the first side and subtracted
    /// when it is on the second, so a positive delta always grows that window. The ratio
    /// is clamped to `[MIN_RATIO, MAX_RATIO]`. Returns whether a split was adjusted.
    pub fn resize(&mut self, id: WindowId, want: SplitDir, delta: i64) -> (r: bool)
        ensures
            *final(self) == old(self).resized(id, want, delta as int).0,
            r == (old(self).resized(id, want, delta as int).1 == ResizeState::Applied),
    {
        let st = self.resize_inner(id, want, delta as i128);
        match st {
            ResizeState::Applied => true,
            _ => false,
        }
    }

    pub(crate) fn resize_inner(&mut self, id: WindowId, want: SplitDir, delta: i128) -> (st: ResizeState)
        requires
            -0x1_0000_0000_0000_0000 <= delta <= 0x1_0000_0000_0000_0000,
        ensures
            (*final(self), st) == old(self).resized(id, want, delta as int),
        decreases *old(self),
    {
        match self {
            Node::Leaf(x) => {
                if *x == id {
                    ResizeState::Found
                } else {
                    ResizeState::NotHere
                }
            },
            Node::Split { dir, ratio, a, b } => {
                match a.resize_inner(id, want, delta) {
                    ResizeState::Applied => return ResizeState::Applied,
                    ResizeState::Found => {
                        if *dir == want {
                            *ratio = clamp_i128(*ratio as i128 + delta);
                            return ResizeState::Applied;
                        }
                        return ResizeState::Found;
                    },
                    ResizeState::NotHere => {},
                }
                match b.resize_inner(id, want, delta) {
                    ResizeState::Applied => ResizeState::Applied,
                    ResizeState::Found => {
                        if *dir == want {
                            *ratio = clamp_i128(*ratio as i128 - delta);
                            ResizeState::Applied
                        } else {
                            ResizeState::Found
                        }
                    },
                    ResizeState::NotHere => ResizeState::NotHere,
                }
            },
        }
    }

    /// True when every ratio in the tree is inside the legal range.
    pub fn ratios_in_range(&self) -> (r: bool)
        ensures
            r == self.ratios_ok(),
        decreases self,
    {
        match self {
            Node::Leaf(_) => true,
            Node::Split { ratio, a, b, .. } => MIN_RATIO <= *ratio && *ratio <= MAX_RATIO
                && a.ratios_in_range() && b.ratios_in_range(),
        }
    }
}

fn clamp_i128(v: i128) -> (r: i64)
    ensures
        r == clamp_ratio(v as int),
{
    if v < MIN_RATIO as i128 {
        MIN_RATIO
    } else if v > MAX_RATIO as i128 {
        MAX_RATIO
    } else {
        v as i64
    }
}

pub open spec fn spec_remove(node: Option<Node>, id: WindowId) -> (Option<Node>, bool) {
    match node {
        None => (None, false),
        Some(n) => n.removed(id),
    }
}

/// Remove the window `id` from an optional tree, promoting its sibling into its place.
/// Returns the new tree and whether the window was found; removing the only window
/// leaves no tree.
pub fn remove(node: Option<Node>, id: WindowId) -> (r: (Option<Node>, bool))
    ensures
        r == spec_remove(node, id),
{
    match node {
        None => (None, false),
        Some(n) => remove_node(n, id),
    }
}

fn remove_node(node: Node, id: WindowId) -> (r: (Option<Node>, bool))
    ensures
        r == node.removed(id),
    decreases node,
{
    proof {
        lemma_removed_found(node, id);
    }
    match node {
        Node::Leaf(x) => {
            if x == id {
                (None, true)
            } else {
                (Some(Node::Leaf(x)), false)
            }
        },
        Node::Split { dir, ratio, a, b } => {
            let (na, found_a) = remove_node(*a, id);
            if found_a {
                return match na {
                    Some(n) => (Some(Node::Split { dir, ratio, a: Box::new(n), b }), true),
                    None => (Some(*b), true),
                };
            }
            let a = na.expect("sibling A preserved when target not found");
            let (nb, found_b) = remove_node(*b, id);
            if found_b {
                return match nb {
                    Some(n) => (Some(Node::Split { dir, ratio, a: Box::new(a), b: Box::new(n) }), true),
                    None => (Some(a), true),
                };
            }
            let b = nb.expect("sibling B preserved when target not found");
            (Some(Node::Split { dir, ratio, a: Box::new(a), b: Box::new(b) }), false)
        },
    }
}

pub proof fn lemma_leaves_nonempty(n: Node)
    ensures
        n.leaves().len() > 0,
    decreases n,
{
    if let Node::Split { a, b, .. } = n {
        lemma_leaves_nonempty(*a);
    }
}

/// Inserting succeeds exactly when the target is a leaf; otherwise nothing changes.
pub proof fn lemma_inserted_found(
    n: Node,
    target: WindowId,
    new_id: WindowId,
    dir: SplitDir,
    new_first: bool,
)
    ensures
        n.inserted(target, new_id, dir, new_first).1 == n.holds(target),
        !n.inserted(target, new_id, dir, new_first).1 ==> n.inserted(
            target,
            new_id,
            dir,
            new_first,
        ).0 == n,
    decreases n,
{
    match n {
        Node::Leaf(x) => {
            assert(n.leaves() =~= seq![x]);
        },
        Node::Split { a, b, .. } => {
            lemma_inserted_found(*a, target, new_id, dir, new_first);
            lemma_inserted_found(*b, target, new_id, dir, new_first);
        },
    }
}

/// Removing succeeds exactly when the window is a leaf; otherwise nothing changes.
pub proof fn lemma_removed_found(n: Node, id: WindowId)
    ensures
        n.removed(id).1 == n.holds(id),
        !n.removed(id).1 ==> n.removed(id).0 == Some(n),
    decreases n,
{
    match n {
        Node::Leaf(x) => {
            assert(n.leaves() =~= seq![x]);
        },
        Node::Split { a, b, .. } => {
            lemma_removed_found(*a, id);
            lemma_removed_found(*b, id);
        },
    }
}

} // verus!

verus! {

pub proof fn lemma_leaf_holds(x: WindowId, id: WindowId)
    ensures
        Node::Leaf(x).holds(id) <==> x == id,
        Node::Leaf(x).leaves() == seq![x],
{
    assert(Node::Leaf(x).leaves() =~= seq![x]);
    if Node::Leaf(x).holds(id) {
        assert(Node::Leaf(x).leaves()[0] == id);
    }
}

pub proof fn lemma_no_dup_concat<A>(s1: Seq<A>, s2: Seq<A>)
    ensures
        (s1 + s2).no_duplicates() <==> (s1.no_duplicates() && s2.no_duplicates() && forall|x: A|
            s1.contains(x) ==> !s2.contains(x)),
{
    let s = s1 + s2;
    if s.no_duplicates() {
        assert forall|i: int, j: int|
            0 <= i < s1.len() && 0 <= j < s1.len() && i != j implies s1[i] != s1[j] by {
            assert(s[i] == s1[i] && s[j] == s1[j]);
        }
        assert forall|i: int, j: int|
            0 <= i < s2.len() && 0 <= j < s2.len() && i != j implies s2[i] != s2[j] by {
            assert(s[i + s1.len()] == s2[i] && s[j + s1.len()] == s2[j]);
        }
        assert forall|x: A| s1.contains(x) implies !s2.contains(x) by {
            if s2.contains(x) {
                let i = choose|i: int| 0 <= i < s1.len() && s1[i] == x;
                let j = choose|j: int| 0 <= j < s2.len() && s2[j] == x;
                assert(s[i] == x && s[j + s1.len()] == x);
            }
        }
    }
    if s1.no_duplicates() && s2.no_duplicates() && forall|x: A| s1.contains(x) ==> !s2.contains(x) {
        assert forall|i: int, j: int| 0 <= i < s1.len() && 0 <= j < s2.len() implies s1[i]
            != s2[j] by {
            assert(s1.contains(s1[i]));
        }
        vstd::seq_lib::lemma_no_dup_in_concat(s1, s2);
    }
}

/// Splitting a leaf adds exactly the new window.
pub proof fn lemma_inserted_holds(
    n: Node,
    target: WindowId,
    new_id: WindowId,
    dir: SplitDir,
    new_first: bool,
)
    requires
        n.holds(target),
    ensures
        n.inserted(target, new_id, dir, new_first).0.leaves().len() == n.leaves().len() + 1,
        forall|y: WindowId|
            #[trigger] n.inserted(target, new_id, dir, new_first).0.holds(y) <==> (n.holds(y) || y
                == new_id),
    decreases n,
{
    let m = n.inserted(target, new_id, dir, new_first).0;
    match n {
        Node::Leaf(x) => {
            lemma_leaf_holds(x, target);
            let la = Node::Leaf(x).leaves();
            let lb = Node::Leaf(new_id).leaves();
            assert(la =~= seq![x]);
            assert(lb =~= seq![new_id]);
            if new_first {
                assert(m.leaves() == lb + la);
            } else {
                assert(m.leaves() == la + lb);
            }
            assert forall|y: WindowId| m.holds(y) <==> (n.holds(y) || y == new_id) by {
                lemma_leaf_holds(x, y);
                lemma_leaf_holds(new_id, y);
            }
        },
        Node::Split { dir: d, ratio, a, b } => {
            lemma_inserted_found(*a, target, new_id, dir, new_first);
            if a.holds(target) {
                lemma_inserted_holds(*a, target, new_id, dir, new_first);
                let na = a.inserted(target, new_id, dir, new_first).0;
                assert(m.leaves() == na.leaves() + b.leaves());
                assert forall|y: WindowId| m.holds(y) <==> (n.holds(y) || y == new_id) by {
                    assert(na.holds(y) <==> (a.holds(y) || y == new_id));
                }
            } else {
                lemma_inserted_holds(*b, target, new_id, dir, new_first);
                let nb = b.inserted(target, new_id, dir, new_first).0;
                assert(m.leaves() == a.leaves() + nb.leaves());
                assert forall|y: WindowId| m.holds(y) <==> (n.holds(y) || y == new_id) by {
                    assert(nb.holds(y) <==> (b.holds(y) || y == new_id));
                }
            }
        },
    }
}

/// Splitting a leaf keeps every ratio in range: the new split starts at one half.
pub proof fn lemma_inserted_ratios(
    n: Node,
    target: WindowId,
    new_id: WindowId,
    dir: SplitDir,
    new_first: bool,
)
    requires
        n.ratios_ok(),
    ensures
        n.inserted(target, new_id, dir, new_first).0.ratios_ok(),
    decreases n,
{
    match n {
        Node::Leaf(x) => {
            assert(Node::Leaf(x).ratios_ok() && Node::Leaf(new_id).ratios_ok());
        },
        Node::Split { a, b, .. } => {
            lemma_inserted_ratios(*a, target, new_id, dir, new_first);
            lemma_inserted_ratios(*b, target, new_id, dir, new_first);
        },
    }
}

/// Splitting a leaf of a well formed tree with a fresh window keeps it well formed.
pub proof fn lemma_inserted_wf(
    n: Node,
    target: WindowId,
    new_id: WindowId,
    dir: SplitDir,
    new_first: bool,
)
    requires
        n.wf(),
        n.holds(target),
        !n.holds(new_id),
    ensures
        n.inserted(target, new_id, dir, new_first).0.wf(),
    decreases n,
{
    lemma_inserted_ratios(n, target, new_id, dir, new_first);
    let m = n.inserted(target, new_id, dir, new_first).0;
    match n {
        Node::Leaf(x) => {
            lemma_leaf_holds(x, target);
            lemma_leaf_holds(x, new_id);
            let la = Node::Leaf(x).leaves();
            let lb = Node::Leaf(new_id).leaves();
            assert forall|y: WindowId| la.contains(y) implies !lb.contains(y) by {
                lemma_leaf_holds(x, y);
                lemma_leaf_holds(new_id, y);
            }
            assert forall|y: WindowId| lb.contains(y) implies !la.contains(y) by {
                lemma_leaf_holds(x, y);
                lemma_leaf_holds(new_id, y);
            }
            lemma_no_dup_concat(la, lb);
            lemma_no_dup_concat(lb, la);
            if new_first {
                assert(m.leaves() == lb + la);
            } else {
                assert(m.leaves() == la + lb);
            }
        },
        Node::Split { dir: d, ratio, a, b } => {
            lemma_inserted_found(*a, target, new_id, dir, new_first);
            lemma_no_dup_concat(a.leaves(), b.leaves());
            if a.holds(target) {
                lemma_inserted_wf(*a, target, new_id, dir, new_first);
                lemma_inserted_holds(*a, target, new_id, dir, new_first);
                let na = a.inserted(target, new_id, dir, new_first).0;
                assert(m.leaves() == na.leaves() + b.leaves());
                assert forall|y: WindowId| na.leaves().contains(y) implies !b.leaves().contains(y) by {
                    assert(na.holds(y));
                }
                lemma_no_dup_concat(na.leaves(), b.leaves());
            } else {
                lemma_inserted_found(*b, target, new_id, dir, new_first);
                lemma_inserted_wf(*b, target, new_id, dir, new_first);
                lemma_inserted_holds(*b, target, new_id, dir, new_first);
                let nb = b.inserted(target, new_id, dir, new_first).0;
                assert(m.leaves() == a.leaves() + nb.leaves());
                assert forall|y: WindowId| a.leaves().contains(y) implies !nb.leaves().contains(y) by {
                    assert(a.holds(y));
                    assert(nb.holds(y) <==> (b.holds(y) || y == new_id));
                }
                lemma_no_dup_concat(a.leaves(), nb.leaves());
            }
        },
    }
}

/// Removing a window of a tree without repeated windows takes exactly that window out,
/// promoting its sibling; removing the only window leaves no tree.
pub proof fn lemma_removed_holds(n: Node, id: WindowId)
    requires
        n.leaves().no_duplicates(),
        n.holds(id),
    ensures
        n.removed(id).0 is None <==> n.leaves() == seq![id],
        n.removed(id).0 matches Some(m) ==> m.leaves().len() + 1 == n.leaves().len() && (forall|
            y: WindowId,
        | #[trigger] m.holds(y) <==> (n.holds(y) && y != id)) && m.leaves().no_duplicates(),
    decreases n,
{
    match n {
        Node::Leaf(x) => {
            lemma_leaf_holds(x, id);
        },
        Node::Split { dir, ratio, a, b } => {
            lemma_no_dup_concat(a.leaves(), b.leaves());
            lemma_removed_found(*a, id);
            lemma_removed_found(*b, id);
            lemma_leaves_nonempty(*a);
            lemma_leaves_nonempty(*b);
            if a.holds(id) {
                lemma_removed_holds(*a, id);
                assert(!b.holds(id));
                match a.removed(id).0 {
                    Some(na) => {
                        let m = Node::Split { dir, ratio, a: Box::new(na), b };
                        assert(n.removed(id).0 == Some(m));
                        assert(m.leaves() == na.leaves() + b.leaves());
                        assert forall|y: WindowId| na.leaves().contains(y) implies !b.leaves().contains(y) by {
                            assert(na.holds(y));
                        }
                        lemma_no_dup_concat(na.leaves(), b.leaves());
                        assert forall|y: WindowId| #[trigger] m.holds(y) <==> (n.holds(y) && y != id) by {
                            assert(na.holds(y) <==> (a.holds(y) && y != id));
                        }
                    },
                    None => {
                        assert(a.leaves() =~= seq![id]);
                        assert forall|y: WindowId| b.holds(y) <==> (n.holds(y) && y != id) by {
                            lemma_leaf_holds(id, y);
                            assert(n.leaves() == seq![id] + b.leaves());
                        }
                    },
                }
            } else {
                lemma_removed_holds(*b, id);
                match b.removed(id).0 {
                    Some(nb) => {
                        let m = Node::Split { dir, ratio, a, b: Box::new(nb) };
                        assert(n.removed(id).0 == Some(m));
                        assert(m.leaves() == a.leaves() + nb.leaves());
                        assert forall|y: WindowId| a.leaves().contains(y) implies !nb.leaves().contains(y) by {
                            assert(a.holds(y));
                            assert(nb.holds(y) <==> (b.holds(y) && y != id));
                        }
                        lemma_no_dup_concat(a.leaves(), nb.leaves());
                        assert forall|y: WindowId| #[trigger] m.holds(y) <==> (n.holds(y) && y != id) by {
                            assert(nb.holds(y) <==> (b.holds(y) && y != id));
                        }
                    },
                    None => {
                        assert(b.leaves() =~= seq![id]);
                        assert forall|y: WindowId| a.holds(y) <==> (n.holds(y) && y != id) by {
                            assert(n.leaves() == a.leaves() + seq![id]);
                        }
                    },
                }
            }
        },
    }
}

/// Removing a window keeps every remaining ratio in range.
pub proof fn lemma_removed_ratios(n: Node, id: WindowId)
    requires
        n.ratios_ok(),
    ensures
        n.removed(id).0 matches Some(m) ==> m.ratios_ok(),
    decreases n,
{
    match n {
        Node::Leaf(_) => {},
        Node::Split { a, b, .. } => {
            lemma_removed_ratios(*a, id);
            lemma_removed_ratios(*b, id);
        },
    }
}

/// Closing a window right after opening it restores the exact prior tree: removing a
/// fresh window promotes its sibling back to where the split leaf used to be.
pub proof fn lemma_remove_after_insert(
    t: Node,
    target: WindowId,
    new_id: WindowId,
    dir: SplitDir,
    new_first: bool,
)
    requires
        t.holds(target),
        !t.holds(new_id),
    ensures
        t.inserted(target, new_id, dir, new_first).0.removed(new_id) == (Some(t), true),
    decreases t,
{
    match t {
        Node::Leaf(x) => {
            lemma_leaf_holds(x, target);
            lemma_leaf_holds(x, new_id);
            assert(Node::Leaf(x).removed(new_id) == (Some(Node::Leaf(x)), false));
            assert(Node::Leaf(new_id).removed(new_id) == (None::<Node>, true));
        },
        Node::Split { dir: d, ratio, a, b } => {
            lemma_inserted_found(*a, target, new_id, dir, new_first);
            lemma_removed_found(*a, new_id);
            lemma_removed_found(*b, new_id);
            if a.holds(target) {
                lemma_remove_after_insert(*a, target, new_id, dir, new_first);
            } else {
                lemma_remove_after_insert(*b, target, new_id, dir, new_first);
            }
        },
    }
}

/// Swapping exchanges the two ids at every leaf and keeps the tree well formed.
pub proof fn lemma_swapped_leaves(n: Node, x: WindowId, y: WindowId)
    ensures
        n.swapped(x, y).leaves() == n.leaves().map_values(|id: WindowId| swap_id(id, x, y)),
        n.ratios_ok() ==> n.swapped(x, y).ratios_ok(),
        n.leaves().no_duplicates() ==> n.swapped(x, y).leaves().no_duplicates(),
        forall|z: WindowId| n.swapped(x, y).holds(z) <==> n.holds(swap_id(z, x, y)),
    decreases n,
{
    let f = |id: WindowId| swap_id(id, x, y);
    match n {
        Node::Leaf(id) => {
            assert(n.swapped(x, y).leaves() =~= n.leaves().map_values(f));
        },
        Node::Split { a, b, .. } => {
            lemma_swapped_leaves(*a, x, y);
            lemma_swapped_leaves(*b, x, y);
            assert(n.swapped(x, y).leaves() =~= n.leaves().map_values(f));
        },
    }
    let s = n.leaves();
    let t = n.swapped(x, y).leaves();
    assert forall|z: WindowId| t.contains(z) <==> s.contains(swap_id(z, x, y)) by {
        if t.contains(z) {
            let i = choose|i: int| 0 <= i < t.len() && t[i] == z;
            assert(s[i] == swap_id(z, x, y));
        }
        if s.contains(swap_id(z, x, y)) {
            let i = choose|i: int| 0 <= i < s.len() && s[i] == swap_id(z, x, y);
            assert(t[i] == z);
        }
    }
    if s.no_duplicates() {
        assert forall|i: int, j: int| 0 <= i < t.len() && 0 <= j < t.len() && i != j implies t[i]
            != t[j] by {
            assert(s[i] != s[j]);
        }
    }
}

/// A resize never changes the windows; it keeps ratios in range, and a walk that did not
/// apply changes nothing.
pub proof fn lemma_resized_shape(n: Node, id: WindowId, want: SplitDir, delta: int)
    ensures
        n.resized(id, want, delta).0.leaves() == n.leaves(),
        n.ratios_ok() ==> n.resized(id, want, delta).0.ratios_ok(),
        n.resized(id, want, delta).1 != ResizeState::Applied ==> n.resized(id, want, delta).0 == n,
        (n.resized(id, want, delta).1 == ResizeState::NotHere) <==> !n.holds(id),
    decreases n,
{
    match n {
        Node::Leaf(x) => {
            assert(n.leaves() =~= seq![x]);
        },
        Node::Split { a, b, .. } => {
            lemma_resized_shape(*a, id, want, delta);
            lemma_resized_shape(*b, id, want, delta);
        },
    }
}

/// The placements of a layout follow the leaves, one per window, left to right.
pub proof fn lemma_layout_ids(n: Node, area: Rect, gap: int)
    ensures
        n.layout(area, gap).len() == n.leaves().len(),
        forall|i: int|
            0 <= i < n.leaves().len() ==> (#[trigger] n.layout(area, gap)[i]).id == n.leaves()[i],
    decreases n,
{
    match n {
        Node::Leaf(x) => {},
        Node::Split { dir, ratio, a, b } => {
            let (ra, rb) = area.spec_split(dir, ratio as int);
            lemma_layout_ids(*a, ra, gap);
            lemma_layout_ids(*b, rb, gap);
            let la = a.layout(ra, gap);
            let lb = b.layout(rb, gap);
            assert forall|i: int| 0 <= i < n.leaves().len() implies (#[trigger] n.layout(
                area,
                gap,
            )[i]).id == n.leaves()[i] by {
                if i < la.len() {
                    assert(n.layout(area, gap)[i] == la[i]);
                } else {
                    assert(n.layout(area, gap)[i] == lb[i - la.len()]);
                }
            }
        },
    }
}

/// The heart of the engine: the cells of a layout exactly partition the region given to
/// the root. Every cell lies inside the region, no two cells overlap, the cell areas sum
/// to the region's area, and every window is its cell inset by the gap.
pub proof fn lemma_layout_partition(n: Node, area: Rect, gap: int)
    requires
        area.sized(),
        area.edges_fit(),
    ensures
        ({
            let ps = n.layout(area, gap);
            &&& all_sized(ps)
            &&& cells_inside(area, ps)
            &&& cells_disjoint(ps)
            &&& rects_inside_cells(ps)
            &&& forall|i: int| 0 <= i < ps.len() ==> (#[trigger] ps[i]).rect == ps[i].cell.spec_inset(gap)
            &&& cell_area_sum(ps) == area.spec_area()
        }),
    decreases n,
{
    let ps = n.layout(area, gap);
    match n {
        Node::Leaf(id) => {
            crate::geometry::lemma_inset_within(area, gap);
            assert(ps.drop_last() =~= Seq::<Placement>::empty());
            assert(cell_area_sum(ps.drop_last()) == 0);
            assert(ps.last().cell == area);
        },
        Node::Split { dir, ratio, a, b } => {
            let (ra, rb) = area.spec_split(dir, ratio as int);
            lemma_split_partitions(area, dir, ratio as int);
            crate::geometry::lemma_within_edges(ra, area);
            crate::geometry::lemma_within_edges(rb, area);
            lemma_layout_partition(*a, ra, gap);
            lemma_layout_partition(*b, rb, gap);
            let la = a.layout(ra, gap);
            let lb = b.layout(rb, gap);
            assert(ps == la + lb);
            lemma_cell_sum_concat(la, lb);
            assert forall|i: int| 0 <= i < ps.len() implies (#[trigger] ps[i]).cell.sized()
                && ps[i].rect.sized() && ps[i].cell.spec_within(area) && ps[i].rect.spec_within(
                ps[i].cell,
            ) && ps[i].rect == ps[i].cell.spec_inset(gap) by {
                if i < la.len() {
                    assert(ps[i] == la[i]);
                    lemma_within_trans(la[i].cell, ra, area);
                } else {
                    assert(ps[i] == lb[i - la.len()]);
                    lemma_within_trans(lb[i - la.len()].cell, rb, area);
                }
            }
            assert forall|i: int, j: int| 0 <= i < j < ps.len() implies !(#[trigger] ps[i]).cell.spec_overlaps(
                (#[trigger] ps[j]).cell,
            ) by {
                if j < la.len() {
                    assert(ps[i] == la[i] && ps[j] == la[j]);
                } else if i >= la.len() {
                    assert(ps[i] == lb[i - la.len()] && ps[j] == lb[j - la.len()]);
                } else {
                    let ci = la[i].cell;
                    let cj = lb[j - la.len()].cell;
                    assert(ps[i] == la[i] && ps[j] == lb[j - la.len()]);
                    assert(ci.spec_within(ra));
                    assert(cj.spec_within(rb));
                }
            }
        },
    }
}

/// No point of the region is left uncovered: every integer point of `area` lies in the
/// cell of some placement of the layout.
pub proof fn lemma_layout_covers(n: Node, area: Rect, gap: int, px: int, py: int)
    requires
        area.sized(),
        area.edges_fit(),
        area.spec_contains_point(px, py),
    ensures
        exists|i: int|
            0 <= i < n.layout(area, gap).len() && (#[trigger] n.layout(area, gap)[i]).cell.spec_contains_point(
                px,
                py,
            ),
    decreases n,
{
    let ps = n.layout(area, gap);
    match n {
        Node::Leaf(id) => {
            assert(ps[0].cell == area);
        },
        Node::Split { dir, ratio, a, b } => {
            let (ra, rb) = area.spec_split(dir, ratio as int);
            lemma_split_partitions(area, dir, ratio as int);
            crate::geometry::lemma_split_offset_range(area.w as int, ratio as int);
            crate::geometry::lemma_split_offset_range(area.h as int, ratio as int);
            crate::geometry::lemma_within_edges(ra, area);
            crate::geometry::lemma_within_edges(rb, area);
            let la = a.layout(ra, gap);
            let lb = b.layout(rb, gap);
            assert(ps == la + lb);
            if ra.spec_contains_point(px, py) {
                lemma_layout_covers(*a, ra, gap, px, py);
                let i = choose|i: int| 0 <= i < la.len() && (#[trigger] la[i]).cell.spec_contains_point(px, py);
                assert(ps[i] == la[i]);
            } else {
                assert(rb.spec_contains_point(px, py));
                lemma_layout_covers(*b, rb, gap, px, py);
                let j = choose|j: int| 0 <= j < lb.len() && (#[trigger] lb[j]).cell.spec_contains_point(px, py);
                assert(ps[la.len() + j] == lb[j]);
            }
        },
    }
}

/// A resize grows the window it is asked to grow: the share of the window's side at its
/// nearest split of orientation `want` becomes that share plus `delta`, clamped to
/// `[MIN_RATIO, MAX_RATIO]`, so a positive delta never shrinks it and grows it until the
/// bound. The resize applies exactly when such a split exists.
pub proof fn lemma_resize_grows(n: Node, id: WindowId, want: SplitDir, delta: int)
    requires
        n.holds(id),
    ensures
        (n.resized(id, want, delta).1 == ResizeState::Applied) <==> n.side_share(id, want) is Some,
        n.side_share(id, want) matches Some(s) ==> n.resized(id, want, delta).0.side_share(id, want)
            == Some(clamp_int(s + delta, MIN_RATIO as int, MAX_RATIO as int)),
        n.ratios_ok() && delta >= 0 ==> (n.side_share(id, want) matches Some(s) ==> s <= clamp_int(
            s + delta,
            MIN_RATIO as int,
            MAX_RATIO as int,
        )),
    decreases n,
{
    match n {
        Node::Leaf(x) => {},
        Node::Split { dir, ratio, a, b } => {
            lemma_resized_shape(*a, id, want, delta);
            lemma_resized_shape(*b, id, want, delta);
            let (na, sa) = a.resized(id, want, delta);
            let (nb, sb) = b.resized(id, want, delta);
            assert(na.holds(id) == a.holds(id));
            assert(nb.holds(id) == b.holds(id));
            if a.holds(id) {
                lemma_resize_grows(*a, id, want, delta);
            } else {
                lemma_resize_grows(*b, id, want, delta);
            }
        },
    }
}

/// Swapping two windows changes no cell and no window rectangle: the two windows only
/// trade places.
pub proof fn lemma_swapped_layout(n: Node, x: WindowId, y: WindowId, area: Rect, gap: int)
    ensures
        n.swapped(x, y).layout(area, gap).len() == n.layout(area, gap).len(),
        forall|i: int|
            0 <= i < n.layout(area, gap).len() ==> {
                let p = #[trigger] n.layout(area, gap)[i];
                let q = n.swapped(x, y).layout(area, gap)[i];
                &&& q.cell == p.cell
                &&& q.rect == p.rect
                &&& q.id == swap_id(p.id, x, y)
            },
    decreases n,
{
    match n {
        Node::Leaf(id) => {},
        Node::Split { dir, ratio, a, b } => {
            let (ra, rb) = area.spec_split(dir, ratio as int);
            lemma_swapped_layout(*a, x, y, ra, gap);
            lemma_swapped_layout(*b, x, y, rb, gap);
            let la = a.layout(ra, gap);
            let lb = b.layout(rb, gap);
            let sa = a.swapped(x, y).layout(ra, gap);
            let sb = b.swapped(x, y).layout(rb, gap);
            assert(n.layout(area, gap) == la + lb);
            assert(n.swapped(x, y).layout(area, gap) == sa + sb);
            assert forall|i: int| 0 <= i < n.layout(area, gap).len() implies {
                let p = #[trigger] n.layout(area, gap)[i];
                let q = n.swapped(x, y).layout(area, gap)[i];
                &&& q.cell == p.cell
                &&& q.rect == p.rect
                &&& q.id == swap_id(p.id, x, y)
            } by {
                if i < la.len() {
                    assert(n.layout(area, gap)[i] == la[i]);
                    assert(n.swapped(x, y).layout(area, gap)[i] == sa[i]);
                } else {
                    assert(n.layout(area, gap)[i] == lb[i - la.len()]);
                    assert(n.swapped(x, y).layout(area, gap)[i] == sb[i - la.len()]);
                }
            }
        },
    }
}

/// The two placements a leaf's cell `c` becomes when it is split along `dir` at one half:
/// `first` takes the first part and `second` the other.
pub open spec fn split_pair(c: Rect, dir: SplitDir, gap: int, first: WindowId, second: WindowId) -> Seq<
    Placement,
> {
    let (c1, c2) = c.spec_split(dir, HALF_RATIO as int);
    seq![
        Placement { id: first, cell: c1, rect: c1.spec_inset(gap) },
        Placement { id: second, cell: c2, rect: c2.spec_inset(gap) },
    ]
}

proof fn lemma_replace_left<A>(la: Seq<A>, lb: Seq<A>, k: int, mid: Seq<A>)
    requires
        0 <= k < la.len(),
    ensures
        (la.take(k) + mid + la.skip(k + 1)) + lb == (la + lb).take(k) + mid + (la + lb).skip(k + 1),
        (la + lb)[k] == la[k],
{
    assert((la + lb).take(k) =~= la.take(k));
    assert((la + lb).skip(k + 1) =~= la.skip(k + 1) + lb);
    assert((la.take(k) + mid + la.skip(k + 1)) + lb =~= (la + lb).take(k) + mid + (la + lb).skip(
        k + 1,
    ));
}

proof fn lemma_replace_right<A>(la: Seq<A>, lb: Seq<A>, k: int, mid: Seq<A>)
    requires
        0 <= k < lb.len(),
    ensures
        la + (lb.take(k) + mid + lb.skip(k + 1)) == (la + lb).take(la.len() + k) + mid + (la
            + lb).skip(la.len() + k + 1),
        (la + lb)[la.len() + k] == lb[k],
{
    let j = la.len() + k;
    assert((la + lb).take(j) =~= la + lb.take(k));
    assert((la + lb).skip(j + 1) =~= lb.skip(k + 1));
    assert(la + (lb.take(k) + mid + lb.skip(k + 1)) =~= (la + lb).take(j) + mid + (la + lb).skip(
        j + 1,
    ));
}

/// Opening splits exactly one cell: the placement of `target`, at the returned index, is
/// replaced by the two halves of its cell, and every other placement stays as it was.
pub proof fn lemma_inserted_layout(
    n: Node,
    target: WindowId,
    new_id: WindowId,
    dir: SplitDir,
    new_first: bool,
    area: Rect,
    gap: int,
) -> (k: int)
    requires
        n.holds(target),
    ensures
        0 <= k < n.layout(area, gap).len(),
        n.layout(area, gap)[k].id == target,
        forall|j: int| 0 <= j < k ==> (#[trigger] n.layout(area, gap)[j]).id != target,
        n.inserted(target, new_id, dir, new_first).0.layout(area, gap) == n.layout(area, gap).take(k)
            + split_pair(
            n.layout(area, gap)[k].cell,
            dir,
            gap,
            if new_first { new_id } else { target },
            if new_first { target } else { new_id },
        ) + n.layout(area, gap).skip(k + 1),
    decreases n,
{
    let ps = n.layout(area, gap);
    let first = if new_first { new_id } else { target };
    let second = if new_first { target } else { new_id };
    let m = n.inserted(target, new_id, dir, new_first).0;
    match n {
        Node::Leaf(x) => {
            lemma_leaf_holds(x, target);
            let fa = Node::Leaf(first);
            let fb = Node::Leaf(second);
            assert(m == Node::Split { dir, ratio: HALF_RATIO, a: Box::new(fa), b: Box::new(fb) });
            let (c1, c2) = area.spec_split(dir, HALF_RATIO as int);
            assert(m.layout(area, gap) == fa.layout(c1, gap) + fb.layout(c2, gap));
            assert(ps[0].cell == area);
            assert(ps.take(0) =~= Seq::<Placement>::empty());
            assert(ps.skip(1) =~= Seq::<Placement>::empty());
            assert(m.layout(area, gap) =~= ps.take(0) + split_pair(ps[0].cell, dir, gap, first, second)
                + ps.skip(1));
            0
        },
        Node::Split { dir: d, ratio, a, b } => {
            let (ra, rb) = area.spec_split(d, ratio as int);
            let la = a.layout(ra, gap);
            let lb = b.layout(rb, gap);
            assert(ps == la + lb);
            lemma_inserted_found(*a, target, new_id, dir, new_first);
            if a.holds(target) {
                let k = lemma_inserted_layout(*a, target, new_id, dir, new_first, ra, gap);
                let na = a.inserted(target, new_id, dir, new_first).0;
                assert forall|j: int| 0 <= j < k implies (#[trigger] ps[j]).id != target by {
                    assert(ps[j] == la[j]);
                }
                assert(m.layout(area, gap) == na.layout(ra, gap) + lb);
                lemma_replace_left(la, lb, k, split_pair(la[k].cell, dir, gap, first, second));
                k
            } else {
                let k = lemma_inserted_layout(*b, target, new_id, dir, new_first, rb, gap);
                let nb = b.inserted(target, new_id, dir, new_first).0;
                lemma_layout_ids(*a, ra, gap);
                assert forall|j: int| 0 <= j < la.len() + k implies (#[trigger] ps[j]).id != target by {
                    if j < la.len() {
                        assert(ps[j] == la[j]);
                        assert(a.leaves()[j] == la[j].id);
                    } else {
                        assert(ps[j] == lb[j - la.len()]);
                    }
                }
                assert(m.layout(area, gap) == la + nb.layout(rb, gap));
                lemma_replace_right(la, lb, k, split_pair(lb[k].cell, dir, gap, first, second));
                la.len() + k
            }
        },
    }
}

} // verus!
