//! Integer geometry primitives.
//!
//! Every coordinate is an `i64`, so a sum of areas is exact and "these rectangles cover
//! the screen" is a precise equality. Split ratios are integers too: a ratio is a share
//! of the parent in thousandths (`RATIO_SCALE`), so a split point is computed exactly.
use vstd::prelude::*;

verus! {

/// A window identifier, assigned by a monotonic counter.
pub type WindowId = u64;

/// A split ratio is the share of the first child in thousandths of the parent.
pub const RATIO_SCALE: i64 = 1000;

/// The smallest ratio a split of the layout tree may hold.
pub const MIN_RATIO: i64 = 50;

/// The largest ratio a split of the layout tree may hold.
pub const MAX_RATIO: i64 = 950;

/// The ratio of a freshly made split: one half.
pub const HALF_RATIO: i64 = 500;

/// The orientation of a split node.
///
/// `Vertical` places its two children side by side and divides the width.
/// `Horizontal` stacks its children top over bottom and divides the height.
#[derive(Debug, Clone, Copy, PartialEq, Eq, Structural)]
pub enum SplitDir {
    Vertical,
    Horizontal,
}

impl SplitDir {
    pub open spec fn flipped(self) -> SplitDir {
        match self {
            SplitDir::Vertical => SplitDir::Horizontal,
            SplitDir::Horizontal => SplitDir::Vertical,
        }
    }

    /// The opposite orientation.
    pub fn flip(self) -> (r: SplitDir)
        ensures
            r == self.flipped(),
            r != self,
    {
        match self {
            SplitDir::Vertical => SplitDir::Horizontal,
            SplitDir::Horizontal => SplitDir::Vertical,
        }
    }
}

/// A compass direction for focus movement and window moves.
#[derive(Debug, Clone, Copy, PartialEq, Eq, Structural)]
pub enum Dir {
    Left,
    Right,
    Up,
    Down,
}

/// An axis aligned rectangle with integer coordinates. `x`, `y` is the top left corner,
/// `w`, `h` are the (non negative) width and height.
#[derive(Debug, Clone, Copy, PartialEq, Eq, Structural)]
pub struct Rect {
    pub x: i64,
    pub y: i64,
    pub w: i64,
    pub h: i64,
}

pub open spec fn fits_i64(v: int) -> bool {
    i64::MIN <= v <= i64::MAX
}

pub open spec fn min_int(a: int, b: int) -> int {
    if a <= b { a } else { b }
}

pub open spec fn clamp_int(v: int, lo: int, hi: int) -> int {
    if v < lo { lo } else if v > hi { hi } else { v }
}

/// `len * ratio / RATIO_SCALE`, rounded to the nearest integer, halves away from zero.
pub open spec fn scaled_round(len: int, ratio: int) -> int {
    let p = len * ratio;
    if p >= 0 {
        (p + RATIO_SCALE / 2) / (RATIO_SCALE as int)
    } else {
        -((-p + RATIO_SCALE / 2) / (RATIO_SCALE as int))
    }
}

/// The offset at which an extent `len` is split at `ratio`: clamped to `[1, len - 1]` so
/// both children keep positive size when `len >= 2`, and the whole extent otherwise.
pub open spec fn split_offset(len: int, ratio: int) -> int {
    if len < 2 {
        if len < 0 { 0 } else { len }
    } else {
        clamp_int(scaled_round(len, ratio), 1, len - 1)
    }
}

impl Rect {
    pub open spec fn make(x: int, y: int, w: int, h: int) -> Rect {
        Rect {
            x: x as i64,
            y: y as i64,
            w: (if w < 0 { 0 } else { w }) as i64,
            h: (if h < 0 { 0 } else { h }) as i64,
        }
    }

    pub open spec fn spec_right(self) -> int {
        self.x + self.w
    }

    pub open spec fn spec_bottom(self) -> int {
        self.y + self.h
    }

    pub open spec fn spec_area(self) -> int {
        self.w * self.h
    }

    /// Width and height are not negative.
    pub open spec fn sized(self) -> bool {
        self.w >= 0 && self.h >= 0
    }

    /// The right and bottom edges are representable.
    pub open spec fn edges_fit(self) -> bool {
        fits_i64(self.spec_right()) && fits_i64(self.spec_bottom())
    }

    /// Sized, with right edge, bottom edge and area representable.
    pub open spec fn sane(self) -> bool {
        self.sized() && self.edges_fit() && fits_i64(self.spec_area())
    }

    /// Sized, with representable edges, and small enough that the squared length of its
    /// diagonal fits in an `i64`: then every area, center and squared distance between
    /// points inside it is representable.
    pub open spec fn bounded(self) -> bool {
        &&& self.sized()
        &&& self.edges_fit()
        &&& self.w * self.w + self.h * self.h <= i64::MAX
    }

    pub open spec fn spec_center(self) -> (int, int) {
        (self.x + self.w / 2, self.y + self.h / 2)
    }

    pub open spec fn spec_within(self, outer: Rect) -> bool {
        &&& self.x >= outer.x
        &&& self.y >= outer.y
        &&& self.spec_right() <= outer.spec_right()
        &&& self.spec_bottom() <= outer.spec_bottom()
    }

    /// The integer point `(px, py)` lies inside the rectangle.
    pub open spec fn spec_contains_point(self, px: int, py: int) -> bool {
        &&& self.x <= px < self.spec_right()
        &&& self.y <= py < self.spec_bottom()
    }

    pub open spec fn spec_overlaps(self, other: Rect) -> bool {
        &&& self.x < other.spec_right()
        &&& other.x < self.spec_right()
        &&& self.y < other.spec_bottom()
        &&& other.y < self.spec_bottom()
        &&& self.spec_area() > 0
        &&& other.spec_area() > 0
    }

    pub open spec fn spec_inset(self, gap: int) -> Rect {
        if gap <= 0 {
            self
        } else {
            let gx = min_int(gap, self.w / 2);
            let gy = min_int(gap, self.h / 2);
            Rect::make(self.x + gx, self.y + gy, self.w - 2 * gx, self.h - 2 * gy)
        }
    }

    pub open spec fn spec_split(self, dir: SplitDir, ratio: int) -> (Rect, Rect) {
        match dir {
            SplitDir::Vertical => {
                let lw = split_offset(self.w as int, ratio);
                (
                    Rect::make(self.x as int, self.y as int, lw, self.h as int),
                    Rect::make(self.x + lw, self.y as int, self.w - lw, self.h as int),
                )
            },
            SplitDir::Horizontal => {
                let th = split_offset(self.h as int, ratio);
                (
                    Rect::make(self.x as int, self.y as int, self.w as int, th),
                    Rect::make(self.x as int, self.y + th, self.w as int, self.h - th),
                )
            },
        }
    }

    /// Construct a rectangle, clamping width and height to be non negative.
    pub fn new(x: i64, y: i64, w: i64, h: i64) -> (r: Rect)
        ensures
            r == Rect::make(x as int, y as int, w as int, h as int),
            r.sized(),
    {
        Rect { x, y, w: if w < 0 { 0 } else { w }, h: if h < 0 { 0 } else { h } }
    }

    /// The area of the rectangle.
    pub fn area(self) -> (a: i64)
        requires
            fits_i64(self.spec_area()),
        ensures
            a == self.spec_area(),
    {
        self.w * self.h
    }

    /// The x coordinate just past the right edge.
    pub fn right(self) -> (r: i64)
        requires
            fits_i64(self.spec_right()),
        ensures
            r == self.spec_right(),
    {
        self.x + self.w
    }

    /// The y coordinate just past the bottom edge.
    pub fn bottom(self) -> (b: i64)
        requires
            fits_i64(self.spec_bottom()),
        ensures
            b == self.spec_bottom(),
    {
        self.y + self.h
    }

    /// The integer center point, used for directional navigation.
    pub fn center(self) -> (c: (i64, i64))
        requires
            self.sized(),
            self.edges_fit(),
        ensures
            c.0 == self.spec_center().0,
            c.1 == self.spec_center().1,
    {
        (self.x + self.w / 2, self.y + self.h / 2)
    }

    /// True when this rectangle sits entirely inside `outer`.
    pub fn within(self, outer: Rect) -> (b: bool)
        requires
            self.edges_fit(),
            outer.edges_fit(),
        ensures
            b == self.spec_within(outer),
    {
        self.x >= outer.x && self.y >= outer.y && self.right() <= outer.right() && self.bottom()
            <= outer.bottom()
    }

    /// True when the two rectangles share any area. Touching edges do not count.
    pub fn overlaps(self, other: Rect) -> (b: bool)
        requires
            self.sane(),
            other.sane(),
        ensures
            b == self.spec_overlaps(other),
    {
        let x_overlap = self.x < other.right() && other.x < self.right();
        let y_overlap = self.y < other.bottom() && other.y < self.bottom();
        x_overlap && y_overlap && self.area() > 0 && other.area() > 0
    }

    /// Shrink the rectangle inward by `gap` on every side, capping the shrink at half the
    /// extent so the result always stays inside the original rectangle.
    pub fn inset(self, gap: i64) -> (r: Rect)
        requires
            self.sized(),
            self.edges_fit(),
        ensures
            r == self.spec_inset(gap as int),
            r.sized(),
            r.spec_within(self),
    {
        if gap <= 0 {
            return self;
        }
        let gx = if gap < self.w / 2 { gap } else { self.w / 2 };
        let gy = if gap < self.h / 2 { gap } else { self.h / 2 };
        Rect::new(self.x + gx, self.y + gy, self.w - 2 * gx, self.h - 2 * gy)
    }

    /// Divide the rectangle into two children along `dir` at `ratio` (in thousandths of
    /// the parent, given to the first child). The children always cover the parent
    /// exactly: the split point is computed once and each child takes one side of it.
    pub fn split(self, dir: SplitDir, ratio: i64) -> (r: (Rect, Rect))
        requires
            self.sized(),
            self.edges_fit(),
        ensures
            r == self.spec_split(dir, ratio as int),
            r.0.sized(),
            r.1.sized(),
            r.0.spec_within(self),
            r.1.spec_within(self),
            r.0.spec_area() + r.1.spec_area() == self.spec_area(),
            !r.0.spec_overlaps(r.1),
            dir == SplitDir::Vertical ==> r.0.spec_right() == r.1.x && r.0.y == r.1.y,
            dir == SplitDir::Horizontal ==> r.0.spec_bottom() == r.1.y && r.0.x == r.1.x,
            dir == SplitDir::Vertical && self.w >= 2 ==> r.0.w >= 1 && r.1.w >= 1,
            dir == SplitDir::Horizontal && self.h >= 2 ==> r.0.h >= 1 && r.1.h >= 1,
    {
        proof {
            lemma_split_partitions(self, dir, ratio as int);
        }
        match dir {
            SplitDir::Vertical => {
                let lw = split_point(self.w, ratio);
                let left = Rect::new(self.x, self.y, lw, self.h);
                let right = Rect::new(self.x + lw, self.y, self.w - lw, self.h);
                (left, right)
            },
            SplitDir::Horizontal => {
                let th = split_point(self.h, ratio);
                let top = Rect::new(self.x, self.y, self.w, th);
                let bottom = Rect::new(self.x, self.y + th, self.w, self.h - th);
                (top, bottom)
            },
        }
    }
}

pub proof fn lemma_mul_bound(a: int, b: int, ba: int, bb: int)
    by (nonlinear_arith)
    requires
        -ba <= a <= ba,
        -bb <= b <= bb,
        ba >= 0,
        bb >= 0,
    ensures
        -(ba * bb) <= a * b <= ba * bb,
{
}

/// Pick the integer split offset for an extent of `len` at `ratio`.
fn split_point(len: i64, ratio: i64) -> (r: i64)
    ensures
        r == split_offset(len as int, ratio as int),
{
    if len < 2 {
        return if len < 0 { 0 } else { len };
    }
    proof {
        lemma_mul_bound(len as int, ratio as int, 0x8000_0000_0000_0000, 0x8000_0000_0000_0000);
    }
    let p: i128 = (len as i128) * (ratio as i128);
    let half: i128 = (RATIO_SCALE / 2) as i128;
    let raw: i128 = if p >= 0 {
        (p + half) / (RATIO_SCALE as i128)
    } else {
        -((-p + half) / (RATIO_SCALE as i128))
    };
    if raw < 1 {
        1
    } else if raw > (len - 1) as i128 {
        len - 1
    } else {
        raw as i64
    }
}

pub proof fn lemma_split_offset_range(len: int, ratio: int)
    ensures
        len >= 0 ==> 0 <= split_offset(len, ratio) <= len,
        len >= 2 ==> 1 <= split_offset(len, ratio) <= len - 1,
{
}

/// Product of non negative extents, monotone in each factor.
pub proof fn lemma_area_mono(w1: int, h1: int, w2: int, h2: int)
    by (nonlinear_arith)
    requires
        0 <= w1 <= w2,
        0 <= h1 <= h2,
    ensures
        0 <= w1 * h1 <= w2 * h2,
{
}

/// A product of non negative extents is positive exactly when both are.
pub proof fn lemma_area_pos(w: int, h: int)
    by (nonlinear_arith)
    requires
        w >= 0,
        h >= 0,
    ensures
        (w * h > 0) <==> (w > 0 && h > 0),
        w * h >= 0,
{
}

/// Splitting along either axis yields two children inside the parent, side by side,
/// whose areas add up to the parent's area and which do not overlap.
pub proof fn lemma_split_partitions(r: Rect, dir: SplitDir, ratio: int)
    requires
        r.sized(),
        r.edges_fit(),
    ensures
        ({
            let (a, b) = r.spec_split(dir, ratio);
            &&& a.sized() && b.sized()
            &&& a.spec_within(r) && b.spec_within(r)
            &&& a.spec_area() + b.spec_area() == r.spec_area()
            &&& !a.spec_overlaps(b)
            &&& dir == SplitDir::Vertical ==> a.spec_right() == b.x && a.y == b.y && a.h == r.h
                && b.h == r.h
            &&& dir == SplitDir::Horizontal ==> a.spec_bottom() == b.y && a.x == b.x && a.w
                == r.w && b.w == r.w
            &&& dir == SplitDir::Vertical && r.w >= 2 ==> a.w >= 1 && b.w >= 1
            &&& dir == SplitDir::Horizontal && r.h >= 2 ==> a.h >= 1 && b.h >= 1
        }),
{
    let (a, b) = r.spec_split(dir, ratio);
    match dir {
        SplitDir::Vertical => {
            let lw = split_offset(r.w as int, ratio);
            lemma_split_offset_range(r.w as int, ratio);
            assert(a.spec_area() + b.spec_area() == r.spec_area()) by (nonlinear_arith)
                requires
                    a.w == lw,
                    b.w == r.w - lw,
                    a.h == r.h,
                    b.h == r.h,
            ;
        },
        SplitDir::Horizontal => {
            let th = split_offset(r.h as int, ratio);
            lemma_split_offset_range(r.h as int, ratio);
            assert(a.spec_area() + b.spec_area() == r.spec_area()) by (nonlinear_arith)
                requires
                    a.h == th,
                    b.h == r.h - th,
                    a.w == r.w,
                    b.w == r.w,
            ;
        },
    }
}

/// Insetting keeps a sized rectangle sized and inside the original.
pub proof fn lemma_inset_within(r: Rect, gap: int)
    requires
        r.sized(),
        r.edges_fit(),
    ensures
        r.spec_inset(gap).sized(),
        r.spec_inset(gap).spec_within(r),
        gap <= 0 ==> r.spec_inset(gap) == r,
{
}

/// A sized rectangle inside one whose edges fit has edges that fit.
pub proof fn lemma_within_edges(r: Rect, outer: Rect)
    requires
        r.sized(),
        outer.sized(),
        outer.edges_fit(),
        r.spec_within(outer),
    ensures
        r.edges_fit(),
{
}

/// A rectangle inside another is no larger than it.
pub proof fn lemma_within_area(r: Rect, outer: Rect)
    requires
        r.sized(),
        outer.sized(),
        r.spec_within(outer),
    ensures
        0 <= r.spec_area() <= outer.spec_area(),
{
    lemma_area_mono(r.w as int, r.h as int, outer.w as int, outer.h as int);
}

/// Within is transitive.
pub proof fn lemma_within_trans(a: Rect, b: Rect, c: Rect)
    requires
        a.spec_within(b),
        b.spec_within(c),
    ensures
        a.spec_within(c),
{
}

/// A sized rectangle inside a bounded one is bounded.
pub proof fn lemma_within_bounded(r: Rect, outer: Rect)
    requires
        r.sized(),
        outer.bounded(),
        r.spec_within(outer),
    ensures
        r.bounded(),
{
    lemma_area_mono(r.w as int, r.w as int, outer.w as int, outer.w as int);
    lemma_area_mono(r.h as int, r.h as int, outer.h as int, outer.h as int);
}

/// Every quantity derived from a bounded rectangle fits in an `i64`.
pub proof fn lemma_bounded_sane(r: Rect)
    requires
        r.bounded(),
    ensures
        r.sane(),
        r.edges_fit(),
        0 <= r.spec_area() <= r.w * r.w + r.h * r.h,
{
    let (w, h) = (r.w as int, r.h as int);
    assert(0 <= w * h <= w * w + h * h) by (nonlinear_arith)
        requires
            w >= 0,
            h >= 0,
    {
        assert((w - h) * (w - h) >= 0);
    }
}

/// Two sized rectangles that contain a common point overlap.
pub proof fn lemma_common_point_overlaps(a: Rect, b: Rect, px: int, py: int)
    requires
        a.sized(),
        b.sized(),
        a.spec_contains_point(px, py),
        b.spec_contains_point(px, py),
    ensures
        a.spec_overlaps(b),
{
    lemma_area_pos(a.w as int, a.h as int);
    lemma_area_pos(b.w as int, b.h as int);
}

/// Rectangles inside two non overlapping rectangles do not overlap either.
pub proof fn lemma_disjoint_inside(r1: Rect, c1: Rect, r2: Rect, c2: Rect)
    requires
        r1.sized(),
        r2.sized(),
        c1.sized(),
        c2.sized(),
        r1.spec_within(c1),
        r2.spec_within(c2),
        !c1.spec_overlaps(c2),
    ensures
        !r1.spec_overlaps(r2),
{
    lemma_area_pos(r1.w as int, r1.h as int);
    lemma_area_pos(r2.w as int, r2.h as int);
    lemma_area_pos(c1.w as int, c1.h as int);
    lemma_area_pos(c2.w as int, c2.h as int);
}

} // verus!
