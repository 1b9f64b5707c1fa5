//! The partition invariant: for any tiled layout the window cells form an exact partition
//! of the screen, and with gaps the visible windows plus the gap area account for the
//! screen exactly.
use vstd::prelude::*;

use crate::geometry::Rect;
use crate::geometry::{fits_i64, lemma_area_pos, lemma_disjoint_inside, lemma_within_area};
use crate::text::{decimal, signed_decimal, strs_view};
use crate::text::{push_decimal, push_signed, push_signed_wide, push_str, string_of};
use crate::tree::Placement;

verus! {

broadcast use vstd::seq_lib::group_seq_properties;

/// Sum of the cell areas.
pub open spec fn cell_area_sum(ps: Seq<Placement>) -> int
    decreases ps.len(),
{
    if ps.len() == 0 {
        0
    } else {
        cell_area_sum(ps.drop_last()) + ps.last().cell.spec_area()
    }
}

/// Sum of the visible window areas.
pub open spec fn rect_area_sum(ps: Seq<Placement>) -> int
    decreases ps.len(),
{
    if ps.len() == 0 {
        0
    } else {
        rect_area_sum(ps.drop_last()) + ps.last().rect.spec_area()
    }
}

pub open spec fn all_sized(ps: Seq<Placement>) -> bool {
    forall|i: int| 0 <= i < ps.len() ==> (#[trigger] ps[i]).cell.sized() && ps[i].rect.sized()
}

pub open spec fn cells_inside(screen: Rect, ps: Seq<Placement>) -> bool {
    forall|i: int| 0 <= i < ps.len() ==> (#[trigger] ps[i]).cell.spec_within(screen)
}

pub open spec fn rects_inside_cells(ps: Seq<Placement>) -> bool {
    forall|i: int| 0 <= i < ps.len() ==> (#[trigger] ps[i]).rect.spec_within(ps[i].cell)
}

pub open spec fn cells_disjoint(ps: Seq<Placement>) -> bool {
    forall|i: int, j: int|
        0 <= i < j < ps.len() ==> !(#[trigger] ps[i]).cell.spec_overlaps((#[trigger] ps[j]).cell)
}

pub open spec fn rects_disjoint(ps: Seq<Placement>) -> bool {
    forall|i: int, j: int|
        0 <= i < j < ps.len() ==> !(#[trigger] ps[i]).rect.spec_overlaps((#[trigger] ps[j]).rect)
}

/// The placements exactly partition the screen: every cell inside the screen, every
/// window inside its cell, no two cells and no two windows overlapping, and the cell
/// areas summing to the screen area. An empty tiling is accepted as it is.
pub open spec fn is_partition(screen: Rect, ps: Seq<Placement>) -> bool {
    ps.len() == 0 || {
        &&& cells_inside(screen, ps)
        &&& rects_inside_cells(ps)
        &&& cells_disjoint(ps)
        &&& rects_disjoint(ps)
        &&& cell_area_sum(ps) == screen.spec_area()
    }
}

pub proof fn lemma_cell_sum_concat(s1: Seq<Placement>, s2: Seq<Placement>)
    ensures
        cell_area_sum(s1 + s2) == cell_area_sum(s1) + cell_area_sum(s2),
    decreases s2.len(),
{
    if s2.len() == 0 {
        assert(s1 + s2 =~= s1);
    } else {
        assert((s1 + s2).drop_last() =~= s1 + s2.drop_last());
        lemma_cell_sum_concat(s1, s2.drop_last());
    }
}

pub proof fn lemma_rect_sum_concat(s1: Seq<Placement>, s2: Seq<Placement>)
    ensures
        rect_area_sum(s1 + s2) == rect_area_sum(s1) + rect_area_sum(s2),
    decreases s2.len(),
{
    if s2.len() == 0 {
        assert(s1 + s2 =~= s1);
    } else {
        assert((s1 + s2).drop_last() =~= s1 + s2.drop_last());
        lemma_rect_sum_concat(s1, s2.drop_last());
    }
}

/// Windows inside their cells never cover more than the cells.
pub proof fn lemma_rect_sum_le_cell_sum(ps: Seq<Placement>)
    requires
        all_sized(ps),
        rects_inside_cells(ps),
    ensures
        0 <= rect_area_sum(ps) <= cell_area_sum(ps),
    decreases ps.len(),
{
    if ps.len() > 0 {
        let q = ps.drop_last();
        assert forall|i: int| 0 <= i < q.len() implies (#[trigger] q[i]).cell.sized()
            && q[i].rect.sized() && q[i].rect.spec_within(q[i].cell) by {
            assert(q[i] == ps[i]);
        }
        lemma_rect_sum_le_cell_sum(q);
        let p = ps[ps.len() - 1];
        lemma_within_area(p.rect, p.cell);
    }
}

/// Sums of non negative areas are non negative and grow along the sequence.
pub proof fn lemma_sums_prefix(ps: Seq<Placement>, k: int)
    requires
        all_sized(ps),
        0 <= k <= ps.len(),
    ensures
        0 <= cell_area_sum(ps.take(k)) <= cell_area_sum(ps),
        0 <= rect_area_sum(ps.take(k)) <= rect_area_sum(ps),
    decreases ps.len() - k,
{
    if k == ps.len() {
        assert(ps.take(k) =~= ps);
        lemma_sums_nonneg(ps);
    } else {
        lemma_sums_prefix(ps, k + 1);
        assert(ps.take(k + 1).drop_last() =~= ps.take(k));
        let p = ps[k];
        assert(ps.take(k + 1).last() == p);
        assert(cell_area_sum(ps.take(k + 1)) == cell_area_sum(ps.take(k)) + p.cell.spec_area());
        assert(rect_area_sum(ps.take(k + 1)) == rect_area_sum(ps.take(k)) + p.rect.spec_area());
        let q = ps.take(k);
        assert forall|i: int| 0 <= i < q.len() implies (#[trigger] q[i]).cell.sized()
            && q[i].rect.sized() by {
            assert(q[i] == ps[i]);
        }
        lemma_sums_nonneg(q);
        lemma_area_pos(p.cell.w as int, p.cell.h as int);
        lemma_area_pos(p.rect.w as int, p.rect.h as int);
    }
}

pub proof fn lemma_sums_nonneg(ps: Seq<Placement>)
    requires
        all_sized(ps),
    ensures
        0 <= cell_area_sum(ps),
        0 <= rect_area_sum(ps),
    decreases ps.len(),
{
    if ps.len() > 0 {
        let q = ps.drop_last();
        assert forall|i: int| 0 <= i < q.len() implies (#[trigger] q[i]).cell.sized()
            && q[i].rect.sized() by {
            assert(q[i] == ps[i]);
        }
        lemma_sums_nonneg(q);
        let p = ps[ps.len() - 1];
        lemma_area_pos(p.cell.w as int, p.cell.h as int);
        lemma_area_pos(p.rect.w as int, p.rect.h as int);
    }
}

/// Windows inside pairwise disjoint cells are pairwise disjoint.
pub proof fn lemma_rects_disjoint_from_cells(ps: Seq<Placement>)
    requires
        all_sized(ps),
        rects_inside_cells(ps),
        cells_disjoint(ps),
    ensures
        rects_disjoint(ps),
{
    assert forall|i: int, j: int| 0 <= i < j < ps.len() implies !(#[trigger] ps[i]).rect.spec_overlaps(
        (#[trigger] ps[j]).rect,
    ) by {
        let (pi, pj) = (ps[i], ps[j]);
        lemma_disjoint_inside(pi.rect, pi.cell, pj.rect, pj.cell);
    }
}

/// The outcome of checking the partition invariant against a set of placements.
#[derive(Debug, Clone, PartialEq, Eq)]
pub struct PartitionReport {
    pub screen: Rect,
    /// Sum of the visible window areas.
    pub covered: i64,
    /// Screen area not covered by any window, that is the gap area.
    pub gap_area: i64,
    /// Whether every checked condition held.
    pub ok: bool,
    /// One line per violated condition. Empty when `ok`.
    pub errors: Vec<String>,
}

pub open spec fn msg_cell_escapes(id: u64) -> Seq<char> {
    "cell for window "@ + decimal(id as nat) + " escapes the screen"@
}

pub open spec fn msg_window_escapes(id: u64) -> Seq<char> {
    "window "@ + decimal(id as nat) + " escapes its cell"@
}

pub open spec fn msg_area_sum(sum: int, area: int) -> Seq<char> {
    "cell areas sum to "@ + signed_decimal(sum) + " but screen area is "@ + signed_decimal(area)
}

pub open spec fn msg_cells_overlap(a: u64, b: u64) -> Seq<char> {
    "cells for windows "@ + decimal(a as nat) + " and "@ + decimal(b as nat) + " overlap"@
}

pub open spec fn msg_windows_overlap(a: u64, b: u64) -> Seq<char> {
    "windows "@ + decimal(a as nat) + " and "@ + decimal(b as nat) + " overlap"@
}

pub open spec fn msg_gap_disagrees(gap: int, from_cells: int) -> Seq<char> {
    "gap accounting disagrees: screen minus windows is "@ + signed_decimal(gap)
        + " but cell minus window sum is "@ + signed_decimal(from_cells)
}

/// The errors about single placements, in order: the cell escaping the screen, then the
/// window escaping its cell.
pub open spec fn placement_errors(screen: Rect, ps: Seq<Placement>) -> Seq<Seq<char>>
    decreases ps.len(),
{
    if ps.len() == 0 {
        seq![]
    } else {
        let p = ps.last();
        placement_errors(screen, ps.drop_last()) + (if p.cell.spec_within(screen) {
            seq![]
        } else {
            seq![msg_cell_escapes(p.id)]
        }) + (if p.rect.spec_within(p.cell) {
            seq![]
        } else {
            seq![msg_window_escapes(p.id)]
        })
    }
}

/// The overlap errors of the pair `(i, j)`: cells first, then windows.
pub open spec fn pair_errors(ps: Seq<Placement>, i: int, j: int) -> Seq<Seq<char>> {
    (if ps[i].cell.spec_overlaps(ps[j].cell) {
        seq![msg_cells_overlap(ps[i].id, ps[j].id)]
    } else {
        seq![]
    }) + (if ps[i].rect.spec_overlaps(ps[j].rect) {
        seq![msg_windows_overlap(ps[i].id, ps[j].id)]
    } else {
        seq![]
    })
}

/// The overlap errors of `i` with every `j` in `i + 1 .. k`.
pub open spec fn row_errors(ps: Seq<Placement>, i: int, k: int) -> Seq<Seq<char>>
    decreases k - i,
{
    if k <= i + 1 {
        seq![]
    } else {
        row_errors(ps, i, k - 1) + pair_errors(ps, i, k - 1)
    }
}

/// The overlap errors of every pair `i < j` with `i < m`, in row order.
pub open spec fn overlap_errors(ps: Seq<Placement>, m: int) -> Seq<Seq<char>>
    decreases m,
{
    if m <= 0 {
        seq![]
    } else {
        overlap_errors(ps, m - 1) + row_errors(ps, m - 1, ps.len() as int)
    }
}

/// Every error line `check` reports, in order.
pub open spec fn partition_errors(screen: Rect, ps: Seq<Placement>) -> Seq<Seq<char>> {
    if ps.len() == 0 {
        seq![]
    } else {
        let cells = cell_area_sum(ps);
        let covered = rect_area_sum(ps);
        let area = screen.spec_area();
        let gap = area - covered;
        let from_cells = cells - covered;
        placement_errors(screen, ps) + (if cells != area {
            seq![msg_area_sum(cells, area)]
        } else {
            seq![]
        }) + overlap_errors(ps, ps.len() as int) + (if gap != from_cells {
            seq![msg_gap_disagrees(gap, from_cells)]
        } else {
            seq![]
        })
    }
}

/// Every rectangle is sized and every sum the check forms fits in an `i64`.
pub open spec fn check_fits(screen: Rect, ps: Seq<Placement>) -> bool {
    &&& screen.sane()
    &&& forall|i: int| 0 <= i < ps.len() ==> (#[trigger] ps[i]).cell.sane() && ps[i].rect.sane()
    &&& cell_area_sum(ps) <= i64::MAX
    &&& rect_area_sum(ps) <= i64::MAX
}

proof fn lemma_placement_errors_empty(screen: Rect, ps: Seq<Placement>)
    ensures
        placement_errors(screen, ps).len() == 0 <==> cells_inside(screen, ps) && rects_inside_cells(
            ps,
        ),
    decreases ps.len(),
{
    if ps.len() > 0 {
        let q = ps.drop_last();
        lemma_placement_errors_empty(screen, q);
        if cells_inside(screen, ps) && rects_inside_cells(ps) {
            assert forall|i: int| 0 <= i < q.len() implies (#[trigger] q[i]).cell.spec_within(screen)
                && q[i].rect.spec_within(q[i].cell) by {
                assert(q[i] == ps[i]);
            }
            assert(ps.last() == ps[ps.len() - 1]);
        }
        if placement_errors(screen, ps).len() == 0 {
            assert forall|i: int| 0 <= i < ps.len() implies (#[trigger] ps[i]).cell.spec_within(screen)
                && ps[i].rect.spec_within(ps[i].cell) by {
                if i < q.len() {
                    assert(q[i] == ps[i]);
                }
            }
        }
    }
}

proof fn lemma_row_errors_empty(ps: Seq<Placement>, i: int, k: int)
    requires
        0 <= i,
        k <= ps.len(),
    ensures
        row_errors(ps, i, k).len() == 0 <==> forall|j: int|
            i < j < k ==> !ps[i].cell.spec_overlaps(#[trigger] ps[j].cell) && !ps[i].rect.spec_overlaps(
                ps[j].rect,
            ),
    decreases k - i,
{
    if k > i + 1 {
        lemma_row_errors_empty(ps, i, k - 1);
        if row_errors(ps, i, k).len() == 0 {
            assert forall|j: int| i < j < k implies !ps[i].cell.spec_overlaps(
                #[trigger] ps[j].cell,
            ) && !ps[i].rect.spec_overlaps(ps[j].rect) by {
                if j == k - 1 {
                    assert(pair_errors(ps, i, k - 1).len() == 0);
                }
            }
        }
    }
}

proof fn lemma_overlap_errors_empty(ps: Seq<Placement>, m: int)
    requires
        m <= ps.len(),
    ensures
        overlap_errors(ps, m).len() == 0 <==> forall|i: int, j: int|
            0 <= i < m && i < j < ps.len() ==> !(#[trigger] ps[i]).cell.spec_overlaps(
                (#[trigger] ps[j]).cell,
            ) && !ps[i].rect.spec_overlaps(ps[j].rect),
    decreases m,
{
    if m > 0 {
        lemma_overlap_errors_empty(ps, m - 1);
        lemma_row_errors_empty(ps, m - 1, ps.len() as int);
        if overlap_errors(ps, m).len() == 0 {
            assert forall|i: int, j: int| 0 <= i < m && i < j < ps.len() implies !(
            #[trigger] ps[i]).cell.spec_overlaps((#[trigger] ps[j]).cell) && !ps[i].rect.spec_overlaps(
                ps[j].rect,
            ) by {
                if i == m - 1 {
                    assert(!ps[i].cell.spec_overlaps(ps[j].cell));
                }
            }
        }
    }
}

/// The report is clean exactly when the placements partition the screen.
pub proof fn lemma_errors_empty_iff_partition(screen: Rect, ps: Seq<Placement>)
    ensures
        partition_errors(screen, ps).len() == 0 <==> is_partition(screen, ps),
{
    if ps.len() > 0 {
        lemma_placement_errors_empty(screen, ps);
        lemma_overlap_errors_empty(ps, ps.len() as int);
    }
}

fn push_line(errors: &mut Vec<String>, line: String)
    ensures
        strs_view(final(errors)@) == strs_view(old(errors)@).push(line@),
{
    errors.push(line);
    assert(strs_view(errors@) =~= strs_view(old(errors)@).push(line@));
}

fn line_two_ids(prefix: &str, a: u64, mid: &str, b: u64, suffix: &str) -> (s: String)
    ensures
        s@ == prefix@ + decimal(a as nat) + mid@ + decimal(b as nat) + suffix@,
{
    let mut s = string_of(prefix);
    push_decimal(&mut s, a);
    push_str(&mut s, mid);
    push_decimal(&mut s, b);
    push_str(&mut s, suffix);
    s
}

fn line_one_id(prefix: &str, a: u64, suffix: &str) -> (s: String)
    ensures
        s@ == prefix@ + decimal(a as nat) + suffix@,
{
    let mut s = string_of(prefix);
    push_decimal(&mut s, a);
    push_str(&mut s, suffix);
    s
}

fn line_two_ints(prefix: &str, a: i64, mid: &str, b: i64) -> (s: String)
    ensures
        s@ == prefix@ + signed_decimal(a as int) + mid@ + signed_decimal(b as int),
{
    let mut s = string_of(prefix);
    push_signed(&mut s, a);
    push_str(&mut s, mid);
    push_signed(&mut s, b);
    s
}

/// Check the partition invariant for `placements` over `screen`.
///
/// The cells must exactly partition the screen: every cell inside the screen, no two cells
/// overlapping, and their areas summing to the screen area, which for axis aligned
/// rectangles forces complete coverage. With a gap applied every window must sit inside
/// its own cell, no two windows may overlap, and the window areas plus the gap area,
/// accumulated independently, must equal the screen area.
pub fn check(screen: Rect, placements: &[Placement]) -> (r: PartitionReport)
    requires
        check_fits(screen, placements@),
        all_sized(placements@),
    ensures
        r.screen == screen,
        r.covered == rect_area_sum(placements@),
        r.gap_area == screen.spec_area() - rect_area_sum(placements@),
        r.covered + r.gap_area == screen.spec_area(),
        strs_view(r.errors@) == partition_errors(screen, placements@),
        r.ok == (r.errors@.len() == 0),
        r.ok <==> is_partition(screen, placements@),
{
    let ghost ps = placements@;
    proof {
        lemma_errors_empty_iff_partition(screen, ps);
    }
    let mut errors: Vec<String> = Vec::new();
    if placements.len() == 0 {
        assert(strs_view(errors@) =~= Seq::<Seq<char>>::empty());
        return PartitionReport { screen, covered: 0, gap_area: screen.area(), ok: true, errors };
    }
    let n = placements.len();
    let mut cell_area_total: i64 = 0;
    let mut covered: i64 = 0;
    let mut gap_from_cells: i64 = 0;
    let mut i: usize = 0;
    while i < n
        invariant
            n == ps.len(),
            ps == placements@,
            0 <= i <= n,
            check_fits(screen, ps),
            all_sized(ps),
            cell_area_total == cell_area_sum(ps.take(i as int)),
            covered == rect_area_sum(ps.take(i as int)),
            gap_from_cells == cell_area_total - covered,
            strs_view(errors@) == placement_errors(screen, ps.take(i as int)),
        decreases n - i,
    {
        let p = placements[i];
        proof {
            lemma_sums_prefix(ps, i + 1);
            lemma_sums_prefix(ps, i as int);
            assert(ps.take(i + 1).drop_last() =~= ps.take(i as int));
            assert(ps.take(i + 1).last() == p);
            lemma_area_pos(p.cell.w as int, p.cell.h as int);
            lemma_area_pos(p.rect.w as int, p.rect.h as int);
        }
        cell_area_total = cell_area_total + p.cell.area();
        covered = covered + p.rect.area();
        gap_from_cells = gap_from_cells + (p.cell.area() - p.rect.area());
        if !p.cell.within(screen) {
            push_line(&mut errors, line_one_id("cell for window ", p.id, " escapes the screen"));
        }
        if !p.rect.within(p.cell) {
            push_line(&mut errors, line_one_id("window ", p.id, " escapes its cell"));
        }
        i = i + 1;
    }
    assert(ps.take(n as int) =~= ps);
    proof {
        lemma_sums_nonneg(ps);
        lemma_area_pos(screen.w as int, screen.h as int);
    }
    let screen_area = screen.area();
    if cell_area_total != screen_area {
        push_line(
            &mut errors,
            line_two_ints("cell areas sum to ", cell_area_total, " but screen area is ", screen_area),
        );
    }
    let ghost before_pairs = strs_view(errors@);
    let mut i: usize = 0;
    while i < n
        invariant
            n == ps.len(),
            ps == placements@,
            0 <= i <= n,
            check_fits(screen, ps),
            strs_view(errors@) == before_pairs + overlap_errors(ps, i as int),
        decreases n - i,
    {
        let ghost row_start = strs_view(errors@);
        let mut j: usize = i + 1;
        while j < n
            invariant
                n == ps.len(),
                ps == placements@,
                0 <= i < n,
                i + 1 <= j <= n,
                check_fits(screen, ps),
                strs_view(errors@) == row_start + row_errors(ps, i as int, j as int),
            decreases n - j,
        {
            let pi = placements[i];
            let pj = placements[j];
            let ghost at = strs_view(errors@);
            if pi.cell.overlaps(pj.cell) {
                push_line(&mut errors, line_two_ids("cells for windows ", pi.id, " and ", pj.id, " overlap"));
            }
            if pi.rect.overlaps(pj.rect) {
                push_line(&mut errors, line_two_ids("windows ", pi.id, " and ", pj.id, " overlap"));
            }
            assert(strs_view(errors@) =~= at + pair_errors(ps, i as int, j as int));
            j = j + 1;
        }
        assert(strs_view(errors@) =~= before_pairs + overlap_errors(ps, i + 1));
        i = i + 1;
    }
    let gap_area = screen_area - covered;
    if gap_area != gap_from_cells {
        push_line(
            &mut errors,
            line_two_ints(
                "gap accounting disagrees: screen minus windows is ",
                gap_area,
                " but cell minus window sum is ",
                gap_from_cells,
            ),
        );
    }
    if covered + gap_area != screen_area {
        let mut s = string_of("windows ");
        push_signed(&mut s, covered);
        push_str(&mut s, " plus gaps ");
        push_signed(&mut s, gap_area);
        push_str(&mut s, " do not equal screen ");
        push_signed(&mut s, screen_area);
        push_line(&mut errors, s);
    }
    assert(strs_view(errors@) =~= partition_errors(screen, ps));
    let ok = errors.len() == 0;
    PartitionReport { screen, covered, gap_area, ok, errors }
}

/// The readout line: whether the invariant holds, and screen area = windows + gaps.
pub open spec fn readout_parts(ok: bool, area: int, covered: int, gap_area: int) -> Seq<char> {
    "invariant "@ + (if ok {
        "HOLDS"@
    } else {
        "VIOLATED"@
    }) + " | screen area "@ + signed_decimal(area) + " = windows "@ + signed_decimal(covered)
        + " + gaps "@ + signed_decimal(gap_area)
}

impl PartitionReport {
    pub open spec fn readout_text(self) -> Seq<char> {
        readout_parts(
            self.ok,
            self.screen.spec_area(),
            self.covered as int,
            self.gap_area as int,
        )
    }

    /// A short human readable readout of the report.
    pub fn readout(&self) -> (s: String)
        ensures
            s@ == self.readout_text(),
    {
        let mut s = string_of("invariant ");
        if self.ok {
            push_str(&mut s, "HOLDS");
        } else {
            push_str(&mut s, "VIOLATED");
        }
        push_str(&mut s, " | screen area ");
        proof {
            crate::geometry::lemma_mul_bound(
                self.screen.w as int,
                self.screen.h as int,
                0x8000_0000_0000_0000,
                0x8000_0000_0000_0000,
            );
        }
        push_signed_wide(&mut s, (self.screen.w as i128) * (self.screen.h as i128));
        push_str(&mut s, " = windows ");
        push_signed(&mut s, self.covered);
        push_str(&mut s, " + gaps ");
        push_signed(&mut s, self.gap_area);
        s
    }
}

/// Windows equal to their cells cover exactly the cell area.
pub proof fn lemma_sums_equal_without_gap(ps: Seq<Placement>)
    requires
        forall|i: int| 0 <= i < ps.len() ==> (#[trigger] ps[i]).rect == ps[i].cell,
    ensures
        rect_area_sum(ps) == cell_area_sum(ps),
    decreases ps.len(),
{
    if ps.len() > 0 {
        let q = ps.drop_last();
        assert forall|i: int| 0 <= i < q.len() implies (#[trigger] q[i]).rect == q[i].cell by {
            assert(q[i] == ps[i]);
        }
        lemma_sums_equal_without_gap(q);
        assert(ps.last() == ps[ps.len() - 1]);
    }
}

} // verus!
