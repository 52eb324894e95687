//! Measuring the obstacle frame around the workspace.
//!
//! The rows are read once from the top by a scan with three phases. It
//! first looks for the top of the workspace, the first row with a free
//! region. From the row after it, it follows the sides: the left margin is
//! the narrowest obstacle region that a row begins with, the right margin
//! the narrowest that a row ends with. A row that is one obstacle region may
//! be the first row of the bottom frame: the rows after it are counted,
//! until a row with a free region shows that the workspace goes on.
use vstd::prelude::*;
use vstd::math::min;
use crate::region::{is_image, is_row, lemma_row_bounds, lemma_row_ordered, row_views, LineRegion};

verus! {

/// What the scan is doing.
#[derive(Clone, Copy, Debug, PartialEq, Eq, Structural)]
pub enum Phase {
    /// No row with a free region has been seen.
    SeekingTop,
    /// The top is known; each row narrows the side margins. A row that is
    /// one obstacle region leads to `TrackingBottom`.
    TrackingSides,
    /// The last rows may be the bottom frame and are counted. A row with a
    /// free region leads back to `TrackingSides`.
    TrackingBottom,
}

/// The state of the scan after some rows.
pub struct BorderScan {
    pub phase: Phase,
    pub top: int,
    pub bottom: int,
    pub left: int,
    pub right: int,
}

/// The row has a free region.
pub open spec fn has_free(row: Seq<LineRegion>) -> bool {
    exists|i: int| 0 <= i < row.len() && !(#[trigger] row[i]).obstacle
}

/// The row is one obstacle region.
pub open spec fn is_solid(row: Seq<LineRegion>) -> bool {
    row.len() == 1 && row[0].obstacle
}

/// The width of the obstacle region that the row begins with, 0 where it
/// begins with a free region.
pub open spec fn left_margin(row: Seq<LineRegion>) -> int {
    if row[0].obstacle {
        row[0].end as int
    } else {
        0
    }
}

/// The width of the obstacle region that the row ends with, 0 where it ends
/// with a free region.
pub open spec fn right_margin(row: Seq<LineRegion>, w: int) -> int {
    if row.last().obstacle {
        w - row.last().start
    } else {
        0
    }
}

/// The state before the first row: no top, no bottom, and side margins as
/// wide as the image.
pub open spec fn scan_start(w: int) -> BorderScan {
    BorderScan { phase: Phase::SeekingTop, top: 0, bottom: 0, left: w, right: w }
}

/// The state after the row `row` with index `y`, from the state `s` before it.
pub open spec fn scan_step(s: BorderScan, row: Seq<LineRegion>, y: int, w: int) -> BorderScan {
    match s.phase {
        Phase::SeekingTop => if has_free(row) {
            BorderScan { phase: Phase::TrackingSides, top: y, ..s }
        } else {
            s
        },
        Phase::TrackingSides => if is_solid(row) {
            BorderScan { phase: Phase::TrackingBottom, ..s }
        } else {
            BorderScan {
                left: min(s.left, left_margin(row)),
                right: min(s.right, right_margin(row, w)),
                ..s
            }
        },
        Phase::TrackingBottom => if has_free(row) {
            BorderScan { phase: Phase::TrackingSides, bottom: 0, ..s }
        } else {
            BorderScan { bottom: s.bottom + 1, ..s }
        },
    }
}

/// The state of the scan after all of `rows`.
pub open spec fn border_scan(rows: Seq<Seq<LineRegion>>, w: int) -> BorderScan
    decreases rows.len(),
{
    if rows.len() == 0 {
        scan_start(w)
    } else {
        scan_step(border_scan(rows.drop_last(), w), rows.last(), rows.len() - 1, w)
    }
}

/// The scan read row `y` while it followed the sides, and the row was not
/// one obstacle region: the row has narrowed the side margins.
pub open spec fn narrows(rows: Seq<Seq<LineRegion>>, w: int, y: int) -> bool {
    &&& 0 <= y < rows.len()
    &&& border_scan(rows.take(y), w).phase == Phase::TrackingSides
    &&& !is_solid(rows[y])
}

/// A row that is not one obstacle region keeps a pixel column between the
/// obstacle regions at its two ends.
pub proof fn lemma_row_margins(row: Seq<LineRegion>, w: int)
    requires
        is_row(row, 0, w),
        !is_solid(row),
    ensures
        0 <= left_margin(row),
        0 <= right_margin(row, w),
        left_margin(row) + right_margin(row, w) < w,
{
    let n = row.len() as int;
    lemma_row_bounds(row, 0, w, 0);
    lemma_row_bounds(row, 0, w, n - 1);
    if n >= 2 {
        lemma_row_ordered(row, 0, w, 0, n - 1);
        if row[0].obstacle && row[n - 1].obstacle {
            assert(row[0].obstacle != row[0int + 1].obstacle);
            assert(n >= 3);
            lemma_row_ordered(row, 0, w, 0, 1);
            lemma_row_ordered(row, 0, w, 1, n - 1);
            assert(row[1].start < row[1].end);
        }
    }
}

/// A row narrows the side margins of an image if it narrows those of the
/// image without its last row, or is that last row and narrows them.
pub proof fn lemma_narrows_front(rows: Seq<Seq<LineRegion>>, w: int)
    requires
        rows.len() > 0,
    ensures
        forall|y: int|
            0 <= y < rows.len() - 1 ==> narrows(rows, w, y) == #[trigger] narrows(
                rows.drop_last(),
                w,
                y,
            ),
        narrows(rows, w, rows.len() - 1) == (border_scan(rows.drop_last(), w).phase
            == Phase::TrackingSides && !is_solid(rows.last())),
        (exists|y: int| narrows(rows, w, y)) == (narrows(rows, w, rows.len() - 1) || exists|y: int|
            narrows(rows.drop_last(), w, y)),
{
    let n = rows.len() as int;
    let front = rows.drop_last();
    assert(rows.take(n - 1) =~= front);
    assert forall|y: int| 0 <= y < n - 1 implies narrows(rows, w, y) == #[trigger] narrows(
        front,
        w,
        y,
    ) by {
        assert(rows.take(y) =~= front.take(y));
        assert(rows[y] == front[y]);
    }
    if exists|y: int| narrows(rows, w, y) {
        let y = choose|y: int| narrows(rows, w, y);
        if y < n - 1 {
            assert(narrows(front, w, y));
        }
    }
    if exists|y: int| narrows(front, w, y) {
        let y = choose|y: int| narrows(front, w, y);
        assert(narrows(rows, w, y));
    }
}

/// What holds of the scan after any number of rows of an image: where it
/// stands in each phase, that the margins fit into the image, and that the
/// side margins leave a pixel column between them as soon as one row has
/// narrowed them, and are as wide as the image until then.
pub proof fn lemma_scan(rows: Seq<Seq<LineRegion>>, w: int)
    requires
        is_image(rows, w),
        0 <= w,
    ensures
        ({
            let s = border_scan(rows, w);
            &&& 0 <= s.top
            &&& 0 <= s.bottom
            &&& 0 <= s.left <= w
            &&& 0 <= s.right <= w
            &&& s.phase == Phase::SeekingTop ==> s.top == 0 && s.bottom == 0 && s.left == w
                && s.right == w && forall|y: int| 0 <= y < rows.len() ==> !has_free(#[trigger] rows[y])
            &&& s.phase != Phase::SeekingTop ==> s.top < rows.len() && has_free(rows[s.top])
                && forall|y: int| 0 <= y < s.top ==> !has_free(#[trigger] rows[y])
            &&& s.phase == Phase::TrackingSides ==> s.bottom == 0
            &&& s.phase == Phase::TrackingBottom ==> s.top + 1 + s.bottom < rows.len() && forall|
                y: int,
            |
                rows.len() - 1 - s.bottom <= y < rows.len() ==> is_solid(#[trigger] rows[y])
            &&& (exists|y: int| narrows(rows, w, y)) ==> s.left + s.right < w
            &&& !(exists|y: int| narrows(rows, w, y)) ==> s.left == w && s.right == w
        }),
    decreases rows.len(),
{
    if rows.len() > 0 {
        let n = rows.len() as int;
        let front = rows.drop_last();
        let row = rows.last();
        assert forall|y: int| 0 <= y < front.len() implies is_row(#[trigger] front[y], 0, w) by {
            assert(front[y] == rows[y]);
        }
        lemma_scan(front, w);
        lemma_narrows_front(rows, w);
        let before = border_scan(front, w);
        let s = border_scan(rows, w);
        assert(is_row(row, 0, w));
        lemma_row_bounds(row, 0, w, 0);
        assert forall|y: int| 0 <= y < n - 1 implies #[trigger] rows[y] == front[y] by {}
        if before.phase != Phase::SeekingTop {
            assert(rows[before.top] == front[before.top]);
        }
        if before.phase == Phase::TrackingSides && !is_solid(row) {
            lemma_row_margins(row, w);
        }
        if before.phase == Phase::TrackingBottom && !has_free(row) {
            assert(is_solid(row)) by {
                assert(row[0].obstacle);
                if row.len() > 1 {
                    assert(row[0].obstacle != row[1].obstacle);
                }
            }
        }
        if s.phase == Phase::TrackingBottom {
            assert forall|y: int| n - 1 - s.bottom <= y < n implies is_solid(#[trigger] rows[y]) by {
                if y < n - 1 {
                    assert(is_solid(front[y]));
                }
            }
        }
    } else {
        assert(!(exists|y: int| narrows(rows, w, y)));
    }
}

/// Where no row has a free region, the scan finds no top and no bottom and
/// leaves the side margins as wide as the image.
pub proof fn lemma_no_free_row(rows: Seq<Seq<LineRegion>>, w: int)
    requires
        forall|y: int| 0 <= y < rows.len() ==> !has_free(#[trigger] rows[y]),
    ensures
        border_scan(rows, w) == scan_start(w),
    decreases rows.len(),
{
    if rows.len() > 0 {
        let front = rows.drop_last();
        assert forall|y: int| 0 <= y < front.len() implies !has_free(#[trigger] front[y]) by {
            assert(front[y] == rows[y]);
        }
        lemma_no_free_row(front, w);
        assert(!has_free(rows[rows.len() - 1]));
    }
}

/// Each side margin is at most the margin of any row that narrowed it.
pub proof fn lemma_margins_are_least(rows: Seq<Seq<LineRegion>>, w: int, y: int)
    requires
        is_image(rows, w),
        0 <= w,
        narrows(rows, w, y),
    ensures
        border_scan(rows, w).left <= left_margin(rows[y]),
        border_scan(rows, w).right <= right_margin(rows[y], w),
    decreases rows.len(),
{
    let n = rows.len() as int;
    let front = rows.drop_last();
    assert(front =~= rows.take(n - 1));
    assert forall|k: int| 0 <= k < front.len() implies is_row(#[trigger] front[k], 0, w) by {
        assert(front[k] == rows[k]);
    }
    if y < n - 1 {
        assert(front.take(y) =~= rows.take(y));
        assert(front[y] == rows[y]);
        lemma_margins_are_least(front, w, y);
    }
}

/// The scan can read `rows`: no row is without regions, and the last region
/// of each row begins inside the image.
pub open spec fn can_scan(rows: Seq<Seq<LineRegion>>, w: int) -> bool {
    forall|y: int|
        0 <= y < rows.len() ==> (#[trigger] rows[y]).len() > 0 && rows[y].last().start <= w
}

/// The scan can read the rows of an image.
pub proof fn lemma_image_can_scan(rows: Seq<Seq<LineRegion>>, w: int)
    requires
        is_image(rows, w),
    ensures
        can_scan(rows, w),
{
    assert forall|y: int| 0 <= y < rows.len() implies (#[trigger] rows[y]).len() > 0
        && rows[y].last().start <= w by {
        assert(is_row(rows[y], 0, w));
        lemma_row_bounds(rows[y], 0, w, rows[y].len() - 1);
    }
}

/// Says whether the row has a free region.
pub fn has_free_region(row: &Vec<LineRegion>) -> (found: bool)
    ensures
        found == has_free(row@),
{
    let mut i: usize = 0;
    while i < row.len()
        invariant
            i <= row.len(),
            forall|k: int| 0 <= k < i ==> (#[trigger] row[k]).obstacle,
        decreases row.len() - i,
    {
        if !row[i].obstacle {
            return true;
        }
        i += 1;
    }
    false
}

/// Measures the obstacle frame of an image of `h` rows of `w` pixels: the
/// number of rows above the first row with a free region (`top`), the number
/// of rows below the first of the solid rows that end the image (`bottom`),
/// and the widths of the obstacle columns that all rows between them share
/// at their left and right ends (`left`, `right`). Returns
/// `(top, bottom, left, right)`.
///
/// Where no row narrows the side margins, `left` and `right` are both `w`.
/// The scan reads the rows that are there; the height `h` is not looked at.
pub fn find_borders(regions_vectors: &Vec<Vec<LineRegion>>, w: usize, h: usize) -> (margins: (
    usize,
    usize,
    usize,
    usize,
))
    requires
        can_scan(row_views(regions_vectors@), w as int),
    ensures
        ({
            let s = border_scan(row_views(regions_vectors@), w as int);
            &&& margins.0 == s.top
            &&& margins.1 == s.bottom
            &&& margins.2 == s.left
            &&& margins.3 == s.right
        }),
{
    let ghost rows = row_views(regions_vectors@);
    let mut phase = Phase::SeekingTop;
    let mut top: usize = 0;
    let mut bottom: usize = 0;
    let mut left: usize = w;
    let mut right: usize = w;
    let mut y: usize = 0;
    let n: usize = regions_vectors.len();
    assert(rows.take(0) =~= Seq::<Seq<LineRegion>>::empty());
    while y < n
        invariant
            y <= n,
            n == regions_vectors.len(),
            rows == row_views(regions_vectors@),
            can_scan(rows, w as int),
            bottom <= y,
            ({
                let s = border_scan(rows.take(y as int), w as int);
                &&& phase == s.phase
                &&& top == s.top
                &&& bottom == s.bottom
                &&& left == s.left
                &&& right == s.right
            }),
        decreases n - y,
    {
        let regions = &regions_vectors[y];
        proof {
            assert(rows.take(y + 1).drop_last() =~= rows.take(y as int));
            assert(rows.take(y + 1).last() == regions@);
            assert(rows[y as int].len() > 0 && rows[y as int].last().start <= w);
        }
        match phase {
            Phase::SeekingTop => {
                if has_free_region(regions) {
                    top = y;
                    phase = Phase::TrackingSides;
                }
            },
            Phase::TrackingSides => {
                if regions.len() == 1 && regions[0].obstacle {
                    phase = Phase::TrackingBottom;
                } else {
                    if regions[0].obstacle {
                        if regions[0].end < left {
                            left = regions[0].end;
                        }
                    } else {
                        left = 0;
                    }
                    let last = &regions[regions.len() - 1];
                    if last.obstacle {
                        let right_margin: usize = w - last.start;
                        if right_margin < right {
                            right = right_margin;
                        }
                    } else {
                        right = 0;
                    }
                }
            },
            Phase::TrackingBottom => {
                if has_free_region(regions) {
                    bottom = 0;
                    phase = Phase::TrackingSides;
                } else {
                    bottom += 1;
                }
            },
        }
        y += 1;
    }
    assert(rows.take(n as int) =~= rows);
    (top, bottom, left, right)
}

} // verus!
