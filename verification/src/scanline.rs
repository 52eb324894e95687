//! Cutting one scanline into regions.
use vstd::prelude::*;
use crate::pixel::{is_obstacle_rgb, pixel_is_obstacle};
use crate::region::{is_row, lemma_row_bounds, lemma_row_ordered, lemma_row_push, LineRegion};

verus! {

/// Every pixel of every region of `row` has the region's label in `line`.
pub open spec fn labelled_by(row: Seq<LineRegion>, line: Seq<u8>) -> bool {
    forall|i: int, x: int|
        #![trigger row[i], pixel_is_obstacle(line, x)]
        0 <= i < row.len() && row[i].start <= x < row[i].end ==> pixel_is_obstacle(line, x)
            == row[i].obstacle
}

/// `row` is the cut of the first `w` pixels of `line` into maximal runs of
/// one label. Neighbouring regions of a row differ in label, so no run can
/// be longer.
pub open spec fn is_regions_of(row: Seq<LineRegion>, line: Seq<u8>, w: int) -> bool {
    is_row(row, 0, w) && labelled_by(row, line)
}

/// Cuts the first `w` pixels of `line` into regions: maximal runs of obstacle
/// pixels and of free pixels, from left to right.
pub fn extract_regions(line: &Vec<u8>, w: usize) -> (regions: Vec<LineRegion>)
    requires
        w >= 1,
        3 * w <= line.len(),
    ensures
        is_regions_of(regions@, line@, w as int),
{
    let mut regions: Vec<LineRegion> = Vec::new();
    let mut start: usize = 0;
    let mut obstacle: bool = is_obstacle_rgb(line, 0);
    let mut x: usize = 1;
    while x < w
        invariant
            1 <= x <= w,
            3 * w <= line.len(),
            start < x,
            regions.len() == 0 ==> start == 0,
            regions.len() > 0 ==> is_row(regions@, 0, start as int) && regions[regions.len() - 1].obstacle
                != obstacle,
            labelled_by(regions@, line@),
            forall|p: int| start <= p < x ==> pixel_is_obstacle(line@, p) == obstacle,
        decreases w - x,
    {
        let label: bool = is_obstacle_rgb(line, x);
        if label != obstacle {
            let ghost before = regions@;
            let run = LineRegion { obstacle, start, end: x };
            regions.push(run);
            proof {
                lemma_push_run(before, run, line@);
            }
            start = x;
            obstacle = label;
        }
        x += 1;
    }
    let ghost before = regions@;
    let run = LineRegion { obstacle, start, end: w };
    regions.push(run);
    proof {
        lemma_push_run(before, run, line@);
    }
    regions
}

/// A run placed after a row whose last region has the other label makes a
/// longer row with the same labelling.
proof fn lemma_push_run(row: Seq<LineRegion>, run: LineRegion, line: Seq<u8>)
    requires
        run.start < run.end,
        row.len() == 0 ==> run.start == 0,
        row.len() > 0 ==> is_row(row, 0, run.start as int) && row[row.len() - 1].obstacle
            != run.obstacle,
        labelled_by(row, line),
        forall|p: int| run.start <= p < run.end ==> pixel_is_obstacle(line, p) == run.obstacle,
    ensures
        is_row(row.push(run), 0, run.end as int),
        labelled_by(row.push(run), line),
{
    let longer = row.push(run);
    lemma_row_push(row, run, 0);
    assert forall|i: int, x: int|
        #![trigger longer[i], pixel_is_obstacle(line, x)]
        0 <= i < longer.len() && longer[i].start <= x < longer[i].end implies pixel_is_obstacle(
        line,
        x,
    ) == longer[i].obstacle by {
        if i < row.len() {
            assert(pixel_is_obstacle(line, x) == row[i].obstacle);
        }
    }
}

/// A scanline has one cut into regions: two rows that both are the regions
/// of the first `w` pixels of `line` are equal.
pub proof fn lemma_regions_unique(a: Seq<LineRegion>, b: Seq<LineRegion>, line: Seq<u8>, w: int)
    requires
        is_regions_of(a, line, w),
        is_regions_of(b, line, w),
    ensures
        a == b,
{
    lemma_regions_agree(a, b, line, w, a.len() - 1);
    let n = a.len() - 1;
    if b.len() > a.len() {
        lemma_row_ordered(b, 0, w, n, b.len() - 1);
        assert(b[b.len() - 1].start < b[b.len() - 1].end);
    }
    assert(a =~= b);
}

/// Up to index `k`, two cuts of one scanline hold the same regions.
proof fn lemma_regions_agree(a: Seq<LineRegion>, b: Seq<LineRegion>, line: Seq<u8>, w: int, k: int)
    requires
        is_regions_of(a, line, w),
        is_regions_of(b, line, w),
        0 <= k < a.len(),
    ensures
        k < b.len(),
        forall|i: int| 0 <= i <= k ==> a[i] == b[i],
    decreases k,
{
    if k > 0 {
        lemma_regions_agree(a, b, line, w, k - 1);
        assert(a[k - 1] == b[k - 1]);
        assert(a[k - 1].end == a[k - 1 + 1].start);
        lemma_row_bounds(a, 0, w, k);
        if b.len() == k {
            assert(b[k - 1].end == w);
            assert(false);
        }
        assert(b[k - 1].end == b[k - 1 + 1].start);
    }
    // Both regions start at the same pixel.
    assert(a[k].start == b[k].start);
    let s = a[k].start as int;
    assert(a[k].start < a[k].end && b[k].start < b[k].end);
    assert(pixel_is_obstacle(line, s) == a[k].obstacle);
    assert(pixel_is_obstacle(line, s) == b[k].obstacle);
    lemma_row_bounds(a, 0, w, k);
    lemma_row_bounds(b, 0, w, k);
    if a[k].end < b[k].end {
        // The pixel after a[k] belongs to a[k + 1], which has the other label.
        assert(k + 1 < a.len());
        assert(a[k].end == a[k + 1].start);
        assert(a[k + 1].start < a[k + 1].end);
        let x = a[k].end as int;
        assert(pixel_is_obstacle(line, x) == a[k + 1].obstacle);
        assert(pixel_is_obstacle(line, x) == b[k].obstacle);
        assert(false);
    }
    if b[k].end < a[k].end {
        assert(k + 1 < b.len());
        assert(b[k].end == b[k + 1].start);
        assert(b[k + 1].start < b[k + 1].end);
        let x = b[k].end as int;
        assert(pixel_is_obstacle(line, x) == b[k + 1].obstacle);
        assert(pixel_is_obstacle(line, x) == a[k].obstacle);
        assert(false);
    }
}

/// A region of a scanline is an obstacle region if and only if each of its
/// pixels is an obstacle pixel.
pub proof fn lemma_obstacle_iff_all_pixels(
    row: Seq<LineRegion>,
    line: Seq<u8>,
    w: int,
    i: int,
)
    requires
        is_regions_of(row, line, w),
        0 <= i < row.len(),
    ensures
        row[i].obstacle <==> forall|x: int|
            row[i].start <= x < row[i].end ==> #[trigger] pixel_is_obstacle(line, x),
{
    let first = row[i].start as int;
    assert(row[i].start < row[i].end);
    assert(pixel_is_obstacle(line, first) == row[i].obstacle);
    if row[i].obstacle {
        assert forall|x: int| row[i].start <= x < row[i].end implies #[trigger] pixel_is_obstacle(
            line,
            x,
        ) by {
            assert(pixel_is_obstacle(line, x) == row[i].obstacle);
        }
    }
}

} // verus!
