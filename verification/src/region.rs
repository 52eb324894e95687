//! Regions, rows and critical points: the data the sweep works on.
use vstd::prelude::*;

verus! {

/// A horizontal run of pixels of one scanline that share a label.
/// `start` is the first pixel of the run, `end` the pixel after its last.
#[derive(Clone, Copy, Debug, PartialEq, Eq, Structural)]
pub struct LineRegion {
    pub obstacle: bool,
    pub start: usize,
    pub end: usize,
}

/// A pixel coordinate at which the number of cells of the sweep changes.
#[derive(Clone, Copy, Debug, PartialEq, Eq, Structural)]
pub struct Point {
    pub x: usize,
    pub y: usize,
}

impl View for Point {
    type V = (int, int);

    /// The point as a pair `(x, y)` of mathematical integers.
    open spec fn view(&self) -> (int, int) {
        (self.x as int, self.y as int)
    }
}

/// The coordinates of a list of points, as pairs of mathematical integers.
pub open spec fn coords(points: Seq<Point>) -> Seq<(int, int)> {
    points.map_values(|p: Point| p@)
}

/// The regions of each row of an image, top row first.
pub open spec fn row_views(rows: Seq<Vec<LineRegion>>) -> Seq<Seq<LineRegion>> {
    rows.map_values(|r: Vec<LineRegion>| r@)
}

/// `row` is a row over the pixels `lo..hi`: its regions are not empty, each
/// starts where the one before it ends, the first starts at `lo`, the last
/// ends at `hi`, and neighbouring regions differ in label.
pub open spec fn is_row(row: Seq<LineRegion>, lo: int, hi: int) -> bool {
    &&& row.len() > 0
    &&& row[0].start == lo
    &&& row[row.len() - 1].end == hi
    &&& forall|i: int| 0 <= i < row.len() ==> (#[trigger] row[i]).start < row[i].end
    &&& forall|i: int, j: int|
        0 <= i && j == i + 1 && j < row.len() ==> (#[trigger] row[i]).end == (
        #[trigger] row[j]).start && row[i].obstacle != row[j].obstacle
}

/// Every row of `rows` is a row over the pixels `0..w`.
pub open spec fn is_image(rows: Seq<Seq<LineRegion>>, w: int) -> bool {
    forall|y: int| 0 <= y < rows.len() ==> is_row(#[trigger] rows[y], 0, w)
}

/// The regions of a row are in ascending order and do not overlap.
pub proof fn lemma_row_ordered(row: Seq<LineRegion>, lo: int, hi: int, i: int, j: int)
    requires
        is_row(row, lo, hi),
        0 <= i < j < row.len(),
    ensures
        row[i].end <= row[j].start,
        lo <= row[i].start,
        row[j].end <= hi,
    decreases j - i,
{
    if i + 1 < j {
        lemma_row_ordered(row, lo, hi, i, j - 1);
        assert(row[j - 1].end == row[j - 1 + 1].start);
    } else {
        assert(row[i].end == row[i + 1].start);
    }
    lemma_row_bounds(row, lo, hi, i);
    lemma_row_bounds(row, lo, hi, j);
}

/// Every region of a row lies inside the row's pixels.
pub proof fn lemma_row_bounds(row: Seq<LineRegion>, lo: int, hi: int, i: int)
    requires
        is_row(row, lo, hi),
        0 <= i < row.len(),
    ensures
        lo <= row[i].start < row[i].end <= hi,
{
    lemma_row_from_first(row, lo, hi, i);
    lemma_row_to_last(row, lo, hi, i);
}

/// Region `i` of a row begins at least `i` pixels after the row does.
proof fn lemma_row_from_first(row: Seq<LineRegion>, lo: int, hi: int, i: int)
    requires
        is_row(row, lo, hi),
        0 <= i < row.len(),
    ensures
        lo + i <= row[i].start,
    decreases i,
{
    if i > 0 {
        lemma_row_from_first(row, lo, hi, i - 1);
        assert(row[i - 1].end == row[i - 1 + 1].start);
    }
}

/// Region `i` of a row ends at least as many pixels before the row does as
/// there are regions after it.
proof fn lemma_row_to_last(row: Seq<LineRegion>, lo: int, hi: int, i: int)
    requires
        is_row(row, lo, hi),
        0 <= i < row.len(),
    ensures
        row[i].end + (row.len() - 1 - i) <= hi,
    decreases row.len() - i,
{
    if i < row.len() - 1 {
        lemma_row_to_last(row, lo, hi, i + 1);
        assert(row[i].end == row[i + 1].start);
    }
}

/// A region placed after a row, where it begins at the row's end with the
/// other label, makes a longer row. A region alone is a row.
pub proof fn lemma_row_push(row: Seq<LineRegion>, r: LineRegion, lo: int)
    requires
        r.start < r.end,
        row.len() == 0 ==> r.start == lo,
        row.len() > 0 ==> is_row(row, lo, r.start as int) && row[row.len() - 1].obstacle
            != r.obstacle,
    ensures
        is_row(row.push(r), lo, r.end as int),
{
    let longer = row.push(r);
    assert forall|i: int| 0 <= i < longer.len() implies (#[trigger] longer[i]).start
        < longer[i].end by {
        if i < row.len() {
            assert(row[i].start < row[i].end);
        }
    }
    assert forall|i: int, j: int| 0 <= i && j == i + 1 && j < longer.len() implies (
    #[trigger] longer[i]).end == (#[trigger] longer[j]).start && longer[i].obstacle
        != longer[j].obstacle by {
        if j < row.len() {
            assert(row[i].end == row[j].start);
        }
    }
}

} // verus!
