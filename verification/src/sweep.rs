//! The sweep over a whole image: measure the frame, cut it away, and compare
//! each row of the workspace with the row above it.
use vstd::prelude::*;
use crate::analyzer::{
    event, events_of, in_order, is_obstacle, neighbors, obstacles, overlaps_with, row_transition,
    side_events, supported, transition_events, lemma_filter_in_order, SweepError,
};
use crate::borders::{
    border_scan, find_borders, lemma_image_can_scan, lemma_scan, narrows, Phase,
};
use crate::region::{
    coords, is_image, is_row, lemma_row_bounds, lemma_row_ordered, row_views, LineRegion, Point,
};
use crate::trim::{clamp_row, interior, lemma_clamp_row, trim_rows};

verus! {

/// The row that stands for the frame above and below the workspace: one
/// obstacle region over the pixels `lo..hi`.
pub open spec fn sentinel(lo: int, hi: int) -> Seq<LineRegion> {
    seq![LineRegion { obstacle: true, start: lo as usize, end: hi as usize }]
}

/// The side margins of the image leave a pixel column between them.
pub open spec fn has_interior(rows: Seq<Seq<LineRegion>>, w: int) -> bool {
    border_scan(rows, w).left + border_scan(rows, w).right < w
}

/// The rows that the sweep compares: the workspace of the image, with a
/// solid row before its first row and another after its last.
pub open spec fn framed(rows: Seq<Seq<LineRegion>>, w: int) -> Seq<Seq<LineRegion>> {
    let s = border_scan(rows, w);
    let lo = s.left;
    let hi = w - s.right;
    seq![sentinel(lo, hi)] + interior(rows, s.top, s.bottom, lo, hi) + seq![sentinel(lo, hi)]
}

/// The critical points of a list of rows, pair by pair from the top, where
/// `y` is the index of the second row of the list.
pub open spec fn all_events(rows: Seq<Seq<LineRegion>>, y: int) -> Seq<(int, int)>
    decreases rows.len(),
{
    if rows.len() < 2 {
        Seq::empty()
    } else {
        all_events(rows.drop_last(), y) + transition_events(
            rows[rows.len() - 2],
            rows[rows.len() - 1],
            y + rows.len() - 2,
        )
    }
}

/// In no pair of adjacent rows has a region more than two neighbours.
pub open spec fn all_supported(rows: Seq<Seq<LineRegion>>) -> bool {
    forall|i: int, j: int|
        0 <= i && j == i + 1 && j < rows.len() ==> supported(#[trigger] rows[i], #[trigger] rows[j])
}

/// The regions of a row are in order.
pub proof fn lemma_row_in_order(row: Seq<LineRegion>, lo: int, hi: int)
    requires
        is_row(row, lo, hi),
    ensures
        in_order(row),
{
    assert forall|i: int, j: int| 0 <= i < j < row.len() implies (#[trigger] row[i]).end <= (
    #[trigger] row[j]).start by {
        lemma_row_ordered(row, lo, hi, i, j);
    }
}

/// Regions that each have one neighbour give no event.
pub proof fn lemma_single_neighbors(regions: Seq<LineRegion>, row: Seq<LineRegion>, y: int)
    requires
        forall|q: int| 0 <= q < regions.len() ==> (#[trigger] neighbors(regions[q], row)).len() == 1,
    ensures
        events_of(regions, row, y) == Seq::<(int, int)>::empty(),
    decreases regions.len(),
{
    if regions.len() > 0 {
        let front = regions.drop_last();
        assert forall|q: int| 0 <= q < front.len() implies (#[trigger] neighbors(
            front[q],
            row,
        )).len() == 1 by {
            assert(front[q] == regions[q]);
        }
        lemma_single_neighbors(front, row, y);
        assert(neighbors(regions[regions.len() - 1], row).len() == 1);
        assert(events_of(regions, row, y) =~= Seq::<(int, int)>::empty());
    }
}

/// Below the solid row over `lo..hi`, no region of a row over `lo..hi`
/// begins or merges: each has the solid row's one region as its neighbour.
pub proof fn lemma_under_sentinel(row: Seq<LineRegion>, lo: int, hi: int, y: int)
    requires
        is_row(row, lo, hi),
        0 <= lo,
        hi <= usize::MAX,
    ensures
        side_events(row, sentinel(lo, hi), y) == Seq::<(int, int)>::empty(),
{
    let solid = LineRegion { obstacle: true, start: lo as usize, end: hi as usize };
    let none = Seq::<LineRegion>::empty();
    assert(sentinel(lo, hi) =~= none.push(solid));
    none.lemma_filter_push(solid, is_obstacle());
    assert(none.filter(is_obstacle()) =~= none) by {
        reveal(Seq::filter);
    }
    assert(obstacles(sentinel(lo, hi)) =~= none.push(solid));
    lemma_row_in_order(row, lo, hi);
    lemma_filter_in_order(row, is_obstacle());
    let regions = obstacles(row);
    assert forall|q: int| 0 <= q < regions.len() implies (#[trigger] neighbors(
        regions[q],
        sentinel(lo, hi),
    )).len() == 1 by {
        let c = regions[q];
        assert(row.contains(c));
        let k = choose|k: int| 0 <= k < row.len() && row[k] == c;
        lemma_row_bounds(row, lo, hi, k);
        none.lemma_filter_push(solid, overlaps_with(c));
        assert(none.filter(overlaps_with(c)) =~= none) by {
            reveal(Seq::filter);
        }
    }
    lemma_single_neighbors(regions, sentinel(lo, hi), y);
}

/// An image has a pixel column between its side margins if and only if one
/// of its rows has narrowed them: a row that the scan read while it followed
/// the sides and that is not one obstacle region.
pub proof fn lemma_interior_iff_narrowed(rows: Seq<Seq<LineRegion>>, w: int)
    requires
        is_image(rows, w),
        0 <= w,
    ensures
        has_interior(rows, w) <==> exists|y: int| narrows(rows, w, y),
{
    lemma_scan(rows, w);
}

/// Every row that the sweep compares is a row over the pixels between the
/// side margins.
pub proof fn lemma_framed_rows(rows: Seq<Seq<LineRegion>>, w: int)
    requires
        is_image(rows, w),
        0 <= w <= usize::MAX,
        has_interior(rows, w),
    ensures
        ({
            let s = border_scan(rows, w);
            &&& s.phase != Phase::SeekingTop
            &&& 0 <= s.top < rows.len() - s.bottom
            &&& 0 <= s.bottom
            &&& 0 <= s.left < w - s.right <= w
            &&& framed(rows, w).len() == rows.len() - s.bottom - s.top + 2
            &&& forall|k: int|
                0 <= k < framed(rows, w).len() ==> is_row(
                    #[trigger] framed(rows, w)[k],
                    s.left,
                    w - s.right,
                )
        }),
{
    lemma_scan(rows, w);
    let s = border_scan(rows, w);
    let lo = s.left;
    let hi = w - s.right;
    let inner = interior(rows, s.top, s.bottom, lo, hi);
    assert forall|k: int| 0 <= k < framed(rows, w).len() implies is_row(
        #[trigger] framed(rows, w)[k],
        lo,
        hi,
    ) by {
        if 1 <= k <= inner.len() {
            assert(framed(rows, w)[k] == clamp_row(rows[s.top + k - 1], lo, hi));
            assert(is_row(rows[s.top + k - 1], 0, w));
            lemma_clamp_row(rows[s.top + k - 1], w, lo, hi);
        } else {
            assert(framed(rows, w)[k] == sentinel(lo, hi));
        }
    }
}

/// The critical points of the first `k + 2` rows are those of the first
/// `k + 1` rows and then those of the last pair.
pub proof fn lemma_all_events_step(rows: Seq<Seq<LineRegion>>, y: int, k: int)
    requires
        0 <= k,
        k + 2 <= rows.len(),
    ensures
        all_events(rows.take(k + 2), y) == all_events(rows.take(k + 1), y) + transition_events(
            rows[k],
            rows[k + 1],
            y + k,
        ),
{
    assert(rows.take(k + 2).drop_last() =~= rows.take(k + 1));
}

/// The rows `inner` with the row `solid` before the first and after the last.
pub open spec fn with_sentinels(solid: Seq<LineRegion>, inner: Seq<Seq<LineRegion>>) -> Seq<
    Seq<LineRegion>,
> {
    seq![solid] + inner + seq![solid]
}

/// Compares the row `prev` with the row `curr` below it, which has the index
/// `y`, and adds the critical points between them to `points`. Returns
/// `false`, and leaves `points` as it is, where a region has more than two
/// neighbours.
fn compare_rows(
    prev: &Vec<LineRegion>,
    curr: &Vec<LineRegion>,
    y: usize,
    points: &mut Vec<Point>,
    Ghost(lo): Ghost<int>,
    Ghost(hi): Ghost<int>,
) -> (ok: bool)
    requires
        is_row(prev@, lo, hi),
        is_row(curr@, lo, hi),
        0 <= lo,
        hi <= usize::MAX,
        y >= 1 || prev@ == sentinel(lo, hi),
    ensures
        ok == supported(prev@, curr@),
        ok ==> coords(final(points)@) == coords(old(points)@) + transition_events(
            prev@,
            curr@,
            y as int,
        ),
        !ok ==> final(points)@ == old(points)@,
{
    proof {
        lemma_row_in_order(prev@, lo, hi);
        lemma_row_in_order(curr@, lo, hi);
        if y == 0 {
            lemma_under_sentinel(curr@, lo, hi, y - 1);
        }
    }
    match row_transition(prev, curr, y) {
        Ok(found) => {
            let mut found = found;
            let ghost before = points@;
            let ghost added = found@;
            points.append(&mut found);
            assert(coords(before + added) =~= coords(before) + coords(added));
            true
        },
        Err(_) => false,
    }
}

/// Compares each row of `inner`, a list of rows over the pixels `lo..hi`,
/// with the row above it, and returns the critical points of all pairs from
/// the top. A solid row over `lo..hi` is taken to lie above the first row
/// and another below the last; `top` is the index of the first row.
pub fn sweep_rows(inner: &Vec<Vec<LineRegion>>, top: usize, lo: usize, hi: usize) -> (r: Result<
    Vec<Point>,
    SweepError,
>)
    requires
        lo < hi,
        forall|j: int| 0 <= j < inner.len() ==> is_row((#[trigger] inner[j])@, lo as int, hi as int),
        top + inner.len() <= usize::MAX,
    ensures
        match r {
            Ok(points) => {
                &&& all_supported(
                    with_sentinels(sentinel(lo as int, hi as int), row_views(inner@)),
                )
                &&& coords(points@) == all_events(
                    with_sentinels(sentinel(lo as int, hi as int), row_views(inner@)),
                    top as int,
                )
            },
            Err(e) => {
                &&& e == SweepError::UnsupportedTopology
                &&& !all_supported(
                    with_sentinels(sentinel(lo as int, hi as int), row_views(inner@)),
                )
            },
        },
{
    let mut solid_row: Vec<LineRegion> = Vec::new();
    solid_row.push(LineRegion { obstacle: true, start: lo, end: hi });
    let solid: &Vec<LineRegion> = &solid_row;
    let ghost left = lo as int;
    let ghost right = hi as int;
    assert(solid@ =~= sentinel(left, right));
    assert(is_row(solid@, left, right));
    let ghost all = with_sentinels(solid@, row_views(inner@));
    let n: usize = inner.len();
    let mut points: Vec<Point> = Vec::new();
    let mut k: usize = 0;
    assert(coords(points@) =~= all_events(all.take(1), top as int));
    assert forall|j: int| 0 <= j < n implies (#[trigger] inner[j])@ == all[j + 1] by {
        assert(row_views(inner@)[j] == inner[j]@);
    }
    while k < n
        invariant
            k <= n,
            n == inner.len(),
            top + n <= usize::MAX,
            all.len() == n + 2,
            left == lo as int,
            right == hi as int,
            solid@ == sentinel(left, right),
            is_row(solid@, left, right),
            all[0] == solid@,
            forall|j: int| 0 <= j < n ==> (#[trigger] inner[j])@ == all[j + 1],
            forall|j: int| 0 <= j < inner.len() ==> is_row((#[trigger] inner[j])@, left, right),
            coords(points@) == all_events(all.take(k + 1), top as int),
            forall|i: int, j: int|
                0 <= i && j == i + 1 && j <= k ==> supported(#[trigger] all[i], #[trigger] all[j]),
            all == with_sentinels(sentinel(left, right), row_views(inner@)),
        decreases n - k,
    {
        let prev: &Vec<LineRegion> = if k == 0 {
            solid
        } else {
            &inner[k - 1]
        };
        let curr: &Vec<LineRegion> = &inner[k];
        assert(prev@ == all[k as int]);
        assert(curr@ == all[k + 1]);
        proof {
            lemma_all_events_step(all, top as int, k as int);
        }
        let ok: bool = compare_rows(prev, curr, top + k, &mut points, Ghost(left), Ghost(right));
        if !ok {
            assert(!supported(all[k + 1 - 1], all[k + 1]));
            return Err(SweepError::UnsupportedTopology);
        }
        k += 1;
    }
    let last: &Vec<LineRegion> = if n == 0 {
        solid
    } else {
        &inner[n - 1]
    };
    assert(last@ == all[n as int]);
    assert(solid@ == all[n + 1]);
    proof {
        lemma_all_events_step(all, top as int, n as int);
    }
    let ok: bool = compare_rows(last, solid, top + n, &mut points, Ghost(left), Ghost(right));
    if !ok {
        assert(!supported(all[n + 1 - 1], all[n + 1]));
        return Err(SweepError::UnsupportedTopology);
    }
    assert(all.take(n + 2) =~= all);
    Ok(points)
}

/// Finds the critical points of an image of `h` rows of `w` pixels.
///
/// The obstacle frame of the image is measured and cut away. What is left,
/// the workspace, is read from the top, with a solid row taken to lie above
/// its first row and another below its last. Each row is compared with the
/// row above it, and the points of all pairs are returned in that order.
///
/// Two kinds of image have no critical points: one whose side margins
/// leave no pixel column between them (`EmptyInterior`), as where no row has
/// a free region, and one in which an obstacle region has more than two
/// neighbours in an adjacent row (`UnsupportedTopology`).
pub fn find_critical_points(regions_vectors: &Vec<Vec<LineRegion>>, w: usize, h: usize) -> (r:
    Result<Vec<Point>, SweepError>)
    requires
        h == regions_vectors.len(),
        is_image(row_views(regions_vectors@), w as int),
    ensures
        match r {
            Ok(points) => {
                &&& has_interior(row_views(regions_vectors@), w as int)
                &&& all_supported(framed(row_views(regions_vectors@), w as int))
                &&& coords(points@) == all_events(
                    framed(row_views(regions_vectors@), w as int),
                    border_scan(row_views(regions_vectors@), w as int).top,
                )
            },
            Err(SweepError::EmptyInterior) => !has_interior(row_views(regions_vectors@), w as int),
            Err(SweepError::UnsupportedTopology) => {
                &&& has_interior(row_views(regions_vectors@), w as int)
                &&& !all_supported(framed(row_views(regions_vectors@), w as int))
            },
        },
{
    let ghost rows = row_views(regions_vectors@);
    proof {
        lemma_image_can_scan(rows, w as int);
    }
    let (top, bottom, left, right) = find_borders(regions_vectors, w, h);
    proof {
        lemma_scan(rows, w as int);
    }
    if left >= w - right {
        return Err(SweepError::EmptyInterior);
    }
    let lo: usize = left;
    let hi: usize = w - right;
    proof {
        lemma_framed_rows(rows, w as int);
    }
    let inner: Vec<Vec<LineRegion>> = trim_rows(regions_vectors, top, bottom, lo, hi);
    assert(framed(rows, w as int) == with_sentinels(
        sentinel(lo as int, hi as int),
        row_views(inner@),
    ));
    assert forall|j: int| 0 <= j < inner.len() implies is_row(
        (#[trigger] inner[j])@,
        lo as int,
        hi as int,
    ) by {
        assert(framed(rows, w as int)[j + 1] == inner[j]@);
    }
    sweep_rows(&inner, top, lo, hi)
}

} // verus!
