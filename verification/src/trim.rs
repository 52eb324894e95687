//! Cutting the obstacle frame away.
use vstd::prelude::*;
use crate::region::{is_row, lemma_row_bounds, lemma_row_push, row_views, LineRegion};

verus! {

/// `x`, moved into `lo..=hi` where it lies outside.
pub open spec fn clamp(x: int, lo: int, hi: int) -> int {
    if x < lo {
        lo
    } else if x > hi {
        hi
    } else {
        x
    }
}

/// The part of the region `r` that lies in the pixels `lo..hi`. Where no
/// pixel of `r` lies there, the result is empty: it ends where it starts.
pub open spec fn clamp_region(r: LineRegion, lo: int, hi: int) -> LineRegion {
    LineRegion {
        obstacle: r.obstacle,
        start: clamp(r.start as int, lo, hi) as usize,
        end: clamp(r.end as int, lo, hi) as usize,
    }
}

/// Cutting a region down to the pixels `lo..hi`.
pub open spec fn clamp_to(lo: int, hi: int) -> spec_fn(LineRegion) -> LineRegion {
    |r: LineRegion| clamp_region(r, lo, hi)
}

/// The test for a region that holds a pixel.
pub open spec fn is_wide() -> spec_fn(LineRegion) -> bool {
    |r: LineRegion| r.start < r.end
}

/// The row cut down to the pixels `lo..hi`: each region is cut down, and
/// those of which nothing is left are dropped.
pub open spec fn clamp_row(row: Seq<LineRegion>, lo: int, hi: int) -> Seq<LineRegion> {
    row.map_values(clamp_to(lo, hi)).filter(is_wide())
}

/// Cutting a row down to the pixels `lo..hi`.
pub open spec fn clamp_row_to(lo: int, hi: int) -> spec_fn(Seq<LineRegion>) -> Seq<LineRegion> {
    |row: Seq<LineRegion>| clamp_row(row, lo, hi)
}

/// The workspace of an image: the rows from `top` to before the last
/// `bottom` rows, each cut down to the pixels `lo..hi`.
pub open spec fn interior(rows: Seq<Seq<LineRegion>>, top: int, bottom: int, lo: int, hi: int) -> Seq<
    Seq<LineRegion>,
> {
    rows.subrange(top, rows.len() - bottom).map_values(clamp_row_to(lo, hi))
}

/// What one more region adds to a cut row.
pub proof fn lemma_clamp_row_push(row: Seq<LineRegion>, r: LineRegion, lo: int, hi: int)
    ensures
        clamp_row(row.push(r), lo, hi) == if clamp_region(r, lo, hi).start < clamp_region(
            r,
            lo,
            hi,
        ).end {
            clamp_row(row, lo, hi).push(clamp_region(r, lo, hi))
        } else {
            clamp_row(row, lo, hi)
        },
{
    let cut = clamp_region(r, lo, hi);
    assert(row.push(r).map_values(clamp_to(lo, hi)) =~= row.map_values(clamp_to(lo, hi)).push(cut));
    row.map_values(clamp_to(lo, hi)).lemma_filter_push(cut, is_wide());
}

/// How far the cut of the first `k` regions of a row has come.
proof fn lemma_clamp_prefix(row: Seq<LineRegion>, w: int, lo: int, hi: int, k: int)
    requires
        is_row(row, 0, w),
        0 <= lo < hi <= w,
        w <= usize::MAX,
        0 <= k <= row.len(),
    ensures
        ({
            let cut = clamp_row(row.take(k), lo, hi);
            if k == 0 || row[k - 1].end <= lo {
                cut.len() == 0
            } else if row[k - 1].start < hi {
                is_row(cut, lo, clamp(row[k - 1].end as int, lo, hi)) && cut.last().obstacle
                    == row[k - 1].obstacle
            } else {
                is_row(cut, lo, hi)
            }
        }),
    decreases k,
{
    reveal(Seq::filter);
    if k == 0 {
        assert(row.take(0) =~= Seq::<LineRegion>::empty());
        assert(row.take(0).map_values(clamp_to(lo, hi)) =~= Seq::<LineRegion>::empty());
    } else {
        lemma_clamp_prefix(row, w, lo, hi, k - 1);
        let r = row[k - 1];
        let before = clamp_row(row.take(k - 1), lo, hi);
        assert(row.take(k) =~= row.take(k - 1).push(r));
        lemma_clamp_row_push(row.take(k - 1), r, lo, hi);
        lemma_row_bounds(row, 0, w, k - 1);
        if k >= 2 {
            lemma_row_bounds(row, 0, w, k - 2);
            assert(row[k - 2].end == row[k - 2 + 1].start);
            assert(row[k - 2].obstacle != row[k - 2 + 1].obstacle);
        }
        let cut = clamp_region(r, lo, hi);
        if cut.start < cut.end {
            lemma_row_push(before, cut, lo);
        }
    }
}

/// A row of an image, cut down to pixels `lo..hi` of the image, is a row
/// over `lo..hi`.
pub proof fn lemma_clamp_row(row: Seq<LineRegion>, w: int, lo: int, hi: int)
    requires
        is_row(row, 0, w),
        0 <= lo < hi <= w,
        w <= usize::MAX,
    ensures
        is_row(clamp_row(row, lo, hi), lo, hi),
{
    lemma_clamp_prefix(row, w, lo, hi, row.len() as int);
    assert(row.take(row.len() as int) =~= row);
}

/// Moves `x` into `lo..=hi`.
fn clamp_to_range(x: usize, lo: usize, hi: usize) -> (r: usize)
    ensures
        r == clamp(x as int, lo as int, hi as int),
{
    if x < lo {
        lo
    } else if x > hi {
        hi
    } else {
        x
    }
}

/// Cuts a row down to the pixels `lo..hi`.
pub fn clamp_regions(row: &Vec<LineRegion>, lo: usize, hi: usize) -> (cut: Vec<LineRegion>)
    ensures
        cut@ == clamp_row(row@, lo as int, hi as int),
{
    let mut cut: Vec<LineRegion> = Vec::new();
    let mut i: usize = 0;
    proof {
        reveal(Seq::filter);
        assert(row@.take(0).map_values(clamp_to(lo as int, hi as int)) =~= Seq::<
            LineRegion,
        >::empty());
    }
    while i < row.len()
        invariant
            i <= row.len(),
            cut@ == clamp_row(row@.take(i as int), lo as int, hi as int),
        decreases row.len() - i,
    {
        let r = row[i];
        let start: usize = clamp_to_range(r.start, lo, hi);
        let end: usize = clamp_to_range(r.end, lo, hi);
        proof {
            assert(row@.take(i + 1) =~= row@.take(i as int).push(r));
            lemma_clamp_row_push(row@.take(i as int), r, lo as int, hi as int);
        }
        if start < end {
            cut.push(LineRegion { obstacle: r.obstacle, start, end });
        }
        i += 1;
    }
    assert(row@.take(row.len() as int) =~= row@);
    cut
}

/// Cuts the frame away from an image: keeps the rows from `top` to before
/// the last `bottom` rows, each cut down to the pixels `lo..hi`.
pub fn trim_rows(rows: &Vec<Vec<LineRegion>>, top: usize, bottom: usize, lo: usize, hi: usize) -> (kept:
    Vec<Vec<LineRegion>>)
    requires
        top + bottom <= rows.len(),
    ensures
        row_views(kept@) == interior(
            row_views(rows@),
            top as int,
            bottom as int,
            lo as int,
            hi as int,
        ),
{
    let end: usize = rows.len() - bottom;
    let mut kept: Vec<Vec<LineRegion>> = Vec::new();
    let mut y: usize = top;
    while y < end
        invariant
            top <= y <= end,
            end == rows.len() - bottom,
            kept.len() == y - top,
            forall|k: int|
                0 <= k < kept.len() ==> (#[trigger] kept[k])@ == clamp_row(
                    rows[top + k]@,
                    lo as int,
                    hi as int,
                ),
        decreases end - y,
    {
        let cut: Vec<LineRegion> = clamp_regions(&rows[y], lo, hi);
        kept.push(cut);
        y += 1;
    }
    assert(row_views(kept@) =~= interior(
        row_views(rows@),
        top as int,
        bottom as int,
        lo as int,
        hi as int,
    ));
    kept
}

} // verus!
