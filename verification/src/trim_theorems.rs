//! What cutting the frame away does to the scan: the workspace that is left
//! has no frame of its own.
use vstd::prelude::*;
use crate::borders::{
    border_scan, has_free, is_solid, left_margin, lemma_scan, narrows, right_margin, Phase,
};
use crate::region::{is_image, is_row, lemma_row_bounds, lemma_row_ordered, LineRegion};
use crate::sweep::has_interior;
use crate::trim::{
    clamp_region, clamp_row, clamp_to, interior, is_wide, lemma_clamp_row, lemma_clamp_row_push,
};

verus! {

/// The row with its first region made to begin at `lo`, and dropped where
/// nothing is left of it.
pub open spec fn adjust_first(row: Seq<LineRegion>, lo: int) -> Seq<LineRegion> {
    let first = LineRegion { obstacle: row[0].obstacle, start: lo as usize, end: row[0].end };
    if first.start == first.end {
        row.drop_first()
    } else {
        row.update(0, first)
    }
}

/// The row with its last region made to end at `hi`, and dropped where
/// nothing is left of it.
pub open spec fn adjust_last(row: Seq<LineRegion>, hi: int) -> Seq<LineRegion> {
    let last = LineRegion { obstacle: row.last().obstacle, start: row.last().start, end: hi as usize };
    if last.start == last.end {
        row.drop_last()
    } else {
        row.update(row.len() - 1, last)
    }
}

/// A filter keeps a list of which it keeps every element.
proof fn lemma_filter_keeps_all(s: Seq<LineRegion>, pred: spec_fn(LineRegion) -> bool)
    requires
        forall|i: int| 0 <= i < s.len() ==> pred(#[trigger] s[i]),
    ensures
        s.filter(pred) == s,
    decreases s.len(),
{
    reveal(Seq::filter);
    if s.len() > 0 {
        let front = s.drop_last();
        assert forall|i: int| 0 <= i < front.len() implies pred(#[trigger] front[i]) by {
            assert(front[i] == s[i]);
        }
        lemma_filter_keeps_all(front, pred);
        assert(pred(s[s.len() - 1]));
        assert(front.push(s.last()) =~= s);
    }
}

/// What a filter keeps of a list of one element.
proof fn lemma_filter_one(r: LineRegion, pred: spec_fn(LineRegion) -> bool)
    ensures
        seq![r].filter(pred) == if pred(r) {
            seq![r]
        } else {
            Seq::<LineRegion>::empty()
        },
{
    reveal(Seq::filter);
    let none = Seq::<LineRegion>::empty();
    assert(seq![r] =~= none.push(r));
    none.lemma_filter_push(r, pred);
    assert(none.filter(pred) =~= none);
}

/// The first region of a row, cut down, as a list: empty where nothing is
/// left of it.
spec fn first_part(row: Seq<LineRegion>, lo: int, hi: int) -> Seq<LineRegion> {
    if lo < row[0].end {
        seq![clamp_region(row[0], lo, hi)]
    } else {
        Seq::empty()
    }
}

/// The last region of a row, cut down, as a list: empty where nothing is
/// left of it.
spec fn last_part(row: Seq<LineRegion>, lo: int, hi: int) -> Seq<LineRegion> {
    if row.last().start < hi {
        seq![clamp_region(row.last(), lo, hi)]
    } else {
        Seq::empty()
    }
}

/// The regions between the first and the last stay as they are, and the
/// first and the last are cut at one end.
proof fn lemma_margins_inside(row: Seq<LineRegion>, w: int, lo: int, hi: int)
    requires
        is_row(row, 0, w),
        row.len() >= 2,
        0 <= lo < hi <= w,
        w <= usize::MAX,
        lo <= row[0].end,
        row.last().start <= hi,
    ensures
        forall|i: int|
            1 <= i < row.len() - 1 ==> clamp_region(#[trigger] row[i], lo, hi) == row[i],
        clamp_region(row[0], lo, hi) == (LineRegion {
            obstacle: row[0].obstacle,
            start: lo as usize,
            end: row[0].end,
        }),
        clamp_region(row.last(), lo, hi) == (LineRegion {
            obstacle: row.last().obstacle,
            start: row.last().start,
            end: hi as usize,
        }),
{
    let n = row.len() as int;
    lemma_row_bounds(row, 0, w, 0);
    lemma_row_bounds(row, 0, w, n - 1);
    lemma_row_ordered(row, 0, w, 0, n - 1);
    assert forall|i: int| 1 <= i < n - 1 implies clamp_region(#[trigger] row[i], lo, hi)
        == row[i] by {
        lemma_row_ordered(row, 0, w, 0, i);
        lemma_row_ordered(row, 0, w, i, n - 1);
        lemma_row_bounds(row, 0, w, i);
    }
}

/// A cut row in three parts.
proof fn lemma_clamp_parts(row: Seq<LineRegion>, w: int, lo: int, hi: int)
    requires
        is_row(row, 0, w),
        row.len() >= 2,
        0 <= lo < hi <= w,
        w <= usize::MAX,
        lo <= row[0].end,
        row.last().start <= hi,
    ensures
        clamp_row(row, lo, hi) == first_part(row, lo, hi) + row.subrange(1, row.len() - 1)
            + last_part(row, lo, hi),
{
    let n = row.len() as int;
    let cut = row.map_values(clamp_to(lo, hi));
    lemma_margins_inside(row, w, lo, hi);
    let first = seq![cut[0]];
    let between = cut.subrange(1, n - 1);
    let last = seq![cut[n - 1]];
    assert(cut =~= first + between + last);
    assert(between =~= row.subrange(1, n - 1)) by {
        assert forall|i: int| 0 <= i < between.len() implies between[i] == row.subrange(
            1,
            n - 1,
        )[i] by {
            assert(between[i] == clamp_region(row[i + 1], lo, hi));
        }
    }
    assert forall|i: int| 0 <= i < between.len() implies is_wide()(#[trigger] between[i]) by {
        assert(between[i] == row[i + 1]);
    }
    lemma_filter_keeps_all(between, is_wide());
    lemma_filter_one(cut[0], is_wide());
    lemma_filter_one(cut[n - 1], is_wide());
    Seq::filter_distributes_over_add(first + between, last, is_wide());
    Seq::filter_distributes_over_add(first, between, is_wide());
    assert(first.filter(is_wide()) == first_part(row, lo, hi));
    assert(last.filter(is_wide()) == last_part(row, lo, hi));
}

/// A row with adjusted ends in three parts.
proof fn lemma_adjust_parts(row: Seq<LineRegion>, w: int, lo: int, hi: int)
    requires
        is_row(row, 0, w),
        row.len() >= 2,
        0 <= lo < hi <= w,
        w <= usize::MAX,
        lo <= row[0].end,
        row.last().start <= hi,
    ensures
        adjust_last(adjust_first(row, lo), hi) == first_part(row, lo, hi) + row.subrange(
            1,
            row.len() - 1,
        ) + last_part(row, lo, hi),
{
    let n = row.len() as int;
    lemma_margins_inside(row, w, lo, hi);
    lemma_row_ordered(row, 0, w, 0, n - 1);
    let begun = adjust_first(row, lo);
    let between = row.subrange(1, n - 1);
    assert(begun =~= first_part(row, lo, hi) + between + seq![row.last()]);
    assert(begun.last() == row.last());
    assert(adjust_last(begun, hi) =~= first_part(row, lo, hi) + between + last_part(row, lo, hi));
}

/// Where the side margins lie inside the first and the last region of a row
/// of an image, cutting the row down moves the beginning of the first
/// region and the end of the last, drops either where nothing is left of
/// it, and leaves the regions between them as they are.
pub proof fn lemma_clamp_adjusts_ends(row: Seq<LineRegion>, w: int, lo: int, hi: int)
    requires
        is_row(row, 0, w),
        0 <= lo < hi <= w,
        w <= usize::MAX,
        lo <= row[0].end,
        row.last().start <= hi,
    ensures
        clamp_row(row, lo, hi) == adjust_last(adjust_first(row, lo), hi),
{
    let n = row.len() as int;
    if n == 1 {
        let cut = row.map_values(clamp_to(lo, hi));
        lemma_row_bounds(row, 0, w, 0);
        assert(cut =~= seq![cut[0]]);
        lemma_filter_one(cut[0], is_wide());
        assert(clamp_row(row, lo, hi) =~= adjust_last(adjust_first(row, lo), hi));
    } else {
        lemma_clamp_parts(row, w, lo, hi);
        lemma_adjust_parts(row, w, lo, hi);
    }
}

/// Each region of a cut row is what is left of a region of the row.
pub proof fn lemma_clamp_source(row: Seq<LineRegion>, lo: int, hi: int, i: int) -> (j: int)
    requires
        0 <= i < clamp_row(row, lo, hi).len(),
    ensures
        0 <= j < row.len(),
        clamp_row(row, lo, hi)[i] == clamp_region(row[j], lo, hi),
    decreases row.len(),
{
    if row.len() == 0 {
        assert(row.map_values(clamp_to(lo, hi)) =~= Seq::<LineRegion>::empty());
        assert(clamp_row(row, lo, hi).len() == 0) by {
            reveal(Seq::filter);
        }
        0
    } else {
        let front = row.drop_last();
        assert(row =~= front.push(row.last()));
        lemma_clamp_row_push(front, row.last(), lo, hi);
        if i < clamp_row(front, lo, hi).len() {
            let j = lemma_clamp_source(front, lo, hi, i);
            assert(front[j] == row[j]);
            j
        } else {
            row.len() - 1
        }
    }
}

/// A row of an image that is not one obstacle region has a free region.
pub proof fn lemma_not_solid_has_free(row: Seq<LineRegion>, w: int)
    requires
        is_row(row, 0, w),
    ensures
        has_free(row) == !is_solid(row),
{
    if !is_solid(row) {
        if row.len() >= 2 {
            assert(row[0].obstacle != row[1].obstacle);
            assert(!row[0].obstacle || !row[1].obstacle);
        } else {
            assert(!row[0].obstacle);
        }
    } else {
        if has_free(row) {
            let i = choose|i: int| 0 <= i < row.len() && !(#[trigger] row[i]).obstacle;
            assert(i == 0);
        }
    }
}

/// Cutting a row of an image down keeps a solid row solid and makes no free
/// region where there was none.
pub proof fn lemma_clamp_labels(row: Seq<LineRegion>, w: int, lo: int, hi: int)
    requires
        is_row(row, 0, w),
        0 <= lo < hi <= w,
        w <= usize::MAX,
    ensures
        is_solid(row) ==> is_solid(clamp_row(row, lo, hi)),
        has_free(clamp_row(row, lo, hi)) ==> has_free(row),
        has_free(clamp_row(row, lo, hi)) == !is_solid(clamp_row(row, lo, hi)),
{
    let cut = clamp_row(row, lo, hi);
    lemma_clamp_row(row, w, lo, hi);
    if is_solid(row) {
        let none = Seq::<LineRegion>::empty();
        assert(row =~= none.push(row[0]));
        lemma_clamp_row_push(none, row[0], lo, hi);
        assert(none.map_values(clamp_to(lo, hi)) =~= none);
        assert(clamp_row(none, lo, hi) =~= none) by {
            reveal(Seq::filter);
        }
    }
    if has_free(cut) {
        let i = choose|i: int| 0 <= i < cut.len() && !(#[trigger] cut[i]).obstacle;
        let j = lemma_clamp_source(row, lo, hi, i);
        assert(!row[j].obstacle);
    }
    if !is_solid(cut) {
        if cut.len() >= 2 {
            assert(cut[0].obstacle != cut[1].obstacle);
            assert(!cut[0].obstacle || !cut[1].obstacle);
        } else {
            assert(!cut[0].obstacle);
        }
    } else {
        if has_free(cut) {
            let i = choose|i: int| 0 <= i < cut.len() && !(#[trigger] cut[i]).obstacle;
            assert(i == 0);
        }
    }
}

/// A row that is cut down to begin where its own first obstacle region ends
/// begins with a free region.
pub proof fn lemma_clamp_left(row: Seq<LineRegion>, w: int, lo: int, hi: int)
    requires
        is_row(row, 0, w),
        !is_solid(row),
        0 <= lo < hi <= w,
        w <= usize::MAX,
        left_margin(row) == lo,
    ensures
        left_margin(clamp_row(row, lo, hi)) == 0,
{
    let cut = clamp_row(row, lo, hi);
    lemma_clamp_row(row, w, lo, hi);
    let j = lemma_clamp_source(row, lo, hi, 0);
    lemma_row_bounds(row, 0, w, j);
    lemma_row_bounds(row, 0, w, 0);
    if row[0].obstacle {
        if j == 0 {
            assert(false);
        }
        assert(row[0].end == row[1].start);
        assert(row[0].obstacle != row[1].obstacle);
        if j > 1 {
            lemma_row_ordered(row, 0, w, 1, j);
            lemma_row_bounds(row, 0, w, 1);
            assert(false);
        }
    } else {
        if j > 0 {
            lemma_row_ordered(row, 0, w, 0, j);
            assert(false);
        }
    }
}

/// A row that is cut down to end where its own last obstacle region begins
/// ends with a free region.
pub proof fn lemma_clamp_right(row: Seq<LineRegion>, w: int, lo: int, hi: int)
    requires
        is_row(row, 0, w),
        !is_solid(row),
        0 <= lo < hi <= w,
        w <= usize::MAX,
        right_margin(row, w) == w - hi,
    ensures
        right_margin(clamp_row(row, lo, hi), w) == 0,
{
    let cut = clamp_row(row, lo, hi);
    let n = row.len() as int;
    lemma_clamp_row(row, w, lo, hi);
    let j = lemma_clamp_source(row, lo, hi, cut.len() - 1);
    lemma_row_bounds(row, 0, w, j);
    lemma_row_bounds(row, 0, w, n - 1);
    assert(cut[cut.len() - 1].start < cut[cut.len() - 1].end);
    if row[n - 1].obstacle {
        if j == n - 1 {
            assert(false);
        }
        assert(row[n - 2].end == row[n - 1].start);
        assert(row[n - 2].obstacle != row[n - 1].obstacle);
        if j < n - 2 {
            lemma_row_ordered(row, 0, w, j, n - 2);
            lemma_row_bounds(row, 0, w, n - 2);
            assert(false);
        }
    } else {
        if j < n - 1 {
            lemma_row_ordered(row, 0, w, j, n - 1);
            assert(false);
        }
    }
}

/// The first rows of an image are an image.
proof fn lemma_image_take(rows: Seq<Seq<LineRegion>>, w: int, k: int)
    requires
        is_image(rows, w),
        0 <= k <= rows.len(),
    ensures
        is_image(rows.take(k), w),
{
    assert forall|y: int| 0 <= y < k implies is_row(#[trigger] rows.take(k)[y], 0, w) by {
        assert(rows.take(k)[y] == rows[y]);
    }
}

/// Whether a row narrows the side margins depends on the rows before it.
proof fn lemma_narrows_take(rows: Seq<Seq<LineRegion>>, w: int, k: int, y: int)
    requires
        0 <= y < k <= rows.len(),
    ensures
        narrows(rows.take(k), w, y) == narrows(rows, w, y),
{
    assert(rows.take(k).take(y) =~= rows.take(y));
    assert(rows.take(k)[y] == rows[y]);
}

/// Each side margin is the margin of one of the rows that narrowed it.
pub proof fn lemma_margins_attained(rows: Seq<Seq<LineRegion>>, w: int)
    requires
        is_image(rows, w),
        0 <= w,
        exists|y: int| narrows(rows, w, y),
    ensures
        exists|y: int| narrows(rows, w, y) && left_margin(rows[y]) == border_scan(rows, w).left,
        exists|y: int|
            narrows(rows, w, y) && right_margin(rows[y], w) == border_scan(rows, w).right,
    decreases rows.len(),
{
    let n = rows.len() as int;
    let witness = choose|y: int| narrows(rows, w, y);
    assert(n > 0);
    let front = rows.drop_last();
    let row = rows.last();
    assert(front =~= rows.take(n - 1));
    lemma_image_take(rows, w, n - 1);
    lemma_scan(front, w);
    lemma_scan(rows, w);
    let before = border_scan(front, w);
    let s = border_scan(rows, w);
    assert(is_row(row, 0, w));
    lemma_row_bounds(row, 0, w, 0);
    lemma_row_bounds(row, 0, w, row.len() - 1);
    assert(rows.take(n) =~= rows);
    let last_narrows = narrows(rows, w, n - 1);
    assert(last_narrows == (before.phase == Phase::TrackingSides && !is_solid(row)));
    let some_before = exists|y: int| narrows(front, w, y);
    if some_before {
        lemma_margins_attained(front, w);
    }
    if !last_narrows {
        assert(witness < n - 1);
        lemma_narrows_take(rows, w, n - 1, witness);
        assert(narrows(front, w, witness));
        assert(s.left == before.left && s.right == before.right);
    }
    // The left margin.
    if last_narrows && left_margin(row) <= before.left {
        assert(narrows(rows, w, n - 1) && left_margin(rows[n - 1]) == s.left);
    } else {
        assert(some_before);
        let y = choose|y: int| narrows(front, w, y) && left_margin(front[y]) == before.left;
        lemma_narrows_take(rows, w, n - 1, y);
        assert(narrows(rows, w, y) && left_margin(rows[y]) == s.left);
    }
    // The right margin.
    if last_narrows && right_margin(row, w) <= before.right {
        assert(narrows(rows, w, n - 1) && right_margin(rows[n - 1], w) == s.right);
    } else {
        assert(some_before);
        let y = choose|y: int| narrows(front, w, y) && right_margin(front[y], w) == before.right;
        lemma_narrows_take(rows, w, n - 1, y);
        assert(narrows(rows, w, y) && right_margin(rows[y], w) == s.right);
    }
}

/// Before the rows that the scan counted as the bottom frame, it had
/// counted none.
pub proof fn lemma_bottom_prefix(rows: Seq<Seq<LineRegion>>, w: int)
    requires
        is_image(rows, w),
        0 <= w,
    ensures
        0 <= border_scan(rows, w).bottom <= rows.len(),
        border_scan(rows.take(rows.len() - border_scan(rows, w).bottom), w).bottom == 0,
    decreases rows.len(),
{
    let n = rows.len() as int;
    lemma_scan(rows, w);
    assert(rows.take(n) =~= rows);
    if n > 0 {
        let front = rows.drop_last();
        assert(front =~= rows.take(n - 1));
        lemma_image_take(rows, w, n - 1);
        lemma_scan(front, w);
        lemma_bottom_prefix(front, w);
        let before = border_scan(front, w);
        let s = border_scan(rows, w);
        if before.phase == Phase::TrackingBottom && !has_free(rows.last()) {
            assert(rows.take(n - s.bottom) =~= front.take(front.len() - before.bottom));
        }
    }
}

/// Every row of the workspace that has a free region keeps one when the
/// side margins are cut away.
pub open spec fn keeps_free_regions(rows: Seq<Seq<LineRegion>>, w: int) -> bool {
    let s = border_scan(rows, w);
    forall|y: int|
        s.top <= y < rows.len() - s.bottom && has_free(#[trigger] rows[y]) ==> has_free(
            clamp_row(rows[y], s.left, w - s.right),
        )
}

/// Above the top of the workspace the scan is still looking for it.
proof fn lemma_seeking_above_top(rows: Seq<Seq<LineRegion>>, w: int, y: int)
    requires
        is_image(rows, w),
        0 <= w,
        border_scan(rows, w).phase != Phase::SeekingTop,
        0 <= y <= border_scan(rows, w).top,
    ensures
        border_scan(rows.take(y), w).phase == Phase::SeekingTop,
        border_scan(rows.take(y + 1), w).bottom == 0,
        border_scan(rows.take(y + 1), w).phase == if y == border_scan(rows, w).top {
            Phase::TrackingSides
        } else {
            Phase::SeekingTop
        },
{
    lemma_scan(rows, w);
    lemma_image_take(rows, w, y);
    lemma_scan(rows.take(y), w);
    let upto = border_scan(rows.take(y), w);
    if upto.phase != Phase::SeekingTop {
        assert(rows.take(y)[upto.top] == rows[upto.top]);
        assert(false);
    }
    assert(rows.take(y + 1).drop_last() =~= rows.take(y));
    assert(rows.take(y + 1).last() == rows[y]);
}

/// The scan of the first `k` rows of the workspace goes through the phases
/// that the scan of the image went through on the same rows, and has no
/// side margin left once it has read the row that gave the image its own.
proof fn lemma_rescan(rows: Seq<Seq<LineRegion>>, w: int, k: int, yl: int, yr: int)
    requires
        is_image(rows, w),
        0 <= w <= usize::MAX,
        has_interior(rows, w),
        keeps_free_regions(rows, w),
        1 <= k <= rows.len() - border_scan(rows, w).bottom - border_scan(rows, w).top,
        narrows(rows, w, yl),
        left_margin(rows[yl]) == border_scan(rows, w).left,
        narrows(rows, w, yr),
        right_margin(rows[yr], w) == border_scan(rows, w).right,
    ensures
        ({
            let s = border_scan(rows, w);
            let inner = interior(rows, s.top, s.bottom, s.left, w - s.right);
            let a = border_scan(rows.take(s.top + k), w);
            let b = border_scan(inner.take(k), w);
            &&& a.phase != Phase::SeekingTop
            &&& b.phase == a.phase
            &&& b.top == 0
            &&& b.bottom == a.bottom
            &&& 0 <= b.left
            &&& 0 <= b.right
            &&& yl < s.top + k ==> b.left == 0
            &&& yr < s.top + k ==> b.right == 0
        }),
    decreases k,
{
    lemma_scan(rows, w);
    let s = border_scan(rows, w);
    let lo = s.left;
    let hi = w - s.right;
    let inner = interior(rows, s.top, s.bottom, lo, hi);
    let y = s.top + k - 1;
    let row = rows[y];
    let cut = inner[k - 1];
    assert(cut == clamp_row(row, lo, hi));
    assert(is_row(row, 0, w));
    lemma_clamp_labels(row, w, lo, hi);
    lemma_not_solid_has_free(row, w);
    lemma_clamp_row(row, w, lo, hi);
    assert(has_free(cut) == has_free(row));
    assert(is_solid(cut) == is_solid(row));
    assert(rows.take(s.top + k).drop_last() =~= rows.take(y));
    assert(rows.take(s.top + k).last() == row);
    assert(inner.take(k).drop_last() =~= inner.take(k - 1));
    assert(inner.take(k).last() == cut);
    lemma_row_bounds(cut, lo, hi, 0);
    lemma_row_bounds(cut, lo, hi, cut.len() - 1);
    if k == 1 {
        lemma_seeking_above_top(rows, w, s.top);
        assert(inner.take(0) =~= Seq::<Seq<LineRegion>>::empty());
        if yl <= s.top {
            lemma_seeking_above_top(rows, w, yl);
        }
        if yr <= s.top {
            lemma_seeking_above_top(rows, w, yr);
        }
    } else {
        lemma_rescan(rows, w, k - 1, yl, yr);
        let a0 = border_scan(rows.take(y), w);
        if y == yl {
            assert(a0.phase == Phase::TrackingSides);
            lemma_clamp_left(row, w, lo, hi);
        }
        if y == yr {
            assert(a0.phase == Phase::TrackingSides);
            lemma_clamp_right(row, w, lo, hi);
        }
    }
}

/// Cutting the frame away leaves nothing to cut: where the side margins of
/// an image leave a pixel column between them, and each row of the workspace
/// that has a free region keeps one between them, a scan of the workspace
/// finds the margins 0 at the top, at the bottom, on the left and on the
/// right.
pub proof fn lemma_trim_idempotent(rows: Seq<Seq<LineRegion>>, w: int)
    requires
        is_image(rows, w),
        0 <= w <= usize::MAX,
        has_interior(rows, w),
        keeps_free_regions(rows, w),
    ensures
        ({
            let s = border_scan(rows, w);
            let again = border_scan(interior(rows, s.top, s.bottom, s.left, w - s.right), w);
            &&& again.top == 0
            &&& again.bottom == 0
            &&& again.left == 0
            &&& again.right == 0
        }),
{
    lemma_scan(rows, w);
    let s = border_scan(rows, w);
    let inner = interior(rows, s.top, s.bottom, s.left, w - s.right);
    let h = rows.len() as int;
    let n = h - s.bottom - s.top;
    assert(exists|y: int| narrows(rows, w, y));
    lemma_margins_attained(rows, w);
    let yl = choose|y: int| narrows(rows, w, y) && left_margin(rows[y]) == s.left;
    let yr = choose|y: int| narrows(rows, w, y) && right_margin(rows[y], w) == s.right;
    assert(n >= 1);
    lemma_rescan(rows, w, n, yl, yr);
    lemma_bottom_prefix(rows, w);
    assert(inner.take(n) =~= inner);
    if s.phase == Phase::TrackingBottom {
        if yl >= h - 1 - s.bottom {
            assert(is_solid(rows[yl]));
        }
        if yr >= h - 1 - s.bottom {
            assert(is_solid(rows[yr]));
        }
    }
}

} // verus!
