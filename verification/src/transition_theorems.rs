//! What holds of the critical points between two rows in the plain cases:
//! a region that ends or begins, one that splits or two that merge, and
//! rows whose regions go on unchanged.
use vstd::prelude::*;
use crate::analyzer::{
    anomaly, event, events_of, in_order, is_obstacle, lemma_filter_in_order, neighbors, obstacles,
    overlaps_with, supported, transition_events,
};
use crate::region::LineRegion;
use crate::sweep::{all_events, all_supported, lemma_single_neighbors};

verus! {

/// Where all regions of a list but the one at `q` have one neighbour each,
/// the events of the list are those of that region.
pub proof fn lemma_events_of_one(regions: Seq<LineRegion>, row: Seq<LineRegion>, y: int, q: int)
    requires
        0 <= q < regions.len(),
        forall|t: int|
            0 <= t < regions.len() && t != q ==> (#[trigger] neighbors(regions[t], row)).len() == 1,
    ensures
        events_of(regions, row, y) == event(regions[q], neighbors(regions[q], row), y),
    decreases regions.len(),
{
    let front = regions.drop_last();
    let last = regions.len() - 1;
    if q == last {
        assert forall|t: int| 0 <= t < front.len() implies (#[trigger] neighbors(
            front[t],
            row,
        )).len() == 1 by {
            assert(front[t] == regions[t]);
        }
        lemma_single_neighbors(front, row, y);
        assert(events_of(regions, row, y) =~= event(regions[q], neighbors(regions[q], row), y));
    } else {
        assert forall|t: int| 0 <= t < front.len() && t != q implies (#[trigger] neighbors(
            front[t],
            row,
        )).len() == 1 by {
            assert(front[t] == regions[t]);
        }
        lemma_events_of_one(front, row, y, q);
        assert(front[q] == regions[q]);
        assert(neighbors(regions[last], row).len() == 1);
        assert(events_of(regions, row, y) =~= event(regions[q], neighbors(regions[q], row), y));
    }
}

/// Where every obstacle region of `from` has at most two neighbours in
/// `to`, nothing is wrong on that side.
proof fn lemma_no_anomaly(from: Seq<LineRegion>, to: Seq<LineRegion>)
    requires
        forall|t: int|
            0 <= t < obstacles(from).len() ==> (#[trigger] neighbors(obstacles(from)[t], to)).len()
                <= 2,
    ensures
        !anomaly(from, to),
{
}

/// Continuation: where every obstacle region of each of two adjacent rows
/// has exactly one neighbour in the other, there is no critical point
/// between the rows.
pub proof fn lemma_continuation(prev: Seq<LineRegion>, curr: Seq<LineRegion>, y: int)
    requires
        forall|t: int|
            0 <= t < obstacles(prev).len() ==> (#[trigger] neighbors(
                obstacles(prev)[t],
                curr,
            )).len() == 1,
        forall|t: int|
            0 <= t < obstacles(curr).len() ==> (#[trigger] neighbors(
                obstacles(curr)[t],
                prev,
            )).len() == 1,
    ensures
        supported(prev, curr),
        transition_events(prev, curr, y) == Seq::<(int, int)>::empty(),
{
    lemma_single_neighbors(obstacles(prev), curr, y);
    lemma_single_neighbors(obstacles(curr), prev, y - 1);
    lemma_no_anomaly(prev, curr);
    lemma_no_anomaly(curr, prev);
    assert(transition_events(prev, curr, y) =~= Seq::<(int, int)>::empty());
}

/// A region ends: where the obstacle region `q` of the upper row has no
/// neighbour in the lower row, and every other obstacle region of either
/// row has exactly one neighbour in the other, the rows have exactly one
/// critical point between them: the middle of that region, at the index `y`
/// of the lower row.
pub proof fn lemma_region_ends(prev: Seq<LineRegion>, curr: Seq<LineRegion>, y: int, q: int)
    requires
        0 <= q < obstacles(prev).len(),
        neighbors(obstacles(prev)[q], curr).len() == 0,
        forall|t: int|
            0 <= t < obstacles(prev).len() && t != q ==> (#[trigger] neighbors(
                obstacles(prev)[t],
                curr,
            )).len() == 1,
        forall|t: int|
            0 <= t < obstacles(curr).len() ==> (#[trigger] neighbors(
                obstacles(curr)[t],
                prev,
            )).len() == 1,
    ensures
        supported(prev, curr),
        transition_events(prev, curr, y) == seq![
            ((obstacles(prev)[q].start + obstacles(prev)[q].end) / 2, y),
        ],
{
    lemma_events_of_one(obstacles(prev), curr, y, q);
    lemma_single_neighbors(obstacles(curr), prev, y - 1);
    lemma_no_anomaly(prev, curr);
    lemma_no_anomaly(curr, prev);
    assert(transition_events(prev, curr, y) =~= seq![
        ((obstacles(prev)[q].start + obstacles(prev)[q].end) / 2, y),
    ]);
}

/// A region begins: where the obstacle region `q` of the lower row has no
/// neighbour in the upper row, and every other obstacle region of either
/// row has exactly one neighbour in the other, the rows have exactly one
/// critical point between them: the middle of that region, at the index
/// `y - 1` of the upper row.
pub proof fn lemma_region_begins(prev: Seq<LineRegion>, curr: Seq<LineRegion>, y: int, q: int)
    requires
        0 <= q < obstacles(curr).len(),
        neighbors(obstacles(curr)[q], prev).len() == 0,
        forall|t: int|
            0 <= t < obstacles(curr).len() && t != q ==> (#[trigger] neighbors(
                obstacles(curr)[t],
                prev,
            )).len() == 1,
        forall|t: int|
            0 <= t < obstacles(prev).len() ==> (#[trigger] neighbors(
                obstacles(prev)[t],
                curr,
            )).len() == 1,
    ensures
        supported(prev, curr),
        transition_events(prev, curr, y) == seq![
            ((obstacles(curr)[q].start + obstacles(curr)[q].end) / 2, y - 1),
        ],
{
    lemma_events_of_one(obstacles(curr), prev, y - 1, q);
    lemma_single_neighbors(obstacles(prev), curr, y);
    lemma_no_anomaly(prev, curr);
    lemma_no_anomaly(curr, prev);
    assert(transition_events(prev, curr, y) =~= seq![
        ((obstacles(curr)[q].start + obstacles(curr)[q].end) / 2, y - 1),
    ]);
}

/// A region splits: where the obstacle region `q` of the upper row has two
/// neighbours in the lower row, and every other obstacle region of either
/// row has exactly one neighbour in the other, the rows have exactly one
/// critical point between them: the middle of the gap between the two
/// neighbours, rounded down, at the index `y` of the lower row. The two
/// neighbours, which have the one region above them, give no point of their
/// own.
pub proof fn lemma_region_splits(prev: Seq<LineRegion>, curr: Seq<LineRegion>, y: int, q: int)
    requires
        0 <= q < obstacles(prev).len(),
        neighbors(obstacles(prev)[q], curr).len() == 2,
        forall|t: int|
            0 <= t < obstacles(prev).len() && t != q ==> (#[trigger] neighbors(
                obstacles(prev)[t],
                curr,
            )).len() == 1,
        forall|t: int|
            0 <= t < obstacles(curr).len() ==> (#[trigger] neighbors(
                obstacles(curr)[t],
                prev,
            )).len() == 1,
    ensures
        supported(prev, curr),
        transition_events(prev, curr, y) == seq![
            (
                (neighbors(obstacles(prev)[q], curr)[0].end + neighbors(
                    obstacles(prev)[q],
                    curr,
                )[1].start) / 2,
                y,
            ),
        ],
{
    lemma_events_of_one(obstacles(prev), curr, y, q);
    lemma_single_neighbors(obstacles(curr), prev, y - 1);
    lemma_no_anomaly(prev, curr);
    lemma_no_anomaly(curr, prev);
    assert(transition_events(prev, curr, y) =~= event(
        obstacles(prev)[q],
        neighbors(obstacles(prev)[q], curr),
        y,
    ));
}

/// Two regions merge: where the obstacle region `q` of the lower row has
/// two neighbours in the upper row, and every other obstacle region of
/// either row has exactly one neighbour in the other, the rows have exactly
/// one critical point between them: the middle of the gap between the two
/// neighbours, rounded down, at the index `y - 1` of the upper row.
pub proof fn lemma_regions_merge(prev: Seq<LineRegion>, curr: Seq<LineRegion>, y: int, q: int)
    requires
        0 <= q < obstacles(curr).len(),
        neighbors(obstacles(curr)[q], prev).len() == 2,
        forall|t: int|
            0 <= t < obstacles(curr).len() && t != q ==> (#[trigger] neighbors(
                obstacles(curr)[t],
                prev,
            )).len() == 1,
        forall|t: int|
            0 <= t < obstacles(prev).len() ==> (#[trigger] neighbors(
                obstacles(prev)[t],
                curr,
            )).len() == 1,
    ensures
        supported(prev, curr),
        transition_events(prev, curr, y) == seq![
            (
                (neighbors(obstacles(curr)[q], prev)[0].end + neighbors(
                    obstacles(curr)[q],
                    prev,
                )[1].start) / 2,
                y - 1,
            ),
        ],
{
    lemma_events_of_one(obstacles(curr), prev, y - 1, q);
    lemma_single_neighbors(obstacles(prev), curr, y);
    lemma_no_anomaly(prev, curr);
    lemma_no_anomaly(curr, prev);
    assert(transition_events(prev, curr, y) =~= event(
        obstacles(curr)[q],
        neighbors(obstacles(curr)[q], prev),
        y - 1,
    ));
}

/// Of regions in order, only a region itself overlaps it.
pub proof fn lemma_own_overlap(regions: Seq<LineRegion>, q: int)
    requires
        in_order(regions),
        0 <= q < regions.len(),
    ensures
        regions.filter(overlaps_with(regions[q])) == seq![regions[q]],
{
    let r = regions[q];
    let pred = overlaps_with(r);
    let before = regions.take(q);
    let after = regions.skip(q + 1);
    let one = seq![r];
    assert(regions =~= before + one + after);
    Seq::filter_distributes_over_add(before + one, after, pred);
    Seq::filter_distributes_over_add(before, one, pred);
    assert(in_order(before)) by {
        assert forall|i: int, j: int| 0 <= i < j < before.len() implies (#[trigger] before[i]).end
            <= (#[trigger] before[j]).start by {
            assert(before[i] == regions[i] && before[j] == regions[j]);
        }
        assert forall|i: int| 0 <= i < before.len() implies (#[trigger] before[i]).start
            < before[i].end by {
            assert(before[i] == regions[i]);
        }
    }
    assert(in_order(after)) by {
        assert forall|i: int, j: int| 0 <= i < j < after.len() implies (#[trigger] after[i]).end
            <= (#[trigger] after[j]).start by {
            assert(after[i] == regions[q + 1 + i] && after[j] == regions[q + 1 + j]);
        }
        assert forall|i: int| 0 <= i < after.len() implies (#[trigger] after[i]).start
            < after[i].end by {
            assert(after[i] == regions[q + 1 + i]);
        }
    }
    lemma_filter_in_order(before, pred);
    lemma_filter_in_order(after, pred);
    if before.filter(pred).len() > 0 {
        let c = before.filter(pred)[0];
        assert(before.contains(c) && pred(c));
        let k = choose|k: int| 0 <= k < before.len() && before[k] == c;
        assert(regions[k].end <= regions[q].start);
        assert(false);
    }
    if after.filter(pred).len() > 0 {
        let c = after.filter(pred)[0];
        assert(after.contains(c) && pred(c));
        let k = choose|k: int| 0 <= k < after.len() && after[k] == c;
        assert(regions[q].end <= regions[q + 1 + k].start);
        assert(false);
    }
    assert(one.filter(pred) =~= one) by {
        reveal(Seq::filter);
        assert(one.drop_last() =~= Seq::<LineRegion>::empty());
        assert(regions[q].start < regions[q].end);
        assert(pred(r));
    }
    assert(regions.filter(pred) =~= one);
}

/// A row that is repeated: between a row whose regions are in order and an
/// equal row below it there is no critical point.
pub proof fn lemma_unchanged_row(row: Seq<LineRegion>, y: int)
    requires
        in_order(row),
    ensures
        supported(row, row),
        transition_events(row, row, y) == Seq::<(int, int)>::empty(),
{
    lemma_filter_in_order(row, is_obstacle());
    let regions = obstacles(row);
    assert forall|t: int| 0 <= t < regions.len() implies (#[trigger] neighbors(
        regions[t],
        row,
    )).len() == 1 by {
        lemma_own_overlap(regions, t);
    }
    lemma_continuation(row, row, y);
}

/// An obstacle that goes on unchanged over many rows: rows that are all
/// equal to one row, whose regions are in order, have no critical point
/// between them.
pub proof fn lemma_unchanged_rows(rows: Seq<Seq<LineRegion>>, row: Seq<LineRegion>, y: int)
    requires
        in_order(row),
        forall|k: int| 0 <= k < rows.len() ==> #[trigger] rows[k] == row,
    ensures
        all_supported(rows),
        all_events(rows, y) == Seq::<(int, int)>::empty(),
    decreases rows.len(),
{
    lemma_unchanged_row(row, 0);
    if rows.len() >= 2 {
        let front = rows.drop_last();
        assert forall|k: int| 0 <= k < front.len() implies #[trigger] front[k] == row by {
            assert(front[k] == rows[k]);
        }
        lemma_unchanged_rows(front, row, y);
        lemma_unchanged_row(row, y + rows.len() - 2);
        assert(rows[rows.len() - 2] == row);
        assert(rows[rows.len() - 1] == row);
        assert(all_events(rows, y) =~= Seq::<(int, int)>::empty());
    }
    assert forall|i: int, j: int| 0 <= i && j == i + 1 && j < rows.len() implies supported(
        #[trigger] rows[i],
        #[trigger] rows[j],
    ) by {
        assert(rows[i] == row && rows[j] == row);
    }
}

} // verus!
