//! Comparing two adjacent rows: which obstacle regions end, begin, split or
//! merge between them, and where.
use vstd::prelude::*;
use crate::region::{coords, LineRegion, Point};
use crate::linking::{
    add_obstacles, hits, lemma_hits, link_region, links, neighbor_regions, region_of_node, span,
};
use crate::overlap_graph::{graph_new, graph_node_weight, graph_nodes};

verus! {

/// Why a sweep gave no critical points.
#[derive(Clone, Copy, Debug, PartialEq, Eq, Structural)]
pub enum SweepError {
    /// The margins leave no pixel column between them.
    EmptyInterior,
    /// An obstacle region touches more than two obstacle regions of the row
    /// above or below it.
    UnsupportedTopology,
}

/// Two regions share a pixel column.
pub open spec fn overlaps(a: LineRegion, b: LineRegion) -> bool {
    a.start < b.end && b.start < a.end
}

/// Says whether two regions share a pixel column.
pub fn overlap(region1: &LineRegion, region2: &LineRegion) -> (shared: bool)
    ensures
        shared == overlaps(*region1, *region2),
{
    region1.start < region2.end && region2.start < region1.end
}

/// The test for an obstacle region.
pub open spec fn is_obstacle() -> spec_fn(LineRegion) -> bool {
    |r: LineRegion| r.obstacle
}

/// The test for a region that overlaps `r`.
pub open spec fn overlaps_with(r: LineRegion) -> spec_fn(LineRegion) -> bool {
    |c: LineRegion| overlaps(r, c)
}

/// The obstacle regions of a row, from left to right.
pub open spec fn obstacles(row: Seq<LineRegion>) -> Seq<LineRegion> {
    row.filter(is_obstacle())
}

/// The obstacle regions of `row` that overlap `r`, from left to right.
pub open spec fn neighbors(r: LineRegion, row: Seq<LineRegion>) -> Seq<LineRegion> {
    obstacles(row).filter(overlaps_with(r))
}

/// The regions of `row` are not empty, and each ends before the next begins.
pub open spec fn in_order(row: Seq<LineRegion>) -> bool {
    &&& forall|i: int| 0 <= i < row.len() ==> (#[trigger] row[i]).start < row[i].end
    &&& forall|i: int, j: int|
        0 <= i < j < row.len() ==> (#[trigger] row[i]).end <= (#[trigger] row[j]).start
}

/// What an obstacle region `r` with the neighbours `ns` in the adjacent row
/// gives rise to, reported at row `y`: with no neighbour, the middle of `r`;
/// with two, the middle of the gap between them; else nothing.
pub open spec fn event(r: LineRegion, ns: Seq<LineRegion>, y: int) -> Seq<(int, int)> {
    if ns.len() == 0 {
        seq![((r.start + r.end) / 2, y)]
    } else if ns.len() == 2 {
        seq![((ns[0].end + ns[1].start) / 2, y)]
    } else {
        Seq::empty()
    }
}

/// The events of `regions` against `row`, region by region.
pub open spec fn events_of(regions: Seq<LineRegion>, row: Seq<LineRegion>, y: int) -> Seq<
    (int, int),
>
    decreases regions.len(),
{
    if regions.len() == 0 {
        Seq::empty()
    } else {
        events_of(regions.drop_last(), row, y) + event(
            regions.last(),
            neighbors(regions.last(), row),
            y,
        )
    }
}

/// The events of the obstacle regions of `from` against the row `to`,
/// reported at row `y`.
pub open spec fn side_events(from: Seq<LineRegion>, to: Seq<LineRegion>, y: int) -> Seq<
    (int, int),
> {
    events_of(obstacles(from), to, y)
}

/// Some obstacle region of `from` has more than two neighbours in `to`.
pub open spec fn anomaly(from: Seq<LineRegion>, to: Seq<LineRegion>) -> bool {
    exists|q: int|
        0 <= q < obstacles(from).len() && (#[trigger] neighbors(obstacles(from)[q], to)).len() > 2
}

/// No obstacle region of either row has more than two neighbours in the other.
pub open spec fn supported(prev: Seq<LineRegion>, curr: Seq<LineRegion>) -> bool {
    !anomaly(prev, curr) && !anomaly(curr, prev)
}

/// The critical points between the row `prev` and the row `curr` below it,
/// where `y` is the index of `curr`: first what happens to the regions of
/// `prev`, reported at `y`, then what happens to the regions of `curr`,
/// reported at the row above.
pub open spec fn transition_events(prev: Seq<LineRegion>, curr: Seq<LineRegion>, y: int) -> Seq<
    (int, int),
> {
    side_events(prev, curr, y) + side_events(curr, prev, y - 1)
}

/// What a filter keeps of a row in order is in order.
pub proof fn lemma_filter_in_order(row: Seq<LineRegion>, pred: spec_fn(LineRegion) -> bool)
    requires
        in_order(row),
    ensures
        in_order(row.filter(pred)),
        forall|i: int|
            0 <= i < row.filter(pred).len() ==> row.contains(#[trigger] row.filter(pred)[i])
                && pred(row.filter(pred)[i]),
    decreases row.len(),
{
    reveal(Seq::filter);
    if row.len() > 0 {
        let front = row.drop_last();
        assert forall|i: int, j: int| 0 <= i < j < front.len() implies (#[trigger] front[i]).end
            <= (#[trigger] front[j]).start by {
            assert(front[i] == row[i] && front[j] == row[j]);
        }
        assert forall|i: int| 0 <= i < front.len() implies (#[trigger] front[i]).start
            < front[i].end by {
            assert(front[i] == row[i]);
        }
        lemma_filter_in_order(front, pred);
        let kept = front.filter(pred);
        let all = row.filter(pred);
        assert forall|i: int| 0 <= i < all.len() implies row.contains(#[trigger] all[i]) && pred(
            all[i],
        ) by {
            if i < kept.len() {
                assert(all[i] == kept[i]);
                assert(front.contains(kept[i]));
                let k = choose|k: int| 0 <= k < front.len() && front[k] == kept[i];
                assert(row[k] == all[i]);
            } else {
                assert(row[row.len() - 1] == all[i]);
            }
        }
        assert forall|i: int, j: int| 0 <= i < j < all.len() implies (#[trigger] all[i]).end <= (
        #[trigger] all[j]).start by {
            assert(all[i] == kept[i]);
            if j < kept.len() {
                assert(all[j] == kept[j]);
            } else {
                assert(front.contains(kept[i]));
                let k = choose|k: int| 0 <= k < front.len() && front[k] == kept[i];
                assert(row[k].end <= row[row.len() - 1].start);
            }
        }
        assert forall|i: int| 0 <= i < all.len() implies (#[trigger] all[i]).start
            < all[i].end by {
            let k = choose|k: int| 0 <= k < row.len() && row[k] == all[i];
            assert(row[k].start < row[k].end);
        }
    }
}

/// The obstacle regions of the first `k` regions of a row are the first
/// obstacle regions of the row.
pub proof fn lemma_obstacles_prefix(row: Seq<LineRegion>, k: int)
    requires
        0 <= k <= row.len(),
    ensures
        obstacles(row.take(k)).len() <= obstacles(row).len(),
        forall|q: int|
            0 <= q < obstacles(row.take(k)).len() ==> #[trigger] obstacles(row.take(k))[q]
                == obstacles(row)[q],
{
    assert(row =~= row.take(k) + row.skip(k));
    Seq::filter_distributes_over_add(row.take(k), row.skip(k), is_obstacle());
}

/// Where a list of regions has no event, none of its regions has one.
pub proof fn lemma_no_events(regions: Seq<LineRegion>, row: Seq<LineRegion>, y: int, q: int)
    requires
        events_of(regions, row, y).len() == 0,
        0 <= q < regions.len(),
    ensures
        event(regions[q], neighbors(regions[q], row), y).len() == 0,
    decreases regions.len(),
{
    if q < regions.len() - 1 {
        lemma_no_events(regions.drop_last(), row, y, q);
    }
}

/// The pixel halfway between `a` and `b`, rounded down.
fn midpoint(a: usize, b: usize) -> (m: usize)
    requires
        a <= b,
    ensures
        m == (a + b) / 2,
{
    a + (b - a) / 2
}

/// Adds to `points` what the obstacle region `r` gives rise to, where
/// `found` holds its neighbours as the graph handed them out. The point is
/// reported at row `y`, or at the row above it where `above` is set.
/// Returns `false`, and adds nothing, where `r` has more than two neighbours.
fn report(
    r: &LineRegion,
    found: &Vec<LineRegion>,
    y: usize,
    above: bool,
    points: &mut Vec<Point>,
    Ghost(ns): Ghost<Seq<LineRegion>>,
) -> (ok: bool)
    requires
        r.start < r.end,
        in_order(ns),
        found.len() == ns.len(),
        ns.len() == 2 ==> {
            ||| found[0] == ns[0] && found[1] == ns[1]
            ||| found[0] == ns[1] && found[1] == ns[0]
        },
        above && (ns.len() == 0 || ns.len() == 2) ==> y >= 1,
    ensures
        ok == (ns.len() <= 2),
        ok ==> coords(final(points)@) == coords(old(points)@) + event(
            *r,
            ns,
            if above {
                y - 1
            } else {
                y as int
            },
        ),
{
    let ghost before = points@;
    if found.len() == 0 {
        let at: usize = if above {
            y - 1
        } else {
            y
        };
        let point = Point { x: midpoint(r.start, r.end), y: at };
        points.push(point);
        assert(coords(points@) =~= coords(before) + seq![point@]);
        true
    } else if found.len() == 2 {
        let at: usize = if above {
            y - 1
        } else {
            y
        };
        assert(ns[0].start < ns[0].end <= ns[1].start);
        let (first, second) = if found[0].start > found[1].start {
            (found[1], found[0])
        } else {
            (found[0], found[1])
        };
        assert(first == ns[0] && second == ns[1]);
        let point = Point { x: midpoint(first.end, second.start), y: at };
        points.push(point);
        assert(coords(points@) =~= coords(before) + seq![point@]);
        true
    } else {
        assert(coords(points@) =~= coords(before) + Seq::<(int, int)>::empty());
        found.len() < 2
    }
}

/// Compares the row `prev` with the row `curr` below it, where `y` is the
/// index of `curr`, and returns the critical points between them: for each
/// obstacle region of `prev` with no neighbour in `curr` the middle of the
/// region, for each with two neighbours the middle of the gap between them,
/// both at row `y`; then the same for the regions of `curr` against `prev`,
/// at row `y - 1`. A region with more than two neighbours is an error.
///
/// Points of the second kind need a row above `curr`: with `y == 0` the call
/// is allowed only where there are none.
pub fn row_transition(prev: &Vec<LineRegion>, curr: &Vec<LineRegion>, y: usize) -> (r: Result<
    Vec<Point>,
    SweepError,
>)
    requires
        in_order(prev@),
        in_order(curr@),
        y >= 1 || side_events(curr@, prev@, y - 1).len() == 0,
    ensures
        match r {
            Ok(points) => supported(prev@, curr@) && coords(points@) == transition_events(
                prev@,
                curr@,
                y as int,
            ),
            Err(e) => e == SweepError::UnsupportedTopology && !supported(prev@, curr@),
        },
{
    let mut g = graph_new();
    let ids: Vec<usize> = add_obstacles(&mut g, curr);
    let ghost lower = obstacles(curr@);
    let ghost m = lower.len() as int;
    let mut points: Vec<Point> = Vec::new();
    proof {
        lemma_filter_in_order(curr@, is_obstacle());
        assert(prev@.take(0) =~= Seq::<LineRegion>::empty());
        reveal(Seq::filter);
        assert(coords(points@) =~= Seq::<(int, int)>::empty());
    }
    let mut i: usize = 0;
    while i < prev.len()
        invariant
            i <= prev.len(),
            in_order(prev@),
            in_order(curr@),
            in_order(lower),
            lower == obstacles(curr@),
            m == lower.len(),
            ids.len() == m,
            forall|t: int| 0 <= t < ids.len() ==> ids[t] == t,
            forall|j: int| 0 <= j < lower.len() ==> (#[trigger] lower[j]).obstacle,
            links(g, lower, obstacles(prev@.take(i as int))),
            m + obstacles(prev@.take(i as int)).len() <= usize::MAX + 1,
            coords(points@) == events_of(obstacles(prev@.take(i as int)), curr@, y as int),
            forall|q: int|
                0 <= q < obstacles(prev@.take(i as int)).len() ==> (#[trigger] neighbors(
                    obstacles(prev@.take(i as int))[q],
                    curr@,
                )).len() <= 2,
        decreases prev.len() - i,
    {
        let p = prev[i];
        let ghost upper = obstacles(prev@.take(i as int));
        proof {
            assert(prev@.take(i + 1) =~= prev@.take(i as int).push(p));
            prev@.take(i as int).lemma_filter_push(p, is_obstacle());
        }
        if p.obstacle {
            let ghost longer = upper.push(p);
            assert(obstacles(prev@.take(i + 1)) == longer);
            let pid: usize = link_region(&mut g, &ids, &p, Ghost(lower), Ghost(upper));
            let ghost expected = hits(p, lower, 0);
            let ghost ns = neighbors(p, curr@);
            proof {
                lemma_hits(p, lower, 0);
                lemma_filter_in_order(lower, overlaps_with(p));
                assert(longer[pid - m] == p);
                assert forall|t: int| 0 <= t < expected.len() implies region_of_node(
                    graph_nodes(g),
                    #[trigger] expected[t],
                ) == ns[t] by {
                    assert(graph_nodes(g)[expected[t] as int] == span(
                        lower[expected[t] as int],
                    ));
                }
            }
            let found: Vec<LineRegion> = neighbor_regions(&g, pid, Ghost(expected));
            let ok: bool = report(&p, &found, y, false, &mut points, Ghost(ns));
            proof {
                assert(longer.drop_last() =~= upper);
                lemma_obstacles_prefix(prev@, i + 1);
                assert(obstacles(prev@)[upper.len() as int] == p);
            }
            if !ok {
                assert(anomaly(prev@, curr@));
                return Err(SweepError::UnsupportedTopology);
            }
            assert forall|q: int| 0 <= q < longer.len() implies (#[trigger] neighbors(
                longer[q],
                curr@,
            )).len() <= 2 by {
                if q < upper.len() {
                    assert(longer[q] == upper[q]);
                }
            }
        }
        i += 1;
    }
    let ghost upper = obstacles(prev@);
    proof {
        assert(prev@.take(prev.len() as int) =~= prev@);
        lemma_filter_in_order(prev@, is_obstacle());
        assert(lower.take(0) =~= Seq::<LineRegion>::empty());
        assert(coords(points@) =~= side_events(prev@, curr@, y as int) + events_of(
            lower.take(0),
            prev@,
            y - 1,
        ));
    }
    let mut t: usize = 0;
    while t < ids.len()
        invariant
            t <= ids.len(),
            in_order(prev@),
            in_order(lower),
            in_order(upper),
            lower == obstacles(curr@),
            upper == obstacles(prev@),
            m == lower.len(),
            ids.len() == m,
            forall|t: int| 0 <= t < ids.len() ==> ids[t] == t,
            forall|j: int| 0 <= j < lower.len() ==> (#[trigger] lower[j]).obstacle,
            links(g, lower, upper),
            m + upper.len() <= usize::MAX + 1,
            y >= 1 || events_of(lower, prev@, y - 1).len() == 0,
            coords(points@) == side_events(prev@, curr@, y as int) + events_of(
                lower.take(t as int),
                prev@,
                y - 1,
            ),
            forall|q: int| 0 <= q < t ==> (#[trigger] neighbors(lower[q], prev@)).len() <= 2,
        decreases ids.len() - t,
    {
        let rid: usize = ids[t];
        let w: (usize, usize) = graph_node_weight(&g, rid);
        let c = LineRegion { obstacle: true, start: w.0, end: w.1 };
        assert(c == lower[t as int]);
        let ghost expected = hits(c, upper, m);
        let ghost ns = neighbors(c, prev@);
        proof {
            lemma_hits(c, upper, m);
            lemma_filter_in_order(upper, overlaps_with(c));
            assert forall|s: int| 0 <= s < expected.len() implies region_of_node(
                graph_nodes(g),
                #[trigger] expected[s],
            ) == ns[s] by {
                assert(graph_nodes(g)[expected[s] as int] == span(
                    upper[expected[s] - m],
                ));
                assert(upper.contains(ns[s]));
            }
            if y == 0 {
                lemma_no_events(lower, prev@, y - 1, t as int);
            }
            assert(lower.take(t + 1).drop_last() =~= lower.take(t as int));
        }
        let found: Vec<LineRegion> = neighbor_regions(&g, rid, Ghost(expected));
        let ok: bool = report(&c, &found, y, true, &mut points, Ghost(ns));
        if !ok {
            assert(anomaly(curr@, prev@));
            return Err(SweepError::UnsupportedTopology);
        }
        t += 1;
    }
    proof {
        assert(lower.take(m) =~= lower);
    }
    Ok(points)
}

} // verus!
