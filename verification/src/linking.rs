//! Building the overlap graph of two rows and reading a region's neighbours
//! back from it.
use vstd::prelude::*;
use vstd::multiset::Multiset;
use petgraph::graph::Graph;
use petgraph::Undirected;
use crate::analyzer::{is_obstacle, obstacles, overlap, overlaps, overlaps_with};
use crate::overlap_graph::{
    graph_add_edge, graph_add_node, graph_edges, graph_neighbors, graph_node_weight, graph_nodes,
    incident,
};
use crate::region::LineRegion;

verus! {

/// What a node of the graph carries for the obstacle region `r`.
pub open spec fn span(r: LineRegion) -> (usize, usize) {
    (r.start, r.end)
}

/// The obstacle region that a node's weight stands for.
pub open spec fn region_of(weight: (usize, usize)) -> LineRegion {
    LineRegion { obstacle: true, start: weight.0, end: weight.1 }
}

/// The obstacle region that the weight of node `id` stands for.
pub open spec fn region_of_node(nodes: Seq<(usize, usize)>, id: usize) -> LineRegion {
    region_of(nodes[id as int])
}

/// The node weights of a list of regions.
pub open spec fn spans(regions: Seq<LineRegion>) -> Seq<(usize, usize)> {
    regions.map_values(|r: LineRegion| span(r))
}

/// The nodes of the regions of `regions` that overlap `r`, in ascending
/// order, where the node of `regions[q]` is `base + q`.
pub open spec fn hits(r: LineRegion, regions: Seq<LineRegion>, base: int) -> Seq<usize>
    decreases regions.len(),
{
    if regions.len() == 0 {
        Seq::empty()
    } else {
        let rest = hits(r, regions.drop_last(), base);
        if overlaps(r, regions.last()) {
            rest.push((base + regions.len() - 1) as usize)
        } else {
            rest
        }
    }
}

/// The graph `g` is the overlap graph of the obstacle regions `lower` and
/// `upper`: the nodes of `lower` come first, those of `upper` after them in
/// the same order, and a node's neighbours are the nodes of the regions of
/// the other row that overlap its own.
pub open spec fn links(
    g: Graph<(usize, usize), u8, Undirected, usize>,
    lower: Seq<LineRegion>,
    upper: Seq<LineRegion>,
) -> bool {
    &&& graph_nodes(g) =~= spans(lower) + spans(upper)
    &&& forall|j: usize|
        j < lower.len() ==> #[trigger] incident(graph_edges(g), j) =~= hits(
            lower[j as int],
            upper,
            lower.len() as int,
        ).to_multiset()
    &&& forall|x: usize|
        lower.len() <= x < lower.len() + upper.len() ==> #[trigger] incident(graph_edges(g), x)
            =~= hits(upper[x - lower.len()], lower, 0).to_multiset()
    &&& forall|x: usize|
        x >= lower.len() + upper.len() ==> #[trigger] incident(graph_edges(g), x)
            =~= Multiset::<usize>::empty()
}

/// What one more edge adds to the neighbours of a node.
pub proof fn lemma_incident_push(edges: Seq<(usize, usize)>, e: (usize, usize), a: usize)
    ensures
        incident(edges.push(e), a) == if e.0 == a {
            incident(edges, a).insert(e.1)
        } else if e.1 == a {
            incident(edges, a).insert(e.0)
        } else {
            incident(edges, a)
        },
{
    assert(edges.push(e).drop_last() =~= edges);
}

/// What one more region adds to the nodes that overlap `r`.
pub proof fn lemma_hits_push(r: LineRegion, regions: Seq<LineRegion>, x: LineRegion, base: int)
    ensures
        hits(r, regions.push(x), base) == if overlaps(r, x) {
            hits(r, regions, base).push((base + regions.len()) as usize)
        } else {
            hits(r, regions, base)
        },
{
    assert(regions.push(x).drop_last() =~= regions);
}

/// The nodes that `hits` lists are those of the regions that the filter
/// keeps, in the same order.
pub proof fn lemma_hits(r: LineRegion, regions: Seq<LineRegion>, base: int)
    requires
        0 <= base,
        base + regions.len() <= usize::MAX + 1,
    ensures
        hits(r, regions, base).len() == regions.filter(overlaps_with(r)).len(),
        forall|t: int|
            0 <= t < hits(r, regions, base).len() ==> base <= (#[trigger] hits(
                r,
                regions,
                base,
            )[t]) < base + regions.len() && regions[hits(r, regions, base)[t] - base]
                == regions.filter(overlaps_with(r))[t],
        forall|s: int, t: int|
            0 <= s < t < hits(r, regions, base).len() ==> (#[trigger] hits(r, regions, base)[s])
                < (#[trigger] hits(r, regions, base)[t]),
    decreases regions.len(),
{
    reveal(Seq::filter);
    if regions.len() > 0 {
        lemma_hits(r, regions.drop_last(), base);
        let rest = hits(r, regions.drop_last(), base);
        let kept = regions.drop_last().filter(overlaps_with(r));
        assert(overlaps_with(r)(regions.last()) == overlaps(r, regions.last()));
        let all = hits(r, regions, base);
        assert forall|t: int| 0 <= t < all.len() implies base <= (#[trigger] all[t]) < base
            + regions.len() && regions[all[t] - base] == regions.filter(overlaps_with(r))[t] by {
            if t < rest.len() {
                assert(all[t] == rest[t]);
                assert(regions.drop_last()[rest[t] - base] == kept[t]);
            }
        }
        assert forall|s: int, t: int| 0 <= s < t < all.len() implies (#[trigger] all[s]) < (
        #[trigger] all[t]) by {
            assert(all[s] == rest[s]);
            if t < rest.len() {
                assert(all[t] == rest[t]);
            }
        }
    }
}

/// Puts a node for each obstacle region of `row` into the empty graph `g`
/// and returns the nodes, which are numbered from 0 in the order of the
/// regions.
pub(crate) fn add_obstacles(
    g: &mut Graph<(usize, usize), u8, Undirected, usize>,
    row: &Vec<LineRegion>,
) -> (ids: Vec<usize>)
    requires
        graph_nodes(*old(g)).len() == 0,
        graph_edges(*old(g)).len() == 0,
    ensures
        links(*final(g), obstacles(row@), Seq::empty()),
        ids.len() == obstacles(row@).len(),
        forall|t: int| 0 <= t < ids.len() ==> ids[t] == t,
{
    let mut ids: Vec<usize> = Vec::new();
    let mut i: usize = 0;
    assert(row@.take(0) =~= Seq::<LineRegion>::empty());
    proof {
        reveal(Seq::filter);
    }
    while i < row.len()
        invariant
            i <= row.len(),
            graph_nodes(*g) =~= spans(obstacles(row@.take(i as int))),
            graph_edges(*g).len() == 0,
            ids.len() == obstacles(row@.take(i as int)).len(),
            forall|t: int| 0 <= t < ids.len() ==> ids[t] == t,
        decreases row.len() - i,
    {
        let region = row[i];
        proof {
            assert(row@.take(i + 1) =~= row@.take(i as int).push(region));
            row@.take(i as int).lemma_filter_push(region, is_obstacle());
        }
        if region.obstacle {
            let id: usize = graph_add_node(g, (region.start, region.end));
            ids.push(id);
        }
        i += 1;
    }
    proof {
        assert(row@.take(row.len() as int) =~= row@);
        let lower = obstacles(row@);
        assert(graph_edges(*g) =~= Seq::<(usize, usize)>::empty());
        assert(spans(lower) + spans(Seq::<LineRegion>::empty()) =~= spans(lower));
        assert forall|j: usize| j < lower.len() implies #[trigger] incident(graph_edges(*g), j)
            =~= hits(lower[j as int], Seq::<LineRegion>::empty(), lower.len() as int).to_multiset() by {
            Seq::<usize>::empty().to_multiset_ensures();
        }
    }
    ids
}

/// Puts a node for the obstacle region `p` of the upper row into the graph,
/// with an edge to each region of the lower row that overlaps it, and
/// returns the node.
pub(crate) fn link_region(
    g: &mut Graph<(usize, usize), u8, Undirected, usize>,
    ids: &Vec<usize>,
    p: &LineRegion,
    Ghost(lower): Ghost<Seq<LineRegion>>,
    Ghost(upper): Ghost<Seq<LineRegion>>,
) -> (pid: usize)
    requires
        links(*old(g), lower, upper),
        ids.len() == lower.len(),
        forall|t: int| 0 <= t < ids.len() ==> ids[t] == t,
        forall|j: int| 0 <= j < lower.len() ==> (#[trigger] lower[j]).obstacle,
        p.obstacle,
    ensures
        links(*final(g), lower, upper.push(*p)),
        pid == lower.len() + upper.len(),
{
    let ghost m = lower.len() as int;
    let ghost longer = upper.push(*p);
    let pid: usize = graph_add_node(g, (p.start, p.end));
    assert(graph_nodes(*g) =~= spans(lower) + spans(longer));
    assert(lower.take(0) =~= Seq::<LineRegion>::empty());
    proof {
        Seq::<usize>::empty().to_multiset_ensures();
    }
    let mut t: usize = 0;
    while t < ids.len()
        invariant
            t <= ids.len(),
            ids.len() == m,
            m == lower.len(),
            longer == upper.push(*p),
            pid == m + upper.len(),
            p.obstacle,
            forall|t: int| 0 <= t < ids.len() ==> ids[t] == t,
            forall|j: int| 0 <= j < lower.len() ==> (#[trigger] lower[j]).obstacle,
            graph_nodes(*g) =~= spans(lower) + spans(longer),
            forall|j: usize|
                j < m ==> #[trigger] incident(graph_edges(*g), j) =~= (if j < t {
                    hits(lower[j as int], longer, m)
                } else {
                    hits(lower[j as int], upper, m)
                }).to_multiset(),
            forall|x: usize|
                m <= x < m + upper.len() ==> #[trigger] incident(graph_edges(*g), x) =~= hits(
                    upper[x - m],
                    lower,
                    0,
                ).to_multiset(),
            incident(graph_edges(*g), pid) =~= hits(*p, lower.take(t as int), 0).to_multiset(),
            forall|x: usize|
                x > pid ==> #[trigger] incident(graph_edges(*g), x) =~= Multiset::<usize>::empty(),
        decreases ids.len() - t,
    {
        let rid: usize = ids[t];
        let a: (usize, usize) = graph_node_weight(g, pid);
        let b: (usize, usize) = graph_node_weight(g, rid);
        let upper_region = LineRegion { obstacle: true, start: a.0, end: a.1 };
        let lower_region = LineRegion { obstacle: true, start: b.0, end: b.1 };
        assert(upper_region == *p);
        assert(lower_region == lower[t as int]);
        let ghost edges = graph_edges(*g);
        proof {
            lemma_hits_push(lower[t as int], upper, *p, m);
            assert(lower.take(t + 1) =~= lower.take(t as int).push(lower[t as int]));
            lemma_hits_push(*p, lower.take(t as int), lower[t as int], 0);
            hits(*p, lower.take(t as int), 0).to_multiset_ensures();
            hits(lower[t as int], upper, m).to_multiset_ensures();
        }
        if overlap(&upper_region, &lower_region) {
            graph_add_edge(g, pid, rid, 0);
            proof {
                assert forall|x: usize| true implies #[trigger] incident(graph_edges(*g), x) == (
                if x == pid {
                    incident(edges, x).insert(rid)
                } else if x == rid {
                    incident(edges, x).insert(pid)
                } else {
                    incident(edges, x)
                }) by {
                    lemma_incident_push(edges, (pid, rid), x);
                }
            }
        }
        t += 1;
    }
    proof {
        assert(lower.take(m) =~= lower);
    }
    pid
}

/// The regions of the nodes next to node `a`, in the order in which the
/// graph hands them out.
pub(crate) fn neighbor_regions(
    g: &Graph<(usize, usize), u8, Undirected, usize>,
    a: usize,
    Ghost(expected): Ghost<Seq<usize>>,
) -> (regions: Vec<LineRegion>)
    requires
        incident(graph_edges(*g), a) == expected.to_multiset(),
        forall|t: int| 0 <= t < expected.len() ==> (#[trigger] expected[t]) < graph_nodes(*g).len(),
        forall|s: int, t: int|
            0 <= s < t < expected.len() ==> (#[trigger] expected[s]) < (#[trigger] expected[t]),
    ensures
        regions.len() == expected.len(),
        regions.len() == 2 ==> {
            ||| regions[0] == region_of(graph_nodes(*g)[expected[0] as int]) && regions[1]
                == region_of(graph_nodes(*g)[expected[1] as int])
            ||| regions[0] == region_of(graph_nodes(*g)[expected[1] as int]) && regions[1]
                == region_of(graph_nodes(*g)[expected[0] as int])
        },
{
    let ids: Vec<usize> = graph_neighbors(g, a);
    proof {
        ids@.to_multiset_ensures();
        expected.to_multiset_ensures();
    }
    let mut regions: Vec<LineRegion> = Vec::new();
    let mut t: usize = 0;
    while t < ids.len()
        invariant
            t <= ids.len(),
            regions.len() == t,
            ids@.to_multiset() == expected.to_multiset(),
            forall|x: usize| ids@.contains(x) <==> #[trigger] ids@.to_multiset().count(x) > 0,
            forall|x: usize| expected.contains(x) <==> #[trigger] expected.to_multiset().count(x) > 0,
            forall|t: int|
                0 <= t < expected.len() ==> (#[trigger] expected[t]) < graph_nodes(*g).len(),
            forall|s: int|
                0 <= s < t ==> #[trigger] regions[s] == region_of(graph_nodes(*g)[ids[s] as int]),
        decreases ids.len() - t,
    {
        let id: usize = ids[t];
        assert(ids@.contains(id));
        assert(expected.to_multiset().count(id) > 0);
        assert(expected.contains(id));
        let w: (usize, usize) = graph_node_weight(g, id);
        regions.push(LineRegion { obstacle: true, start: w.0, end: w.1 });
        t += 1;
    }
    proof {
        if ids.len() == 2 {
            assert(expected.contains(expected[0]));
            assert(expected.contains(expected[1]));
            assert(ids@.to_multiset().count(expected[0]) > 0);
            assert(ids@.to_multiset().count(expected[1]) > 0);
            assert(ids@.contains(expected[0]));
            assert(ids@.contains(expected[1]));
        }
    }
    regions
}

} // verus!
