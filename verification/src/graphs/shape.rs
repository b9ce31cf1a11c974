//! The shape of the spatial graph: how many edges leave each foreground node.

use crate::graphs::nearest::{
    lemma_nearest_count, lemma_nearest_first, lemma_nearest_len, lemma_nearest_sorted, nearer,
    nearest,
};
use crate::graphs::{
    boundary_edges, boundary_upto, distances, neighbour_edges, neighbour_upto, node_edges,
    row_edges, spatial_edges, K_VALUE,
};
use crate::segmentation::connection::segments_connected;
use crate::segmentation::GeoSegment;
use vstd::prelude::*;

verus! {

/// Number of edges of the list that lead from node `v` to a node from
/// `division` on: the edges of a foreground node to the background.
pub open spec fn outward(edges: Seq<(int, int)>, v: int, division: int) -> nat
    decreases edges.len(),
{
    if edges.len() == 0 {
        0
    } else {
        outward(edges.drop_last(), v, division) + if edges.last().0 == v && edges.last().1
            >= division {
            1nat
        } else {
            0nat
        }
    }
}

/// Number of edges of the list that have node `v` at one of their ends.
pub open spec fn degree(edges: Seq<(int, int)>, v: int) -> nat
    decreases edges.len(),
{
    if edges.len() == 0 {
        0
    } else {
        degree(edges.drop_last(), v) + if edges.last().0 == v || edges.last().1 == v {
            1nat
        } else {
            0nat
        }
    }
}

/// The edges of a node to the background in two lists are those in their joint list.
pub proof fn lemma_outward_add(a: Seq<(int, int)>, b: Seq<(int, int)>, v: int, division: int)
    ensures
        outward(a + b, v, division) == outward(a, v, division) + outward(b, v, division),
    decreases b.len(),
{
    if b.len() == 0 {
        assert(a + b =~= a);
    } else {
        assert((a + b).drop_last() =~= a + b.drop_last());
        lemma_outward_add(a, b.drop_last(), v, division);
    }
}

/// A node has at least as many edges as it has edges to the background.
pub proof fn lemma_degree_outward(edges: Seq<(int, int)>, v: int, division: int)
    ensures
        degree(edges, v) >= outward(edges, v, division),
    decreases edges.len(),
{
    if edges.len() > 0 {
        lemma_degree_outward(edges.drop_last(), v, division);
    }
}

/// The links from one node to a list of background nodes all lead from that
/// node to the background.
proof fn lemma_outward_links(targets: Seq<int>, from: int, division: int, v: int)
    requires
        forall|r: int| 0 <= r < targets.len() ==> 0 <= #[trigger] targets[r],
    ensures
        outward(targets.map_values(|j: int| (from, division + j)), v, division) == if v == from {
            targets.len()
        } else {
            0
        },
    decreases targets.len(),
{
    let links = targets.map_values(|j: int| (from, division + j));
    if targets.len() > 0 {
        assert(links.drop_last() =~= targets.drop_last().map_values(
            |j: int| (from, division + j),
        ));
        assert(targets[targets.len() - 1] >= 0);
        lemma_outward_links(targets.drop_last(), from, division, v);
    }
}

/// The number of background regions that a foreground node is linked to:
/// `K_VALUE`, or all of them where there are fewer.
pub open spec fn neighbour_count(nodes: Seq<GeoSegment>, division: int) -> int {
    if nodes.len() - division >= K_VALUE {
        K_VALUE as int
    } else {
        nodes.len() - division
    }
}

/// Of the neighbour edges of the foreground nodes before `m`, as many lead from
/// each of these nodes to the background as it has neighbours, and none leads
/// from another node.
proof fn lemma_neighbour_upto_outward(nodes: Seq<GeoSegment>, division: int, m: int, v: int)
    requires
        0 <= m <= division <= nodes.len(),
    ensures
        outward(neighbour_upto(nodes, division, m), v, division) == if 0 <= v < m {
            neighbour_count(nodes, division)
        } else {
            0
        },
    decreases m,
{
    if m > 0 {
        lemma_neighbour_upto_outward(nodes, division, m - 1, v);
        let keys = distances(nodes[m - 1].centroid, nodes.skip(division));
        lemma_nearest_count(keys, K_VALUE as int);
        lemma_nearest_len(keys, K_VALUE as int);
        lemma_outward_links(nearest(keys, K_VALUE as int), m - 1, division, v);
        lemma_outward_add(
            neighbour_upto(nodes, division, m - 1),
            node_edges(nodes, division, m - 1),
            v,
            division,
        );
    }
}

/// No edge of a prefix of the boundary edges leads to a node from the end of
/// the list of nodes on.
proof fn lemma_outward_prefix(segs: Seq<GeoSegment>, i: int, len: int, v: int)
    requires
        0 <= i <= segs.len(),
        0 <= len <= boundary_upto(segs, i).len(),
    ensures
        outward(boundary_upto(segs, i).take(len), v, segs.len() as int) == 0,
    decreases len,
{
    let edges = boundary_upto(segs, i);
    if len > 0 {
        lemma_outward_prefix(segs, i, len - 1, v);
        lemma_boundary_holds(segs, i, len - 1);
        assert(edges.take(len).drop_last() =~= edges.take(len - 1));
        assert(edges.take(len).last() == edges[len - 1]);
    }
}

/// The shape of the spatial graph of `nodes`, of which those before `division`
/// are foreground. From each foreground node exactly `K_VALUE` edges lead to
/// background nodes, or as many as there are background nodes where these are
/// fewer; so with at least `K_VALUE` background nodes, each foreground node has
/// `K_VALUE` edges to the background, and at least as many edges in all.
pub proof fn lemma_graph_shape(nodes: Seq<GeoSegment>, division: int, v: int)
    requires
        0 <= v < division <= nodes.len(),
    ensures
        outward(neighbour_edges(nodes, division), v, division) == neighbour_count(nodes, division),
        outward(spatial_edges(nodes, division), v, division) == neighbour_count(nodes, division),
        degree(spatial_edges(nodes, division), v) >= neighbour_count(nodes, division),
        nodes.len() - division >= K_VALUE ==> outward(spatial_edges(nodes, division), v, division)
            == K_VALUE && degree(spatial_edges(nodes, division), v) >= K_VALUE,
{
    let front = nodes.take(division);
    lemma_neighbour_upto_outward(nodes, division, division, v);
    lemma_outward_prefix(front, division, boundary_edges(front).len() as int, v);
    assert(boundary_edges(front).take(boundary_edges(front).len() as int) =~= boundary_edges(
        front,
    ));
    lemma_outward_add(boundary_edges(front), neighbour_edges(nodes, division), v, division);
    lemma_degree_outward(spatial_edges(nodes, division), v, division);
}

/// A node has at most one boundary edge to each later node.
proof fn lemma_row_edges_bound(segs: Seq<GeoSegment>, i: int, j: int)
    requires
        0 <= i,
    ensures
        row_edges(segs, i, j).len() <= if j > i {
            j - i - 1
        } else {
            0
        },
    decreases j - i,
{
    if j > i + 1 {
        lemma_row_edges_bound(segs, i, j - 1);
    }
}

/// The nodes before `i` have at most as many boundary edges as there are pairs
/// of one of them and any node.
proof fn lemma_boundary_bound(segs: Seq<GeoSegment>, i: int)
    requires
        0 <= i <= segs.len(),
    ensures
        boundary_upto(segs, i).len() <= i * segs.len(),
    decreases i,
{
    if i > 0 {
        lemma_boundary_bound(segs, i - 1);
        lemma_row_edges_bound(segs, i - 1, segs.len() as int);
        assert((i - 1) * segs.len() + segs.len() == i * segs.len()) by (nonlinear_arith);
    }
}

/// The foreground nodes before `m` have at most `K_VALUE` neighbour edges each.
proof fn lemma_neighbour_bound(nodes: Seq<GeoSegment>, division: int, m: int)
    requires
        0 <= m <= division <= nodes.len(),
    ensures
        neighbour_upto(nodes, division, m).len() <= K_VALUE * m,
    decreases m,
{
    if m > 0 {
        lemma_neighbour_bound(nodes, division, m - 1);
        let keys = distances(nodes[m - 1].centroid, nodes.skip(division));
        lemma_nearest_count(keys, K_VALUE as int);
    }
}

/// A spatial graph with `division` foreground nodes has at most one boundary
/// edge for each pair of them and `K_VALUE` neighbour edges for each of them;
/// so a graph of few foreground regions is known to fit without its edges
/// being counted.
pub proof fn lemma_edge_bound(nodes: Seq<GeoSegment>, division: int)
    requires
        0 <= division <= nodes.len(),
    ensures
        spatial_edges(nodes, division).len() <= division * division + K_VALUE * division,
{
    lemma_boundary_bound(nodes.take(division), division);
    lemma_neighbour_bound(nodes, division, division);
}

/// Edge `(a, b)` stands before edge `(c, d)` where the edges are ordered by
/// their first node and, for one first node, by their second.
pub open spec fn edge_before(e: (int, int), f: (int, int)) -> bool {
    e.0 < f.0 || (e.0 == f.0 && e.1 < f.1)
}

/// Each boundary edge of node `i` leads from `i` to a later node that `i` is
/// connected to, and the edges are ordered by that node.
proof fn lemma_row_edges_hold(segs: Seq<GeoSegment>, i: int, j: int, r: int)
    requires
        0 <= r < row_edges(segs, i, j).len(),
    ensures
        row_edges(segs, i, j)[r].0 == i,
        i < row_edges(segs, i, j)[r].1 < j,
        segments_connected(segs[i].seg@, segs[row_edges(segs, i, j)[r].1].seg@),
        forall|q: int| 0 <= q < r ==> (#[trigger] row_edges(segs, i, j)[q]).1 < row_edges(
            segs,
            i,
            j,
        )[r].1,
    decreases j - i,
{
    if j > i + 1 {
        let rest = row_edges(segs, i, j - 1);
        if r < rest.len() {
            lemma_row_edges_hold(segs, i, j - 1, r);
        } else {
            assert forall|q: int| 0 <= q < r implies (#[trigger] row_edges(segs, i, j)[q]).1 < j
                - 1 by {
                lemma_row_edges_hold(segs, i, j - 1, q);
            }
        }
    }
}

/// Node `i` has a boundary edge to each later node that it is connected to.
proof fn lemma_row_edges_have(segs: Seq<GeoSegment>, i: int, j: int, b: int)
    requires
        i < b < j,
        segments_connected(segs[i].seg@, segs[b].seg@),
    ensures
        row_edges(segs, i, j).contains((i, b)),
    decreases j - i,
{
    let all = row_edges(segs, i, j);
    if b == j - 1 {
        assert(all[all.len() - 1] == (i, b));
    } else {
        lemma_row_edges_have(segs, i, j - 1, b);
        let rest = row_edges(segs, i, j - 1);
        let r = choose|r: int| 0 <= r < rest.len() && rest[r] == (i, b);
        assert(all[r] == (i, b));
    }
}

/// Each boundary edge of the nodes before `i` leads from one of them to a later
/// node that it is connected to, and the edges are ordered.
proof fn lemma_boundary_holds(segs: Seq<GeoSegment>, i: int, r: int)
    requires
        0 <= i <= segs.len(),
        0 <= r < boundary_upto(segs, i).len(),
    ensures
        0 <= boundary_upto(segs, i)[r].0 < i,
        boundary_upto(segs, i)[r].0 < boundary_upto(segs, i)[r].1 < segs.len(),
        segments_connected(
            segs[boundary_upto(segs, i)[r].0].seg@,
            segs[boundary_upto(segs, i)[r].1].seg@,
        ),
        forall|q: int|
            0 <= q < r ==> edge_before(#[trigger] boundary_upto(segs, i)[q], boundary_upto(segs, i)[r]),
    decreases i,
{
    if i > 0 {
        let head = boundary_upto(segs, i - 1);
        let tail = row_edges(segs, i - 1, segs.len() as int);
        if r < head.len() {
            lemma_boundary_holds(segs, i - 1, r);
        } else {
            lemma_row_edges_hold(segs, i - 1, segs.len() as int, r - head.len());
            assert forall|q: int| 0 <= q < r implies edge_before(
                #[trigger] boundary_upto(segs, i)[q],
                boundary_upto(segs, i)[r],
            ) by {
                if q < head.len() {
                    lemma_boundary_holds(segs, i - 1, q);
                } else {
                    assert(tail[q - head.len()].1 < tail[r - head.len()].1);
                    lemma_row_edges_hold(segs, i - 1, segs.len() as int, q - head.len());
                }
            }
        }
    }
}

/// Each pair of a node before `i` and a later node that it is connected to is a
/// boundary edge.
proof fn lemma_boundary_has(segs: Seq<GeoSegment>, i: int, a: int, b: int)
    requires
        0 <= a < i <= segs.len(),
        a < b < segs.len(),
        segments_connected(segs[a].seg@, segs[b].seg@),
    ensures
        boundary_upto(segs, i).contains((a, b)),
    decreases i,
{
    let all = boundary_upto(segs, i);
    let head = boundary_upto(segs, i - 1);
    let tail = row_edges(segs, i - 1, segs.len() as int);
    if a == i - 1 {
        lemma_row_edges_have(segs, a, segs.len() as int, b);
        let r = choose|r: int| 0 <= r < tail.len() && tail[r] == (a, b);
        assert(all[head.len() + r] == (a, b));
    } else {
        lemma_boundary_has(segs, i - 1, a, b);
        let r = choose|r: int| 0 <= r < head.len() && head[r] == (a, b);
        assert(all[r] == (a, b));
    }
}

/// The boundary edges are the pairs of regions of which the earlier is
/// connected to the later: each such pair is an edge, and each edge is such a pair.
pub proof fn lemma_boundary_members(segs: Seq<GeoSegment>, a: int, b: int)
    ensures
        boundary_edges(segs).contains((a, b)) <==> 0 <= a < b < segs.len() && segments_connected(
            segs[a].seg@,
            segs[b].seg@,
        ),
{
    let all = boundary_edges(segs);
    if all.contains((a, b)) {
        let r = choose|r: int| 0 <= r < all.len() && all[r] == (a, b);
        lemma_boundary_holds(segs, segs.len() as int, r);
    }
    if 0 <= a < b < segs.len() && segments_connected(segs[a].seg@, segs[b].seg@) {
        lemma_boundary_has(segs, segs.len() as int, a, b);
    }
}

/// The boundary edges are ordered by their first node and, for one first node,
/// by their second; so no pair of regions has two boundary edges.
pub proof fn lemma_boundary_sorted(segs: Seq<GeoSegment>, q: int, r: int)
    requires
        0 <= q < r < boundary_edges(segs).len(),
    ensures
        edge_before(boundary_edges(segs)[q], boundary_edges(segs)[r]),
{
    lemma_boundary_holds(segs, segs.len() as int, r);
}

/// Each neighbour edge of foreground node `i` leads from `i` to a background
/// node, and a later edge leads to a node that lies farther from `i`, or as far
/// and later in the list of nodes: no background node is linked twice.
pub proof fn lemma_node_edges_hold(nodes: Seq<GeoSegment>, division: int, i: int, q: int, r: int)
    requires
        0 <= i < division <= nodes.len(),
        0 <= q < r < node_edges(nodes, division, i).len(),
    ensures
        node_edges(nodes, division, i)[r].0 == i,
        division <= node_edges(nodes, division, i)[r].1 < nodes.len(),
        nearer(
            distances(nodes[i].centroid, nodes.skip(division)),
            node_edges(nodes, division, i)[q].1 - division,
            node_edges(nodes, division, i)[r].1 - division,
        ),
{
    let keys = distances(nodes[i].centroid, nodes.skip(division));
    lemma_nearest_sorted(keys, K_VALUE as int, q, r);
}

/// A background node that foreground node `i` is not linked to lies farther
/// from `i` than every node that `i` is linked to, or as far and later in the
/// list of nodes.
pub proof fn lemma_node_edges_nearest(
    nodes: Seq<GeoSegment>,
    division: int,
    i: int,
    r: int,
    other: int,
)
    requires
        0 <= i < division <= other < nodes.len(),
        0 <= r < node_edges(nodes, division, i).len(),
        !node_edges(nodes, division, i).contains((i, other)),
    ensures
        nearer(
            distances(nodes[i].centroid, nodes.skip(division)),
            node_edges(nodes, division, i)[r].1 - division,
            other - division,
        ),
{
    let keys = distances(nodes[i].centroid, nodes.skip(division));
    let taken = nearest(keys, K_VALUE as int);
    let links = node_edges(nodes, division, i);
    if taken.contains(other - division) {
        let t = choose|t: int| 0 <= t < taken.len() && taken[t] == other - division;
        assert(links[t] == (i, other));
    }
    lemma_nearest_first(keys, K_VALUE as int, r, other - division);
}

} // verus!
