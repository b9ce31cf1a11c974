//! The spatial graph: foreground regions linked to each other where they touch,
//! and each of them linked to the background regions nearest to it.

pub mod nearest;
pub mod shape;

use crate::graphs::nearest::{
    lemma_nearest_chain, lemma_nearest_stops, lemma_next_nearest_range, nearest, next_nearest,
};
use crate::graphs::shape::{degree, lemma_graph_shape, neighbour_count, outward};
use crate::helpers::{Connected, FixedCoordinates};
use crate::segmentation::connection::segments_connected;
use crate::segmentation::{GeoSegment, ImageSegments};
use petgraph::graph::{Graph, NodeIndex};
use petgraph::Undirected;
use vstd::prelude::*;

verus! {

/// `petgraph::graph::Graph`, declared so that it can stand in signatures; proofs
/// know a graph only through [`graph_nodes`] and [`graph_edges`].
#[verifier::external_type_specification]
#[verifier::external_body]
#[verifier::reject_recursive_types(N)]
#[verifier::reject_recursive_types(E)]
#[verifier::reject_recursive_types(Ty)]
#[verifier::reject_recursive_types(Ix)]
pub struct ExGraph<N, E, Ty, Ix>(Graph<N, E, Ty, Ix>);

/// `petgraph::Undirected`, the marker of graphs without edge direction.
#[verifier::external_type_specification]
#[verifier::external_body]
pub struct ExUndirected(Undirected);

/// An undirected graph of regions, with 32-bit indices and no edge weights.
pub type SegmentGraph = Graph<GeoSegment, (), Undirected, u32>;

/// Number of background regions that each foreground region is linked to.
pub const K_VALUE: usize = 6;

/// The node weights of the graph, by node index.
pub uninterp spec fn graph_nodes(g: SegmentGraph) -> Seq<GeoSegment>;

/// The edges of the graph in the order in which they were added, each as the
/// node indices that it was added with.
pub uninterp spec fn graph_edges(g: SegmentGraph) -> Seq<(int, int)>;

/// `Graph::new_undirected`: a graph without nodes and edges.
#[verifier::external_body]
fn graph_new() -> (g: SegmentGraph)
    ensures
        graph_nodes(g) == Seq::<GeoSegment>::empty(),
        graph_edges(g) == Seq::<(int, int)>::empty(),
{
    Graph::new_undirected()
}

/// `Graph::node_count`.
#[verifier::external_body]
fn graph_node_count(g: &SegmentGraph) -> (n: usize)
    ensures
        n == graph_nodes(*g).len(),
{
    g.node_count()
}

/// `Graph::edge_count`.
#[verifier::external_body]
fn graph_edge_count(g: &SegmentGraph) -> (n: usize)
    ensures
        n == graph_edges(*g).len(),
{
    g.edge_count()
}

/// `Graph::add_node`, which panics once the 32-bit indices are used up: the node
/// is appended, its index is the number of nodes before, the edges stay.
#[verifier::external_body]
fn graph_add_node(g: &mut SegmentGraph, weight: GeoSegment) -> (index: usize)
    requires
        graph_nodes(*old(g)).len() < u32::MAX,
    ensures
        index == graph_nodes(*old(g)).len(),
        graph_nodes(*final(g)) == graph_nodes(*old(g)).push(weight),
        graph_edges(*final(g)) == graph_edges(*old(g)),
{
    g.add_node(weight).index()
}

/// `Graph::add_edge`, which panics on an index that is no node and once the
/// 32-bit indices are used up: the edge is appended, the nodes stay.
#[verifier::external_body]
fn graph_add_edge(g: &mut SegmentGraph, a: usize, b: usize)
    requires
        a < graph_nodes(*old(g)).len(),
        b < graph_nodes(*old(g)).len(),
        graph_nodes(*old(g)).len() <= u32::MAX,
        graph_edges(*old(g)).len() < u32::MAX,
    ensures
        graph_nodes(*final(g)) == graph_nodes(*old(g)),
        graph_edges(*final(g)) == graph_edges(*old(g)).push((a as int, b as int)),
{
    g.add_edge(NodeIndex::new(a), NodeIndex::new(b), ());
}

/// Indexing a `Graph` by a node index, which panics on an index that is no
/// node: the weight of that node.
#[verifier::external_body]
fn graph_node(g: &SegmentGraph, index: usize) -> (weight: &GeoSegment)
    requires
        index < graph_nodes(*g).len(),
        graph_nodes(*g).len() <= u32::MAX,
    ensures
        *weight == graph_nodes(*g)[index as int],
{
    &g[NodeIndex::new(index)]
}

/// The edges from node `i` to the nodes after it and before `j` that it is
/// connected to, in the order of those nodes.
pub open spec fn row_edges(segs: Seq<GeoSegment>, i: int, j: int) -> Seq<(int, int)>
    decreases j - i,
{
    if j <= i + 1 {
        Seq::empty()
    } else {
        let rest = row_edges(segs, i, j - 1);
        if segments_connected(segs[i].seg@, segs[j - 1].seg@) {
            rest.push((i, j - 1))
        } else {
            rest
        }
    }
}

/// The boundary edges of the nodes before `i`.
pub open spec fn boundary_upto(segs: Seq<GeoSegment>, i: int) -> Seq<(int, int)>
    decreases i,
{
    if i <= 0 {
        Seq::empty()
    } else {
        boundary_upto(segs, i - 1) + row_edges(segs, i - 1, segs.len() as int)
    }
}

/// The boundary edges of a list of regions: one edge `(i, j)` for each pair
/// `i < j` where region `i` is connected to region `j`, ordered by `i`, then `j`.
pub open spec fn boundary_edges(segs: Seq<GeoSegment>) -> Seq<(int, int)> {
    boundary_upto(segs, segs.len() as int)
}

/// The boundary edges of a node to the nodes before `j` are among those to the
/// nodes before a later `k`.
pub proof fn lemma_row_edges_grow(segs: Seq<GeoSegment>, i: int, j: int, k: int)
    requires
        j <= k,
    ensures
        row_edges(segs, i, j).len() <= row_edges(segs, i, k).len(),
    decreases k - j,
{
    if j < k {
        lemma_row_edges_grow(segs, i, j, k - 1);
    }
}

/// The boundary edges of the nodes before `i` are among those of the nodes
/// before a later `k`.
pub proof fn lemma_boundary_grows(segs: Seq<GeoSegment>, i: int, k: int)
    requires
        i <= k,
    ensures
        boundary_upto(segs, i).len() <= boundary_upto(segs, k).len(),
    decreases k - i,
{
    if i < k {
        lemma_boundary_grows(segs, i, k - 1);
    }
}

/// Whether one more edge fits the 32-bit indices of the graph.
fn has_room(seg_graph: &SegmentGraph) -> (r: bool)
    ensures
        r == (graph_edges(*seg_graph).len() < u32::MAX),
{
    (graph_edge_count(seg_graph) as u64) < u32::MAX as u64
}

/// Links every pair of nodes of the graph of which the earlier is connected to
/// the later, for as long as the edges fit the 32-bit indices of the graph, and
/// says whether all of them did.
fn boundaries_within(seg_graph: &mut SegmentGraph) -> (done: bool)
    requires
        graph_nodes(*old(seg_graph)).len() <= u32::MAX,
    ensures
        graph_nodes(*final(seg_graph)) == graph_nodes(*old(seg_graph)),
        done <==> graph_edges(*old(seg_graph)).len() + boundary_edges(
            graph_nodes(*old(seg_graph)),
        ).len() <= u32::MAX,
        done ==> graph_edges(*final(seg_graph)) == graph_edges(*old(seg_graph)) + boundary_edges(
            graph_nodes(*old(seg_graph)),
        ),
{
    let ghost segs = graph_nodes(*seg_graph);
    let ghost before = graph_edges(*seg_graph);
    let count: usize = graph_node_count(seg_graph);
    if graph_edge_count(seg_graph) as u64 > u32::MAX as u64 {
        return false;
    }
    let mut node: usize = 0;
    assert(before + boundary_upto(segs, 0) =~= before);
    while node < count
        invariant
            segs == graph_nodes(*old(seg_graph)),
            before == graph_edges(*old(seg_graph)),
            count == segs.len(),
            count <= u32::MAX,
            node <= count,
            graph_nodes(*seg_graph) == segs,
            graph_edges(*seg_graph).len() <= u32::MAX,
            graph_edges(*seg_graph) == before + boundary_upto(segs, node as int),
        decreases count - node,
    {
        let mut other_node: usize = node + 1;
        let ghost done = before + boundary_upto(segs, node as int);
        assert(done + row_edges(segs, node as int, other_node as int) =~= done);
        while other_node < count
            invariant
                segs == graph_nodes(*old(seg_graph)),
                before == graph_edges(*old(seg_graph)),
                count == segs.len(),
                count <= u32::MAX,
                node < count,
                node < other_node <= count,
                done == before + boundary_upto(segs, node as int),
                graph_nodes(*seg_graph) == segs,
                graph_edges(*seg_graph).len() <= u32::MAX,
                graph_edges(*seg_graph) == done + row_edges(segs, node as int, other_node as int),
            decreases count - other_node,
        {
            let connected = graph_node(seg_graph, node).seg.is_connected(
                &graph_node(seg_graph, other_node).seg,
            );
            if connected {
                proof {
                    lemma_row_edges_grow(segs, node as int, other_node + 1, count as int);
                    lemma_boundary_grows(segs, node + 1, count as int);
                }
                if !has_room(seg_graph) {
                    return false;
                }
                graph_add_edge(seg_graph, node, other_node);
                assert(done + row_edges(segs, node as int, other_node + 1) =~= (done + row_edges(
                    segs,
                    node as int,
                    other_node as int,
                )).push((node as int, other_node as int)));
            }
            other_node = other_node + 1;
        }
        assert(before + boundary_upto(segs, node + 1) =~= done + row_edges(
            segs,
            node as int,
            count as int,
        ));
        node = node + 1;
    }
    true
}

/// Links every pair of nodes of the graph of which the earlier is connected to
/// the later.
pub fn connect_boundaries(seg_graph: &mut SegmentGraph)
    requires
        graph_nodes(*old(seg_graph)).len() <= u32::MAX,
        graph_edges(*old(seg_graph)).len() + boundary_edges(graph_nodes(*old(seg_graph))).len()
            <= u32::MAX,
    ensures
        graph_nodes(*final(seg_graph)) == graph_nodes(*old(seg_graph)),
        graph_edges(*final(seg_graph)) == graph_edges(*old(seg_graph)) + boundary_edges(
            graph_nodes(*old(seg_graph)),
        ),
{
    let done = boundaries_within(seg_graph);
    assert(done);
}

/// The square of the distance between two positions, in squared fixed-point units.
pub open spec fn squared_distance(a: FixedCoordinates, b: FixedCoordinates) -> int {
    (a.0 - b.0) * (a.0 - b.0) + (a.1 - b.1) * (a.1 - b.1)
}

/// `root` is the square root of `square`, rounded down.
pub open spec fn is_root(root: int, square: int) -> bool {
    0 <= root && root * root <= square < (root + 1) * (root + 1)
}

/// The square root of `square`, rounded down.
fn integer_root(square: u128) -> (root: u64)
    requires
        square < 0x4_0000_0000_0000_0000,
    ensures
        is_root(root as int, square as int),
{
    let mut low: u128 = 0;
    let mut high: u128 = 0x2_0000_0000;
    while high - low > 1
        invariant
            low < high <= 0x2_0000_0000,
            low * low <= square < high * high,
        decreases high - low,
    {
        let mid: u128 = low + (high - low) / 2;
        assert(mid * mid <= 0x2_0000_0000 * 0x2_0000_0000) by (nonlinear_arith)
            requires
                0 <= mid <= 0x2_0000_0000,
        ;
        if mid * mid <= square {
            low = mid;
        } else {
            high = mid;
        }
    }
    low as u64
}

/// The squared distance between two positions.
fn calc_squared_distance(a: FixedCoordinates, b: FixedCoordinates) -> (d: u128)
    ensures
        d == squared_distance(a, b),
        d < 0x2_0000_0000_0000_0000,
{
    let x_dist: u128 = if a.0 >= b.0 {
        (a.0 - b.0) as u128
    } else {
        (b.0 - a.0) as u128
    };
    let y_dist: u128 = if a.1 >= b.1 {
        (a.1 - b.1) as u128
    } else {
        (b.1 - a.1) as u128
    };
    proof {
        let (dx, dy) = (a.0 - b.0, a.1 - b.1);
        assert(x_dist * x_dist == dx * dx && x_dist * x_dist < 0x1_0000_0000_0000_0000)
            by (nonlinear_arith)
            requires
                x_dist == dx || x_dist == -dx,
                0 <= x_dist < 0x1_0000_0000,
        ;
        assert(y_dist * y_dist == dy * dy && y_dist * y_dist < 0x1_0000_0000_0000_0000)
            by (nonlinear_arith)
            requires
                y_dist == dy || y_dist == -dy,
                0 <= y_dist < 0x1_0000_0000,
        ;
    }
    x_dist * x_dist + y_dist * y_dist
}

/// Distance between the centroids of two shapes.
pub trait EuclideanDistance {
    /// What `calc_centroid` returns.
    spec fn centre(&self) -> FixedCoordinates;

    /// The distance between the two centroids in fixed-point units, rounded down.
    fn calc_euclidean_distance(&self, other: &Self) -> (d: u64)
        ensures
            is_root(d as int, squared_distance(self.centre(), other.centre())),
    {
        let centr_s = self.calc_centroid();
        let centr_o = other.calc_centroid();

        integer_root(calc_squared_distance(centr_s, centr_o))
    }

    /// The centroid of the shape.
    fn calc_centroid(&self) -> (c: FixedCoordinates)
        ensures
            c == self.centre(),
    ;
}

impl EuclideanDistance for GeoSegment {
    open spec fn centre(&self) -> FixedCoordinates {
        self.centroid
    }

    fn calc_centroid(&self) -> (c: FixedCoordinates) {
        self.centroid
    }
}

/// The squared distances from one position to the centroids of a list of regions.
pub open spec fn distances(from: FixedCoordinates, to: Seq<GeoSegment>) -> Seq<int> {
    Seq::new(to.len(), |j: int| squared_distance(to[j].centroid, from))
}

/// The neighbour edges of foreground node `i`: one to each of its `K_VALUE`
/// nearest background regions, nearest first, the background nodes numbered
/// from `division`.
pub open spec fn node_edges(
    nodes: Seq<GeoSegment>,
    division: int,
    i: int,
) -> Seq<(int, int)> {
    nearest(
        distances(nodes[i].centroid, nodes.skip(division)),
        K_VALUE as int,
    ).map_values(|j: int| (i, division + j))
}

/// The neighbour edges of the foreground nodes before `i`.
pub open spec fn neighbour_upto(nodes: Seq<GeoSegment>, division: int, i: int) -> Seq<(int, int)>
    decreases i,
{
    if i <= 0 {
        Seq::empty()
    } else {
        neighbour_upto(nodes, division, i - 1) + node_edges(nodes, division, i - 1)
    }
}

/// The neighbour edges of a graph whose nodes before `division` are foreground
/// and whose other nodes are background, ordered by foreground node.
pub open spec fn neighbour_edges(nodes: Seq<GeoSegment>, division: int) -> Seq<(int, int)> {
    neighbour_upto(nodes, division, division)
}

/// The neighbour edges of the foreground nodes before `i` are among those of
/// the nodes before a later `k`.
pub proof fn lemma_neighbour_grows(nodes: Seq<GeoSegment>, division: int, i: int, k: int)
    requires
        i <= k,
    ensures
        neighbour_upto(nodes, division, i).len() <= neighbour_upto(nodes, division, k).len(),
    decreases k - i,
{
    if i < k {
        lemma_neighbour_grows(nodes, division, i, k - 1);
    }
}

/// Of the background nodes that come after `floor` in the order by distance,
/// the index of the one that comes first.
fn pick_next(keys: &Vec<u128>, floor: Option<usize>) -> (next: Option<usize>)
    requires
        match floor {
            Some(f) => f < keys@.len(),
            None => true,
        },
    ensures
        match next {
            Some(j) => j == next_nearest(
                keys@.map_values(|d: u128| d as int),
                match floor {
                    Some(f) => f as int,
                    None => -1,
                },
                keys@.len() as int,
            ),
            None => next_nearest(
                keys@.map_values(|d: u128| d as int),
                match floor {
                    Some(f) => f as int,
                    None => -1,
                },
                keys@.len() as int,
            ) < 0,
        },
{
    let ghost spec_keys = keys@.map_values(|d: u128| d as int);
    let ghost spec_floor = match floor {
        Some(f) => f as int,
        None => -1,
    };
    let mut best: Option<usize> = None;
    let mut j: usize = 0;
    while j < keys.len()
        invariant
            j <= keys@.len(),
            spec_keys == keys@.map_values(|d: u128| d as int),
            spec_floor == match floor {
                Some(f) => f as int,
                None => -1,
            },
            match floor {
                Some(f) => f < keys@.len(),
                None => true,
            },
            match best {
                Some(b) => b < j && b == next_nearest(spec_keys, spec_floor, j as int),
                None => next_nearest(spec_keys, spec_floor, j as int) < 0,
            },
        decreases keys@.len() - j,
    {
        let after = match floor {
            Some(f) => keys[f] < keys[j] || (keys[f] == keys[j] && f < j),
            None => true,
        };
        let before = match best {
            Some(b) => keys[j] < keys[b] || (keys[j] == keys[b] && j < b),
            None => true,
        };
        if after && before {
            best = Some(j);
        }
        j = j + 1;
    }
    best
}

/// Links every node before `division` to the `K_VALUE` nodes from `division` on
/// whose centroids lie nearest to its own, for as long as the edges fit the
/// 32-bit indices of the graph, and says whether all of them did.
fn neighbours_within(seg_graph: &mut SegmentGraph, division: usize) -> (done: bool)
    requires
        graph_nodes(*old(seg_graph)).len() <= u32::MAX,
        division <= graph_nodes(*old(seg_graph)).len(),
    ensures
        graph_nodes(*final(seg_graph)) == graph_nodes(*old(seg_graph)),
        done <==> graph_edges(*old(seg_graph)).len() + neighbour_edges(
            graph_nodes(*old(seg_graph)),
            division as int,
        ).len() <= u32::MAX,
        done ==> graph_edges(*final(seg_graph)) == graph_edges(*old(seg_graph)) + neighbour_edges(
            graph_nodes(*old(seg_graph)),
            division as int,
        ),
{
    let ghost nodes = graph_nodes(*seg_graph);
    let ghost before = graph_edges(*seg_graph);
    let node_count: usize = graph_node_count(seg_graph);
    if graph_edge_count(seg_graph) as u64 > u32::MAX as u64 {
        return false;
    }
    let total_background_nodes: usize = node_count - division;
    let ghost background = nodes.skip(division as int);

    let mut f_node: usize = 0;
    assert(before + neighbour_upto(nodes, division as int, 0) =~= before);
    while f_node < division
        invariant
            nodes == graph_nodes(*old(seg_graph)),
            before == graph_edges(*old(seg_graph)),
            node_count == nodes.len(),
            node_count <= u32::MAX,
            division <= node_count,
            total_background_nodes == node_count - division,
            background == nodes.skip(division as int),
            f_node <= division,
            graph_nodes(*seg_graph) == nodes,
            graph_edges(*seg_graph).len() <= u32::MAX,
            graph_edges(*seg_graph) == before + neighbour_upto(
                nodes,
                division as int,
                f_node as int,
            ),
        decreases division - f_node,
    {
        let from: FixedCoordinates = graph_node(seg_graph, f_node).calc_centroid();
        let ghost keys = distances(from, background);
        let mut min_tree: Vec<u128> = Vec::with_capacity(total_background_nodes);
        let mut b: usize = 0;
        while b < total_background_nodes
            invariant
                nodes == graph_nodes(*old(seg_graph)),
                before == graph_edges(*old(seg_graph)),
                node_count == nodes.len(),
                node_count <= u32::MAX,
                division <= node_count,
                total_background_nodes == node_count - division,
                background == nodes.skip(division as int),
                keys == distances(from, background),
                b <= total_background_nodes,
                graph_nodes(*seg_graph) == nodes,
                graph_edges(*seg_graph).len() <= u32::MAX,
                graph_edges(*seg_graph) == before + neighbour_upto(
                    nodes,
                    division as int,
                    f_node as int,
                ),
                min_tree@.len() == b,
                forall|j: int| 0 <= j < b ==> #[trigger] min_tree@[j] as int == keys[j],
            decreases total_background_nodes - b,
        {
            let to: FixedCoordinates = graph_node(seg_graph, division + b).calc_centroid();
            min_tree.push(calc_squared_distance(to, from));
            b = b + 1;
        }
        assert(min_tree@.map_values(|d: u128| d as int) =~= keys);

        let ghost done = before + neighbour_upto(nodes, division as int, f_node as int);
        let ghost all = node_edges(nodes, division as int, f_node as int);
        let mut floor: Option<usize> = None;
        let mut taken: usize = 0;
        proof {
            lemma_neighbour_grows(nodes, division as int, f_node + 1, division as int);
            assert(nearest(keys, 0) =~= Seq::<int>::empty());
            assert(done + nearest(keys, 0).map_values(|j: int| (f_node as int, division + j))
                =~= done);
        }
        while taken < K_VALUE
            invariant
                nodes == graph_nodes(*old(seg_graph)),
                before == graph_edges(*old(seg_graph)),
                node_count == nodes.len(),
                node_count <= u32::MAX,
                division <= node_count,
                f_node < division,
                total_background_nodes == node_count - division,
                keys == distances(from, background),
                keys.len() == total_background_nodes,
                min_tree@.map_values(|d: u128| d as int) == keys,
                taken <= K_VALUE,
                nearest(keys, taken as int).len() == taken,
                match floor {
                    Some(f) => taken > 0 && f < total_background_nodes && f == nearest(
                        keys,
                        taken as int,
                    ).last(),
                    None => taken == 0,
                },
                all == nearest(keys, K_VALUE as int).map_values(
                    |j: int| (f_node as int, division + j),
                ),
                all == node_edges(nodes, division as int, f_node as int),
                done == before + neighbour_upto(nodes, division as int, f_node as int),
                neighbour_upto(nodes, division as int, f_node + 1).len() <= neighbour_edges(
                    nodes,
                    division as int,
                ).len(),
                graph_nodes(*seg_graph) == nodes,
                graph_edges(*seg_graph).len() <= u32::MAX,
                graph_edges(*seg_graph) == done + nearest(keys, taken as int).map_values(
                    |j: int| (f_node as int, division + j),
                ),
            ensures
                graph_nodes(*seg_graph) == nodes,
                graph_edges(*seg_graph).len() <= u32::MAX,
                graph_edges(*seg_graph) == done + all,
            decreases K_VALUE - taken,
        {
            let next = pick_next(&min_tree, floor);
            match next {
                Some(b_node) => {
                    proof {
                        lemma_nearest_chain(keys, taken as int + 1, K_VALUE as int);
                        lemma_next_nearest_range(
                            keys,
                            match floor {
                                Some(f) => f as int,
                                None => -1,
                            },
                            keys.len() as int,
                        );
                    }
                    proof {
                        assert(nearest(keys, taken + 1) == nearest(keys, taken as int).push(
                            b_node as int,
                        ));
                    }
                    if !has_room(seg_graph) {
                        proof {
                            assert(all.len() >= taken + 1);
                            assert(neighbour_upto(nodes, division as int, f_node + 1)
                                == neighbour_upto(nodes, division as int, f_node as int) + all);
                        }
                        return false;
                    }
                    graph_add_edge(seg_graph, f_node, division + b_node);
                    proof {
                        let link = |j: int| (f_node as int, division + j);
                        assert(nearest(keys, taken + 1).map_values(link) =~= nearest(
                            keys,
                            taken as int,
                        ).map_values(link).push((f_node as int, division + b_node)));
                        assert(done + nearest(keys, taken + 1).map_values(link) =~= (done
                            + nearest(keys, taken as int).map_values(link)).push(
                            (f_node as int, division + b_node),
                        ));
                    }
                    floor = Some(b_node);
                    taken = taken + 1;
                },
                None => {
                    proof {
                        lemma_nearest_stops(keys, taken as int, K_VALUE as int);
                    }
                    break ;
                },
            }
        }
        assert(before + neighbour_upto(nodes, division as int, f_node + 1) =~= done + all);
        f_node = f_node + 1;
    }
    true
}

/// Links every node before `division` to the `K_VALUE` nodes from `division` on
/// whose centroids lie nearest to its own, nearest first; nodes at one distance
/// are taken in the order of their indices.
pub fn connect_neighbours(seg_graph: &mut SegmentGraph, division: usize)
    requires
        graph_nodes(*old(seg_graph)).len() <= u32::MAX,
        division <= graph_nodes(*old(seg_graph)).len(),
        graph_edges(*old(seg_graph)).len() + neighbour_edges(
            graph_nodes(*old(seg_graph)),
            division as int,
        ).len() <= u32::MAX,
    ensures
        graph_nodes(*final(seg_graph)) == graph_nodes(*old(seg_graph)),
        graph_edges(*final(seg_graph)) == graph_edges(*old(seg_graph)) + neighbour_edges(
            graph_nodes(*old(seg_graph)),
            division as int,
        ),
{
    let done = neighbours_within(seg_graph, division);
    assert(done);
}

/// The spatial graph of a foreground and a background: the foreground regions
/// are the nodes before `division`, the background regions the nodes from it on.
pub struct SpatialGraph {
    pub graph: SegmentGraph,
    pub division: usize,
}

/// The edges of the spatial graph of the regions `nodes`, of which those before
/// `division` are foreground: the boundary edges among the foreground regions,
/// then the neighbour edges.
pub open spec fn spatial_edges(nodes: Seq<GeoSegment>, division: int) -> Seq<(int, int)> {
    boundary_edges(nodes.take(division)) + neighbour_edges(nodes, division)
}

/// The spatial graph `res` is that of the foreground `f` and the background `b`:
/// its nodes are the regions of `f`, then those of `b`; it records where the
/// background begins; its edges are the boundary edges among `f`, then the
/// neighbour edges. So it has `f.len() + b.len()` nodes, and from each
/// foreground node `K_VALUE` edges lead to background nodes, or as many as
/// there are background nodes where these are fewer.
pub open spec fn mounted(res: SpatialGraph, f: Seq<GeoSegment>, b: Seq<GeoSegment>) -> bool {
    &&& res.division == f.len()
    &&& graph_nodes(res.graph) == f + b
    &&& graph_nodes(res.graph).len() == f.len() + b.len()
    &&& graph_edges(res.graph) == spatial_edges(f + b, f.len() as int)
    &&& forall|i: int|
        0 <= i < f.len() ==> #[trigger] outward(graph_edges(res.graph), i, f.len() as int)
            == neighbour_count(f + b, f.len() as int)
    &&& b.len() >= K_VALUE ==> forall|i: int|
        0 <= i < f.len() ==> #[trigger] degree(graph_edges(res.graph), i) >= K_VALUE
}

/// Whether the spatial graph of the foreground `f` and the background `b` fits
/// the 32-bit indices of the graph, its nodes and its edges.
pub open spec fn graph_fits(f: Seq<GeoSegment>, b: Seq<GeoSegment>) -> bool {
    &&& f.len() + b.len() <= u32::MAX
    &&& spatial_edges(f + b, f.len() as int).len() <= u32::MAX
}

/// Appends the regions to the nodes of the graph, in their order.
fn add_nodes(seg_graph: &mut SegmentGraph, segments: ImageSegments)
    requires
        graph_nodes(*old(seg_graph)).len() + segments@.len() <= u32::MAX,
    ensures
        graph_nodes(*final(seg_graph)) == graph_nodes(*old(seg_graph)) + segments@,
        graph_edges(*final(seg_graph)) == graph_edges(*old(seg_graph)),
{
    let ghost before = graph_nodes(*seg_graph);
    let ghost all = segments@;
    assert(before + all.take(0) =~= before);
    for segment in it: segments.into_iter()
        invariant
            it.seq() == all,
            before == graph_nodes(*old(seg_graph)),
            before.len() + all.len() <= u32::MAX,
            graph_nodes(*seg_graph) == before + all.take(it.index() as int),
            graph_edges(*seg_graph) == graph_edges(*old(seg_graph)),
    {
        let ghost at = it.index() as int;
        graph_add_node(seg_graph, segment);
        assert(before + all.take(at + 1) =~= (before + all.take(at)).push(segment));
    }
    assert(all.take(all.len() as int) =~= all);
}

/// What the edges of a spatial graph say of its shape.
proof fn lemma_mounted(res: SpatialGraph, f: Seq<GeoSegment>, b: Seq<GeoSegment>)
    requires
        res.division == f.len(),
        graph_nodes(res.graph) == f + b,
        graph_edges(res.graph) == spatial_edges(f + b, f.len() as int),
    ensures
        mounted(res, f, b),
{
    assert forall|i: int| 0 <= i < f.len() implies #[trigger] outward(
        graph_edges(res.graph),
        i,
        f.len() as int,
    ) == neighbour_count(f + b, f.len() as int) by {
        lemma_graph_shape(f + b, f.len() as int, i);
    }
    if b.len() >= K_VALUE {
        assert forall|i: int| 0 <= i < f.len() implies #[trigger] degree(
            graph_edges(res.graph),
            i,
        ) >= K_VALUE by {
            lemma_graph_shape(f + b, f.len() as int, i);
        }
    }
}

/// Builds the spatial graph: the foreground regions as nodes in their order,
/// linked where they are connected; then the background regions as nodes in
/// their order; then each foreground node linked to its nearest background nodes.
pub fn mount_graph(f_segments: ImageSegments, b_segments: ImageSegments) -> (res: SpatialGraph)
    requires
        graph_fits(f_segments@, b_segments@),
    ensures
        mounted(res, f_segments@, b_segments@),
        graph_nodes(res.graph).len() == f_segments@.len() + b_segments@.len(),
        b_segments@.len() >= K_VALUE ==> forall|i: int|
            0 <= i < f_segments@.len() ==> #[trigger] outward(
                graph_edges(res.graph),
                i,
                f_segments@.len() as int,
            ) >= K_VALUE,
{
    let ghost foreground = f_segments@;
    let ghost background = b_segments@;
    let mut res = graph_new();

    add_nodes(&mut res, f_segments);
    proof {
        assert(Seq::<GeoSegment>::empty() + foreground =~= foreground);
        assert((foreground + background).take(foreground.len() as int) =~= foreground);
    }

    connect_boundaries(&mut res);
    let division: usize = graph_node_count(&res);

    add_nodes(&mut res, b_segments);

    connect_neighbours(&mut res, division);

    let res = SpatialGraph { graph: res, division };
    proof {
        lemma_mounted(res, foreground, background);
    }
    res
}

/// Builds the spatial graph where it fits the 32-bit indices of the graph, and
/// returns `None` where its nodes or its edges are too many.
pub fn try_mount_graph(f_segments: ImageSegments, b_segments: ImageSegments) -> (res: Option<
    SpatialGraph,
>)
    ensures
        res is Some <==> graph_fits(f_segments@, b_segments@),
        res is Some ==> mounted(res->0, f_segments@, b_segments@),
{
    let ghost foreground = f_segments@;
    let ghost background = b_segments@;
    if f_segments.len() as u128 + b_segments.len() as u128 > u32::MAX as u128 {
        return None;
    }
    let mut res = graph_new();

    add_nodes(&mut res, f_segments);
    proof {
        assert(Seq::<GeoSegment>::empty() + foreground =~= foreground);
        assert((foreground + background).take(foreground.len() as int) =~= foreground);
    }

    if !boundaries_within(&mut res) {
        return None;
    }
    let division: usize = graph_node_count(&res);

    add_nodes(&mut res, b_segments);

    if !neighbours_within(&mut res, division) {
        return None;
    }

    let res = SpatialGraph { graph: res, division };
    proof {
        lemma_mounted(res, foreground, background);
    }
    Some(res)
}

} // verus!
