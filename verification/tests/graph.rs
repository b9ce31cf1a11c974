use camouflage::graphs::{
    connect_boundaries, connect_neighbours, mount_graph, EuclideanDistance, SegmentGraph, K_VALUE,
};
use camouflage::helpers::Crop;
use camouflage::raster::GrayAlphaImage;
use camouflage::segmentation::{crop_by, CropRule, GeoSegment, ImgSegmentation, Segment};
use std::ops::RangeInclusive;

fn geo(centroid: (u32, u32), rows: Vec<(u16, Vec<RangeInclusive<u16>>)>) -> GeoSegment {
    GeoSegment { centroid, seg: Segment::from_iter(rows) }
}

/// A one-pixel region at `(x, y)` with its centroid on that pixel.
fn dot(x: u16, y: u16) -> GeoSegment {
    geo((x as u32 * 65536, y as u32 * 65536), vec![(y, vec![x..=x])])
}

fn edges(graph: &SegmentGraph) -> Vec<(usize, usize)> {
    graph
        .edge_indices()
        .map(|e| graph.edge_endpoints(e).unwrap())
        .map(|(a, b)| (a.index(), b.index()))
        .collect()
}

#[test]
fn distance_is_the_root_of_the_squares() {
    let a = dot(0, 0);
    let b = dot(3, 4);
    assert_eq!(a.calc_centroid(), (0, 0));
    assert_eq!(b.calc_centroid(), (3 * 65536, 4 * 65536));
    assert_eq!(a.calc_euclidean_distance(&b), 5 * 65536);
    assert_eq!(b.calc_euclidean_distance(&a), 5 * 65536);
    assert_eq!(a.calc_euclidean_distance(&a), 0);
    // sqrt(2) = 1.41421356..., rounded down to 1/65536
    let c = dot(1, 1);
    assert_eq!(a.calc_euclidean_distance(&c), 92681);
    // the largest distance that two centroids can have
    let far = geo((u32::MAX, u32::MAX), vec![]);
    assert_eq!(a.calc_euclidean_distance(&far), 6074000998);
}

#[test]
fn two_empty_sets_give_an_empty_graph() {
    let res = mount_graph(Vec::new(), Vec::new());
    assert_eq!(res.division, 0);
    assert_eq!(res.graph.node_count(), 0);
    assert_eq!(res.graph.edge_count(), 0);
}

#[test]
fn foreground_without_background_has_boundary_edges_only() {
    let res = mount_graph(vec![dot(0, 0), dot(1, 0), dot(5, 5)], Vec::new());
    assert_eq!(res.division, 3);
    assert_eq!(res.graph.node_count(), 3);
    assert_eq!(edges(&res.graph), vec![(0, 1)]);
}

#[test]
fn boundary_edges_join_touching_regions() {
    let mut graph = SegmentGraph::new_undirected();
    // a row of three touching runs, a region below the first, one far away
    graph.add_node(geo((0, 0), vec![(0, vec![0..=2])]));
    graph.add_node(geo((0, 0), vec![(0, vec![3..=5])]));
    graph.add_node(geo((0, 0), vec![(0, vec![6..=9])]));
    graph.add_node(geo((0, 0), vec![(1, vec![1..=1])]));
    graph.add_node(geo((0, 0), vec![(7, vec![0..=9])]));

    connect_boundaries(&mut graph);

    assert_eq!(graph.node_count(), 5);
    assert_eq!(edges(&graph), vec![(0, 1), (0, 3), (1, 2)]);
}

#[test]
fn each_foreground_node_gets_its_six_nearest_background_nodes() {
    let foreground = vec![dot(0, 0), dot(100, 0)];
    // background on a line, at distances 1, 2, ... from the first foreground dot
    let background: Vec<GeoSegment> = (1..=9u16).map(|x| dot(10 * x, 0)).collect();
    let res = mount_graph(foreground, background);

    assert_eq!(res.division, 2);
    assert_eq!(res.graph.node_count(), 11);
    assert_eq!(res.graph[petgraph::graph::NodeIndex::new(2)].centroid, (10 * 65536, 0));
    let all = edges(&res.graph);
    assert_eq!(all.len(), 2 * K_VALUE);
    // node 0 at x = 0: nearest are x = 10, 20, ..., 60, that is nodes 2..=7
    assert_eq!(&all[..6], &[(0, 2), (0, 3), (0, 4), (0, 5), (0, 6), (0, 7)]);
    // node 1 at x = 100: nearest are x = 90, 80, ..., 40, that is nodes 10 down to 5
    assert_eq!(&all[6..], &[(1, 10), (1, 9), (1, 8), (1, 7), (1, 6), (1, 5)]);
    for node in 0..2 {
        let out = all.iter().filter(|(a, b)| *a == node && *b >= res.division).count();
        assert!(out >= K_VALUE);
    }
}

#[test]
fn equal_distances_keep_insertion_order() {
    let foreground = vec![dot(10, 10)];
    // eight background dots at distance 1 or 2; those at distance 1 are nodes 2, 4, 5, 8
    let background = vec![
        dot(10, 12),
        dot(11, 10),
        dot(12, 10),
        dot(10, 9),
        dot(9, 10),
        dot(10, 8),
        dot(8, 10),
        dot(10, 11),
    ];
    let res = mount_graph(foreground, background);
    assert_eq!(
        edges(&res.graph),
        vec![(0, 2), (0, 4), (0, 5), (0, 8), (0, 1), (0, 3)]
    );
}

#[test]
fn fewer_background_nodes_than_six_are_all_linked() {
    let res = mount_graph(vec![dot(0, 0)], vec![dot(9, 9), dot(1, 1), dot(5, 5)]);
    assert_eq!(res.division, 1);
    assert_eq!(edges(&res.graph), vec![(0, 2), (0, 3), (0, 1)]);
}

#[test]
fn neighbours_of_a_given_division() {
    let mut graph = SegmentGraph::new_undirected();
    for x in 0..9u16 {
        graph.add_node(dot(x, 0));
    }
    let division = graph.node_count() / 3;
    connect_neighbours(&mut graph, division);

    assert_eq!(graph.edge_count(), 18);
    let all = edges(&graph);
    assert_eq!(&all[..6], &[(0, 3), (0, 4), (0, 5), (0, 6), (0, 7), (0, 8)]);
    assert_eq!(&all[12..], &[(2, 3), (2, 4), (2, 5), (2, 6), (2, 7), (2, 8)]);
}

#[test]
fn boundary_and_neighbour_edges_together() {
    let foreground = vec![
        geo((65536, 0), vec![(0, vec![0..=2])]),
        geo((4 * 65536, 0), vec![(0, vec![3..=5])]),
    ];
    let background = vec![dot(0, 3), dot(5, 3)];
    let res = mount_graph(foreground, background);
    assert_eq!(
        edges(&res.graph),
        vec![(0, 1), (0, 2), (0, 3), (1, 3), (1, 2)]
    );
}

#[test]
fn test_graph() {
    let mut raw = Vec::new();
    for y in 0..6u8 {
        for x in 0..6u8 {
            raw.push((x / 2) * 40 + (y / 3) * 10);
            raw.push(255);
        }
    }
    let img = GrayAlphaImage::from_raw(6, 6, raw).unwrap();

    let segments = ImgSegmentation::segment_img(&img);
    let b_segments = ImgSegmentation::segment_img(&img);
    assert_eq!(segments.len(), 6);

    let graph = mount_graph(segments, b_segments);
    assert_eq!(graph.division, 6);
    assert_eq!(graph.graph.node_count(), 12);
    // 7 pairs of the 3 x 2 blocks touch; each block has 6 background neighbours
    assert_eq!(graph.graph.edge_count(), 7 + 36);
}

#[test]
fn crop_keeps_the_regions_under_the_reference_in_order() {
    let reference = vec![dot(2, 2), dot(7, 7)];
    let candidates = vec![
        geo((0, 0), vec![(7, vec![0..=9])]),
        geo((1, 0), vec![(3, vec![0..=9])]),
        geo((2, 0), vec![(2, vec![0..=1])]),
        geo((3, 0), vec![(2, vec![2..=2])]),
    ];
    let kept = reference.crop(candidates);
    assert_eq!(kept.len(), 2);
    assert_eq!(kept[0].centroid, (0, 0));
    assert_eq!(kept[1].centroid, (3, 0));
}

#[test]
fn crop_by_connection_keeps_what_touches_the_reference() {
    let reference = vec![dot(2, 2), dot(7, 7)];
    let candidates = vec![
        geo((0, 0), vec![(7, vec![0..=9])]),
        geo((1, 0), vec![(3, vec![0..=9])]),
        geo((2, 0), vec![(2, vec![0..=1])]),
        geo((3, 0), vec![(2, vec![2..=2])]),
    ];
    let kept = crop_by(&reference, candidates, CropRule::Connected);
    assert_eq!(kept.len(), 2);
    assert_eq!(kept[0].centroid, (1, 0));
    assert_eq!(kept[1].centroid, (2, 0));

    let none = crop_by(&Vec::new(), vec![dot(0, 0)], CropRule::Overlap);
    assert_eq!(none.len(), 0);
}

/// An image of one-pixel regions: every pixel has its own intensity.
fn mosaic(width: u32, height: u32) -> GrayAlphaImage {
    let mut raw = Vec::new();
    for i in 0..width * height {
        raw.push(i as u8);
        raw.push(255);
    }
    GrayAlphaImage::from_raw(width, height, raw).unwrap()
}

#[test]
fn boundaries() {
    let mut graph = SegmentGraph::new_undirected();
    let segs = ImgSegmentation::segment_img(&mosaic(6, 1));

    for segment in segs.into_iter() {
        graph.add_node(segment);
    }

    connect_boundaries(&mut graph);

    assert_eq!(graph.edge_count(), 5);
}

#[test]
fn neighbours() {
    let segs = ImgSegmentation::segment_img(&mosaic(6, 3));
    let mut graph = SegmentGraph::new_undirected();

    for segment in segs.into_iter() {
        graph.add_node(segment);
    }

    let division = graph.node_count() / 3;
    connect_neighbours(&mut graph, division);

    assert_eq!(graph.edge_count(), 36);

    let max_dist = graph.edge_indices().fold(0.0, |max: f64, f_e| {
        max.max({
            let (node_1, node_2) = graph.edge_endpoints(f_e).unwrap();
            graph[node_1].calc_euclidean_distance(&graph[node_2]) as f64 / 65536.0
        })
    });

    assert!(max_dist < 3.0);
    assert!(max_dist > 2.0);
}

#[test]
fn cropping() {
    // a bar across the middle of a 6 x 6 image, and three bars of which two cross it
    let mut bar = Vec::new();
    let mut bars = Vec::new();
    for y in 0..6u8 {
        for x in 0..6u8 {
            bar.push(200);
            bar.push(if y == 2 || y == 3 { 255 } else { 0 });
            bars.push(50 * (x / 2));
            bars.push(if x == 0 || (x == 2 && y < 2) || (x == 4 && y > 2) { 255 } else { 0 });
        }
    }
    let seg_1 = ImgSegmentation::segment_img(&GrayAlphaImage::from_raw(6, 6, bar).unwrap());
    let seg_2 = ImgSegmentation::segment_img(&GrayAlphaImage::from_raw(6, 6, bars).unwrap());
    assert_eq!(seg_1.len(), 1);
    assert_eq!(seg_2.len(), 3);

    let seg_2 = seg_1.crop(seg_2);

    assert_eq!(seg_2.len(), 2);
}

#[test]
fn a_graph_that_fits_is_built() {
    let res = camouflage::graphs::try_mount_graph(vec![dot(0, 0)], vec![dot(1, 1)]).unwrap();
    assert_eq!(res.division, 1);
    assert_eq!(edges(&res.graph), vec![(0, 1)]);
}

#[test]
fn every_foreground_node_has_six_edges_to_the_background() {
    let foreground: Vec<GeoSegment> = (0..5u16).map(|x| dot(3 * x, 0)).collect();
    let background: Vec<GeoSegment> = (0..7u16).map(|x| dot(2 * x, 5)).collect();
    let res = mount_graph(foreground, background);

    assert_eq!(res.graph.node_count(), 5 + 7);
    let all = edges(&res.graph);
    for node in 0..res.division {
        let to_background = all
            .iter()
            .filter(|(a, b)| *a == node && *b >= res.division)
            .count();
        assert_eq!(to_background, K_VALUE);
        let degree = all.iter().filter(|(a, b)| *a == node || *b == node).count();
        assert!(degree >= K_VALUE);
    }
}
