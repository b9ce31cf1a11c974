use camouflage::helpers::{Connected, Overlaps};
use camouflage::segmentation::{Segment, VisitedPixels};

#[test]
fn overlapping() {
    let ranges_1 = vec![0..=5, 10..=15];
    let ranges_2 = vec![19..=21, 14..=17];

    assert!(ranges_1.overlaps(&ranges_2));
}

#[test]
fn side_connection() {
    let seg_1 = Segment::from([(0, vec![0..=5]), (1, vec![0..=5])]);
    let seg_2 = Segment::from([(0, vec![6..=8])]);

    assert!(seg_1.is_connected(&seg_2));
}

#[test]
fn layer_connection() {
    let seg_1 = Segment::from([(0, vec![0..=5]), (1, vec![0..=5])]);
    let seg_2 = Segment::from([(2, vec![3..=3])]);

    assert!(seg_1.is_connected(&seg_2));
}

#[test]
fn visited_grid_starts_clear_and_keeps_marks() {
    let mut grid = VisitedPixels::new((4, 3));
    for y in 0..3u16 {
        for x in 0..4u16 {
            assert!(!grid.is_visited((x, y)));
        }
    }
    grid.visit_tone((3, 1));
    grid.visit_tone((0, 2));
    for y in 0..3u16 {
        for x in 0..4u16 {
            assert_eq!(grid.is_visited((x, y)), (x, y) == (3, 1) || (x, y) == (0, 2));
        }
    }
}
