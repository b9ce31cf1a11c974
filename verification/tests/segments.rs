use camouflage::helpers::{Centroid, Connected, Overlaps, SameTone, SmallCoord, Transparent};
use camouflage::raster::GrayAlphaImage;
use camouflage::segmentation::{ImgSegmentation, Segment};

/// Builds an image from rows of (intensity, alpha) pairs.
fn image(rows: &[Vec<(u8, u8)>]) -> GrayAlphaImage {
    let height = rows.len() as u32;
    let width = if rows.is_empty() { 0 } else { rows[0].len() as u32 };
    let mut raw = Vec::new();
    for row in rows {
        assert_eq!(row.len() as u32, width);
        for (tone, alpha) in row {
            raw.push(*tone);
            raw.push(*alpha);
        }
    }
    GrayAlphaImage::from_raw(width, height, raw).unwrap()
}

/// The pixels of a segment, sorted by row and column.
fn pixels(seg: &Segment) -> Vec<(u16, u16)> {
    let mut all = Vec::new();
    for (y, ranges) in seg.iter() {
        for range in ranges {
            for x in range.clone() {
                all.push((*y, x));
            }
        }
    }
    all.sort();
    all
}

fn fixed(value: u32) -> f64 {
    value as f64 / 65536.0
}

#[test]
fn from_raw_reads_interleaved_bytes() {
    let img = GrayAlphaImage::from_raw(2, 2, vec![1, 2, 3, 4, 5, 6, 7, 8]).unwrap();
    assert_eq!(img.dimensions(), (2, 2));
    assert_eq!(img.width(), 2);
    assert_eq!(img.height(), 2);
    assert_eq!(img.get_pixel(0, 0), [1, 2]);
    assert_eq!(img.get_pixel(1, 0), [3, 4]);
    assert_eq!(img.get_pixel(0, 1), [5, 6]);
    assert_eq!(img.get_pixel(1, 1), [7, 8]);
    assert_eq!(img.get_pixel_s((1, 1)), [7, 8]);
}

#[test]
fn from_raw_refuses_a_short_buffer() {
    assert!(GrayAlphaImage::from_raw(2, 2, vec![0; 7]).is_none());
    assert!(GrayAlphaImage::from_raw(2, 2, vec![0; 9]).is_some());
    assert!(GrayAlphaImage::from_raw(0, 5, vec![]).is_some());
}

#[test]
fn put_pixel_changes_one_pixel() {
    let mut img = GrayAlphaImage::from_raw(2, 1, vec![1, 2, 3, 4]).unwrap();
    img.put_pixel(1, 0, [9, 8]);
    assert_eq!(img.get_pixel(0, 0), [1, 2]);
    assert_eq!(img.get_pixel(1, 0), [9, 8]);
}

#[test]
fn pixel_queries() {
    let img = image(&[vec![(10, 0), (20, 1)]]);
    assert!(img.is_transparent((0, 0)));
    assert!(!img.is_transparent((1, 0)));
    assert!(img.same_tone((0, 0), 10));
    assert!(!img.same_tone((0, 0), 20));
    assert!(img.same_tone((1, 0), 20));
}

#[test]
fn opaque_square_is_one_region_with_centroid_in_its_middle() {
    let mut rows = Vec::new();
    for y in 0..12 {
        let mut row = Vec::new();
        for x in 0..12 {
            if x < 8 && y < 8 {
                row.push((100, 255));
            } else {
                row.push((0, 0));
            }
        }
        rows.push(row);
    }
    let img = image(&rows);
    let segments = ImgSegmentation::segment_img(&img);

    assert_eq!(segments.len(), 1);
    let all = pixels(&segments[0].seg);
    assert_eq!(all.len(), 64);
    for y in 0..8u16 {
        for x in 0..8u16 {
            assert!(all.contains(&(y, x)));
        }
    }
    assert_eq!(segments[0].centroid, (229376, 229376));
    assert_eq!(fixed(segments[0].centroid.0), 3.5);
    assert_eq!(fixed(segments[0].centroid.1), 3.5);
}

#[test]
fn adjacent_squares_of_two_tones_are_two_touching_regions() {
    let mut rows = Vec::new();
    for _ in 0..4 {
        let mut row = Vec::new();
        for x in 0..8 {
            row.push((if x < 4 { 100 } else { 150 }, 255));
        }
        rows.push(row);
    }
    let img = image(&rows);
    let segments = ImgSegmentation::segment_img(&img);

    assert_eq!(segments.len(), 2);
    assert_eq!(pixels(&segments[0].seg).len(), 16);
    assert_eq!(pixels(&segments[1].seg).len(), 16);
    assert!(segments[0].seg.is_connected(&segments[1].seg));
    assert!(segments[1].seg.is_connected(&segments[0].seg));
    assert!(!segments[0].seg.overlaps(&segments[1].seg));
    assert!(!segments[1].seg.overlaps(&segments[0].seg));
    assert_eq!(fixed(segments[0].centroid.0), 1.5);
    assert_eq!(fixed(segments[0].centroid.1), 1.5);
    assert_eq!(fixed(segments[1].centroid.0), 5.5);
    assert_eq!(fixed(segments[1].centroid.1), 1.5);
}

#[test]
fn empty_images_have_no_regions() {
    let none = GrayAlphaImage::from_raw(0, 0, vec![]).unwrap();
    assert_eq!(ImgSegmentation::segment_img(&none).len(), 0);
    let flat = GrayAlphaImage::from_raw(0, 7, vec![]).unwrap();
    assert_eq!(ImgSegmentation::segment_img(&flat).len(), 0);
    let thin = GrayAlphaImage::from_raw(7, 0, vec![]).unwrap();
    assert_eq!(ImgSegmentation::segment_img(&thin).len(), 0);
}

#[test]
fn transparent_pixels_belong_to_no_region() {
    let t = (50, 0);
    let a = (50, 255);
    let img = image(&[vec![a, t, a], vec![t, t, t], vec![a, t, a]]);
    let segments = ImgSegmentation::segment_img(&img);

    assert_eq!(segments.len(), 4);
    assert_eq!(pixels(&segments[0].seg), vec![(0, 0)]);
    assert_eq!(pixels(&segments[1].seg), vec![(0, 2)]);
    assert_eq!(pixels(&segments[2].seg), vec![(2, 0)]);
    assert_eq!(pixels(&segments[3].seg), vec![(2, 2)]);
}

#[test]
fn a_region_winds_through_rows_and_around_another() {
    // A "U" of tone 7 around a core of tone 9, open at the top.
    let u = (7, 200);
    let c = (9, 200);
    let img = image(&[
        vec![u, c, c, u],
        vec![u, c, c, u],
        vec![u, u, u, u],
    ]);
    let segments = ImgSegmentation::segment_img(&img);

    assert_eq!(segments.len(), 2);
    assert_eq!(
        pixels(&segments[0].seg),
        vec![(0, 0), (0, 3), (1, 0), (1, 3), (2, 0), (2, 1), (2, 2), (2, 3)]
    );
    assert_eq!(pixels(&segments[1].seg), vec![(0, 1), (0, 2), (1, 1), (1, 2)]);
    // two runs in the rows where the core splits the region
    assert_eq!(segments[0].seg[&0].len(), 2);
    assert_eq!(segments[0].seg[&1].len(), 2);
    assert_eq!(segments[0].seg[&2].len(), 1);
}

#[test]
fn diagonal_neighbours_are_separate_regions() {
    let a = (1, 255);
    let b = (2, 255);
    let img = image(&[vec![a, b], vec![b, a]]);
    let segments = ImgSegmentation::segment_img(&img);
    assert_eq!(segments.len(), 4);
}

#[test]
fn every_opaque_pixel_lies_in_exactly_one_region() {
    let mut rows = Vec::new();
    for y in 0..9u32 {
        let mut row = Vec::new();
        for x in 0..11u32 {
            let tone = ((x * 7 + y * 3) % 3) as u8;
            let alpha = if (x + 2 * y) % 5 == 0 { 0 } else { 255 };
            row.push((tone, alpha));
        }
        rows.push(row);
    }
    let img = image(&rows);
    let segments = ImgSegmentation::segment_img(&img);

    for y in 0..9u16 {
        for x in 0..11u16 {
            let holders = segments
                .iter()
                .filter(|s| pixels(&s.seg).contains(&(y, x)))
                .count();
            if img.is_transparent((x, y)) {
                assert_eq!(holders, 0);
            } else {
                assert_eq!(holders, 1);
            }
        }
    }
    // regions of one tone never touch
    for i in 0..segments.len() {
        for j in 0..segments.len() {
            if i == j {
                continue;
            }
            let (yi, xi) = pixels(&segments[i].seg)[0];
            let (yj, xj) = pixels(&segments[j].seg)[0];
            if img.get_pixel_s((xi, yi))[0] == img.get_pixel_s((xj, yj))[0] {
                assert!(!segments[i].seg.is_connected(&segments[j].seg));
            }
        }
    }
    // the first pixels of the regions come in row-major order
    for i in 1..segments.len() {
        assert!(pixels(&segments[i - 1].seg)[0] < pixels(&segments[i].seg)[0]);
    }
}

#[test]
fn centroid_weighs_pixels_by_alpha() {
    // one row, tone 5: alpha 100 at x = 0 and alpha 50 at x = 3
    let img = image(&[vec![(5, 100), (5, 0), (5, 0), (5, 50)]]);
    let seg = Segment::from([(0, vec![0..=0, 3..=3])]);
    // (0 * 100 + 3 * 50) / 150 = 1
    assert_eq!(seg.calc_centroid(&img), (65536, 0));

    let seg = Segment::from([(0, vec![0..=3])]);
    assert_eq!(seg.calc_centroid(&img), (65536, 0));

    // rows 1 and 2 of a column, alpha 1 and 2: y = (1 + 4) / 3, rounded down
    let img = image(&[vec![(5, 0)], vec![(5, 1)], vec![(5, 2)]]);
    let seg = Segment::from([(1, vec![0..=0]), (2, vec![0..=0])]);
    assert_eq!(seg.calc_centroid(&img), (0, 65536 * 5 / 3));
}

#[test]
fn segmentation() {
    // eight regions: four quadrants, each with a core of another tone
    let mut rows = Vec::new();
    for y in 0..8u8 {
        let mut row = Vec::new();
        for x in 0..8u8 {
            let quadrant = 2 * (y / 4) + x / 4;
            let core = (x % 4 == 1 || x % 4 == 2) && (y % 4 == 1 || y % 4 == 2);
            row.push((10 * quadrant + if core { 5 } else { 0 }, 255));
        }
        rows.push(row);
    }
    let img = image(&rows);

    let segments = ImgSegmentation::segment_img(&img);

    assert_eq!(segments.len(), 8);
}

#[test]
fn images_too_long_for_the_coordinates_are_refused() {
    let long = GrayAlphaImage::from_raw(65536, 1, vec![0; 2 * 65536]).unwrap();
    assert!(ImgSegmentation::try_segment_img(&long).is_none());
    let tall = GrayAlphaImage::from_raw(1, 65536, vec![0; 2 * 65536]).unwrap();
    assert!(ImgSegmentation::try_segment_img(&tall).is_none());

    let mut raw = vec![0; 2 * 65535];
    raw[2 * 65534] = 9;
    raw[2 * 65534 + 1] = 1;
    let widest = GrayAlphaImage::from_raw(65535, 1, raw).unwrap();
    let segments = ImgSegmentation::try_segment_img(&widest).unwrap();
    assert_eq!(segments.len(), 1);
    assert_eq!(pixels(&segments[0].seg), vec![(0, 65534)]);
    assert_eq!(segments[0].centroid, (65534 * 65536, 0));
}

#[test]
fn one_region_fills_a_large_image() {
    let img = GrayAlphaImage::from_raw(300, 300, vec![77; 2 * 300 * 300]).unwrap();
    let segments = ImgSegmentation::segment_img(&img);
    assert_eq!(segments.len(), 1);
    assert_eq!(segments[0].seg.len(), 300);
    assert_eq!(fixed(segments[0].centroid.0), 149.5);
    assert_eq!(fixed(segments[0].centroid.1), 149.5);
}

#[test]
fn a_spiral_is_one_region() {
    let s = (3, 255);
    let o = (4, 255);
    let img = image(&[
        vec![s, s, s, s, s],
        vec![o, o, o, o, s],
        vec![s, s, s, o, s],
        vec![s, o, o, o, s],
        vec![s, s, s, s, s],
    ]);
    let segments = ImgSegmentation::segment_img(&img);
    assert_eq!(segments.len(), 2);
    assert_eq!(pixels(&segments[0].seg).len(), 17);
    assert_eq!(pixels(&segments[1].seg).len(), 8);
}

#[test]
fn adjacency_of_stacked_regions_is_mutual() {
    let upper = Segment::from([(0, vec![0..=5]), (1, vec![0..=5])]);
    let lower = Segment::from([(2, vec![3..=3])]);
    assert!(upper.is_connected(&lower));
    assert!(lower.is_connected(&upper));

    let far = Segment::from([(3, vec![3..=3])]);
    assert!(!upper.is_connected(&far));
    assert!(!far.is_connected(&upper));
}

#[test]
fn adjacency_looks_only_at_the_first_and_last_row_of_the_region_asked() {
    // `under` lies against the last row of `block`, but its own first row
    // holds a run far from `block`, and its last row has nothing below
    let block = Segment::from([(0, vec![0..=5]), (1, vec![0..=5])]);
    let under = Segment::from([(1, vec![10..=12]), (2, vec![0..=12])]);
    assert!(block.is_connected(&under));
    assert!(!under.is_connected(&block));
}

#[test]
fn runs_touch_without_overlapping() {
    let left = 0..=5u16;
    let right = 6..=8u16;
    assert!(left.is_connected(&right));
    assert!(right.is_connected(&left));
    assert!(!left.overlaps(&right));
    assert!(!(0..=5u16).is_connected(&(5..=8u16)));
    assert!((0..=5u16).overlaps(&(5..=8u16)));
    assert!(!(0..=5u16).is_connected(&(7..=8u16)));
    // the last column has no column after it
    assert!(!(0..=u16::MAX).is_connected(&(0..=3u16)));
    assert!((0..=u16::MAX).overlaps(&(0..=3u16)));
}

#[test]
fn regions_in_the_first_and_last_row() {
    let top = Segment::from([(0, vec![0..=1])]);
    let bottom = Segment::from([(u16::MAX, vec![0..=1])]);
    assert!(!top.is_connected(&bottom));
    assert!(!bottom.is_connected(&top));
    assert!(!top.overlaps(&bottom));
    let empty = Segment::new();
    assert!(!empty.is_connected(&top));
    assert!(!top.is_connected(&empty));
    assert!(!empty.overlaps(&top));
}

#[test]
fn from_raw_counts_the_bytes_of_a_row_in_usize() {
    // no pixel at all, but a row of 2^32 bytes: refused where `usize` has 32 bits
    let made = GrayAlphaImage::from_raw(0x8000_0000, 0, Vec::new());
    assert_eq!(made.is_some(), 2 * 0x8000_0000u64 <= usize::MAX as u64);
    let flat = GrayAlphaImage::from_raw(0x7FFF_FFFF, 0, Vec::new());
    assert!(flat.is_some());
}
