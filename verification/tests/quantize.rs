use camouflage::quantization::{can_quantize, quantize, tonal_range, try_quantize};
use camouflage::raster::GrayAlphaImage;

fn row(pixels: &[(u8, u8)]) -> GrayAlphaImage {
    let mut raw = Vec::new();
    for (tone, alpha) in pixels {
        raw.push(*tone);
        raw.push(*alpha);
    }
    GrayAlphaImage::from_raw(pixels.len() as u32, 1, raw).unwrap()
}

fn tones(img: &GrayAlphaImage) -> Vec<u8> {
    let mut all = Vec::new();
    for y in 0..img.height() {
        for x in 0..img.width() {
            all.push(img.get_pixel(x, y)[0]);
        }
    }
    all
}

fn alphas(img: &GrayAlphaImage) -> Vec<u8> {
    let mut all = Vec::new();
    for y in 0..img.height() {
        for x in 0..img.width() {
            all.push(img.get_pixel(x, y)[1]);
        }
    }
    all
}

#[test]
fn tonal_range_finds_both_ends() {
    let img = row(&[(40, 1), (10, 0), (250, 9), (77, 3)]);
    assert_eq!(tonal_range(&img), Some((10, 250)));
    let one = row(&[(5, 5)]);
    assert_eq!(tonal_range(&one), Some((5, 5)));
    let none = GrayAlphaImage::from_raw(0, 3, vec![]).unwrap();
    assert_eq!(tonal_range(&none), None);
}

#[test]
fn span_of_240_into_4_levels() {
    // bins of width 60 from 10, their centres 30 above the lower edges
    let mut pixels = Vec::new();
    for tone in 10..=250u8 {
        pixels.push((tone, tone.wrapping_mul(7)));
    }
    let mut img = row(&pixels);
    let alpha_before = alphas(&img);
    quantize(&mut img, 4);

    let after = tones(&img);
    for (i, tone) in (10..=250u8).enumerate() {
        let expected = match tone {
            10..=69 => 40,
            70..=129 => 100,
            130..=189 => 160,
            _ => 220,
        };
        assert_eq!(after[i], expected);
    }
    let mut distinct = after.clone();
    distinct.sort();
    distinct.dedup();
    assert_eq!(distinct, vec![40, 100, 160, 220]);
    assert!(distinct.len() <= 4);
    assert_eq!(alphas(&img), alpha_before);
}

#[test]
fn span_no_larger_than_the_levels_is_left_alone() {
    let mut img = row(&[(10, 1), (12, 2), (14, 3)]);
    quantize(&mut img, 4);
    assert_eq!(tones(&img), vec![10, 12, 14]);
    quantize(&mut img, 200);
    assert_eq!(tones(&img), vec![10, 12, 14]);
    assert_eq!(alphas(&img), vec![1, 2, 3]);

    let mut flat = row(&[(9, 0), (9, 0)]);
    quantize(&mut flat, 1);
    assert_eq!(tones(&flat), vec![9, 9]);
}

#[test]
fn image_without_pixels_is_left_alone() {
    let mut none = GrayAlphaImage::from_raw(0, 0, vec![]).unwrap();
    assert!(can_quantize(&none, 3));
    quantize(&mut none, 3);
    assert_eq!(none.dimensions(), (0, 0));
}

#[test]
fn rounding_of_width_and_offset() {
    // span 255 into 2: width round(127.5) = 128, offset round(63.75) = 64
    let mut img = row(&[(0, 255), (127, 255), (128, 255), (255, 255)]);
    quantize(&mut img, 2);
    assert_eq!(tones(&img), vec![64, 64, 192, 192]);

    // span 5 into 2: width round(2.5) = 3, offset round(1.25) = 1
    let mut img = row(&[(0, 1), (1, 1), (2, 1), (3, 1), (4, 1), (5, 1)]);
    quantize(&mut img, 2);
    assert_eq!(tones(&img), vec![1, 1, 1, 4, 4, 4]);

    // span 6 into 4: width round(1.5) = 2 divides the span, so the highest
    // intensity falls one past the last bin and takes the last level
    let mut img = row(&[(0, 1), (1, 1), (2, 1), (3, 1), (4, 1), (5, 1), (6, 1)]);
    quantize(&mut img, 4);
    assert_eq!(tones(&img), vec![1, 1, 3, 3, 5, 5, 5]);
}

#[test]
fn quantizing_twice_moves_the_levels_again() {
    // the first pass leaves a span of 180 > 4, so a second pass is no repetition
    let mut img = row(&[(10, 255), (100, 255), (250, 255)]);
    quantize(&mut img, 4);
    assert_eq!(tones(&img), vec![40, 100, 220]);
    quantize(&mut img, 4);
    assert_eq!(tones(&img), vec![63, 108, 198]);
}

#[test]
fn quantizing_twice_repeats_nothing_once_the_span_is_small() {
    let mut img = row(&[(0, 255), (3, 255), (6, 255)]);
    quantize(&mut img, 5);
    let once = tones(&img);
    assert_eq!(once, vec![1, 4, 5]);
    quantize(&mut img, 5);
    assert_eq!(tones(&img), once);
}

#[test]
fn levels_above_255_are_refused() {
    // span 36 into 8: width 5, offset 2, eighth level 219 + 2 + 35 = 256
    let mut img = row(&[(219, 255), (230, 255), (255, 255)]);
    assert!(!can_quantize(&img, 8));
    assert!(!try_quantize(&mut img, 8));
    assert_eq!(tones(&img), vec![219, 230, 255]);

    assert!(!can_quantize(&img, 0));
    assert!(!try_quantize(&mut img, 0));
    assert_eq!(tones(&img), vec![219, 230, 255]);

    // span 36 into 7: width 5, offset 3, seventh level 219 + 3 + 30 = 252
    assert!(can_quantize(&img, 7));
    assert!(try_quantize(&mut img, 7));
    assert_eq!(tones(&img), vec![222, 232, 252]);
}

#[test]
fn no_more_levels_than_asked_for() {
    // span 9 into 4: width round(2.25) = 2 takes five bins to cover the span;
    // the fifth has no level of its own
    let mut img = row(&[(0, 9), (2, 8), (4, 7), (6, 6), (9, 5)]);
    quantize(&mut img, 4);
    assert_eq!(tones(&img), vec![1, 3, 5, 7, 7]);
    assert_eq!(alphas(&img), vec![9, 8, 7, 6, 5]);

    // span 7 into 5: width 1, so the intensities from 4 on share the fifth level
    let mut img = row(&[(0, 1), (1, 1), (2, 1), (3, 1), (4, 1), (5, 1), (6, 1), (7, 1)]);
    quantize(&mut img, 5);
    assert_eq!(tones(&img), vec![1, 2, 3, 4, 5, 5, 5, 5]);

    for n in 1..=255u8 {
        let mut pixels = Vec::new();
        for tone in 3..=250u8 {
            pixels.push((tone, 255));
        }
        let mut img = row(&pixels);
        if try_quantize(&mut img, n) {
            let after = tones(&img);
            let mut distinct = after.clone();
            distinct.sort();
            distinct.dedup();
            if n < 247 {
                assert!(distinct.len() <= n as usize);
            } else {
                assert_eq!(distinct.len(), 248);
            }
            // the order of the intensities is kept
            for i in 1..after.len() {
                assert!(after[i - 1] <= after[i]);
            }
        }
    }
}

#[test]
fn levels_near_the_top_of_the_range() {
    // span 220 into 3: width 73, offset 37; 220 lies three bins up and takes the third level
    let mut img = row(&[(0, 255), (100, 255), (220, 255)]);
    assert!(can_quantize(&img, 3));
    quantize(&mut img, 3);
    assert_eq!(tones(&img), vec![37, 110, 183]);

    // span 10 into 3: width 3, offset 2
    let mut pixels = Vec::new();
    for tone in 245..=255u8 {
        pixels.push((tone, 1));
    }
    let mut img = row(&pixels);
    assert!(try_quantize(&mut img, 3));
    assert_eq!(
        tones(&img),
        vec![247, 247, 247, 250, 250, 250, 253, 253, 253, 253, 253]
    );

    // span 250 into 8: width 31, offset 16
    let mut img = row(&[(5, 255), (100, 255), (255, 255)]);
    assert!(try_quantize(&mut img, 8));
    assert_eq!(tones(&img), vec![21, 114, 238]);

    // span 220 into 4: width 55, offset 28
    let mut img = row(&[(0, 255), (100, 255), (220, 255)]);
    assert!(try_quantize(&mut img, 4));
    assert_eq!(tones(&img), vec![28, 83, 193]);
}
