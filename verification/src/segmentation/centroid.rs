//! The alpha-weighted centroid of a segment.
//!
//! The centroid is the quotient of two sums over the pixels of the segment: the
//! coordinates weighted by alpha, and alpha itself. Both sums are exact
//! integers; the quotient is kept in 16.16 fixed point, rounded down.

use crate::helpers::{Centroid, FixedCoordinates, SmallCoord};
use crate::raster::GrayAlphaImage;
use crate::segmentation::region::{row_holds, run_holds, seg_holds, Rows};
use crate::segmentation::Segment;
use std::ops::RangeInclusive;
use vstd::prelude::*;
use vstd::std_specs::iter::IteratorSpec;

verus! {

broadcast use vstd::std_specs::hash::group_hash_axioms;

/// Sums over a set of pixels: of alpha, of column times alpha, of row times alpha.
pub struct Moments {
    pub weight: int,
    pub x: int,
    pub y: int,
}

impl Moments {
    /// The sums over no pixel.
    pub open spec fn zero() -> Moments {
        Moments { weight: 0, x: 0, y: 0 }
    }

    /// The sums over two disjoint sets of pixels together.
    pub open spec fn plus(self, other: Moments) -> Moments {
        Moments { weight: self.weight + other.weight, x: self.x + other.x, y: self.y + other.y }
    }

    /// Every sum is non-negative and no coordinate sum exceeds the weight times
    /// the largest coordinate.
    pub open spec fn bounded(self) -> bool {
        &&& 0 <= self.weight
        &&& 0 <= self.x <= 65535 * self.weight
        &&& 0 <= self.y <= 65535 * self.weight
    }
}

/// The sums over the single pixel `(x, y)`.
pub open spec fn pixel_moments(img: &GrayAlphaImage, x: int, y: int) -> Moments {
    Moments { weight: img.alpha(x, y) as int, x: x * img.alpha(x, y), y: y * img.alpha(x, y) }
}

/// The sums over columns `lo..=hi` of row `y`.
pub open spec fn run_moments(img: &GrayAlphaImage, y: int, lo: int, hi: int) -> Moments
    decreases hi - lo + 1,
{
    if hi < lo {
        Moments::zero()
    } else {
        run_moments(img, y, lo, hi - 1).plus(pixel_moments(img, hi, y))
    }
}

/// The sums over the runs of row `y`.
pub open spec fn row_moments(img: &GrayAlphaImage, y: int, row: Seq<RangeInclusive<u16>>) -> Moments
    decreases row.len(),
{
    if row.len() == 0 {
        Moments::zero()
    } else {
        row_moments(img, y, row.drop_last()).plus(
            run_moments(img, y, row.last()@.start as int, row.last()@.end as int),
        )
    }
}

/// The sums over the rows of the segment above row `upto`.
pub open spec fn rows_moments(img: &GrayAlphaImage, seg: Rows, upto: int) -> Moments
    decreases upto,
{
    if upto <= 0 {
        Moments::zero()
    } else {
        rows_moments(img, seg, upto - 1).plus(
            if seg.contains_key((upto - 1) as u16) {
                row_moments(img, upto - 1, seg[(upto - 1) as u16]@)
            } else {
                Moments::zero()
            },
        )
    }
}

/// The sums over every pixel of the segment.
pub open spec fn segment_moments(img: &GrayAlphaImage, seg: Rows) -> Moments {
    rows_moments(img, seg, 65536)
}

/// The quotient of a coordinate sum by the weight, in 16.16 fixed point.
pub open spec fn fixed_quotient(sum: int, weight: int) -> int {
    (65536 * sum) / weight
}

/// Every pixel of the segment lies inside the image.
pub open spec fn inside(img: &GrayAlphaImage, seg: Rows) -> bool {
    forall|x: int, y: int| #[trigger] seg_holds(seg, x, y) ==> img.in_bounds(x, y)
}

/// The sums over a run are bounded, and its weight is at most 255 for each pixel.
pub proof fn lemma_run_moments(img: &GrayAlphaImage, y: int, lo: int, hi: int)
    requires
        0 <= lo,
        hi <= 65535,
        0 <= y <= 65535,
    ensures
        run_moments(img, y, lo, hi).bounded(),
        run_moments(img, y, lo, hi).weight <= 255 * if hi < lo {
            0
        } else {
            hi - lo + 1
        },
    decreases hi - lo + 1,
{
    if hi >= lo {
        lemma_run_moments(img, y, lo, hi - 1);
        lemma_pixel_moments(img, hi, y);
    }
}

/// The sums over one pixel are bounded, and its weight is at most 255.
pub proof fn lemma_pixel_moments(img: &GrayAlphaImage, x: int, y: int)
    requires
        0 <= x <= 65535,
        0 <= y <= 65535,
    ensures
        pixel_moments(img, x, y).bounded(),
        pixel_moments(img, x, y).weight <= 255,
{
    let a = img.alpha(x, y) as int;
    assert(0 <= x * a <= 65535 * a && 0 <= y * a <= 65535 * a) by (nonlinear_arith)
        requires
            0 <= x <= 65535,
            0 <= y <= 65535,
            0 <= a,
    ;
}

/// The sums over a row are bounded, and its weight is at most 65536 * 255 for
/// each run.
pub proof fn lemma_row_moments(img: &GrayAlphaImage, y: int, row: Seq<RangeInclusive<u16>>)
    requires
        0 <= y <= 65535,
    ensures
        row_moments(img, y, row).bounded(),
        row_moments(img, y, row).weight <= 16711680 * row.len(),
    decreases row.len(),
{
    if row.len() > 0 {
        lemma_row_moments(img, y, row.drop_last());
        lemma_run_moments(img, y, row.last()@.start as int, row.last()@.end as int);
    }
}

/// No row weighs more than 65536 * 255 for each run that a vector can hold.
pub proof fn lemma_rows_moments(img: &GrayAlphaImage, seg: Rows, upto: int)
    requires
        0 <= upto <= 65536,
    ensures
        rows_moments(img, seg, upto).bounded(),
        rows_moments(img, seg, upto).weight <= 0xFF_0000_0000_0000_0000_0000 * upto,
    decreases upto,
{
    if upto > 0 {
        lemma_rows_moments(img, seg, upto - 1);
        if seg.contains_key((upto - 1) as u16) {
            let row = seg[(upto - 1) as u16];
            lemma_row_moments(img, upto - 1, row@);
            assert(row@.len() == row.len());
        }
    }
}

/// Rows that the segment does not have add nothing.
pub proof fn lemma_rows_moments_skip(img: &GrayAlphaImage, seg: Rows, from: int, upto: int)
    requires
        0 <= from <= upto <= 65536,
        forall|k: u16| from <= k < upto ==> !seg.contains_key(k),
    ensures
        rows_moments(img, seg, upto) == rows_moments(img, seg, from),
    decreases upto - from,
{
    if from < upto {
        lemma_rows_moments_skip(img, seg, from, upto - 1);
        assert(!seg.contains_key((upto - 1) as u16));
    }
}

/// A segment has weight at least the alpha of each pixel of one of its runs.
pub proof fn lemma_run_weight(img: &GrayAlphaImage, y: int, lo: int, hi: int, x: int)
    requires
        0 <= lo <= x <= hi <= 65535,
        0 <= y <= 65535,
    ensures
        run_moments(img, y, lo, hi).weight >= img.alpha(x, y),
    decreases hi - lo + 1,
{
    if x < hi {
        lemma_run_weight(img, y, lo, hi - 1, x);
    } else {
        lemma_run_moments(img, y, lo, hi - 1);
    }
}

/// A row weighs at least as much as the alpha of any pixel of its runs.
pub proof fn lemma_row_weight(img: &GrayAlphaImage, y: int, row: Seq<RangeInclusive<u16>>, x: int)
    requires
        0 <= y <= 65535,
        row_holds(row, x),
    ensures
        row_moments(img, y, row).weight >= img.alpha(x, y),
    decreases row.len(),
{
    let i = choose|i: int| 0 <= i < row.len() && run_holds(#[trigger] row[i], x);
    if i == row.len() - 1 {
        lemma_row_moments(img, y, row.drop_last());
        lemma_run_weight(img, y, row.last()@.start as int, row.last()@.end as int, x);
    } else {
        assert(run_holds(row.drop_last()[i], x));
        lemma_row_weight(img, y, row.drop_last(), x);
        lemma_run_moments(img, y, row.last()@.start as int, row.last()@.end as int);
    }
}

/// The rows above `upto` weigh at least as much as the alpha of any pixel of theirs.
pub proof fn lemma_rows_weight(img: &GrayAlphaImage, seg: Rows, upto: int, x: int, y: int)
    requires
        0 <= y < upto <= 65536,
        seg_holds(seg, x, y),
    ensures
        rows_moments(img, seg, upto).weight >= img.alpha(x, y),
    decreases upto,
{
    if y == upto - 1 {
        lemma_rows_moments(img, seg, upto - 1);
        lemma_row_weight(img, y, seg[y as u16]@, x);
    } else {
        lemma_rows_weight(img, seg, upto - 1, x, y);
        if seg.contains_key((upto - 1) as u16) {
            lemma_row_moments(img, upto - 1, seg[(upto - 1) as u16]@);
        }
    }
}

/// A segment weighs at least as much as the alpha of any of its pixels.
pub proof fn lemma_segment_weight(img: &GrayAlphaImage, seg: Rows, x: int, y: int)
    requires
        seg_holds(seg, x, y),
    ensures
        segment_moments(img, seg).weight >= img.alpha(x, y),
{
    lemma_rows_weight(img, seg, 65536, x, y);
}

/// The segment lies inside the image and not all of its pixels are fully
/// transparent: its centroid is defined.
pub open spec fn weighs(img: &GrayAlphaImage, seg: Rows) -> bool {
    inside(img, seg) && segment_moments(img, seg).weight > 0
}

/// The centroid of the segment: the sum of column times alpha and the sum of row
/// times alpha over its pixels, each divided by the sum of alpha.
pub open spec fn centroid_of(img: &GrayAlphaImage, seg: Rows) -> FixedCoordinates {
    let m = segment_moments(img, seg);
    (fixed_quotient(m.x, m.weight) as u32, fixed_quotient(m.y, m.weight) as u32)
}

/// The centroid is the exact quotient rounded down to a 65536th of a pixel: in
/// each coordinate `c`, `c / 65536 <= sum / weight < (c + 1) / 65536`.
pub proof fn lemma_centroid_rounds_down(img: &GrayAlphaImage, seg: Rows)
    requires
        weighs(img, seg),
    ensures
        centroid_of(img, seg).0 * segment_moments(img, seg).weight <= 65536 * segment_moments(
            img,
            seg,
        ).x < (centroid_of(img, seg).0 + 1) * segment_moments(img, seg).weight,
        centroid_of(img, seg).1 * segment_moments(img, seg).weight <= 65536 * segment_moments(
            img,
            seg,
        ).y < (centroid_of(img, seg).1 + 1) * segment_moments(img, seg).weight,
        centroid_of(img, seg).0 <= 65535 * 65536,
        centroid_of(img, seg).1 <= 65535 * 65536,
{
    let m = segment_moments(img, seg);
    lemma_rows_moments(img, seg, 65536);
    lemma_fixed_quotient(m.x, m.weight);
    lemma_fixed_quotient(m.y, m.weight);
}

/// The fixed-point quotient of a sum that is at most 65535 times the weight:
/// the exact quotient rounded down, and at most 65535 pixels.
proof fn lemma_fixed_quotient(sum: int, weight: int)
    requires
        0 < weight,
        0 <= sum <= 65535 * weight,
    ensures
        0 <= fixed_quotient(sum, weight) <= 65535 * 65536,
        fixed_quotient(sum, weight) * weight <= 65536 * sum < (fixed_quotient(sum, weight) + 1)
            * weight,
{
    let q = fixed_quotient(sum, weight);
    vstd::arithmetic::div_mod::lemma_fundamental_div_mod(65536 * sum, weight);
    vstd::arithmetic::div_mod::lemma_mod_pos_bound(65536 * sum, weight);
    vstd::arithmetic::div_mod::lemma_div_pos_is_pos(65536 * sum, weight);
    vstd::arithmetic::div_mod::lemma_div_is_ordered(
        65536 * sum,
        (65535int * 65536) * weight,
        weight,
    );
    vstd::arithmetic::div_mod::lemma_div_by_multiple(65535int * 65536, weight);
    assert(q * weight == weight * q) by (nonlinear_arith);
    assert((q + 1) * weight == weight * q + weight) by (nonlinear_arith);
}

/// `sum / weight` in 16.16 fixed point, rounded down, without the product
/// `65536 * sum` ever being formed.
fn fixed_div(sum: u128, weight: u128) -> (q: u32)
    requires
        0 < weight <= 0xFF_0000_0000_0000_0000_0000 * 65536,
        sum <= 65535 * weight,
    ensures
        q == fixed_quotient(sum as int, weight as int),
{
    let whole: u128 = sum / weight;
    let rest: u128 = sum % weight;
    proof {
        vstd::arithmetic::div_mod::lemma_fundamental_div_mod(sum as int, weight as int);
        vstd::arithmetic::div_mod::lemma_mod_pos_bound(sum as int, weight as int);
        vstd::arithmetic::div_mod::lemma_div_is_ordered(
            sum as int,
            65535 * weight as int,
            weight as int,
        );
        vstd::arithmetic::div_mod::lemma_div_by_multiple(65535, weight as int);
    }
    let part: u128 = (65536 * rest) / weight;
    proof {
        let w = weight as int;
        let r = rest as int;
        let t = part as int;
        let s = (65536 * r) % w;
        vstd::arithmetic::div_mod::lemma_fundamental_div_mod(65536 * r, w);
        vstd::arithmetic::div_mod::lemma_mod_pos_bound(65536 * r, w);
        vstd::arithmetic::div_mod::lemma_div_is_ordered(65536 * r, 65536 * w - 1, w);
        vstd::arithmetic::div_mod::lemma_fundamental_div_mod_converse(
            65536 * w - 1,
            w,
            65535,
            w - 1,
        );
        assert(65536 * (sum as int) == (65536 * whole + t) * w + s) by (nonlinear_arith)
            requires
                sum as int == w * (whole as int) + r,
                65536 * r == w * t + s,
        ;
        vstd::arithmetic::div_mod::lemma_fundamental_div_mod_converse(
            65536 * (sum as int),
            w,
            65536 * whole + t,
            s,
        );
    }
    (65536 * whole + part) as u32
}

impl Centroid for Segment {
    /// Every pixel of the segment lies inside the image, and not all of them are
    /// fully transparent.
    open spec fn centroid_defined(&self, img: &GrayAlphaImage) -> bool {
        weighs(img, self@)
    }

    /// The sums of column times alpha and of row times alpha over the pixels of
    /// the segment, each divided by the sum of alpha.
    open spec fn centroid(&self, img: &GrayAlphaImage) -> FixedCoordinates {
        centroid_of(img, self@)
    }

    fn calc_centroid(&self, img: &GrayAlphaImage) -> (c: FixedCoordinates) {
        let mut seen = false;
        let mut low: u16 = 0;
        let mut high: u16 = 0;
        for (y, ranges) in it: self.iter()
            invariant
                it.seq() == self.iter().remaining(),
                seen <==> it.index() > 0,
                seen ==> low <= high,
                forall|i: int| 0 <= i < it.index() ==> low <= *(#[trigger] it.seq()[i]).0 <= high,
        {
            if !seen || *y < low {
                low = *y;
            }
            if !seen || *y > high {
                high = *y;
            }
            seen = true;
        }
        proof {
            let rows = self.iter().remaining();
            assert forall|y: u16| #[trigger] self@.contains_key(y) implies seen && low <= y
                <= high by {
                assert(rows.contains((&y, &self@[y])));
                let i = choose|i: int| 0 <= i < rows.len() && rows[i] == (&y, &self@[y]);
                assert(rows[i].0 == &y);
            }
            if !seen {
                lemma_rows_moments_skip(img, self@, 0, 65536);
            }
            lemma_rows_moments_skip(img, self@, 0, low as int);
        }

        let mut weight: u128 = 0;
        let mut x_sum: u128 = 0;
        let mut y_sum: u128 = 0;
        let mut y: u32 = low as u32;
        while y <= high as u32
            invariant
                inside(img, self@),
                low <= y <= high + 1,
                forall|k: u16| #[trigger] self@.contains_key(k) ==> low <= k <= high,
                rows_moments(img, self@, y as int) == (Moments {
                    weight: weight as int,
                    x: x_sum as int,
                    y: y_sum as int,
                }),
            decreases high + 1 - y,
        {
            proof {
                lemma_rows_moments(img, self@, y as int);
            }
            match self.get(&(y as u16)) {
                Some(row) => {
                    let ghost base = rows_moments(img, self@, y as int);
                    let mut i: usize = 0;
                    while i < row.len()
                        invariant
                            inside(img, self@),
                            0 <= y <= 65535,
                            self@.contains_key(y as u16),
                            row == self@[y as u16],
                            i <= row@.len(),
                            base.bounded(),
                            base.weight <= 0xFF_0000_0000_0000_0000_0000 * y,
                            base.plus(row_moments(img, y as int, row@.take(i as int))) == (Moments {
                                weight: weight as int,
                                x: x_sum as int,
                                y: y_sum as int,
                            }),
                        decreases row@.len() - i,
                    {
                        let lower: u16 = *row[i].start();
                        let upper: u16 = *row[i].end();
                        let ghost done = base.plus(row_moments(img, y as int, row@.take(i as int)));
                        proof {
                            lemma_row_moments(img, y as int, row@.take(i as int));
                        }
                        let mut x: u32 = lower as u32;
                        while x <= upper as u32
                            invariant
                                inside(img, self@),
                                0 <= y <= 65535,
                                self@.contains_key(y as u16),
                                row == self@[y as u16],
                                i < row@.len(),
                                lower == row@[i as int]@.start,
                                upper == row@[i as int]@.end,
                                lower <= x <= upper + 1 || (upper < lower && x == lower),
                                done.bounded(),
                                done.weight <= 0xFF_0000_0000_0000_0000_0000 * y + 16711680 * i,
                                done.plus(run_moments(img, y as int, lower as int, x - 1)) == (Moments {
                                    weight: weight as int,
                                    x: x_sum as int,
                                    y: y_sum as int,
                                }),
                            decreases upper + 1 - x,
                        {
                            proof {
                                assert(run_holds(row@[i as int], x as int));
                                assert(seg_holds(self@, x as int, y as int));
                                lemma_run_moments(img, y as int, lower as int, x - 1);
                                lemma_pixel_moments(img, x as int, y as int);
                            }
                            let alpha: u128 = img.get_pixel_s((x as u16, y as u16))[1] as u128;
                            weight = weight + alpha;
                            x_sum = x_sum + (x as u128) * alpha;
                            y_sum = y_sum + (y as u128) * alpha;
                            x = x + 1;
                        }
                        proof {
                            if upper < lower {
                                assert(x - 1 < lower);
                            }
                            lemma_run_moments(img, y as int, lower as int, upper as int);
                            assert(row@.take(i + 1).drop_last() =~= row@.take(i as int));
                            assert(row@.take(i + 1).last() == row@[i as int]);
                        }
                        i = i + 1;
                    }
                    proof {
                        assert(row@.take(i as int) =~= row@);
                    }
                },
                None => {},
            }
            y = y + 1;
        }
        proof {
            lemma_rows_moments_skip(img, self@, high + 1, 65536);
            lemma_rows_moments(img, self@, 65536);
        }
        (fixed_div(x_sum, weight), fixed_div(y_sum, weight))
    }
}

} // verus!
