//! Tone quantization: the intensities of an image are replaced by the centres
//! of bins of equal width laid over the range of intensities that it holds.

use crate::raster::{image_height, image_width, GrayAlphaImage};
use vstd::prelude::*;

verus! {

/// `t` is the smallest intensity that occurs in the image.
pub open spec fn is_lowest(img: &GrayAlphaImage, t: u8) -> bool {
    &&& exists|x: int, y: int| img.in_bounds(x, y) && #[trigger] img.tone(x, y) == t
    &&& forall|x: int, y: int| img.in_bounds(x, y) ==> #[trigger] img.tone(x, y) >= t
}

/// `t` is the largest intensity that occurs in the image.
pub open spec fn is_highest(img: &GrayAlphaImage, t: u8) -> bool {
    &&& exists|x: int, y: int| img.in_bounds(x, y) && #[trigger] img.tone(x, y) == t
    &&& forall|x: int, y: int| img.in_bounds(x, y) ==> #[trigger] img.tone(x, y) <= t
}

/// The image has no pixel.
pub open spec fn blank(img: &GrayAlphaImage) -> bool {
    image_width(*img) == 0 || image_height(*img) == 0
}

/// The smallest intensity of an image that has a pixel.
pub open spec fn lowest_tone(img: &GrayAlphaImage) -> u8 {
    choose|t: u8| is_lowest(img, t)
}

/// The largest intensity of an image that has a pixel.
pub open spec fn highest_tone(img: &GrayAlphaImage) -> u8 {
    choose|t: u8| is_highest(img, t)
}

/// `a / b` rounded to the nearest integer, halves upwards.
pub open spec fn rounded(a: int, b: int) -> int {
    (2 * a + b) / (2 * b)
}

/// Width of a bin when a range of intensities is cut into `n` bins.
pub open spec fn bin_width(range: int, n: int) -> int {
    rounded(range, n)
}

/// Distance from the lower edge of a bin to the value that stands for it.
pub open spec fn center_offset(range: int, n: int) -> int {
    rounded(range, 2 * n)
}

/// Number of bins of width `width` that it takes to cover `range` intensities.
pub open spec fn bin_count(range: int, width: int) -> int {
    (range + width - 1) / width
}

/// The value that stands for bin `k`, the lowest bin being bin 0.
pub open spec fn level(low: int, range: int, n: int, k: int) -> int {
    low + center_offset(range, n) + bin_width(range, n) * k
}

/// The number of whole bins between the lowest intensity and `tone`.
pub open spec fn raw_bin(low: int, range: int, n: int, tone: int) -> int {
    (tone - low) / bin_width(range, n)
}

/// Number of values that stand for bins: `n`, or as many bins as it takes to
/// cover the range where these are fewer.
pub open spec fn level_count(range: int, n: int) -> int {
    let bins = bin_count(range, bin_width(range, n));
    if bins < n {
        bins
    } else {
        n
    }
}

/// The bin of intensity `tone`: the number of whole bins below it, and the last
/// bin for every intensity that lies beyond the last.
pub open spec fn bin_of(low: int, range: int, n: int, tone: int) -> int {
    let index = raw_bin(low, range, n, tone);
    let last = level_count(range, n) - 1;
    if index <= last {
        index
    } else {
        last
    }
}

/// What quantization into `n` levels makes of intensity `tone` in an image whose
/// intensities span `low..=high`: nothing where the span is no larger than `n`,
/// else the value that stands for the bin of `tone`.
pub open spec fn quantized_tone(low: int, high: int, n: int, tone: int) -> int {
    if n >= high - low {
        tone
    } else {
        level(low, high - low, n, bin_of(low, high - low, n, tone))
    }
}

/// Every value that stands for a bin is an intensity, that is at most 255.
pub open spec fn levels_fit(low: int, high: int, n: int) -> bool {
    n >= high - low || level(low, high - low, n, level_count(high - low, n) - 1) <= 255
}

/// The image can be quantized into `n` levels: `n` is positive and, where the
/// image has a pixel, the levels are intensities.
pub open spec fn quantizable(img: &GrayAlphaImage, n: u8) -> bool {
    n > 0 && (blank(img) || levels_fit(lowest_tone(img) as int, highest_tone(img) as int, n as int))
}

/// `after` is `before` quantized into `n` levels: the same dimensions, the same
/// alpha, and each intensity replaced as `quantized_tone` says.
pub open spec fn quantized(before: &GrayAlphaImage, after: &GrayAlphaImage, n: u8) -> bool {
    &&& image_width(*after) == image_width(*before)
    &&& image_height(*after) == image_height(*before)
    &&& forall|x: int, y: int|
        before.in_bounds(x, y) ==> #[trigger] after.alpha(x, y) == before.alpha(x, y)
    &&& forall|x: int, y: int|
        before.in_bounds(x, y) ==> #[trigger] after.tone(x, y) == quantized_tone(
            lowest_tone(before) as int,
            highest_tone(before) as int,
            n as int,
            before.tone(x, y) as int,
        )
}

/// An image has one smallest and one largest intensity.
pub proof fn lemma_extremes_unique(img: &GrayAlphaImage, low: u8, high: u8)
    requires
        is_lowest(img, low),
        is_highest(img, high),
    ensures
        lowest_tone(img) == low,
        highest_tone(img) == high,
        low <= high,
{
    let l = lowest_tone(img);
    let h = highest_tone(img);
    assert(is_lowest(img, l));
    assert(is_highest(img, h));
}

/// Bins of positive width: `count` of them cover the range and one fewer do not.
pub proof fn lemma_bin_count(range: int, width: int)
    requires
        0 < range,
        0 < width,
    ensures
        bin_count(range, width) >= 1,
        width * (bin_count(range, width) - 1) < range <= width * bin_count(range, width),
        range / width <= bin_count(range, width),
{
    let c = bin_count(range, width);
    vstd::arithmetic::div_mod::lemma_fundamental_div_mod(range + width - 1, width);
    vstd::arithmetic::div_mod::lemma_mod_pos_bound(range + width - 1, width);
    vstd::arithmetic::div_mod::lemma_fundamental_div_mod(range, width);
    vstd::arithmetic::div_mod::lemma_mod_pos_bound(range, width);
    let f = range / width;
    assert(width * (c - 1) == width * c - width) by (nonlinear_arith);
    assert(c >= 1) by (nonlinear_arith)
        requires
            width * c >= range,
            range > 0,
            width > 0,
    ;
    assert(f <= c) by (nonlinear_arith)
        requires
            width * f <= range,
            range <= width * c,
            width > 0,
    ;
}

/// Where the span is larger than the number of levels, bins are at least one
/// intensity wide and their centres lie at least one above their lower edges.
pub proof fn lemma_bin_width(range: int, n: int)
    requires
        0 < n < range,
    ensures
        bin_width(range, n) >= 1,
        center_offset(range, n) >= 1,
{
    vstd::arithmetic::div_mod::lemma_div_is_ordered(2 * n, 2 * range + n, 2 * n);
    assert((2 * n) / (2 * n) == 1) by {
        vstd::arithmetic::div_mod::lemma_div_by_multiple(1, 2 * n);
    }
    vstd::arithmetic::div_mod::lemma_div_is_ordered(4 * n, 2 * range + 2 * n, 4 * n);
    assert((4 * n) / (4 * n) == 1) by {
        vstd::arithmetic::div_mod::lemma_div_by_multiple(1, 4 * n);
    }
    assert(2 * (2 * n) == 4 * n);
}

/// The values that stand for the bins rise with the bins.
pub proof fn lemma_level_rises(low: int, range: int, n: int, j: int, k: int)
    requires
        0 < n < range,
        j <= k,
    ensures
        level(low, range, n, j) <= level(low, range, n, k),
{
    lemma_bin_width(range, n);
    let w = bin_width(range, n);
    assert(w * j <= w * k) by (nonlinear_arith)
        requires
            w >= 1,
            j <= k,
    ;
}

/// Quantization that replaces anything replaces the smallest intensity by a
/// larger one: a second pass with the same number of levels leaves the image as
/// it is only where the first has brought the span down to that number.
pub proof fn lemma_quantization_moves_lowest(low: int, high: int, n: int)
    requires
        0 < n < high - low,
    ensures
        quantized_tone(low, high, n, low) > low,
{
    let range = high - low;
    lemma_bin_width(range, n);
    lemma_level_count(range, n);
    assert((low - low) / bin_width(range, n) == 0);
    assert(bin_width(range, n) * 0 == 0);
}

/// Quantization with at least as many levels as the span is wide changes nothing.
pub proof fn lemma_quantize_wide(before: &GrayAlphaImage, after: &GrayAlphaImage, n: u8)
    requires
        quantized(before, after, n),
        n >= highest_tone(before) - lowest_tone(before),
    ensures
        forall|x: int, y: int|
            before.in_bounds(x, y) ==> #[trigger] after.tone(x, y) == before.tone(x, y)
                && after.alpha(x, y) == before.alpha(x, y),
{
    assert forall|x: int, y: int| before.in_bounds(x, y) implies #[trigger] after.tone(x, y)
        == before.tone(x, y) && after.alpha(x, y) == before.alpha(x, y) by {
        assert(after.alpha(x, y) == before.alpha(x, y));
    }
}

/// Quantizing again with the same number of levels changes nothing, provided
/// that the first pass has left a span no larger than that number.
pub proof fn lemma_quantize_twice(
    source: &GrayAlphaImage,
    once: &GrayAlphaImage,
    twice: &GrayAlphaImage,
    n: u8,
)
    requires
        quantized(source, once, n),
        quantized(once, twice, n),
        n >= highest_tone(once) - lowest_tone(once),
    ensures
        forall|x: int, y: int|
            source.in_bounds(x, y) ==> #[trigger] twice.tone(x, y) == once.tone(x, y)
                && twice.alpha(x, y) == once.alpha(x, y),
{
    lemma_quantize_wide(once, twice, n);
    assert forall|x: int, y: int| source.in_bounds(x, y) implies #[trigger] twice.tone(x, y)
        == once.tone(x, y) && twice.alpha(x, y) == once.alpha(x, y) by {
        assert(once.in_bounds(x, y));
    }
}

/// There are at least one and at most `n` values that stand for bins.
pub proof fn lemma_level_count(range: int, n: int)
    requires
        0 < n < range,
    ensures
        1 <= level_count(range, n) <= n,
        level_count(range, n) <= bin_count(range, bin_width(range, n)),
{
    lemma_bin_width(range, n);
    lemma_bin_count(range, bin_width(range, n));
}

/// Quantization into `n` levels yields at most `n` intensities: what it makes of
/// an intensity of the span is the value that stands for one of the bins
/// `0..n`.
pub proof fn lemma_levels_at_most(low: int, high: int, n: int, tone: int)
    requires
        0 < n < high - low,
        low <= tone <= high,
    ensures
        0 <= bin_of(low, high - low, n, tone) < n,
        quantized_tone(low, high, n, tone) == level(
            low,
            high - low,
            n,
            bin_of(low, high - low, n, tone),
        ),
{
    let range = high - low;
    lemma_bin_width(range, n);
    lemma_level_count(range, n);
    vstd::arithmetic::div_mod::lemma_div_pos_is_pos(tone - low, bin_width(range, n));
}

/// Quantization keeps the order of intensities: of two intensities of the span,
/// the larger does not get the smaller value.
pub proof fn lemma_quantized_tone_rises(low: int, high: int, n: int, a: int, b: int)
    requires
        0 < n,
        low <= a <= b <= high,
    ensures
        quantized_tone(low, high, n, a) <= quantized_tone(low, high, n, b),
{
    let range = high - low;
    if n < range {
        lemma_bin_width(range, n);
        vstd::arithmetic::div_mod::lemma_div_is_ordered(a - low, b - low, bin_width(range, n));
        lemma_level_rises(low, range, n, bin_of(low, range, n, a), bin_of(low, range, n, b));
    }
}

/// Where the levels fit, what quantization makes of an intensity of the span is
/// an intensity.
pub proof fn lemma_quantized_tone_fits(low: int, high: int, n: int, tone: int)
    requires
        0 < n,
        0 <= low <= tone <= high <= 255,
        levels_fit(low, high, n),
    ensures
        low <= quantized_tone(low, high, n, tone) <= 255,
{
    let range = high - low;
    if n < range {
        lemma_levels_at_most(low, high, n, tone);
        lemma_level_count(range, n);
        lemma_bin_width(range, n);
        lemma_level_rises(low, range, n, 0, bin_of(low, range, n, tone));
        lemma_level_rises(low, range, n, bin_of(low, range, n, tone), level_count(range, n) - 1);
        assert(bin_width(range, n) * 0 == 0);
    }
}

/// An image with a pixel has a smallest intensity.
pub proof fn lemma_lowest_exists(img: &GrayAlphaImage, x: int, y: int)
    requires
        img.in_bounds(x, y),
    ensures
        is_lowest(img, lowest_tone(img)),
        lowest_tone(img) <= img.tone(x, y),
    decreases img.tone(x, y),
{
    let t = img.tone(x, y);
    if forall|a: int, b: int| img.in_bounds(a, b) ==> #[trigger] img.tone(a, b) >= t {
        assert(is_lowest(img, t));
    } else {
        let (a, b) = choose|a: int, b: int| img.in_bounds(a, b) && !(#[trigger] img.tone(a, b) >= t);
        lemma_lowest_exists(img, a, b);
    }
}

/// An image with a pixel has a largest intensity.
pub proof fn lemma_highest_exists(img: &GrayAlphaImage, x: int, y: int)
    requires
        img.in_bounds(x, y),
    ensures
        is_highest(img, highest_tone(img)),
        highest_tone(img) >= img.tone(x, y),
    decreases 255 - img.tone(x, y),
{
    let t = img.tone(x, y);
    if forall|a: int, b: int| img.in_bounds(a, b) ==> #[trigger] img.tone(a, b) <= t {
        assert(is_highest(img, t));
    } else {
        let (a, b) = choose|a: int, b: int| img.in_bounds(a, b) && !(#[trigger] img.tone(a, b) <= t);
        lemma_highest_exists(img, a, b);
    }
}

/// A quantized image holds at most `n` intensities where the span of the image
/// was larger than `n`: each of its pixels has the value of one of the bins `0..n`.
pub proof fn lemma_quantize_levels(
    before: &GrayAlphaImage,
    after: &GrayAlphaImage,
    n: u8,
    x: int,
    y: int,
)
    requires
        quantized(before, after, n),
        0 < n < highest_tone(before) - lowest_tone(before),
        before.in_bounds(x, y),
    ensures
        exists|k: int|
            0 <= k < n && after.tone(x, y) == #[trigger] level(
                lowest_tone(before) as int,
                highest_tone(before) - lowest_tone(before),
                n as int,
                k,
            ),
{
    lemma_lowest_exists(before, x, y);
    lemma_highest_exists(before, x, y);
    let (low, high) = (lowest_tone(before) as int, highest_tone(before) as int);
    lemma_levels_at_most(low, high, n as int, before.tone(x, y) as int);
    let k = bin_of(low, high - low, n as int, before.tone(x, y) as int);
    assert(after.tone(x, y) == level(low, high - low, n as int, k));
}

/// A quantized image keeps the order of the intensities of its pixels; pixels of
/// one intensity keep one intensity, whatever their alpha and place.
pub proof fn lemma_quantize_keeps_order(
    before: &GrayAlphaImage,
    after: &GrayAlphaImage,
    n: u8,
    x1: int,
    y1: int,
    x2: int,
    y2: int,
)
    requires
        quantized(before, after, n),
        n > 0,
        before.in_bounds(x1, y1),
        before.in_bounds(x2, y2),
        before.tone(x1, y1) <= before.tone(x2, y2),
    ensures
        after.tone(x1, y1) <= after.tone(x2, y2),
        before.tone(x1, y1) == before.tone(x2, y2) ==> after.tone(x1, y1) == after.tone(x2, y2),
{
    lemma_lowest_exists(before, x1, y1);
    lemma_highest_exists(before, x2, y2);
    let (low, high) = (lowest_tone(before) as int, highest_tone(before) as int);
    assert(low <= before.tone(x1, y1) && before.tone(x2, y2) <= high);
    lemma_quantized_tone_rises(
        low,
        high,
        n as int,
        before.tone(x1, y1) as int,
        before.tone(x2, y2) as int,
    );
    assert(after.tone(x1, y1) == quantized_tone(low, high, n as int, before.tone(x1, y1) as int));
    assert(after.tone(x2, y2) == quantized_tone(low, high, n as int, before.tone(x2, y2) as int));
}

/// The smallest and the largest intensity of the image, `None` where it has no pixel.
pub fn tonal_range(img: &GrayAlphaImage) -> (r: Option<(u8, u8)>)
    ensures
        match r {
            None => blank(img),
            Some(ends) => {
                &&& !blank(img)
                &&& is_lowest(img, ends.0)
                &&& is_highest(img, ends.1)
                &&& ends.0 == lowest_tone(img)
                &&& ends.1 == highest_tone(img)
            },
        },
{
    let width: u32 = img.width();
    let height: u32 = img.height();
    if width == 0 || height == 0 {
        return None;
    }
    let first: u8 = img.get_pixel(0, 0)[0];
    let mut low: u8 = first;
    let mut high: u8 = first;
    let ghost mut low_at: (int, int) = (0, 0);
    let ghost mut high_at: (int, int) = (0, 0);
    let mut y: u32 = 0;
    while y < height
        invariant
            width == image_width(*img),
            height == image_height(*img),
            width > 0,
            y <= height,
            img.in_bounds(low_at.0, low_at.1) && img.tone(low_at.0, low_at.1) == low,
            img.in_bounds(high_at.0, high_at.1) && img.tone(high_at.0, high_at.1) == high,
            forall|a: int, b: int|
                0 <= a < width && 0 <= b < y ==> low <= #[trigger] img.tone(a, b) <= high,
        decreases height - y,
    {
        let mut x: u32 = 0;
        while x < width
            invariant
                width == image_width(*img),
                height == image_height(*img),
                y < height,
                x <= width,
                img.in_bounds(low_at.0, low_at.1) && img.tone(low_at.0, low_at.1) == low,
                img.in_bounds(high_at.0, high_at.1) && img.tone(high_at.0, high_at.1) == high,
                forall|a: int, b: int|
                    0 <= a < width && 0 <= b < y ==> low <= #[trigger] img.tone(a, b) <= high,
                forall|a: int| 0 <= a < x ==> low <= #[trigger] img.tone(a, y as int) <= high,
            decreases width - x,
        {
            let tone: u8 = img.get_pixel(x, y)[0];
            if tone < low {
                low = tone;
                proof {
                    low_at = (x as int, y as int);
                }
            }
            if tone > high {
                high = tone;
                proof {
                    high_at = (x as int, y as int);
                }
            }
            x = x + 1;
        }
        y = y + 1;
    }
    proof {
        assert(img.tone(low_at.0, low_at.1) == low);
        assert(img.tone(high_at.0, high_at.1) == high);
        lemma_extremes_unique(img, low, high);
    }
    Some((low, high))
}

/// The place in a table of `len` entries where the value for `tone` stands: the
/// number of whole bins below `tone`, and the last place for every intensity
/// beyond it.
pub open spec fn table_slot(len: int, low: int, high: int, n: int, tone: int) -> int {
    if raw_bin(low, high - low, n, tone) < len {
        raw_bin(low, high - low, n, tone)
    } else {
        len - 1
    }
}

/// The table holds, at the place of `tone`, what quantization makes of `tone`.
pub open spec fn table_entry(table: Seq<u8>, low: int, high: int, n: int, tone: int) -> bool {
    &&& 0 <= table_slot(table.len() as int, low, high, n, tone) < table.len()
    &&& table[table_slot(table.len() as int, low, high, n, tone)] == quantized_tone(
        low,
        high,
        n,
        tone,
    )
}

/// The table serves every intensity of the span.
pub open spec fn is_table(table: Seq<u8>, low: int, high: int, n: int) -> bool {
    forall|tone: int| low <= tone <= high ==> #[trigger] table_entry(table, low, high, n, tone)
}

/// The values that stand for the bins, lowest bin first, the last value twice:
/// at most `n` values and the repetition.
fn bin_levels(low: u8, high: u8, n: u8) -> (bin_vec: Vec<u8>)
    requires
        0 < n < high - low,
        levels_fit(low as int, high as int, n as int),
    ensures
        bin_vec@.len() == level_count(high - low, n as int) + 1,
        is_table(bin_vec@, low as int, high as int, n as int),
{
    let range: u32 = (high - low) as u32;
    let tb: u32 = (2 * range + n as u32) / (2 * n as u32);
    let offset: u32 = (2 * range + 2 * n as u32) / (4 * n as u32);
    let ghost count = bin_count(range as int, tb as int);
    let ghost levels = level_count(range as int, n as int);
    proof {
        lemma_bin_width(range as int, n as int);
        lemma_bin_count(range as int, tb as int);
        lemma_level_count(range as int, n as int);
        assert(2 * (2 * n as int) == 4 * n as int);
        vstd::arithmetic::div_mod::lemma_div_is_ordered(
            2 * range as int + n as int,
            (2 * n as int) * 256,
            2 * n as int,
        );
        vstd::arithmetic::div_mod::lemma_div_by_multiple(256, 2 * n as int);
    }
    let mut bin_vec: Vec<u8> = Vec::with_capacity(n as usize + 1);
    let mut i: u32 = low as u32;
    let mut made: u8 = 0;
    while i < high as u32 && made < n
        invariant
            0 < n < high - low,
            range == high - low,
            tb == bin_width(range as int, n as int),
            offset == center_offset(range as int, n as int),
            1 <= tb <= 256,
            count == bin_count(range as int, tb as int),
            levels == level_count(range as int, n as int),
            1 <= levels <= n,
            levels <= count,
            tb * (count - 1) < range <= tb * count,
            levels_fit(low as int, high as int, n as int),
            made <= levels,
            i == low + tb * made,
            bin_vec@.len() == made,
            forall|j: int|
                0 <= j < made ==> #[trigger] bin_vec@[j] == level(
                    low as int,
                    range as int,
                    n as int,
                    j,
                ),
        decreases n - made,
    {
        proof {
            assert(made < count) by (nonlinear_arith)
                requires
                    tb * made < range,
                    range <= tb * count,
                    tb >= 1,
            ;
            lemma_level_rises(low as int, range as int, n as int, made as int, levels - 1);
            assert(tb * (made + 1) == tb * made + tb) by (nonlinear_arith);
            assert(tb * made < 256) by (nonlinear_arith)
                requires
                    tb * made < range,
                    range < 256,
            ;
        }
        bin_vec.push((i + offset) as u8);
        i = i + tb;
        made = made + 1;
    }
    proof {
        if made < n {
            assert(made >= count) by (nonlinear_arith)
                requires
                    tb * made >= range,
                    tb * (count - 1) < range,
                    tb >= 1,
                    made >= 0,
            ;
        }
        assert(made == levels);
    }
    let last: u8 = bin_vec[bin_vec.len() - 1];
    bin_vec.push(last);
    proof {
        assert forall|tone: int| low <= tone <= high implies #[trigger] table_entry(
            bin_vec@,
            low as int,
            high as int,
            n as int,
            tone,
        ) by {
            let index = (tone - low) / (tb as int);
            vstd::arithmetic::div_mod::lemma_div_pos_is_pos(tone - low, tb as int);
            if index < levels {
                assert(bin_vec@[index] == level(low as int, range as int, n as int, index));
            } else {
                assert(bin_vec@[levels] == bin_vec@[levels - 1]);
            }
        }
    }
    bin_vec
}

/// Replaces every intensity of the image by the value that stands for its bin,
/// with `n` bins laid over the span of intensities, so that at most `n`
/// intensities remain; alpha is left as it is. An image whose span is no larger
/// than `n`, or that has no pixel, is left as it is.
pub fn quantize(img: &mut GrayAlphaImage, n: u8)
    requires
        quantizable(old(img), n),
    ensures
        quantized(old(img), final(img), n),
        blank(old(img)) || n >= highest_tone(old(img)) - lowest_tone(old(img)) ==> *final(img)
            == *old(img),
{
    let ghost source = *img;
    let (t_1, t_2) = match tonal_range(img) {
        Some(range) => range,
        None => {
            return ;
        },
    };
    let tam_int: u8 = t_2 - t_1;

    if n < tam_int {
        let tb: u32 = (2 * tam_int as u32 + n as u32) / (2 * n as u32);
        let bin_vec = bin_levels(t_1, t_2, n);
        let width: u32 = img.width();
        let height: u32 = img.height();
        proof {
            lemma_bin_width(tam_int as int, n as int);
        }

        let mut h: u32 = 0;
        while h < height
            invariant
                width == image_width(source),
                height == image_height(source),
                image_width(*img) == width,
                image_height(*img) == height,
                h <= height,
                t_1 == lowest_tone(&source),
                t_2 == highest_tone(&source),
                is_lowest(&source, t_1),
                is_highest(&source, t_2),
                tam_int == t_2 - t_1,
                0 < n < tam_int,
                tb == bin_width(tam_int as int, n as int),
                tb >= 1,
                is_table(bin_vec@, t_1 as int, t_2 as int, n as int),
                forall|a: int, b: int|
                    source.in_bounds(a, b) ==> #[trigger] img.alpha(a, b) == source.alpha(a, b),
                forall|a: int, b: int|
                    source.in_bounds(a, b) ==> #[trigger] img.tone(a, b) == if b < h {
                        quantized_tone(
                            t_1 as int,
                            t_2 as int,
                            n as int,
                            source.tone(a, b) as int,
                        ) as u8
                    } else {
                        source.tone(a, b)
                    },
            decreases height - h,
        {
            let mut w: u32 = 0;
            while w < width
                invariant
                    width == image_width(source),
                    height == image_height(source),
                    image_width(*img) == width,
                    image_height(*img) == height,
                    h < height,
                    w <= width,
                    is_lowest(&source, t_1),
                    is_highest(&source, t_2),
                    tam_int == t_2 - t_1,
                    0 < n < tam_int,
                    tb == bin_width(tam_int as int, n as int),
                    tb >= 1,
                    is_table(bin_vec@, t_1 as int, t_2 as int, n as int),
                    forall|a: int, b: int|
                        source.in_bounds(a, b) ==> #[trigger] img.alpha(a, b) == source.alpha(
                            a,
                            b,
                        ),
                    forall|a: int, b: int|
                        source.in_bounds(a, b) ==> #[trigger] img.tone(a, b) == if b < h || (b
                            == h && a < w) {
                            quantized_tone(
                                t_1 as int,
                                t_2 as int,
                                n as int,
                                source.tone(a, b) as int,
                            ) as u8
                        } else {
                            source.tone(a, b)
                        },
                decreases width - w,
            {
                let ghost prev = *img;
                let pixel = img.get_pixel(w, h);
                proof {
                    assert(source.in_bounds(w as int, h as int));
                    assert(img.tone(w as int, h as int) == source.tone(w as int, h as int));
                    assert(t_1 <= source.tone(w as int, h as int) <= t_2);
                    let tone = pixel@[0] as int;
                    assert(table_entry(bin_vec@, t_1 as int, t_2 as int, n as int, tone));
                }
                let whole_bins: usize = ((pixel[0] - t_1) as u32 / tb) as usize;
                let bin_i: usize = if whole_bins < bin_vec.len() {
                    whole_bins
                } else {
                    bin_vec.len() - 1
                };
                let quantized_value: u8 = bin_vec[bin_i];
                let quantized_pixel: [u8; 2] = [quantized_value, pixel[1]];

                img.put_pixel(w, h, quantized_pixel);
                proof {
                    assert forall|a: int, b: int| source.in_bounds(a, b) implies #[trigger] img.alpha(
                        a,
                        b,
                    ) == source.alpha(a, b) by {
                        assert(prev.alpha(a, b) == source.alpha(a, b));
                        if (a, b) != (w as int, h as int) {
                            assert(img.tone(a, b) == prev.tone(a, b));
                        }
                    }
                    assert forall|a: int, b: int| source.in_bounds(a, b) implies #[trigger] img.tone(
                        a,
                        b,
                    ) == if b < h || (b == h && a < w + 1) {
                        quantized_tone(
                            t_1 as int,
                            t_2 as int,
                            n as int,
                            source.tone(a, b) as int,
                        ) as u8
                    } else {
                        source.tone(a, b)
                    } by {
                        if (a, b) != (w as int, h as int) {
                            assert(img.tone(a, b) == prev.tone(a, b));
                        }
                    }
                }
                w = w + 1;
            }
            h = h + 1;
        }
        proof {
            assert forall|x: int, y: int| source.in_bounds(x, y) implies #[trigger] img.tone(
                x,
                y,
            ) == quantized_tone(
                lowest_tone(&source) as int,
                highest_tone(&source) as int,
                n as int,
                source.tone(x, y) as int,
            ) by {
                let tone = source.tone(x, y) as int;
                assert(t_1 <= tone <= t_2);
                assert(table_entry(bin_vec@, t_1 as int, t_2 as int, n as int, tone));
            }
        }
    }
}

/// Whether the image can be quantized into `n` levels.
pub fn can_quantize(img: &GrayAlphaImage, n: u8) -> (r: bool)
    ensures
        r == quantizable(img, n),
{
    if n == 0 {
        return false;
    }
    match tonal_range(img) {
        None => true,
        Some((low, high)) => {
            let range: u32 = (high - low) as u32;
            if n as u32 >= range {
                true
            } else {
                let tb: u32 = (2 * range + n as u32) / (2 * n as u32);
                let offset: u32 = (2 * range + 2 * n as u32) / (4 * n as u32);
                proof {
                    lemma_bin_width(range as int, n as int);
                    lemma_bin_count(range as int, tb as int);
                    assert(2 * (2 * n as int) == 4 * n as int);
                    vstd::arithmetic::div_mod::lemma_div_is_ordered(
                        2 * range as int + n as int,
                        (2 * n as int) * 256,
                        2 * n as int,
                    );
                    vstd::arithmetic::div_mod::lemma_div_by_multiple(256, 2 * n as int);
                    vstd::arithmetic::div_mod::lemma_div_is_ordered(
                        2 * range as int + 2 * n as int,
                        (4 * n as int) * 256,
                        4 * n as int,
                    );
                    vstd::arithmetic::div_mod::lemma_div_by_multiple(256, 4 * n as int);
                }
                let count: u32 = (range + tb - 1) / tb;
                let levels: u32 = if count < n as u32 {
                    count
                } else {
                    n as u32
                };
                proof {
                    lemma_level_count(range as int, n as int);
                    assert(tb * (levels - 1) < 256) by (nonlinear_arith)
                        requires
                            tb * (count - 1) < range,
                            1 <= levels <= count,
                            tb >= 1,
                            range < 256,
                    ;
                }
                low as u32 + offset + tb * (levels - 1) <= 255
            }
        },
    }
}

/// Quantizes the image into `n` levels where that can be done, and says whether
/// it was done; an image that cannot be quantized is left as it is.
pub fn try_quantize(img: &mut GrayAlphaImage, n: u8) -> (done: bool)
    ensures
        done == quantizable(old(img), n),
        done ==> quantized(old(img), final(img), n),
        !done ==> *final(img) == *old(img),
{
    if can_quantize(img, n) {
        quantize(img, n);
        true
    } else {
        false
    }
}

} // verus!
