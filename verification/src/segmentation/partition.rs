//! What the segmentation of an image is, and the facts that the row-major walk
//! over the image keeps while it builds one.

use crate::raster::GrayAlphaImage;
use crate::segmentation::centroid::{
    centroid_of, inside, lemma_segment_weight, segment_moments, weighs,
};
use crate::helpers::{Connected, Overlaps};
use crate::segmentation::connection::{
    greatest_row, least_row, meets_above, meets_below, rows_touch, segments_connected,
};
use crate::segmentation::region::{
    closed_marks, columns_marked, filled, grid_of, in_component, lemma_filled_is_component,
    reach, run_holds, seg_holds, sides_marked, tidy, tidy_row, whole_runs, Rows,
};
use std::ops::RangeInclusive;
use crate::segmentation::visited::VisitedPixels;
use crate::segmentation::GeoSegment;
use vstd::prelude::*;

verus! {

/// Pixel `(x1, y1)` comes before pixel `(x2, y2)` in a row-major walk.
pub open spec fn precedes(x1: int, y1: int, x2: int, y2: int) -> bool {
    y1 < y2 || (y1 == y2 && x1 < x2)
}

/// `(x, y)` is the pixel of the segment that a row-major walk meets first.
pub open spec fn leads(seg: Rows, x: int, y: int) -> bool {
    &&& seg_holds(seg, x, y)
    &&& forall|a: int, b: int| #[trigger] seg_holds(seg, a, b) ==> !precedes(a, b, x, y)
}

/// The segment is a region of the image: it records no pixel twice, each of its
/// runs is a whole run of the image, and it holds exactly the 4-connected
/// component of its first pixel, which is opaque.
pub open spec fn region_of(img: &GrayAlphaImage, seg: Rows) -> bool {
    &&& tidy(seg)
    &&& whole_runs(img, seg)
    &&& exists|sx: int, sy: int|
        {
            &&& #[trigger] leads(seg, sx, sy)
            &&& img.opaque(sx, sy)
            &&& forall|x: int, y: int| #[trigger]
                seg_holds(seg, x, y) <==> in_component(img, sx, sy, x, y)
        }
}

/// Some segment of the list holds pixel `(x, y)`.
pub open spec fn claimed(segs: Seq<GeoSegment>, x: int, y: int) -> bool {
    exists|k: int| 0 <= k < segs.len() && seg_holds(#[trigger] segs[k].seg@, x, y)
}

/// The segment is a region of the image and carries the centroid of that region.
pub open spec fn located(img: &GrayAlphaImage, geo: GeoSegment) -> bool {
    &&& region_of(img, geo.seg@)
    &&& weighs(img, geo.seg@)
    &&& geo.centroid == centroid_of(img, geo.seg@)
}

/// No pixel belongs to two segments of the list.
pub open spec fn apart(segs: Seq<GeoSegment>) -> bool {
    forall|i: int, j: int, x: int, y: int|
        0 <= i < j < segs.len() ==> !(#[trigger] seg_holds(segs[i].seg@, x, y) && #[trigger] seg_holds(
            segs[j].seg@,
            x,
            y,
        ))
}

/// The segments stand in the order in which a row-major walk meets their first pixels.
pub open spec fn in_walk_order(segs: Seq<GeoSegment>) -> bool {
    forall|i: int, j: int, a: int, b: int, c: int, d: int|
        0 <= i < j < segs.len() && #[trigger] leads(segs[i].seg@, a, b) && #[trigger] leads(
            segs[j].seg@,
            c,
            d,
        ) ==> precedes(a, b, c, d)
}

/// `segs` is the segmentation of `img`: each segment is one whole region with
/// its centroid, every opaque pixel belongs to a segment and to no second one,
/// and the segments are ordered by their first pixels.
pub open spec fn segmentation_of(img: &GrayAlphaImage, segs: Seq<GeoSegment>) -> bool {
    &&& forall|k: int| 0 <= k < segs.len() ==> located(img, #[trigger] segs[k])
    &&& forall|x: int, y: int| img.opaque(x, y) ==> #[trigger] claimed(segs, x, y)
    &&& apart(segs)
    &&& in_walk_order(segs)
}

/// What the walk has established when it stands at pixel `(x, y)`: everything
/// before that pixel is marked, the marked opaque pixels are exactly those of
/// the segments found so far, and these are regions in walk order.
pub open spec fn walked(
    img: &GrayAlphaImage,
    v: &VisitedPixels,
    segs: Seq<GeoSegment>,
    x: int,
    y: int,
) -> bool {
    &&& grid_of(img, v)
    &&& closed_marks(img, v)
    &&& forall|a: int, b: int|
        img.in_bounds(a, b) && precedes(a, b, x, y) ==> #[trigger] v.marked(a, b)
    &&& forall|a: int, b: int| img.opaque(a, b) && v.marked(a, b) ==> #[trigger] claimed(segs, a, b)
    &&& forall|k: int, a: int, b: int|
        0 <= k < segs.len() && #[trigger] seg_holds(segs[k].seg@, a, b) ==> v.marked(a, b)
    &&& forall|k: int| 0 <= k < segs.len() ==> located(img, #[trigger] segs[k])
    &&& apart(segs)
    &&& in_walk_order(segs)
    &&& forall|k: int, a: int, b: int|
        0 <= k < segs.len() && #[trigger] leads(segs[k].seg@, a, b) ==> precedes(a, b, x, y)
}

/// A segment has one first pixel.
pub proof fn lemma_leads_once(seg: Rows, a: int, b: int, c: int, d: int)
    requires
        leads(seg, a, b),
        leads(seg, c, d),
    ensures
        a == c && b == d,
{
}

/// A region lies inside the image and all of it is opaque.
pub proof fn lemma_region_opaque(img: &GrayAlphaImage, seg: Rows, x: int, y: int)
    requires
        region_of(img, seg),
        seg_holds(seg, x, y),
    ensures
        img.opaque(x, y),
{
    let (sx, sy) = choose|sx: int, sy: int|
        {
            &&& #[trigger] leads(seg, sx, sy)
            &&& img.opaque(sx, sy)
            &&& forall|x: int, y: int| #[trigger]
                seg_holds(seg, x, y) <==> in_component(img, sx, sy, x, y)
        };
    assert(in_component(img, sx, sy, x, y));
}

/// At the start of the walk nothing is marked and nothing has been found.
pub proof fn lemma_walk_start(img: &GrayAlphaImage, v: &VisitedPixels)
    requires
        grid_of(img, v),
        forall|x: int, y: int| v.covers(x, y) ==> !#[trigger] v.marked(x, y),
    ensures
        walked(img, v, Seq::empty(), 0, 0),
{
    assert forall|x: int, y: int| img.opaque(x, y) && v.marked(x, y) implies #[trigger] sides_marked(
        img,
        v,
        x,
        y,
    ) by {}
    assert forall|x: int, y: int| img.opaque(x, y) && v.marked(x, y) implies #[trigger] columns_marked(
        img,
        v,
        x,
        y,
    ) by {}
}

/// A finished flood fill from the pixel where the walk stands lies inside the
/// image and has weight, so its centroid is defined.
pub proof fn lemma_filled_weighs(
    img: &GrayAlphaImage,
    before: &VisitedPixels,
    after: &VisitedPixels,
    seg: Rows,
    x: int,
    y: int,
)
    requires
        filled(img, before, after, seg, x, y),
        img.opaque(x, y),
    ensures
        inside(img, seg),
        segment_moments(img, seg).weight > 0,
{
    lemma_segment_weight(img, seg, x, y);
    assert forall|a: int, b: int| #[trigger] seg_holds(seg, a, b) implies img.in_bounds(a, b) by {
        assert(in_component(img, x, y, a, b));
    }
}

/// The walk moves on past a pixel that was marked already.
pub proof fn lemma_walk_skip(
    img: &GrayAlphaImage,
    v: &VisitedPixels,
    segs: Seq<GeoSegment>,
    x: int,
    y: int,
)
    requires
        walked(img, v, segs, x, y),
        v.marked(x, y),
    ensures
        walked(img, v, segs, x + 1, y),
{
}

/// The walk moves on past a transparent pixel after marking it.
pub proof fn lemma_walk_transparent(
    img: &GrayAlphaImage,
    before: &VisitedPixels,
    after: &VisitedPixels,
    segs: Seq<GeoSegment>,
    x: int,
    y: int,
)
    requires
        walked(img, before, segs, x, y),
        grid_of(img, after),
        img.in_bounds(x, y),
        !img.opaque(x, y),
        forall|a: int, b: int|
            before.covers(a, b) ==> (#[trigger] after.marked(a, b) <==> before.marked(a, b) || (a
                == x && b == y)),
    ensures
        walked(img, after, segs, x + 1, y),
{
    assert forall|a: int, b: int| img.opaque(a, b) && after.marked(a, b) implies #[trigger] sides_marked(
        img,
        after,
        a,
        b,
    ) by {
        assert(sides_marked(img, before, a, b));
    }
    assert forall|a: int, b: int| img.opaque(a, b) && after.marked(a, b) implies #[trigger] columns_marked(
        img,
        after,
        a,
        b,
    ) by {
        assert(columns_marked(img, before, a, b));
    }
    assert forall|k: int, a: int, b: int|
        0 <= k < segs.len() && #[trigger] seg_holds(segs[k].seg@, a, b) implies after.marked(
        a,
        b,
    ) by {
        lemma_region_opaque(img, segs[k].seg@, a, b);
    }
}

/// The walk moves on past an opaque pixel after a flood fill from it has been
/// added to the segments as `geo`.
pub proof fn lemma_walk_claim(
    img: &GrayAlphaImage,
    before: &VisitedPixels,
    after: &VisitedPixels,
    segs: Seq<GeoSegment>,
    geo: GeoSegment,
    x: int,
    y: int,
)
    requires
        walked(img, before, segs, x, y),
        filled(img, before, after, geo.seg@, x, y),
        tidy(geo.seg@),
        img.opaque(x, y),
        weighs(img, geo.seg@),
        geo.centroid == centroid_of(img, geo.seg@),
    ensures
        walked(img, after, segs.push(geo), x + 1, y),
{
    let seg = geo.seg@;
    let all = segs.push(geo);
    let n = segs.len() as int;
    lemma_filled_is_component(img, before, after, seg, x, y);
    assert(leads(seg, x, y)) by {
        assert forall|a: int, b: int| #[trigger] seg_holds(seg, a, b) implies !precedes(
            a,
            b,
            x,
            y,
        ) by {
            assert(in_component(img, x, y, a, b));
            assert(!before.marked(a, b));
        }
    }
    assert(region_of(img, seg));
    assert forall|k: int| 0 <= k < all.len() implies located(img, #[trigger] all[k]) by {
        if k < n {
            assert(all[k] == segs[k]);
        }
    }
    assert forall|a: int, b: int| img.opaque(a, b) && after.marked(a, b) implies #[trigger] claimed(
        all,
        a,
        b,
    ) by {
        if before.marked(a, b) {
            assert(claimed(segs, a, b));
            let k = choose|k: int| 0 <= k < segs.len() && seg_holds(#[trigger] segs[k].seg@, a, b);
            assert(all[k] == segs[k]);
        } else {
            assert(seg_holds(seg, a, b));
            assert(all[n] == geo);
        }
    }
    assert forall|k: int, a: int, b: int|
        0 <= k < all.len() && #[trigger] seg_holds(all[k].seg@, a, b) implies after.marked(a, b) by {
        if k < n {
            assert(all[k] == segs[k]);
            lemma_region_opaque(img, segs[k].seg@, a, b);
            assert(before.marked(a, b));
        } else {
            assert(in_component(img, x, y, a, b));
        }
    }
    assert forall|i: int, j: int, a: int, b: int| 0 <= i < j < all.len() implies !(#[trigger] seg_holds(
        all[i].seg@,
        a,
        b,
    ) && #[trigger] seg_holds(all[j].seg@, a, b)) by {
        assert(all[i] == segs[i]);
        if j < n {
            assert(all[j] == segs[j]);
        } else if seg_holds(segs[i].seg@, a, b) {
            assert(before.marked(a, b));
        }
    }
    assert forall|i: int, j: int, a: int, b: int, c: int, d: int|
        0 <= i < j < all.len() && #[trigger] leads(all[i].seg@, a, b) && #[trigger] leads(
            all[j].seg@,
            c,
            d,
        ) implies precedes(a, b, c, d) by {
        assert(all[i] == segs[i]);
        if j < n {
            assert(all[j] == segs[j]);
        } else {
            lemma_leads_once(seg, c, d, x, y);
        }
    }
    assert forall|k: int, a: int, b: int|
        0 <= k < all.len() && #[trigger] leads(all[k].seg@, a, b) implies precedes(
        a,
        b,
        x + 1,
        y,
    ) by {
        if k < n {
            assert(all[k] == segs[k]);
        } else {
            lemma_leads_once(seg, a, b, x, y);
        }
    }
}

/// At the end of a row the walk stands at the start of the next.
pub proof fn lemma_walk_row(
    img: &GrayAlphaImage,
    v: &VisitedPixels,
    segs: Seq<GeoSegment>,
    y: int,
)
    requires
        walked(img, v, segs, crate::raster::image_width(*img) as int, y),
    ensures
        walked(img, v, segs, 0, y + 1),
{
    assert forall|k: int, a: int, b: int|
        0 <= k < segs.len() && #[trigger] leads(segs[k].seg@, a, b) implies precedes(
        a,
        b,
        0,
        y + 1,
    ) by {
        lemma_region_opaque(img, segs[k].seg@, a, b);
    }
}

/// After the last row the segments found are the segmentation of the image.
pub proof fn lemma_walk_end(img: &GrayAlphaImage, v: &VisitedPixels, segs: Seq<GeoSegment>)
    requires
        walked(img, v, segs, 0, crate::raster::image_height(*img) as int),
    ensures
        segmentation_of(img, segs),
{
    assert forall|x: int, y: int| img.opaque(x, y) implies #[trigger] claimed(segs, x, y) by {
        assert(v.marked(x, y));
    }
}

/// Segment `k` of the list holds pixel `(x, y)` and no other segment does.
pub open spec fn sole_holder(segs: Seq<GeoSegment>, k: int, x: int, y: int) -> bool {
    &&& 0 <= k < segs.len()
    &&& seg_holds(segs[k].seg@, x, y)
    &&& forall|j: int| 0 <= j < segs.len() && seg_holds(#[trigger] segs[j].seg@, x, y) ==> j == k
}

/// Every pixel of the segment has intensity `tone`.
pub open spec fn of_tone(img: &GrayAlphaImage, seg: Rows, tone: u8) -> bool {
    forall|x: int, y: int| #[trigger] seg_holds(seg, x, y) ==> img.tone(x, y) == tone
}

/// Two pixels are neighbours in a row or in a column.
pub open spec fn adjacent(x1: int, y1: int, x2: int, y2: int) -> bool {
    ||| (x1 == x2 && (y1 == y2 + 1 || y2 == y1 + 1))
    ||| (y1 == y2 && (x1 == x2 + 1 || x2 == x1 + 1))
}

/// The segmentation is a partition of the opaque pixels: every opaque pixel of
/// the image belongs to exactly one segment, and every pixel that belongs to a
/// segment lies in the image and has an alpha above zero.
pub proof fn lemma_partition(img: &GrayAlphaImage, segs: Seq<GeoSegment>)
    requires
        segmentation_of(img, segs),
    ensures
        forall|x: int, y: int|
            img.opaque(x, y) ==> exists|k: int| #[trigger] sole_holder(segs, k, x, y),
        forall|k: int, x: int, y: int|
            0 <= k < segs.len() && #[trigger] seg_holds(segs[k].seg@, x, y) ==> img.in_bounds(x, y)
                && img.alpha(x, y) > 0,
{
    assert forall|x: int, y: int| img.opaque(x, y) implies exists|k: int| #[trigger]
        sole_holder(segs, k, x, y) by {
        assert(claimed(segs, x, y));
        let k = choose|k: int| 0 <= k < segs.len() && seg_holds(#[trigger] segs[k].seg@, x, y);
        assert forall|j: int|
            0 <= j < segs.len() && seg_holds(#[trigger] segs[j].seg@, x, y) implies j == k by {
            if j < k {
                assert(!(seg_holds(segs[j].seg@, x, y) && seg_holds(segs[k].seg@, x, y)));
            } else if k < j {
                assert(!(seg_holds(segs[k].seg@, x, y) && seg_holds(segs[j].seg@, x, y)));
            }
        }
        assert(sole_holder(segs, k, x, y));
    }
    assert forall|k: int, x: int, y: int|
        0 <= k < segs.len() && #[trigger] seg_holds(segs[k].seg@, x, y) implies img.in_bounds(x, y)
        && img.alpha(x, y) > 0 by {
        assert(located(img, segs[k]));
        lemma_region_opaque(img, segs[k].seg@, x, y);
    }
}

/// A region has one intensity.
pub proof fn lemma_region_tone(img: &GrayAlphaImage, seg: Rows, x: int, y: int)
    requires
        region_of(img, seg),
        seg_holds(seg, x, y),
    ensures
        of_tone(img, seg, img.tone(x, y)),
{
    let (sx, sy) = choose|sx: int, sy: int|
        {
            &&& #[trigger] leads(seg, sx, sy)
            &&& img.opaque(sx, sy)
            &&& forall|x: int, y: int| #[trigger]
                seg_holds(seg, x, y) <==> in_component(img, sx, sy, x, y)
        };
    assert(in_component(img, sx, sy, x, y));
    assert forall|a: int, b: int| #[trigger] seg_holds(seg, a, b) implies img.tone(a, b)
        == img.tone(x, y) by {
        assert(in_component(img, sx, sy, a, b));
    }
}

/// A region is closed: an opaque pixel next to one of its pixels and of the
/// same intensity belongs to it.
pub proof fn lemma_region_closed(
    img: &GrayAlphaImage,
    seg: Rows,
    x: int,
    y: int,
    nx: int,
    ny: int,
)
    requires
        region_of(img, seg),
        seg_holds(seg, x, y),
        adjacent(x, y, nx, ny),
        img.opaque(nx, ny),
        img.tone(nx, ny) == img.tone(x, y),
    ensures
        seg_holds(seg, nx, ny),
{
    let (sx, sy) = choose|sx: int, sy: int|
        {
            &&& #[trigger] leads(seg, sx, sy)
            &&& img.opaque(sx, sy)
            &&& forall|x: int, y: int| #[trigger]
                seg_holds(seg, x, y) <==> in_component(img, sx, sy, x, y)
        };
    assert(in_component(img, sx, sy, x, y));
    let n = choose|n: nat| reach(img, sx, sy, n, x, y);
    assert(reach(img, sx, sy, n + 1, nx, ny));
    assert(in_component(img, sx, sy, nx, ny));
}

/// A region is connected: each of its pixels is joined to its first pixel by a
/// path of neighbouring pixels of the region.
pub proof fn lemma_region_connected(img: &GrayAlphaImage, seg: Rows, x: int, y: int)
    requires
        region_of(img, seg),
        seg_holds(seg, x, y),
    ensures
        exists|sx: int, sy: int| #[trigger] leads(seg, sx, sy) && in_component(img, sx, sy, x, y),
{
    let (sx, sy) = choose|sx: int, sy: int|
        {
            &&& #[trigger] leads(seg, sx, sy)
            &&& img.opaque(sx, sy)
            &&& forall|x: int, y: int| #[trigger]
                seg_holds(seg, x, y) <==> in_component(img, sx, sy, x, y)
        };
    assert(leads(seg, sx, sy) && in_component(img, sx, sy, x, y));
}

/// No pixel of one segment of a segmentation is a neighbour of a pixel of another
/// segment with the same intensity.
pub proof fn lemma_apart_by_tone(
    img: &GrayAlphaImage,
    segs: Seq<GeoSegment>,
    i: int,
    j: int,
    x: int,
    y: int,
    nx: int,
    ny: int,
)
    requires
        segmentation_of(img, segs),
        0 <= i < segs.len(),
        0 <= j < segs.len(),
        i != j,
        seg_holds(segs[i].seg@, x, y),
        seg_holds(segs[j].seg@, nx, ny),
        adjacent(x, y, nx, ny),
    ensures
        img.tone(x, y) != img.tone(nx, ny),
{
    assert(located(img, segs[i]) && located(img, segs[j]));
    if img.tone(x, y) == img.tone(nx, ny) {
        lemma_region_opaque(img, segs[j].seg@, nx, ny);
        lemma_region_closed(img, segs[i].seg@, x, y, nx, ny);
        if i < j {
            assert(!(seg_holds(segs[i].seg@, nx, ny) && seg_holds(segs[j].seg@, nx, ny)));
        } else {
            assert(!(seg_holds(segs[j].seg@, nx, ny) && seg_holds(segs[i].seg@, nx, ny)));
        }
    }
}

/// Two overlapping runs that are not empty share a column.
proof fn lemma_shared_column(a: RangeInclusive<u16>, b: RangeInclusive<u16>) -> (x: int)
    requires
        a.overlapping(&b),
        a@.start <= a@.end,
        b@.start <= b@.end,
    ensures
        run_holds(a, x),
        run_holds(b, x),
{
    if a@.start >= b@.start {
        a@.start as int
    } else {
        b@.start as int
    }
}

/// Regions are maximal: two different segments of a segmentation that have the
/// same intensity are not connected.
pub proof fn lemma_maximal(
    img: &GrayAlphaImage,
    segs: Seq<GeoSegment>,
    i: int,
    j: int,
    tone: u8,
)
    requires
        segmentation_of(img, segs),
        0 <= i < segs.len(),
        0 <= j < segs.len(),
        i != j,
        of_tone(img, segs[i].seg@, tone),
        of_tone(img, segs[j].seg@, tone),
    ensures
        !segments_connected(segs[i].seg@, segs[j].seg@),
{
    let a = segs[i].seg@;
    let b = segs[j].seg@;
    assert(located(img, segs[i]) && located(img, segs[j]));
    if rows_touch(a, b) {
        let y = choose|y: u16| #[trigger]
            a.contains_key(y) && b.contains_key(y) && a[y].connected(&b[y]);
        let (p, q) = choose|p: int, q: int|
            0 <= p < a[y]@.len() && 0 <= q < b[y]@.len() && #[trigger] a[y]@[p].connected(
                &b[y]@[q],
            );
        assert(tidy_row(a[y]@) && tidy_row(b[y]@));
        let (ra, rb) = (a[y]@[p], b[y]@[q]);
        if ra@.end + 1 == rb@.start {
            assert(run_holds(ra, ra@.end as int) && run_holds(rb, rb@.start as int));
            assert(seg_holds(a, ra@.end as int, y as int));
            assert(seg_holds(b, rb@.start as int, y as int));
            lemma_apart_by_tone(img, segs, i, j, ra@.end as int, y as int, rb@.start as int, y as int);
        } else {
            assert(run_holds(ra, ra@.start as int) && run_holds(rb, rb@.end as int));
            assert(seg_holds(a, ra@.start as int, y as int));
            assert(seg_holds(b, rb@.end as int, y as int));
            lemma_apart_by_tone(img, segs, i, j, ra@.start as int, y as int, rb@.end as int, y as int);
        }
    }
    if meets_above(a, b) {
        let y = choose|y: u16| #[trigger]
            least_row(a, y) && y > 0 && b.contains_key((y - 1) as u16) && a[y].overlapping(
                &b[(y - 1) as u16],
            );
        let up = (y - 1) as u16;
        let (p, q) = choose|p: int, q: int|
            0 <= p < a[y]@.len() && 0 <= q < b[up]@.len() && #[trigger] a[y]@[p].overlapping(
                &b[up]@[q],
            );
        assert(tidy_row(a[y]@) && tidy_row(b[up]@));
        let x = lemma_shared_column(a[y]@[p], b[up]@[q]);
        assert(seg_holds(a, x, y as int));
        assert(seg_holds(b, x, up as int));
        lemma_apart_by_tone(img, segs, i, j, x, y as int, x, up as int);
    }
    if meets_below(a, b) {
        let y = choose|y: u16| #[trigger]
            greatest_row(a, y) && y < u16::MAX && b.contains_key((y + 1) as u16) && a[y].overlapping(
                &b[(y + 1) as u16],
            );
        let down = (y + 1) as u16;
        let (p, q) = choose|p: int, q: int|
            0 <= p < a[y]@.len() && 0 <= q < b[down]@.len() && #[trigger] a[y]@[p].overlapping(
                &b[down]@[q],
            );
        assert(tidy_row(a[y]@) && tidy_row(b[down]@));
        let x = lemma_shared_column(a[y]@[p], b[down]@[q]);
        assert(seg_holds(a, x, y as int));
        assert(seg_holds(b, x, down as int));
        lemma_apart_by_tone(img, segs, i, j, x, y as int, x, down as int);
    }
}

/// An image without opaque pixels has no regions; so has an image without pixels.
pub proof fn lemma_no_regions(img: &GrayAlphaImage, segs: Seq<GeoSegment>)
    requires
        segmentation_of(img, segs),
        forall|x: int, y: int| !#[trigger] img.opaque(x, y),
    ensures
        segs.len() == 0,
{
    if segs.len() > 0 {
        assert(located(img, segs[0]));
        let seg = segs[0].seg@;
        let (sx, sy) = choose|sx: int, sy: int|
            {
                &&& #[trigger] leads(seg, sx, sy)
                &&& img.opaque(sx, sy)
                &&& forall|x: int, y: int| #[trigger]
                    seg_holds(seg, x, y) <==> in_component(img, sx, sy, x, y)
            };
        assert(img.opaque(sx, sy));
    }
}

} // verus!
