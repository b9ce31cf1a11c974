//! Regions of uniform tone and the scanline flood fill that finds them.

pub mod centroid;
pub mod connection;
pub mod overlapping;
pub mod partition;
pub mod region;
pub mod visited;

use crate::helpers::{
    Centroid, Connected, Coordinates, Crop, FixedCoordinates, Overlaps, SameTone, SmallCoord,
    Transparent,
};
use crate::segmentation::connection::segments_connected;
use crate::segmentation::overlapping::rows_overlap;
use crate::raster::{image_height, image_width, GrayAlphaImage};
use crate::segmentation::region::{
    alike, closed_marks, closed_rows, columns_marked, filled, grid_of, growing, in_component,
    lemma_growing_done, lemma_growing_end, lemma_growing_run, lemma_growing_start,
    lemma_reach_step, lemma_stretch_unmarked, maximal_run, reach, recorded, run_holds,
    seg_holds, sides_marked, stretch, tidy, Pending, Rows,
};
use crate::segmentation::partition::{
    lemma_filled_weighs, lemma_walk_claim, lemma_walk_end, lemma_walk_row, lemma_walk_skip,
    lemma_walk_start, lemma_walk_transparent, segmentation_of, walked,
};
pub use crate::segmentation::visited::VisitedPixels;
use std::collections::HashMap;
use std::ops::RangeInclusive;
use vstd::prelude::*;

verus! {

broadcast use vstd::std_specs::hash::group_hash_axioms;

/// A region: for each row that it touches, the runs of columns that it occupies.
pub type Segment = HashMap<u16, Vec<RangeInclusive<u16>>>;

/// The runs of row `y`, none where the segment has no such row.
pub open spec fn runs_of(seg: Rows, y: u16) -> Seq<RangeInclusive<u16>> {
    if seg.contains_key(y) {
        seg[y]@
    } else {
        Seq::empty()
    }
}

/// Records the run `lo..=hi` of row `y` behind the runs that the row already has.
fn push_run(seg: &mut Segment, y: u16, lo: u16, hi: u16)
    ensures
        final(seg)@.dom() == old(seg)@.dom().insert(y),
        forall|k: u16| k != y && old(seg)@.contains_key(k) ==> final(seg)@[k] == old(seg)@[k],
        final(seg)@[y]@.len() == runs_of(old(seg)@, y).len() + 1,
        final(seg)@[y]@.drop_last() == runs_of(old(seg)@, y),
        final(seg)@[y]@.last()@.start == lo,
        final(seg)@[y]@.last()@.end == hi,
        forall|a: int, b: int| #[trigger]
            seg_holds(final(seg)@, a, b) <==> seg_holds(old(seg)@, a, b) || (b == y && lo <= a
                <= hi),
{
    let ghost before = seg@;
    let mut row = match seg.remove(&y) {
        Some(row) => row,
        None => Vec::new(),
    };
    let ghost old_row = row@;
    assert(old_row == runs_of(before, y));
    row.push(lo..=hi);
    let ghost new_row = row@;
    seg.insert(y, row);
    proof {
        assert(seg@.dom() =~= before.dom().insert(y));
        assert(new_row.drop_last() =~= old_row);
        assert forall|a: int, b: int| #[trigger]
            seg_holds(seg@, a, b) <==> seg_holds(before, a, b) || (b == y && lo <= a <= hi) by {
            if b == y {
                if seg_holds(before, a, b) {
                    let i = choose|i: int| 0 <= i < old_row.len() && run_holds(#[trigger] old_row[i], a);
                    assert(run_holds(new_row[i], a));
                }
                if lo <= a <= hi {
                    assert(run_holds(new_row[new_row.len() - 1], a));
                }
                if seg_holds(seg@, a, b) {
                    let i = choose|i: int| 0 <= i < new_row.len() && run_holds(#[trigger] new_row[i], a);
                    if i < old_row.len() {
                        assert(run_holds(old_row[i], a));
                    }
                }
            }
        }
    }
}

/// A region together with its alpha-weighted centroid.
pub struct GeoSegment {
    pub centroid: FixedCoordinates,
    pub seg: Segment,
}

impl Default for GeoSegment {
    /// A segment without rows, its centroid at the origin.
    fn default() -> (r: Self)
        ensures
            r.centroid == (0u32, 0u32),
            r.seg@ == Map::<u16, Vec<RangeInclusive<u16>>>::empty(),
    {
        GeoSegment { centroid: (0, 0), seg: HashMap::new() }
    }
}

/// The regions of one image, in the order in which a row-major walk meets them.
pub type ImageSegments = Vec<GeoSegment>;

/// Which predicate decides that a candidate region meets a reference region.
#[derive(Clone, Copy, PartialEq, Eq, Debug)]
pub enum CropRule {
    /// The two regions share a column of a row.
    Overlap,
    /// The reference region is connected to the candidate.
    Connected,
}

/// The reference region meets the candidate under the rule.
pub open spec fn meets(rule: CropRule, reference: Rows, candidate: Rows) -> bool {
    match rule {
        CropRule::Overlap => rows_overlap(reference, candidate),
        CropRule::Connected => segments_connected(reference, candidate),
    }
}

/// Some reference region meets the candidate under the rule.
pub open spec fn meets_any(
    rule: CropRule,
    reference: Seq<GeoSegment>,
    candidate: GeoSegment,
) -> bool {
    exists|k: int|
        0 <= k < reference.len() && meets(rule, (#[trigger] reference[k]).seg@, candidate.seg@)
}

/// The candidates that some reference region meets, in their order.
pub open spec fn crop_result(
    rule: CropRule,
    reference: Seq<GeoSegment>,
    candidates: Seq<GeoSegment>,
) -> Seq<GeoSegment> {
    candidates.filter(|c: GeoSegment| meets_any(rule, reference, c))
}

/// Whether some region of `reference` meets `candidate` under `rule`.
fn any_meets(reference: &ImageSegments, candidate: &GeoSegment, rule: CropRule) -> (r: bool)
    ensures
        r == meets_any(rule, reference@, *candidate),
{
    let mut k: usize = 0;
    while k < reference.len()
        invariant
            k <= reference@.len(),
            forall|i: int|
                0 <= i < k ==> !meets(rule, (#[trigger] reference@[i]).seg@, candidate.seg@),
        decreases reference@.len() - k,
    {
        let met = match rule {
            CropRule::Overlap => reference[k].seg.overlaps(&candidate.seg),
            CropRule::Connected => reference[k].seg.is_connected(&candidate.seg),
        };
        if met {
            return true;
        }
        k = k + 1;
    }
    false
}

/// Keeps of `other` the regions that some region of `reference` meets under
/// `rule`, in their order. No region is split or merged.
pub fn crop_by(reference: &ImageSegments, other: ImageSegments, rule: CropRule) -> (r:
    ImageSegments)
    ensures
        r@ == crop_result(rule, reference@, other@),
{
    let ghost all = other@;
    let ghost keep = |c: GeoSegment| meets_any(rule, reference@, c);
    let mut kept: ImageSegments = Vec::new();
    proof {
        reveal(Seq::filter);
        assert(all.take(0) =~= Seq::<GeoSegment>::empty());
    }
    for o_seg in it: other.into_iter()
        invariant
            it.seq() == all,
            keep == |c: GeoSegment| meets_any(rule, reference@, c),
            kept@ == all.take(it.index() as int).filter(keep),
    {
        proof {
            reveal(Seq::filter);
            let next = it.index() as int + 1;
            assert(all.take(next).drop_last() =~= all.take(next - 1));
            assert(all.take(next).last() == o_seg);
        }
        if any_meets(reference, &o_seg, rule) {
            kept.push(o_seg);
        }
    }
    proof {
        assert(all.take(all.len() as int) =~= all);
    }
    kept
}

impl Crop for ImageSegments {
    /// `result` holds the regions of `other` that overlap some region of `self`.
    open spec fn cropped(&self, other: Self, result: Self) -> bool {
        result@ == crop_result(CropRule::Overlap, self@, other@)
    }

    fn crop(&self, other: Self) -> (r: Self) {
        crop_by(self, other, CropRule::Overlap)
    }
}

/// The side of a pixel to which a scan walks.
enum Direction {
    Left,
    Right,
}

/// One segmentation pass over an image: the marks set so far and the regions found.
pub struct ImgSegmentation<'a> {
    pub visited: VisitedPixels,
    pub segments: ImageSegments,
    img: &'a GrayAlphaImage,
}

impl<'a> ImgSegmentation<'a> {
    /// The regions of `img`: every maximal 4-connected set of opaque pixels of one
    /// intensity, each with its centroid, in the order in which a row-major walk
    /// over the image meets them.
    pub fn segment_img(img: &'a GrayAlphaImage) -> (segments: ImageSegments)
        requires
            img.small(),
        ensures
            segmentation_of(img, segments@),
    {
        let segments = ImageSegments::new();
        let width: u32 = img.width();
        let height: u32 = img.height();
        let visited = VisitedPixels::new((width as u16, height as u16));

        let mut this = Self { visited, segments, img };
        proof {
            lemma_walk_start(img, &this.visited);
        }

        let mut y: u32 = 0;
        while y < height
            invariant
                this.img == img,
                width == image_width(*img),
                height == image_height(*img),
                y <= height,
                walked(img, &this.visited, this.segments@, 0, y as int),
            decreases height - y,
        {
            let mut x: u32 = 0;
            while x < width
                invariant
                    this.img == img,
                    width == image_width(*img),
                    height == image_height(*img),
                    y < height,
                    x <= width,
                    walked(img, &this.visited, this.segments@, x as int, y as int),
                decreases width - x,
            {
                let coords: Coordinates = (x as u16, y as u16);
                let ghost before = this.visited;
                let ghost found = this.segments@;

                if !this.visited.is_visited(coords) {
                    if !this.img.is_transparent(coords) {
                        let mut new_segment = GeoSegment::default();
                        this.mount_segment(&mut new_segment, coords);
                        proof {
                            lemma_filled_weighs(
                                img,
                                &before,
                                &this.visited,
                                new_segment.seg@,
                                x as int,
                                y as int,
                            );
                        }
                        new_segment.centroid = new_segment.seg.calc_centroid(this.img);
                        proof {
                            lemma_walk_claim(
                                img,
                                &before,
                                &this.visited,
                                found,
                                new_segment,
                                x as int,
                                y as int,
                            );
                        }
                        this.segments.push(new_segment);
                    } else {
                        this.visited.visit_tone(coords);
                        proof {
                            lemma_walk_transparent(
                                img,
                                &before,
                                &this.visited,
                                found,
                                x as int,
                                y as int,
                            );
                        }
                    }
                } else {
                    proof {
                        lemma_walk_skip(img, &this.visited, found, x as int, y as int);
                    }
                }
                x = x + 1;
            }
            proof {
                lemma_walk_row(img, &this.visited, this.segments@, y as int);
            }
            y = y + 1;
        }
        proof {
            lemma_walk_end(img, &this.visited, this.segments@);
        }

        this.segments
    }

    /// The regions of `img`, or `None` where a side of the image is longer than
    /// 16-bit coordinates can address.
    pub fn try_segment_img(img: &'a GrayAlphaImage) -> (segments: Option<ImageSegments>)
        ensures
            segments is Some <==> img.small(),
            segments is Some ==> segmentation_of(img, segments->0@),
    {
        if img.width() > u16::MAX as u32 || img.height() > u16::MAX as u32 {
            None
        } else {
            Some(Self::segment_img(img))
        }
    }

    /// Grows `new_segment` into the whole region of the unmarked opaque pixel
    /// `coords`: records the run of `coords`, then, run by run from a work-list,
    /// whatever continues a recorded run in the row above or below it.
    fn mount_segment(&mut self, new_segment: &mut GeoSegment, coords: Coordinates)
        requires
            grid_of(old(self).img, &old(self).visited),
            closed_marks(old(self).img, &old(self).visited),
            old(self).img.opaque(coords.0 as int, coords.1 as int),
            !old(self).visited.marked(coords.0 as int, coords.1 as int),
            old(new_segment).seg@ == Map::<u16, Vec<RangeInclusive<u16>>>::empty(),
        ensures
            final(self).img == old(self).img,
            final(self).segments == old(self).segments,
            final(new_segment).centroid == old(new_segment).centroid,
            filled(
                old(self).img,
                &old(self).visited,
                &final(self).visited,
                final(new_segment).seg@,
                coords.0 as int,
                coords.1 as int,
            ),
            tidy(final(new_segment).seg@),
            final(self).visited.unmarked() < old(self).visited.unmarked(),
    {
        let ghost img = self.img;
        let ghost before = self.visited;
        let ghost sx = coords.0 as int;
        let ghost sy = coords.1 as int;
        let height: u32 = self.img.height();
        let tone = self.img.get_pixel_s(coords)[0];
        let mut work: Vec<Pending> = Vec::new();

        let tone_range = self.mount_line(coords);
        let first = Pending { row: coords.1, lower: *tone_range.start(), upper: *tone_range.end() };
        let ghost seg0 = new_segment.seg@;
        push_run(&mut new_segment.seg, first.row, first.lower, first.upper);
        proof {
            lemma_growing_start(img, &before, sx, sy);
            assert(reach(img, sx, sy, 0, sx, sy));
            lemma_growing_run(
                img,
                &before,
                &before,
                &self.visited,
                seg0,
                new_segment.seg@,
                work@,
                sx,
                sy,
                sx,
                first,
            );
        }
        work.push(first);

        while work.len() > 0
            invariant
                self.img == img,
                self.segments == old(self).segments,
                new_segment.centroid == old(new_segment).centroid,
                sx == coords.0,
                sy == coords.1,
                height == image_height(*img),
                img.opaque(sx, sy),
                tone == img.tone(sx, sy),
                growing(img, &before, &self.visited, new_segment.seg@, work@, sx, sy),
                seg_holds(new_segment.seg@, sx, sy),
                self.visited.unmarked() < before.unmarked(),
            decreases self.visited.unmarked(), work@.len(),
        {
            let at: usize = work.len() - 1;
            let run: Pending = work[at];
            let ghost row = run.row as int;
            let ghost work0 = work@;
            let ghost unmarked0 = self.visited.unmarked();
            assert(recorded(new_segment.seg@, work@[at as int]));

            if run.row > 0 {
                let mut x: u32 = run.lower as u32;
                while x <= run.upper as u32
                    invariant
                        self.img == img,
                        self.segments == old(self).segments,
                        new_segment.centroid == old(new_segment).centroid,
                        img.opaque(sx, sy),
                        tone == img.tone(sx, sy),
                        growing(img, &before, &self.visited, new_segment.seg@, work@, sx, sy),
                        seg_holds(new_segment.seg@, sx, sy),
                        run.lower <= x <= run.upper + 1,
                        run.row > 0,
                        row == run.row,
                        at < work@.len(),
                        work@[at as int] == run,
                        self.visited.unmarked() < unmarked0 || (self.visited.unmarked()
                            == unmarked0 && work@ == work0),
                        forall|c: int|
                            run.lower <= c < x && alike(img, tone, c, row - 1)
                                ==> #[trigger] self.visited.marked(c, row - 1),
                    decreases run.upper + 1 - x,
                {
                    let ghost prev = self.visited;
                    assert(seg_holds(new_segment.seg@, x as int, row));
                    self.mount_next_line(
                        (x as u16, run.row - 1),
                        tone,
                        new_segment,
                        &mut work,
                        Ghost(before),
                        Ghost((sx, sy)),
                    );
                    proof {
                        assert forall|c: int|
                            run.lower <= c < x + 1 && alike(
                                img,
                                tone,
                                c,
                                row - 1,
                            ) implies #[trigger] self.visited.marked(c, row - 1) by {
                            if c < x {
                                assert(prev.marked(c, row - 1));
                            }
                        }
                    }
                    x = x + 1;
                }
            }
            if (run.row as u32) + 1 < height {
                let mut x: u32 = run.lower as u32;
                while x <= run.upper as u32
                    invariant
                        self.img == img,
                        self.segments == old(self).segments,
                        new_segment.centroid == old(new_segment).centroid,
                        img.opaque(sx, sy),
                        tone == img.tone(sx, sy),
                        height == image_height(*img),
                        growing(img, &before, &self.visited, new_segment.seg@, work@, sx, sy),
                        seg_holds(new_segment.seg@, sx, sy),
                        run.lower <= x <= run.upper + 1,
                        run.row + 1 < height,
                        row == run.row,
                        at < work@.len(),
                        work@[at as int] == run,
                        self.visited.unmarked() < unmarked0 || (self.visited.unmarked()
                            == unmarked0 && work@ == work0),
                        forall|c: int|
                            run.lower <= c <= run.upper && alike(img, tone, c, row - 1)
                                ==> #[trigger] self.visited.marked(c, row - 1),
                        forall|c: int|
                            run.lower <= c < x && alike(img, tone, c, row + 1)
                                ==> #[trigger] self.visited.marked(c, row + 1),
                    decreases run.upper + 1 - x,
                {
                    let ghost prev = self.visited;
                    assert(seg_holds(new_segment.seg@, x as int, row));
                    self.mount_next_line(
                        (x as u16, run.row + 1),
                        tone,
                        new_segment,
                        &mut work,
                        Ghost(before),
                        Ghost((sx, sy)),
                    );
                    proof {
                        assert forall|c: int|
                            run.lower <= c <= run.upper && alike(
                                img,
                                tone,
                                c,
                                row - 1,
                            ) implies #[trigger] self.visited.marked(c, row - 1) by {
                            assert(prev.marked(c, row - 1));
                        }
                        assert forall|c: int|
                            run.lower <= c < x + 1 && alike(
                                img,
                                tone,
                                c,
                                row + 1,
                            ) implies #[trigger] self.visited.marked(c, row + 1) by {
                            if c < x {
                                assert(prev.marked(c, row + 1));
                            }
                        }
                    }
                    x = x + 1;
                }
            }
            proof {
                assert forall|c: int| run.lower <= c <= run.upper implies #[trigger] columns_marked(
                    img,
                    &self.visited,
                    c,
                    row,
                ) by {
                    assert(seg_holds(new_segment.seg@, c, row));
                    assert(in_component(img, sx, sy, c, row));
                    assert(alike(img, tone, c, row));
                    if alike(img, tone, c, row - 1) {
                        assert(self.visited.marked(c, row - 1));
                    }
                    if alike(img, tone, c, row + 1) {
                        assert(self.visited.marked(c, row + 1));
                    }
                }
                lemma_growing_done(
                    img,
                    &before,
                    &self.visited,
                    new_segment.seg@,
                    work@,
                    sx,
                    sy,
                    at as int,
                );
            }
            work.swap_remove(at);
        }
        proof {
            assert(work@ =~= Seq::<Pending>::empty());
            lemma_growing_end(img, &before, &self.visited, new_segment.seg@, sx, sy);
        }
    }

    /// Looks at the pixel `coords` above or below a recorded run: if it continues
    /// the region and is not marked yet, its whole run is marked, recorded and
    /// put on the work-list.
    fn mount_next_line(
        &mut self,
        coords: Coordinates,
        tone: u8,
        new_segment: &mut GeoSegment,
        work: &mut Vec<Pending>,
        Ghost(before): Ghost<VisitedPixels>,
        Ghost(seed): Ghost<(int, int)>,
    )
        requires
            old(self).img.opaque(seed.0, seed.1),
            tone == old(self).img.tone(seed.0, seed.1),
            growing(
                old(self).img,
                &before,
                &old(self).visited,
                old(new_segment).seg@,
                old(work)@,
                seed.0,
                seed.1,
            ),
            old(self).visited.covers(coords.0 as int, coords.1 as int),
            seg_holds(old(new_segment).seg@, coords.0 as int, coords.1 - 1) || seg_holds(
                old(new_segment).seg@,
                coords.0 as int,
                coords.1 + 1,
            ),
        ensures
            final(self).img == old(self).img,
            final(self).segments == old(self).segments,
            final(new_segment).centroid == old(new_segment).centroid,
            growing(
                old(self).img,
                &before,
                &final(self).visited,
                final(new_segment).seg@,
                final(work)@,
                seed.0,
                seed.1,
            ),
            alike(old(self).img, tone, coords.0 as int, coords.1 as int)
                ==> final(self).visited.marked(coords.0 as int, coords.1 as int),
            forall|x: int, y: int|
                old(self).visited.covers(x, y) && old(self).visited.marked(x, y)
                    ==> #[trigger] final(self).visited.marked(x, y),
            forall|x: int, y: int|
                seg_holds(old(new_segment).seg@, x, y) ==> #[trigger] seg_holds(
                    final(new_segment).seg@,
                    x,
                    y,
                ),
            final(work)@.len() >= old(work)@.len(),
            forall|k: int| 0 <= k < old(work)@.len() ==> #[trigger] final(work)@[k] == old(work)@[k],
            final(self).visited.unmarked() < old(self).visited.unmarked() || (final(work)@
                == old(work)@ && final(self).visited.unmarked() == old(self).visited.unmarked()),
    {
        if !self.visited.is_visited(coords) && self.img.same_tone(coords, tone)
            && !self.img.is_transparent(coords) {
            let ghost img = self.img;
            let ghost prev = self.visited;
            let ghost seg0 = new_segment.seg@;
            let ghost py = if seg_holds(seg0, coords.0 as int, coords.1 - 1) {
                coords.1 - 1
            } else {
                coords.1 + 1
            };
            let tone_range = self.mount_line(coords);
            let run = Pending { row: coords.1, lower: *tone_range.start(), upper: *tone_range.end() };
            push_run(&mut new_segment.seg, run.row, run.lower, run.upper);
            proof {
                assert(in_component(img, seed.0, seed.1, coords.0 as int, py));
                let n = choose|n: nat| reach(img, seed.0, seed.1, n, coords.0 as int, py);
                lemma_reach_step(
                    img,
                    seed.0,
                    seed.1,
                    n,
                    coords.0 as int,
                    py,
                    coords.0 as int,
                    coords.1 as int,
                );
                lemma_growing_run(
                    img,
                    &before,
                    &prev,
                    &self.visited,
                    seg0,
                    new_segment.seg@,
                    work@,
                    seed.0,
                    seed.1,
                    coords.0 as int,
                    run,
                );
            }
            work.push(run);
        }
    }

    /// Marks the whole run of `coords` and returns its first and last column.
    fn mount_line(&mut self, coords: Coordinates) -> (run: RangeInclusive<u16>)
        requires
            grid_of(old(self).img, &old(self).visited),
            closed_rows(old(self).img, &old(self).visited),
            old(self).img.opaque(coords.0 as int, coords.1 as int),
            !old(self).visited.marked(coords.0 as int, coords.1 as int),
        ensures
            final(self).img == old(self).img,
            final(self).segments == old(self).segments,
            grid_of(final(self).img, &final(self).visited),
            closed_rows(final(self).img, &final(self).visited),
            run@.start <= coords.0 <= run@.end,
            maximal_run(
                old(self).img,
                old(self).img.tone(coords.0 as int, coords.1 as int),
                coords.1 as int,
                run@.start as int,
                run@.end as int,
            ),
            forall|x: int, y: int|
                old(self).visited.covers(x, y) ==> (#[trigger] final(self).visited.marked(x, y)
                    <==> old(self).visited.marked(x, y) || (y == coords.1 && run@.start <= x
                    <= run@.end)),
            forall|x: int|
                run@.start <= x <= run@.end ==> !#[trigger] old(self).visited.marked(
                    x,
                    coords.1 as int,
                ),
            final(self).visited.unmarked() + (run@.end - run@.start + 1) == old(self).visited.unmarked(),
    {
        let ghost img = self.img;
        let ghost before = self.visited;
        let ghost tone = img.tone(coords.0 as int, coords.1 as int);
        let ghost row = coords.1 as int;
        let ghost start = coords.0 as int;
        proof {
            assert forall|x: int|
                (x <= start && stretch(img, tone, row, x, start)) || (start <= x && stretch(
                    img,
                    tone,
                    row,
                    start,
                    x,
                )) implies !#[trigger] before.marked(x, row) by {
                lemma_stretch_unmarked(img, &before, tone, row, start, x);
            }
        }
        self.visited.visit_tone(coords);
        let ghost seeded = self.visited;
        proof {
            assert forall|x: int|
                0 <= x < start && stretch(img, tone, row, x, start) implies !#[trigger] seeded.marked(
                x,
                row,
            ) by {
                assert(alike(img, tone, x, row));
                assert(!before.marked(x, row));
            }
        }
        let lower = self.side_scan(coords, Direction::Left);
        let ghost scanned = self.visited;
        proof {
            assert forall|x: int|
                start < x && stretch(img, tone, row, start, x) implies !#[trigger] scanned.marked(
                x,
                row,
            ) by {
                assert(alike(img, tone, x, row));
                assert(!before.marked(x, row));
                assert(seeded.marked(x, row) == before.marked(x, row));
            }
        }
        let upper = self.side_scan(coords, Direction::Right);
        proof {
            assert(stretch(img, tone, row, lower as int, upper as int)) by {
                assert forall|x: int| lower <= x <= upper implies #[trigger] alike(
                    img,
                    tone,
                    x,
                    row,
                ) by {
                    if x <= start {
                        assert(stretch(img, tone, row, lower as int, start));
                    } else {
                        assert(stretch(img, tone, row, start, upper as int));
                    }
                }
            }
            assert forall|x: int| lower <= x <= upper implies !#[trigger] before.marked(x, row) by {
                assert(alike(img, tone, x, row));
                if x <= start {
                    assert forall|z: int| x <= z <= start implies #[trigger] alike(
                        img,
                        tone,
                        z,
                        row,
                    ) by {}
                    assert(stretch(img, tone, row, x, start));
                } else {
                    assert forall|z: int| start <= z <= x implies #[trigger] alike(
                        img,
                        tone,
                        z,
                        row,
                    ) by {}
                    assert(stretch(img, tone, row, start, x));
                }
            }
            assert forall|x: int, y: int| before.covers(x, y) implies (#[trigger] self.visited.marked(
                x,
                y,
            ) <==> before.marked(x, y) || (y == row && lower <= x <= upper)) by {
                assert(scanned.marked(x, y) <==> seeded.marked(x, y) || (y == row && lower <= x
                    < start));
                assert(seeded.marked(x, y) <==> before.marked(x, y) || (x == start && y == row));
            }
            assert forall|x: int, y: int|
                img.opaque(x, y) && self.visited.marked(x, y) implies #[trigger] sides_marked(
                img,
                &self.visited,
                x,
                y,
            ) by {
                if before.marked(x, y) {
                    assert(sides_marked(img, &before, x, y));
                    if alike(img, img.tone(x, y), x - 1, y) {
                        assert(self.visited.marked(x - 1, y));
                    }
                    if alike(img, img.tone(x, y), x + 1, y) {
                        assert(self.visited.marked(x + 1, y));
                    }
                } else {
                    assert(y == row && lower <= x <= upper);
                    assert(alike(img, tone, x, row));
                    if alike(img, tone, x - 1, y) {
                        assert(x - 1 >= lower);
                        assert(self.visited.marked(x - 1, y));
                    }
                    if alike(img, tone, x + 1, y) {
                        assert(x + 1 <= upper);
                        assert(self.visited.marked(x + 1, y));
                    }
                }
            }
        }
        lower..=upper
    }

    /// Walks from `coords` to one side for as long as the pixels continue the run
    /// of `coords`, marks them, and returns the last column of the run on that side.
    fn side_scan(&mut self, coords: Coordinates, direction: Direction) -> (res: u16)
        requires
            grid_of(old(self).img, &old(self).visited),
            old(self).img.opaque(coords.0 as int, coords.1 as int),
            match direction {
                Direction::Left => forall|x: int|
                    0 <= x < coords.0 && stretch(
                        old(self).img,
                        old(self).img.tone(coords.0 as int, coords.1 as int),
                        coords.1 as int,
                        x,
                        coords.0 as int,
                    ) ==> !#[trigger] old(self).visited.marked(x, coords.1 as int),
                Direction::Right => forall|x: int|
                    coords.0 < x && stretch(
                        old(self).img,
                        old(self).img.tone(coords.0 as int, coords.1 as int),
                        coords.1 as int,
                        coords.0 as int,
                        x,
                    ) ==> !#[trigger] old(self).visited.marked(x, coords.1 as int),
            },
        ensures
            final(self).img == old(self).img,
            final(self).segments == old(self).segments,
            grid_of(final(self).img, &final(self).visited),
            match direction {
                Direction::Left => {
                    &&& res <= coords.0
                    &&& stretch(
                        old(self).img,
                        old(self).img.tone(coords.0 as int, coords.1 as int),
                        coords.1 as int,
                        res as int,
                        coords.0 as int,
                    )
                    &&& !alike(
                        old(self).img,
                        old(self).img.tone(coords.0 as int, coords.1 as int),
                        res - 1,
                        coords.1 as int,
                    )
                    &&& forall|x: int, y: int|
                        old(self).visited.covers(x, y) ==> (#[trigger] final(self).visited.marked(
                            x,
                            y,
                        ) <==> old(self).visited.marked(x, y) || (y == coords.1 && res <= x
                            < coords.0))
                    &&& final(self).visited.unmarked() + (coords.0 - res) == old(self).visited.unmarked()
                },
                Direction::Right => {
                    &&& coords.0 <= res
                    &&& stretch(
                        old(self).img,
                        old(self).img.tone(coords.0 as int, coords.1 as int),
                        coords.1 as int,
                        coords.0 as int,
                        res as int,
                    )
                    &&& !alike(
                        old(self).img,
                        old(self).img.tone(coords.0 as int, coords.1 as int),
                        res + 1,
                        coords.1 as int,
                    )
                    &&& forall|x: int, y: int|
                        old(self).visited.covers(x, y) ==> (#[trigger] final(self).visited.marked(
                            x,
                            y,
                        ) <==> old(self).visited.marked(x, y) || (y == coords.1 && coords.0 < x
                            <= res))
                    &&& final(self).visited.unmarked() + (res - coords.0) == old(self).visited.unmarked()
                },
            },
    {
        let tone = self.img.get_pixel_s(coords)[0];
        let width: u32 = self.img.width();
        let ghost img = self.img;
        let ghost before = self.visited;
        let ghost row = coords.1 as int;
        let ghost start = coords.0 as int;
        let mut res: u16 = coords.0;

        match direction {
            Direction::Left => {
                while res > 0
                    invariant
                        self.img == img,
                        self.segments == old(self).segments,
                        grid_of(img, &before),
                        grid_of(img, &self.visited),
                        img.opaque(start, row),
                        tone == img.tone(start, row),
                        start == coords.0,
                        row == coords.1,
                        res <= coords.0,
                        stretch(img, tone, row, res as int, start),
                        forall|x: int|
                            0 <= x < start && stretch(img, tone, row, x, start)
                                ==> !#[trigger] before.marked(x, row),
                        forall|x: int, y: int|
                            before.covers(x, y) ==> (#[trigger] self.visited.marked(x, y)
                                <==> before.marked(x, y) || (y == row && res <= x < start)),
                        self.visited.unmarked() + (start - res) == before.unmarked(),
                    ensures
                        !alike(img, tone, res - 1, row),
                    decreases res,
                {
                    let next: Coordinates = (res - 1, coords.1);
                    if self.img.same_tone(next, tone) && !self.img.is_transparent(next) {
                        proof {
                            assert(alike(img, tone, res - 1, row));
                            assert(stretch(img, tone, row, res - 1, start)) by {
                                assert forall|x: int| res - 1 <= x <= start implies #[trigger] alike(
                                    img,
                                    tone,
                                    x,
                                    row,
                                ) by {
                                    if x >= res {
                                        assert(stretch(img, tone, row, res as int, start));
                                    }
                                }
                            }
                            assert(!before.marked(res - 1, row));
                        }
                        self.visited.visit_tone(next);
                        res = res - 1;
                    } else {
                        break ;
                    }
                }
            },
            Direction::Right => {
                while (res as u32) + 1 < width
                    invariant
                        self.img == img,
                        self.segments == old(self).segments,
                        grid_of(img, &before),
                        grid_of(img, &self.visited),
                        img.opaque(start, row),
                        tone == img.tone(start, row),
                        width == image_width(*img),
                        start == coords.0,
                        row == coords.1,
                        coords.0 <= res < width,
                        stretch(img, tone, row, start, res as int),
                        forall|x: int|
                            start < x && stretch(img, tone, row, start, x)
                                ==> !#[trigger] before.marked(x, row),
                        forall|x: int, y: int|
                            before.covers(x, y) ==> (#[trigger] self.visited.marked(x, y)
                                <==> before.marked(x, y) || (y == row && start < x <= res)),
                        self.visited.unmarked() + (res - start) == before.unmarked(),
                    ensures
                        !alike(img, tone, res + 1, row),
                    decreases width - res,
                {
                    let next: Coordinates = (res + 1, coords.1);
                    if self.img.same_tone(next, tone) && !self.img.is_transparent(next) {
                        proof {
                            assert(alike(img, tone, res + 1, row));
                            assert(stretch(img, tone, row, start, res + 1)) by {
                                assert forall|x: int| start <= x <= res + 1 implies #[trigger] alike(
                                    img,
                                    tone,
                                    x,
                                    row,
                                ) by {
                                    if x <= res {
                                        assert(stretch(img, tone, row, start, res as int));
                                    }
                                }
                            }
                            assert(!before.marked(res + 1, row));
                        }
                        self.visited.visit_tone(next);
                        res = res + 1;
                    } else {
                        break ;
                    }
                }
            },
        }

        res
    }
}

} // verus!
