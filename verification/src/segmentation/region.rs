//! What a region is: the pixels that a segment holds, the 4-connected component
//! of a seed pixel, and the facts that tie the flood fill to both.

use crate::helpers::Overlaps;
use crate::raster::GrayAlphaImage;
use crate::segmentation::visited::VisitedPixels;
use std::ops::RangeInclusive;
use vstd::prelude::*;

verus! {

/// The rows of a segment as the contracts see them.
pub type Rows = Map<u16, Vec<RangeInclusive<u16>>>;

/// Column `x` lies in the run.
pub open spec fn run_holds(run: RangeInclusive<u16>, x: int) -> bool {
    run@.start <= x <= run@.end
}

/// Column `x` lies in one of the runs of a row.
pub open spec fn row_holds(row: Seq<RangeInclusive<u16>>, x: int) -> bool {
    exists|i: int| 0 <= i < row.len() && run_holds(#[trigger] row[i], x)
}

/// Pixel `(x, y)` belongs to the segment.
pub open spec fn seg_holds(seg: Rows, x: int, y: int) -> bool {
    0 <= y <= u16::MAX && seg.contains_key(y as u16) && row_holds(seg[y as u16]@, x)
}

/// The runs of a row are not empty and no two of them share a column.
pub open spec fn tidy_row(row: Seq<RangeInclusive<u16>>) -> bool {
    &&& row.len() > 0
    &&& forall|i: int| 0 <= i < row.len() ==> (#[trigger] row[i])@.start <= row[i]@.end
    &&& forall|i: int, j: int|
        0 <= i < row.len() && 0 <= j < row.len() && i != j ==> !#[trigger] row[i].overlapping(
            &row[j],
        )
}

/// The segment has a row, every row has a run, and no pixel is recorded twice.
pub open spec fn tidy(seg: Rows) -> bool {
    &&& exists|y: u16| #[trigger] seg.contains_key(y)
    &&& forall|y: u16| #[trigger] seg.contains_key(y) ==> tidy_row(seg[y]@)
}

/// Pixel `(x, y)` is opaque and has intensity `tone`.
pub open spec fn alike(img: &GrayAlphaImage, tone: u8, x: int, y: int) -> bool {
    img.opaque(x, y) && img.tone(x, y) == tone
}

/// Every pixel of row `y` from column `a` to column `b` is opaque with intensity `tone`.
pub open spec fn stretch(img: &GrayAlphaImage, tone: u8, y: int, a: int, b: int) -> bool {
    forall|x: int| a <= x <= b ==> #[trigger] alike(img, tone, x, y)
}

/// Columns `lo..=hi` of row `y` are a run of `tone` that cannot be extended.
pub open spec fn maximal_run(img: &GrayAlphaImage, tone: u8, y: int, lo: int, hi: int) -> bool {
    &&& lo <= hi
    &&& stretch(img, tone, y, lo, hi)
    &&& !alike(img, tone, lo - 1, y)
    &&& !alike(img, tone, hi + 1, y)
}

/// The run of row `y` is a run of one intensity that cannot be extended.
pub open spec fn whole_run(img: &GrayAlphaImage, y: int, run: RangeInclusive<u16>) -> bool {
    maximal_run(img, img.tone(run@.start as int, y), y, run@.start as int, run@.end as int)
}

/// Every run of the segment is a run of one intensity that cannot be extended.
pub open spec fn whole_runs(img: &GrayAlphaImage, seg: Rows) -> bool {
    forall|y: u16, i: int|
        seg.contains_key(y) && 0 <= i < seg[y]@.len() ==> whole_run(
            img,
            y as int,
            #[trigger] seg[y]@[i],
        )
}

/// `(x, y)` can be reached from the seed `(sx, sy)` in at most `n` steps to a
/// 4-neighbour, through opaque pixels of the seed's intensity only.
pub open spec fn reach(img: &GrayAlphaImage, sx: int, sy: int, n: nat, x: int, y: int) -> bool
    decreases n,
{
    &&& alike(img, img.tone(sx, sy), x, y)
    &&& img.opaque(sx, sy)
    &&& if n == 0 {
        x == sx && y == sy
    } else {
        ||| reach(img, sx, sy, (n - 1) as nat, x, y)
        ||| reach(img, sx, sy, (n - 1) as nat, x - 1, y)
        ||| reach(img, sx, sy, (n - 1) as nat, x + 1, y)
        ||| reach(img, sx, sy, (n - 1) as nat, x, y - 1)
        ||| reach(img, sx, sy, (n - 1) as nat, x, y + 1)
    }
}

/// `(x, y)` lies in the 4-connected component of the seed `(sx, sy)`: the opaque
/// pixels of the seed's intensity that a path of such pixels joins to the seed.
pub open spec fn in_component(img: &GrayAlphaImage, sx: int, sy: int, x: int, y: int) -> bool {
    exists|n: nat| reach(img, sx, sy, n, x, y)
}

/// The left and right neighbours of `(x, y)` that continue its run are marked.
pub open spec fn sides_marked(img: &GrayAlphaImage, v: &VisitedPixels, x: int, y: int) -> bool {
    &&& alike(img, img.tone(x, y), x - 1, y) ==> v.marked(x - 1, y)
    &&& alike(img, img.tone(x, y), x + 1, y) ==> v.marked(x + 1, y)
}

/// The neighbours above and below `(x, y)` that share its intensity are marked.
pub open spec fn columns_marked(img: &GrayAlphaImage, v: &VisitedPixels, x: int, y: int) -> bool {
    &&& alike(img, img.tone(x, y), x, y - 1) ==> v.marked(x, y - 1)
    &&& alike(img, img.tone(x, y), x, y + 1) ==> v.marked(x, y + 1)
}

/// No marked opaque pixel has an unmarked neighbour in its own row that continues its run.
pub open spec fn closed_rows(img: &GrayAlphaImage, v: &VisitedPixels) -> bool {
    forall|x: int, y: int|
        img.opaque(x, y) && v.marked(x, y) ==> #[trigger] sides_marked(img, v, x, y)
}

/// No marked opaque pixel has an unmarked 4-neighbour of its own intensity: the
/// marked opaque pixels are a union of whole components.
pub open spec fn closed_marks(img: &GrayAlphaImage, v: &VisitedPixels) -> bool {
    &&& closed_rows(img, v)
    &&& forall|x: int, y: int|
        img.opaque(x, y) && v.marked(x, y) ==> #[trigger] columns_marked(img, v, x, y)
}

/// The grid has the image's dimensions, which fit 16-bit coordinates.
pub open spec fn grid_of(img: &GrayAlphaImage, v: &VisitedPixels) -> bool {
    &&& v.wf()
    &&& img.small()
    &&& v.width() == crate::raster::image_width(*img)
    &&& v.height() == crate::raster::image_height(*img)
}

/// The marks of `after` are those of `before` and the pixels of `seg`.
pub open spec fn marks_grown(
    before: &VisitedPixels,
    after: &VisitedPixels,
    seg: Rows,
) -> bool {
    forall|x: int, y: int|
        before.covers(x, y) ==> (#[trigger] after.marked(x, y) <==> before.marked(x, y) || seg_holds(
            seg,
            x,
            y,
        ))
}

/// A pixel of an unbroken stretch that reaches an unmarked pixel is unmarked.
pub proof fn lemma_stretch_unmarked(
    img: &GrayAlphaImage,
    v: &VisitedPixels,
    tone: u8,
    y: int,
    cx: int,
    x: int,
)
    requires
        closed_rows(img, v),
        !v.marked(cx, y),
        x <= cx && stretch(img, tone, y, x, cx) || cx <= x && stretch(img, tone, y, cx, x),
    ensures
        !v.marked(x, y),
    decreases
            if x <= cx {
                cx - x
            } else {
                x - cx
            },
{
    if x < cx {
        lemma_stretch_unmarked(img, v, tone, y, cx, x + 1);
        assert(alike(img, tone, x, y));
        assert(alike(img, tone, x + 1, y));
        if v.marked(x, y) {
            assert(sides_marked(img, v, x, y));
        }
    } else if x > cx {
        lemma_stretch_unmarked(img, v, tone, y, cx, x - 1);
        assert(alike(img, tone, x, y));
        assert(alike(img, tone, x - 1, y));
        if v.marked(x, y) {
            assert(sides_marked(img, v, x, y));
        }
    }
}

/// A pixel of the seed's intensity next to a reached pixel is reached one step later.
pub proof fn lemma_reach_step(
    img: &GrayAlphaImage,
    sx: int,
    sy: int,
    n: nat,
    px: int,
    py: int,
    x: int,
    y: int,
)
    requires
        reach(img, sx, sy, n, px, py),
        alike(img, img.tone(sx, sy), x, y),
        (px == x && (py == y - 1 || py == y + 1)) || (py == y && (px == x - 1 || px == x + 1)),
    ensures
        reach(img, sx, sy, n + 1, x, y),
{
}

/// Every pixel of an unbroken stretch through a reached pixel is in the component.
pub proof fn lemma_reach_along(
    img: &GrayAlphaImage,
    sx: int,
    sy: int,
    n: nat,
    cx: int,
    x: int,
    y: int,
)
    requires
        reach(img, sx, sy, n, cx, y),
        x <= cx && stretch(img, img.tone(sx, sy), y, x, cx) || cx <= x && stretch(
            img,
            img.tone(sx, sy),
            y,
            cx,
            x,
        ),
    ensures
        in_component(img, sx, sy, x, y),
    decreases
            if x <= cx {
                cx - x
            } else {
                x - cx
            },
{
    let tone = img.tone(sx, sy);
    if x < cx {
        assert(alike(img, tone, cx - 1, y));
        lemma_reach_step(img, sx, sy, n, cx, y, cx - 1, y);
        lemma_reach_along(img, sx, sy, n + 1, cx - 1, x, y);
    } else if x > cx {
        assert(alike(img, tone, cx + 1, y));
        lemma_reach_step(img, sx, sy, n, cx, y, cx + 1, y);
        lemma_reach_along(img, sx, sy, n + 1, cx + 1, x, y);
    }
}

/// What a finished flood fill has established of the segment `seg` grown from
/// the seed `(sx, sy)`, with `before` the marks at its start and `after` at its end.
pub open spec fn filled(
    img: &GrayAlphaImage,
    before: &VisitedPixels,
    after: &VisitedPixels,
    seg: Rows,
    sx: int,
    sy: int,
) -> bool {
    &&& grid_of(img, before)
    &&& grid_of(img, after)
    &&& closed_marks(img, before)
    &&& closed_marks(img, after)
    &&& marks_grown(before, after, seg)
    &&& seg_holds(seg, sx, sy)
    &&& forall|x: int, y: int| #[trigger]
        seg_holds(seg, x, y) ==> !before.marked(x, y) && in_component(img, sx, sy, x, y)
    &&& whole_runs(img, seg)
}

/// A finished flood fill has claimed every pixel that `n` steps reach from the seed.
pub proof fn lemma_filled_holds_reached(
    img: &GrayAlphaImage,
    before: &VisitedPixels,
    after: &VisitedPixels,
    seg: Rows,
    sx: int,
    sy: int,
    n: nat,
    x: int,
    y: int,
)
    requires
        filled(img, before, after, seg, sx, sy),
        reach(img, sx, sy, n, x, y),
    ensures
        seg_holds(seg, x, y),
    decreases n,
{
    if n > 0 {
        let m = (n - 1) as nat;
        let tone = img.tone(sx, sy);
        if reach(img, sx, sy, m, x, y) {
            lemma_filled_holds_reached(img, before, after, seg, sx, sy, m, x, y);
        } else {
            let (px, py) = if reach(img, sx, sy, m, x - 1, y) {
                (x - 1, y)
            } else if reach(img, sx, sy, m, x + 1, y) {
                (x + 1, y)
            } else if reach(img, sx, sy, m, x, y - 1) {
                (x, y - 1)
            } else {
                (x, y + 1)
            };
            assert(reach(img, sx, sy, m, px, py));
            lemma_filled_holds_reached(img, before, after, seg, sx, sy, m, px, py);
            // the neighbour is claimed, so it is marked, and the marks are closed
            assert(img.opaque(px, py) && img.tone(px, py) == tone);
            assert(after.marked(px, py));
            assert(sides_marked(img, after, px, py));
            assert(columns_marked(img, after, px, py));
            assert(after.marked(x, y));
            if before.marked(x, y) {
                assert(sides_marked(img, before, x, y));
                assert(columns_marked(img, before, x, y));
                assert(before.marked(px, py));
            }
        }
    }
}

/// A finished flood fill holds exactly the component of its seed.
pub proof fn lemma_filled_is_component(
    img: &GrayAlphaImage,
    before: &VisitedPixels,
    after: &VisitedPixels,
    seg: Rows,
    sx: int,
    sy: int,
)
    requires
        filled(img, before, after, seg, sx, sy),
    ensures
        forall|x: int, y: int| #[trigger]
            seg_holds(seg, x, y) <==> in_component(img, sx, sy, x, y),
{
    assert forall|x: int, y: int| #[trigger] in_component(img, sx, sy, x, y) implies seg_holds(
        seg,
        x,
        y,
    ) by {
        let n = choose|n: nat| reach(img, sx, sy, n, x, y);
        lemma_filled_holds_reached(img, before, after, seg, sx, sy, n, x, y);
    }
}

/// A run that the flood fill has recorded and whose rows above and below it has
/// not looked at yet.
#[derive(Clone, Copy)]
pub struct Pending {
    pub row: u16,
    pub lower: u16,
    pub upper: u16,
}

/// Pixel `(x, y)` lies in a run that still waits on the work-list.
pub open spec fn pending(work: Seq<Pending>, x: int, y: int) -> bool {
    exists|k: int|
        0 <= k < work.len() && (#[trigger] work[k]).row == y && work[k].lower <= x <= work[k].upper
}

/// The pixel waits on the work-list, or the fill has already marked what lies
/// above and below it.
pub open spec fn settled(
    img: &GrayAlphaImage,
    v: &VisitedPixels,
    work: Seq<Pending>,
    x: int,
    y: int,
) -> bool {
    pending(work, x, y) || columns_marked(img, v, x, y)
}

/// Every pixel of the waiting run has been recorded in the segment.
pub open spec fn recorded(seg: Rows, run: Pending) -> bool {
    &&& run.lower <= run.upper
    &&& forall|x: int| run.lower <= x <= run.upper ==> #[trigger] seg_holds(seg, x, run.row as int)
}

/// What holds of a flood fill under way: `before` are the marks at its start,
/// `now` the marks so far, `seg` the runs recorded so far and `work` the runs
/// whose neighbours are still to be looked at.
pub open spec fn growing(
    img: &GrayAlphaImage,
    before: &VisitedPixels,
    now: &VisitedPixels,
    seg: Rows,
    work: Seq<Pending>,
    sx: int,
    sy: int,
) -> bool {
    &&& grid_of(img, before)
    &&& grid_of(img, now)
    &&& closed_marks(img, before)
    &&& closed_rows(img, now)
    &&& marks_grown(before, now, seg)
    &&& forall|x: int, y: int| #[trigger]
        seg_holds(seg, x, y) ==> !before.marked(x, y) && in_component(img, sx, sy, x, y)
    &&& forall|x: int, y: int| seg_holds(seg, x, y) ==> #[trigger] settled(img, now, work, x, y)
    &&& forall|k: int| 0 <= k < work.len() ==> recorded(seg, #[trigger] work[k])
    &&& forall|y: u16| #[trigger] seg.contains_key(y) ==> tidy_row(seg[y]@)
    &&& whole_runs(img, seg)
}

/// Before the first run is recorded, the fill is under way with nothing claimed.
pub proof fn lemma_growing_start(img: &GrayAlphaImage, before: &VisitedPixels, sx: int, sy: int)
    requires
        grid_of(img, before),
        closed_marks(img, before),
    ensures
        growing(img, before, before, Map::empty(), Seq::empty(), sx, sy),
{
}

/// Recording a freshly marked run of the component keeps the fill under way.
pub proof fn lemma_growing_run(
    img: &GrayAlphaImage,
    before: &VisitedPixels,
    prev: &VisitedPixels,
    now: &VisitedPixels,
    seg0: Rows,
    seg1: Rows,
    work0: Seq<Pending>,
    sx: int,
    sy: int,
    cx: int,
    run: Pending,
)
    requires
        growing(img, before, prev, seg0, work0, sx, sy),
        in_component(img, sx, sy, cx, run.row as int),
        grid_of(img, now),
        closed_rows(img, now),
        run.lower <= cx <= run.upper,
        maximal_run(img, img.tone(sx, sy), run.row as int, run.lower as int, run.upper as int),
        forall|x: int, y: int|
            prev.covers(x, y) ==> (#[trigger] now.marked(x, y) <==> prev.marked(x, y) || (y
                == run.row && run.lower <= x <= run.upper)),
        forall|x: int| run.lower <= x <= run.upper ==> !#[trigger] prev.marked(x, run.row as int),
        seg1.dom() == seg0.dom().insert(run.row),
        forall|k: u16| k != run.row && seg0.contains_key(k) ==> seg1[k] == seg0[k],
        seg1[run.row]@.len() == (if seg0.contains_key(run.row) {
            seg0[run.row]@
        } else {
            Seq::empty()
        }).len() + 1,
        seg1[run.row]@.drop_last() == (if seg0.contains_key(run.row) {
            seg0[run.row]@
        } else {
            Seq::empty()
        }),
        seg1[run.row]@.last()@.start == run.lower,
        seg1[run.row]@.last()@.end == run.upper,
        forall|a: int, b: int| #[trigger]
            seg_holds(seg1, a, b) <==> seg_holds(seg0, a, b) || (b == run.row && run.lower <= a
                <= run.upper),
    ensures
        growing(img, before, now, seg1, work0.push(run), sx, sy),
{
    let tone = img.tone(sx, sy);
    let row = run.row as int;
    let work1 = work0.push(run);
    let n = choose|n: nat| reach(img, sx, sy, n, cx, row);
    assert forall|x: int, y: int| #[trigger] seg_holds(seg1, x, y) implies !before.marked(x, y)
        && in_component(img, sx, sy, x, y) by {
        if !seg_holds(seg0, x, y) {
            assert(alike(img, tone, x, row));
            if x <= cx {
                assert forall|z: int| x <= z <= cx implies #[trigger] alike(img, tone, z, row) by {}
            } else {
                assert forall|z: int| cx <= z <= x implies #[trigger] alike(img, tone, z, row) by {}
            }
            lemma_reach_along(img, sx, sy, n, cx, x, row);
            assert(!prev.marked(x, row));
            assert(prev.marked(x, y) <==> before.marked(x, y) || seg_holds(seg0, x, y));
        }
    }
    assert forall|x: int, y: int| before.covers(x, y) implies (#[trigger] now.marked(x, y)
        <==> before.marked(x, y) || seg_holds(seg1, x, y)) by {
        assert(prev.marked(x, y) <==> before.marked(x, y) || seg_holds(seg0, x, y));
    }
    assert forall|x: int, y: int| seg_holds(seg1, x, y) implies #[trigger] settled(
        img,
        now,
        work1,
        x,
        y,
    ) by {
        if seg_holds(seg0, x, y) {
            assert(settled(img, prev, work0, x, y));
            if pending(work0, x, y) {
                let k = choose|k: int|
                    0 <= k < work0.len() && (#[trigger] work0[k]).row == y && work0[k].lower <= x
                        <= work0[k].upper;
                assert(work1[k] == work0[k]);
            } else {
                assert(in_component(img, sx, sy, x, y));
                assert(alike(img, tone, x, y));
                if alike(img, tone, x, y - 1) {
                    assert(prev.marked(x, y - 1));
                    assert(now.marked(x, y - 1));
                }
                if alike(img, tone, x, y + 1) {
                    assert(prev.marked(x, y + 1));
                    assert(now.marked(x, y + 1));
                }
            }
        } else {
            assert(work1[work0.len() as int] == run);
        }
    }
    assert forall|k: int| 0 <= k < work1.len() implies recorded(seg1, #[trigger] work1[k]) by {
        if k < work0.len() {
            assert(recorded(seg0, work0[k]));
            assert(work1[k] == work0[k]);
            assert forall|x: int| work1[k].lower <= x <= work1[k].upper implies #[trigger] seg_holds(
                seg1,
                x,
                work1[k].row as int,
            ) by {
                assert(seg_holds(seg0, x, work0[k].row as int));
            }
        } else {
            assert forall|x: int| run.lower <= x <= run.upper implies #[trigger] seg_holds(
                seg1,
                x,
                run.row as int,
            ) by {}
        }
    }
    assert forall|y: u16| #[trigger] seg1.contains_key(y) implies tidy_row(seg1[y]@) by {
        if y == run.row {
            let row1 = seg1[y]@;
            let row0 = row1.drop_last();
            let last = row1.len() - 1;
            if seg0.contains_key(y) {
                assert(tidy_row(seg0[y]@));
            }
            assert forall|i: int| 0 <= i < row1.len() implies (#[trigger] row1[i])@.start
                <= row1[i]@.end by {
                if i < last {
                    assert(row1[i] == row0[i]);
                }
            }
            assert forall|i: int, j: int|
                0 <= i < row1.len() && 0 <= j < row1.len() && i != j implies !#[trigger] row1[i].overlapping(
                &row1[j],
            ) by {
                if i < last && j < last {
                    assert(row1[i] == row0[i] && row1[j] == row0[j]);
                } else {
                    let o = if i < last {
                        i
                    } else {
                        j
                    };
                    assert(row1[o] == row0[o]);
                    if row1[i].overlapping(&row1[j]) {
                        let x = if row0[o]@.start >= run.lower {
                            row0[o]@.start as int
                        } else {
                            run.lower as int
                        };
                        assert(run_holds(row0[o], x));
                        assert(seg_holds(seg0, x, row));
                        assert(alike(img, tone, x, row));
                        assert(prev.marked(x, row) <==> before.marked(x, row) || seg_holds(
                            seg0,
                            x,
                            row,
                        ));
                        assert(!prev.marked(x, row));
                    }
                }
            }
        } else {
            assert(seg0.contains_key(y));
        }
    }
    assert forall|y: u16, i: int| seg1.contains_key(y) && 0 <= i < seg1[y]@.len() implies whole_run(
        img,
        y as int,
        #[trigger] seg1[y]@[i],
    ) by {
        if y == run.row {
            let row1 = seg1[y]@;
            if i < row1.len() - 1 {
                assert(row1[i] == row1.drop_last()[i]);
                assert(seg0.contains_key(y));
                assert(whole_run(img, y as int, seg0[y]@[i]));
            } else {
                assert(alike(img, tone, run.lower as int, row));
            }
        } else {
            assert(seg0.contains_key(y));
            assert(whole_run(img, y as int, seg0[y]@[i]));
        }
    }
}

/// Once the rows above and below a waiting run have been looked at, the run can
/// leave the work-list, its place taken by the last entry.
pub proof fn lemma_growing_done(
    img: &GrayAlphaImage,
    before: &VisitedPixels,
    now: &VisitedPixels,
    seg: Rows,
    work0: Seq<Pending>,
    sx: int,
    sy: int,
    at: int,
)
    requires
        growing(img, before, now, seg, work0, sx, sy),
        0 <= at < work0.len(),
        forall|x: int|
            work0[at].lower <= x <= work0[at].upper ==> #[trigger] columns_marked(
                img,
                now,
                x,
                work0[at].row as int,
            ),
    ensures
        growing(img, before, now, seg, work0.update(at, work0.last()).drop_last(), sx, sy),
{
    let work1 = work0.update(at, work0.last()).drop_last();
    let last = work0.len() - 1;
    assert forall|x: int, y: int| seg_holds(seg, x, y) implies #[trigger] settled(
        img,
        now,
        work1,
        x,
        y,
    ) by {
        assert(settled(img, now, work0, x, y));
        if pending(work0, x, y) {
            let k = choose|k: int|
                0 <= k < work0.len() && (#[trigger] work0[k]).row == y && work0[k].lower <= x
                    <= work0[k].upper;
            if k == at {
                assert(columns_marked(img, now, x, work0[at].row as int));
            } else if k == last {
                assert(work1[at] == work0[k]);
            } else {
                assert(work1[k] == work0[k]);
            }
        }
    }
    assert forall|k: int| 0 <= k < work1.len() implies recorded(seg, #[trigger] work1[k]) by {
        if k == at {
            assert(recorded(seg, work0[last]));
        } else {
            assert(recorded(seg, work0[k]));
        }
    }
}

/// With the work-list empty the fill is finished.
pub proof fn lemma_growing_end(
    img: &GrayAlphaImage,
    before: &VisitedPixels,
    now: &VisitedPixels,
    seg: Rows,
    sx: int,
    sy: int,
)
    requires
        growing(img, before, now, seg, Seq::empty(), sx, sy),
        seg_holds(seg, sx, sy),
    ensures
        filled(img, before, now, seg, sx, sy),
        tidy(seg),
{
    let tone = img.tone(sx, sy);
    assert forall|x: int, y: int| img.opaque(x, y) && now.marked(x, y) implies #[trigger] columns_marked(
        img,
        now,
        x,
        y,
    ) by {
        if before.marked(x, y) {
            assert(columns_marked(img, before, x, y));
            if alike(img, img.tone(x, y), x, y - 1) {
                assert(now.marked(x, y - 1));
            }
            if alike(img, img.tone(x, y), x, y + 1) {
                assert(now.marked(x, y + 1));
            }
        } else {
            assert(seg_holds(seg, x, y));
            assert(settled(img, now, Seq::<Pending>::empty(), x, y));
        }
    }
    assert(seg.contains_key(sy as u16));
}

} // verus!
