//! Adjacency of runs, of rows of runs, and of regions.

use crate::helpers::{Connected, Overlaps};
use crate::segmentation::Segment;
use std::ops::RangeInclusive;
use vstd::prelude::*;
use vstd::std_specs::iter::IteratorSpec;

verus! {

broadcast use vstd::std_specs::hash::group_hash_axioms;

impl Connected for RangeInclusive<u16> {
    /// One run ends in the column just before the other starts.
    open spec fn connected(&self, other: &Self) -> bool {
        self@.end + 1 == other@.start || other@.end + 1 == self@.start
    }

    #[inline]
    fn is_connected(&self, other: &Self) -> (r: bool) {
        let self_end: u16 = *self.end();
        let other_end: u16 = *other.end();
        if self_end < u16::MAX && self_end + 1 == *other.start() {
            true
        } else {
            other_end < u16::MAX && other_end + 1 == *self.start()
        }
    }
}

impl Connected for Vec<RangeInclusive<u16>> {
    /// Some run of one row is connected to some run of the other.
    open spec fn connected(&self, other: &Self) -> bool {
        exists|i: int, j: int|
            0 <= i < self@.len() && 0 <= j < other@.len() && #[trigger] self@[i].connected(
                &other@[j],
            )
    }

    #[inline]
    fn is_connected(&self, other: &Self) -> (r: bool) {
        let mut i: usize = 0;
        while i < self.len()
            invariant
                i <= self@.len(),
                forall|a: int, b: int|
                    0 <= a < i && 0 <= b < other@.len() ==> !#[trigger] self@[a].connected(
                        &other@[b],
                    ),
            decreases self@.len() - i,
        {
            let mut j: usize = 0;
            while j < other.len()
                invariant
                    i < self@.len(),
                    j <= other@.len(),
                    forall|b: int|
                        0 <= b < j ==> !#[trigger] self@[i as int].connected(&other@[b]),
                decreases other@.len() - j,
            {
                if self[i].is_connected(&other[j]) {
                    return true;
                }
                j = j + 1;
            }
            i = i + 1;
        }
        false
    }
}

/// `y` is the topmost row of the region.
pub open spec fn least_row(seg: Map<u16, Vec<RangeInclusive<u16>>>, y: u16) -> bool {
    seg.contains_key(y) && forall|k: u16| #[trigger] seg.contains_key(k) ==> y <= k
}

/// `y` is the bottommost row of the region.
pub open spec fn greatest_row(seg: Map<u16, Vec<RangeInclusive<u16>>>, y: u16) -> bool {
    seg.contains_key(y) && forall|k: u16| #[trigger] seg.contains_key(k) ==> k <= y
}

/// Some row of both regions holds connected runs.
pub open spec fn rows_touch(
    a: Map<u16, Vec<RangeInclusive<u16>>>,
    b: Map<u16, Vec<RangeInclusive<u16>>>,
) -> bool {
    exists|y: u16| #[trigger] a.contains_key(y) && b.contains_key(y) && a[y].connected(&b[y])
}

/// The topmost row of `a` lies right under a row of `b`, and their runs overlap.
pub open spec fn meets_above(
    a: Map<u16, Vec<RangeInclusive<u16>>>,
    b: Map<u16, Vec<RangeInclusive<u16>>>,
) -> bool {
    exists|y: u16| #[trigger]
        least_row(a, y) && y > 0 && b.contains_key((y - 1) as u16) && a[y].overlapping(
            &b[(y - 1) as u16],
        )
}

/// The bottommost row of `a` lies right over a row of `b`, and their runs overlap.
pub open spec fn meets_below(
    a: Map<u16, Vec<RangeInclusive<u16>>>,
    b: Map<u16, Vec<RangeInclusive<u16>>>,
) -> bool {
    exists|y: u16| #[trigger]
        greatest_row(a, y) && y < u16::MAX && b.contains_key((y + 1) as u16) && a[y].overlapping(
            &b[(y + 1) as u16],
        )
}

/// The rows of `a` above or below which `b` is looked for: its first and last.
pub open spec fn edge_contact(
    a: Map<u16, Vec<RangeInclusive<u16>>>,
    b: Map<u16, Vec<RangeInclusive<u16>>>,
) -> bool {
    meets_above(a, b) || meets_below(a, b)
}

/// The regions touch side by side in a shared row, or `b` lies against the first
/// or the last row of `a`.
pub open spec fn segments_connected(
    a: Map<u16, Vec<RangeInclusive<u16>>>,
    b: Map<u16, Vec<RangeInclusive<u16>>>,
) -> bool {
    rows_touch(a, b) || edge_contact(a, b)
}

impl Connected for Segment {
    open spec fn connected(&self, other: &Self) -> bool {
        segments_connected(self@, other@)
    }

    fn is_connected(&self, other: &Self) -> (r: bool) {
        let mut seen = false;
        let mut low: u16 = 0;
        let mut high: u16 = 0;
        for (y, ranges) in it: self.iter()
            invariant
                it.seq() == self.iter().remaining(),
                forall|i: int|
                    0 <= i < it.index() ==> {
                        let row = #[trigger] it.seq()[i];
                        !(other@.contains_key(*row.0) && row.1.connected(&other@[*row.0]))
                    },
                seen <==> it.index() > 0,
                seen ==> self@.contains_key(low) && self@.contains_key(high),
                forall|i: int| 0 <= i < it.index() ==> low <= *(#[trigger] it.seq()[i]).0 <= high,
        {
            match other.get(y) {
                Some(other_ranges) => {
                    if ranges.is_connected(other_ranges) {
                        assert(self@.contains_key(*y));
                        return true;
                    }
                },
                None => {},
            }
            if !seen || *y < low {
                low = *y;
            }
            if !seen || *y > high {
                high = *y;
            }
            seen = true;
        }
        proof {
            let rows = self.iter().remaining();
            assert forall|y: u16| #[trigger] self@.contains_key(y) implies !(other@.contains_key(y)
                && self@[y].connected(&other@[y])) && seen && low <= y <= high by {
                assert(rows.contains((&y, &self@[y])));
                let i = choose|i: int| 0 <= i < rows.len() && rows[i] == (&y, &self@[y]);
                assert(rows[i].0 == &y);
            }
            assert(!rows_touch(self@, other@));
        }
        if !seen {
            return false;
        }
        assert(least_row(self@, low));
        assert(greatest_row(self@, high));
        let mut res = false;
        if low > 0 {
            match (self.get(&low), other.get(&(low - 1))) {
                (Some(ranges), Some(other_ranges)) => {
                    res = ranges.overlaps(other_ranges);
                },
                _ => {},
            }
        }
        assert(res == meets_above(self@, other@));
        if !res && high < u16::MAX {
            match (self.get(&high), other.get(&(high + 1))) {
                (Some(ranges), Some(other_ranges)) => {
                    res = ranges.overlaps(other_ranges);
                },
                _ => {},
            }
        }
        assert(res == edge_contact(self@, other@));
        res
    }
}

/// Adjacency of runs does not depend on which run is asked.
pub proof fn lemma_run_connected_symmetric(a: RangeInclusive<u16>, b: RangeInclusive<u16>)
    ensures
        a.connected(&b) == b.connected(&a),
{
}

/// Adjacency of rows of runs does not depend on which row is asked.
pub proof fn lemma_row_connected_symmetric(a: Vec<RangeInclusive<u16>>, b: Vec<RangeInclusive<u16>>)
    ensures
        a.connected(&b) == b.connected(&a),
{
    if a.connected(&b) {
        let (i, j) = choose|i: int, j: int|
            0 <= i < a@.len() && 0 <= j < b@.len() && #[trigger] a@[i].connected(&b@[j]);
        assert(b@[j].connected(&a@[i]));
    }
    if b.connected(&a) {
        let (j, i) = choose|j: int, i: int|
            0 <= j < b@.len() && 0 <= i < a@.len() && #[trigger] b@[j].connected(&a@[i]);
        assert(a@[i].connected(&b@[j]));
    }
}

/// Touching in a shared row does not depend on which region is asked.
pub proof fn lemma_rows_touch_symmetric(
    a: Map<u16, Vec<RangeInclusive<u16>>>,
    b: Map<u16, Vec<RangeInclusive<u16>>>,
)
    ensures
        rows_touch(a, b) == rows_touch(b, a),
{
    if rows_touch(a, b) {
        let y = choose|y: u16| #[trigger]
            a.contains_key(y) && b.contains_key(y) && a[y].connected(&b[y]);
        lemma_row_connected_symmetric(a[y], b[y]);
        assert(b.contains_key(y) && a.contains_key(y) && b[y].connected(&a[y]));
    }
    if rows_touch(b, a) {
        let y = choose|y: u16| #[trigger]
            b.contains_key(y) && a.contains_key(y) && b[y].connected(&a[y]);
        lemma_row_connected_symmetric(b[y], a[y]);
        assert(a.contains_key(y) && b.contains_key(y) && a[y].connected(&b[y]));
    }
}

/// Two regions that touch side by side in a shared row are connected,
/// whichever of them is asked.
pub proof fn lemma_connected_touching(
    a: Map<u16, Vec<RangeInclusive<u16>>>,
    b: Map<u16, Vec<RangeInclusive<u16>>>,
)
    requires
        rows_touch(a, b),
    ensures
        segments_connected(a, b),
        segments_connected(b, a),
{
    lemma_rows_touch_symmetric(a, b);
}

/// Every row of `a` lies above every row of `b`.
pub open spec fn wholly_above(
    a: Map<u16, Vec<RangeInclusive<u16>>>,
    b: Map<u16, Vec<RangeInclusive<u16>>>,
) -> bool {
    forall|ya: u16, yb: u16| #[trigger] a.contains_key(ya) && #[trigger] b.contains_key(yb) ==> ya < yb
}

/// Where every row of `a` lies above every row of `b`, `b` has `a` against its
/// first row exactly where `a` has `b` against its last.
proof fn lemma_stacked(
    a: Map<u16, Vec<RangeInclusive<u16>>>,
    b: Map<u16, Vec<RangeInclusive<u16>>>,
)
    requires
        wholly_above(a, b),
    ensures
        !rows_touch(a, b),
        !meets_above(a, b),
        !meets_below(b, a),
        meets_below(a, b) == meets_above(b, a),
{
    if rows_touch(a, b) {
        let y = choose|y: u16| #[trigger]
            a.contains_key(y) && b.contains_key(y) && a[y].connected(&b[y]);
        assert(a.contains_key(y) && b.contains_key(y));
    }
    if meets_above(a, b) {
        let y = choose|y: u16| #[trigger]
            least_row(a, y) && y > 0 && b.contains_key((y - 1) as u16) && a[y].overlapping(
                &b[(y - 1) as u16],
            );
        assert(a.contains_key(y) && b.contains_key((y - 1) as u16));
    }
    if meets_below(b, a) {
        let y = choose|y: u16| #[trigger]
            greatest_row(b, y) && y < u16::MAX && a.contains_key((y + 1) as u16) && b[y].overlapping(
                &a[(y + 1) as u16],
            );
        assert(b.contains_key(y) && a.contains_key((y + 1) as u16));
    }
    if meets_below(a, b) {
        let y = choose|y: u16| #[trigger]
            greatest_row(a, y) && y < u16::MAX && b.contains_key((y + 1) as u16) && a[y].overlapping(
                &b[(y + 1) as u16],
            );
        let down = (y + 1) as u16;
        assert forall|k: u16| #[trigger] b.contains_key(k) implies down <= k by {
            assert(a.contains_key(y) && b.contains_key(k));
        }
        crate::segmentation::overlapping::lemma_row_overlap_symmetric(a[y], b[down]);
        assert(least_row(b, down) && down > 0 && a.contains_key((down - 1) as u16)
            && b[down].overlapping(&a[(down - 1) as u16]));
    }
    if meets_above(b, a) {
        let y = choose|y: u16| #[trigger]
            least_row(b, y) && y > 0 && a.contains_key((y - 1) as u16) && b[y].overlapping(
                &a[(y - 1) as u16],
            );
        let up = (y - 1) as u16;
        assert forall|k: u16| #[trigger] a.contains_key(k) implies k <= up by {
            assert(a.contains_key(k) && b.contains_key(y));
        }
        crate::segmentation::overlapping::lemma_row_overlap_symmetric(b[y], a[up]);
        assert(greatest_row(a, up) && up < u16::MAX && b.contains_key((up + 1) as u16)
            && a[up].overlapping(&b[(up + 1) as u16]));
    }
}

/// Adjacency of two regions of which one lies wholly above the other does not
/// depend on which region is asked.
pub proof fn lemma_connected_symmetric_stacked(
    a: Map<u16, Vec<RangeInclusive<u16>>>,
    b: Map<u16, Vec<RangeInclusive<u16>>>,
)
    requires
        wholly_above(a, b) || wholly_above(b, a),
    ensures
        segments_connected(a, b) == segments_connected(b, a),
{
    if wholly_above(a, b) {
        lemma_stacked(a, b);
    } else {
        lemma_stacked(b, a);
    }
    lemma_rows_touch_symmetric(a, b);
}

} // verus!
