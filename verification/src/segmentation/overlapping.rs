//! Interval overlap of runs, of rows of runs, and of regions.

use crate::helpers::Overlaps;
use crate::segmentation::Segment;
use std::ops::RangeInclusive;
use vstd::prelude::*;
use vstd::std_specs::iter::IteratorSpec;

verus! {

broadcast use vstd::std_specs::hash::group_hash_axioms;

impl Overlaps for RangeInclusive<u16> {
    /// Each run ends at or after the start of the other.
    open spec fn overlapping(&self, other: &Self) -> bool {
        self@.end >= other@.start && other@.end >= self@.start
    }

    #[inline]
    fn overlaps(&self, other: &Self) -> (r: bool) {
        *self.end() >= *other.start() && *other.end() >= *self.start()
    }
}

impl Overlaps for Vec<RangeInclusive<u16>> {
    /// Some run of one row overlaps some run of the other.
    open spec fn overlapping(&self, other: &Self) -> bool {
        exists|i: int, j: int|
            0 <= i < self@.len() && 0 <= j < other@.len() && #[trigger] self@[i].overlapping(
                &other@[j],
            )
    }

    fn overlaps(&self, other: &Self) -> (r: bool) {
        let mut i: usize = 0;
        while i < self.len()
            invariant
                i <= self@.len(),
                forall|a: int, b: int|
                    0 <= a < i && 0 <= b < other@.len() ==> !#[trigger] self@[a].overlapping(
                        &other@[b],
                    ),
            decreases self@.len() - i,
        {
            let mut j: usize = 0;
            while j < other.len()
                invariant
                    i < self@.len(),
                    j <= other@.len(),
                    forall|b: int|
                        0 <= b < j ==> !#[trigger] self@[i as int].overlapping(&other@[b]),
                decreases other@.len() - j,
            {
                if self[i].overlaps(&other[j]) {
                    return true;
                }
                j = j + 1;
            }
            i = i + 1;
        }
        false
    }
}

/// Some row of both regions holds overlapping runs.
pub open spec fn rows_overlap(
    a: Map<u16, Vec<RangeInclusive<u16>>>,
    b: Map<u16, Vec<RangeInclusive<u16>>>,
) -> bool {
    exists|y: u16| #[trigger] a.contains_key(y) && b.contains_key(y) && a[y].overlapping(&b[y])
}

impl Overlaps for Segment {
    open spec fn overlapping(&self, other: &Self) -> bool {
        rows_overlap(self@, other@)
    }

    fn overlaps(&self, other: &Self) -> (r: bool) {
        for (y, ranges) in it: self.iter()
            invariant
                it.seq() == self.iter().remaining(),
                forall|i: int|
                    0 <= i < it.index() ==> {
                        let row = #[trigger] it.seq()[i];
                        !(other@.contains_key(*row.0) && row.1.overlapping(&other@[*row.0]))
                    },
        {
            match other.get(y) {
                Some(other_ranges) => {
                    if ranges.overlaps(other_ranges) {
                        assert(self@.contains_key(*y));
                        return true;
                    }
                },
                None => {},
            }
        }
        proof {
            let rows = self.iter().remaining();
            assert forall|y: u16| #[trigger]
                self@.contains_key(y) && other@.contains_key(y) implies !self@[y].overlapping(
                &other@[y],
            ) by {
                assert(rows.contains((&y, &self@[y])));
                let i = choose|i: int| 0 <= i < rows.len() && rows[i] == (&y, &self@[y]);
                assert(rows[i].0 == &y);
            }
        }
        false
    }
}

/// Overlap of rows of runs does not depend on which row is asked.
pub proof fn lemma_row_overlap_symmetric(a: Vec<RangeInclusive<u16>>, b: Vec<RangeInclusive<u16>>)
    ensures
        a.overlapping(&b) == b.overlapping(&a),
{
    if a.overlapping(&b) {
        let (i, j) = choose|i: int, j: int|
            0 <= i < a@.len() && 0 <= j < b@.len() && #[trigger] a@[i].overlapping(&b@[j]);
        assert(b@[j].overlapping(&a@[i]));
    }
    if b.overlapping(&a) {
        let (j, i) = choose|j: int, i: int|
            0 <= j < b@.len() && 0 <= i < a@.len() && #[trigger] b@[j].overlapping(&a@[i]);
        assert(a@[i].overlapping(&b@[j]));
    }
}

/// Overlap of regions does not depend on which region is asked.
pub proof fn lemma_overlap_symmetric(
    a: Map<u16, Vec<RangeInclusive<u16>>>,
    b: Map<u16, Vec<RangeInclusive<u16>>>,
)
    ensures
        rows_overlap(a, b) == rows_overlap(b, a),
{
    if rows_overlap(a, b) {
        let y = choose|y: u16| #[trigger]
            a.contains_key(y) && b.contains_key(y) && a[y].overlapping(&b[y]);
        lemma_row_overlap_symmetric(a[y], b[y]);
        assert(b.contains_key(y) && a.contains_key(y) && b[y].overlapping(&a[y]));
    }
    if rows_overlap(b, a) {
        let y = choose|y: u16| #[trigger]
            b.contains_key(y) && a.contains_key(y) && b[y].overlapping(&a[y]);
        lemma_row_overlap_symmetric(b[y], a[y]);
        assert(a.contains_key(y) && b.contains_key(y) && a[y].overlapping(&b[y]));
    }
}

} // verus!
