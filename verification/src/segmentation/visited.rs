//! The grid that records which pixels a segmentation pass has already claimed.

use crate::helpers::Coordinates;
use vstd::prelude::*;

verus! {

/// Number of `false` entries of a sequence.
pub open spec fn count_false(s: Seq<bool>) -> nat
    decreases s.len(),
{
    if s.len() == 0 {
        0
    } else {
        count_false(s.drop_last()) + if s.last() {
            0nat
        } else {
            1nat
        }
    }
}

/// Setting one entry to `true` lowers the count by one if the entry was `false`,
/// and leaves it otherwise.
pub proof fn lemma_count_false_set(s: Seq<bool>, i: int)
    requires
        0 <= i < s.len(),
    ensures
        count_false(s.update(i, true)) + (if s[i] {
            0nat
        } else {
            1nat
        }) == count_false(s),
        count_false(s) <= s.len(),
    decreases s.len(),
{
    let t = s.update(i, true);
    if i == s.len() - 1 {
        assert(t.drop_last() =~= s.drop_last());
        lemma_count_false_bound(s.drop_last());
    } else {
        assert(t.drop_last() =~= s.drop_last().update(i, true));
        lemma_count_false_set(s.drop_last(), i);
    }
}

/// No sequence has more `false` entries than entries.
pub proof fn lemma_count_false_bound(s: Seq<bool>)
    ensures
        count_false(s) <= s.len(),
    decreases s.len(),
{
    if s.len() > 0 {
        lemma_count_false_bound(s.drop_last());
    }
}

/// A sequence of `false` alone has as many `false` entries as entries.
pub proof fn lemma_count_false_clear(s: Seq<bool>)
    requires
        forall|i: int| 0 <= i < s.len() ==> !s[i],
    ensures
        count_false(s) == s.len(),
    decreases s.len(),
{
    if s.len() > 0 {
        lemma_count_false_clear(s.drop_last());
    }
}

/// Row-major position of `(x, y)` in a grid `width` columns wide.
pub open spec fn cell(width: int, x: int, y: int) -> int {
    x + y * width
}

/// Inside the grid, the position is inside the array, and two pixels share a
/// position only if they are the same pixel.
pub proof fn lemma_cell(width: int, height: int, x: int, y: int)
    requires
        0 <= x < width,
        0 <= y < height,
    ensures
        0 <= cell(width, x, y) < width * height,
        cell(width, x, y) / width == y,
        cell(width, x, y) % width == x,
{
    assert(0 <= y * width && y * width + width <= height * width) by (nonlinear_arith)
        requires
            0 <= y < height,
            0 < width,
    ;
    assert(width * height == height * width) by (nonlinear_arith);
    vstd::arithmetic::div_mod::lemma_fundamental_div_mod_converse(cell(width, x, y), width, y, x);
}

/// A dense grid of flags, one per pixel, all clear at the start of a pass.
pub struct VisitedPixels {
    visited: Vec<bool>,
    dimensions: (usize, usize),
}

impl VisitedPixels {
    /// The grid has one flag per pixel and fits 16-bit coordinates.
    pub closed spec fn wf(&self) -> bool {
        &&& self.dimensions.0 <= u16::MAX
        &&& self.dimensions.1 <= u16::MAX
        &&& self.visited@.len() == self.dimensions.0 * self.dimensions.1
    }

    /// Number of columns of the grid.
    pub closed spec fn width(&self) -> nat {
        self.dimensions.0 as nat
    }

    /// Number of rows of the grid.
    pub closed spec fn height(&self) -> nat {
        self.dimensions.1 as nat
    }

    /// Whether `(x, y)` addresses a flag of the grid.
    pub open spec fn covers(&self, x: int, y: int) -> bool {
        0 <= x < self.width() && 0 <= y < self.height()
    }

    /// The flag of pixel `(x, y)`.
    pub closed spec fn marked(&self, x: int, y: int) -> bool {
        self.visited@[cell(self.dimensions.0 as int, x, y)]
    }

    /// Number of pixels whose flag is still clear.
    pub closed spec fn unmarked(&self) -> nat {
        count_false(self.visited@)
    }

    /// A grid of `dimensions.0` columns and `dimensions.1` rows with every flag clear.
    pub fn new(dimensions: Coordinates) -> (r: Self)
        ensures
            r.wf(),
            r.width() == dimensions.0,
            r.height() == dimensions.1,
            forall|x: int, y: int| r.covers(x, y) ==> !#[trigger] r.marked(x, y),
            r.unmarked() == dimensions.0 * dimensions.1,
    {
        let width: usize = dimensions.0 as usize;
        let height: usize = dimensions.1 as usize;
        assert(width * height <= 0xFFFF * 0xFFFF) by (nonlinear_arith)
            requires
                width <= 0xFFFF,
                height <= 0xFFFF,
        ;
        let r = Self { visited: vec![false; width * height], dimensions: (width, height) };
        proof {
            assert forall|x: int, y: int| r.covers(x, y) implies !#[trigger] r.marked(x, y) by {
                lemma_cell(width as int, height as int, x, y);
            }
            lemma_count_false_clear(r.visited@);
        }
        r
    }

    /// Sets the flag of pixel `coords`; every other flag stays.
    pub fn visit_tone(&mut self, coords: Coordinates)
        requires
            old(self).wf(),
            old(self).covers(coords.0 as int, coords.1 as int),
        ensures
            final(self).wf(),
            final(self).width() == old(self).width(),
            final(self).height() == old(self).height(),
            forall|x: int, y: int|
                old(self).covers(x, y) ==> (#[trigger] final(self).marked(x, y) <==> old(self).marked(
                    x,
                    y,
                ) || (x == coords.0 && y == coords.1)),
            final(self).unmarked() + (if old(self).marked(coords.0 as int, coords.1 as int) {
                0nat
            } else {
                1nat
            }) == old(self).unmarked(),
    {
        proof {
            lemma_cell(
                self.dimensions.0 as int,
                self.dimensions.1 as int,
                coords.0 as int,
                coords.1 as int,
            );
            lemma_count_false_set(
                self.visited@,
                cell(self.dimensions.0 as int, coords.0 as int, coords.1 as int),
            );
            assert((coords.1 as int) * (self.dimensions.0 as int) <= 0xFFFF * 0xFFFF)
                by (nonlinear_arith)
                requires
                    0 <= coords.1 <= 0xFFFF,
                    0 <= self.dimensions.0 <= 0xFFFF,
            ;
        }
        let ghost before = *self;
        let index: usize = coords.0 as usize + (coords.1 as usize) * self.dimensions.0;
        self.visited.set(index, true);
        proof {
            assert forall|x: int, y: int| before.covers(x, y) implies (#[trigger] self.marked(x, y)
                <==> before.marked(x, y) || (x == coords.0 && y == coords.1)) by {
                lemma_cell(self.dimensions.0 as int, self.dimensions.1 as int, x, y);
            }
        }
    }

    /// Reads the flag of pixel `coords`.
    #[inline]
    pub fn is_visited(&self, coords: Coordinates) -> (r: bool)
        requires
            self.wf(),
            self.covers(coords.0 as int, coords.1 as int),
        ensures
            r == self.marked(coords.0 as int, coords.1 as int),
    {
        proof {
            lemma_cell(
                self.dimensions.0 as int,
                self.dimensions.1 as int,
                coords.0 as int,
                coords.1 as int,
            );
            assert((coords.1 as int) * (self.dimensions.0 as int) <= 0xFFFF * 0xFFFF)
                by (nonlinear_arith)
                requires
                    0 <= coords.1 <= 0xFFFF,
                    0 <= self.dimensions.0 <= 0xFFFF,
            ;
        }
        self.visited[coords.0 as usize + (coords.1 as usize) * self.dimensions.0]
    }
}

} // verus!
