//! Shared vocabulary: coordinates, the predicates that regions answer, and the
//! pixel queries that segmentation asks of an image.

use crate::raster::GrayAlphaImage;
use std::ops::RangeInclusive;
use vstd::prelude::*;

verus! {

/// Address of a pixel: column, then row.
pub type Coordinates = (u16, u16);

/// A position between pixels, in 16.16 fixed point: the value `65536 * c + f`
/// stands for `c + f / 65536`.
pub type FixedCoordinates = (u32, u32);

/// Alpha of a pixel that belongs to no region.
pub const MINIMUM_TRANSPARENCY: u8 = 0;

/// `RangeInclusive::start`: the lower bound of the range, which is the `start`
/// of its view and the first argument of `RangeInclusive::new`.
pub assume_specification<Idx>[ RangeInclusive::<Idx>::start ](r: &RangeInclusive<Idx>) -> (s: &Idx)
    ensures
        *s == r@.start,
;

/// `RangeInclusive::end`: the upper bound of the range, which is the `end` of
/// its view and the second argument of `RangeInclusive::new`.
pub assume_specification<Idx>[ RangeInclusive::<Idx>::end ](r: &RangeInclusive<Idx>) -> (e: &Idx)
    ensures
        *e == r@.end,
;

/// Adjacency: two shapes touch without sharing a pixel.
pub trait Connected {
    /// What `is_connected` decides.
    spec fn connected(&self, other: &Self) -> bool;

    /// Whether `self` is connected to `other`.
    fn is_connected(&self, other: &Self) -> (r: bool)
        ensures
            r == self.connected(other),
    ;
}

/// Overlap: two shapes share at least one column of one row.
pub trait Overlaps {
    /// What `overlaps` decides.
    spec fn overlapping(&self, other: &Self) -> bool;

    /// Whether `self` overlaps `other`.
    fn overlaps(&self, other: &Self) -> (r: bool)
        ensures
            r == self.overlapping(other),
    ;
}

/// Restriction of one set of regions to those that meet another set.
pub trait Crop: Sized {
    /// Whether `result` is what `crop` returns for `other`.
    spec fn cropped(&self, other: Self, result: Self) -> bool;

    /// The regions of `other` that meet a region of `self`, in their order.
    fn crop(&self, other: Self) -> (r: Self)
        ensures
            self.cropped(other, r),
    ;
}

/// The alpha-weighted centroid of a shape drawn on an image.
pub trait Centroid {
    /// Whether the shape lies inside the image and has some weight.
    spec fn centroid_defined(&self, img: &GrayAlphaImage) -> bool;

    /// What `calc_centroid` returns.
    spec fn centroid(&self, img: &GrayAlphaImage) -> FixedCoordinates;

    /// The centroid of the shape, its pixels weighted by their alpha in `img`.
    fn calc_centroid(&self, img: &GrayAlphaImage) -> (c: FixedCoordinates)
        requires
            self.centroid_defined(img),
        ensures
            c == self.centroid(img),
    ;
}

/// Whether a pixel is fully transparent.
pub trait Transparent {
    /// Whether `coords` addresses a pixel.
    spec fn addressable(&self, coords: Coordinates) -> bool;

    /// What `is_transparent` decides.
    spec fn transparent(&self, coords: Coordinates) -> bool;

    /// Whether the pixel at `coords` has the alpha of no region.
    fn is_transparent(&self, coords: Coordinates) -> (r: bool)
        requires
            self.addressable(coords),
        ensures
            r == self.transparent(coords),
    ;
}

/// Whether a pixel has a given intensity.
pub trait SameTone {
    /// Whether `coords` addresses a pixel.
    spec fn tone_addressable(&self, coords: Coordinates) -> bool;

    /// What `same_tone` decides.
    spec fn tone_is(&self, coords: Coordinates, tone: u8) -> bool;

    /// Whether the pixel at `coords` has intensity `tone`.
    fn same_tone(&self, coords: Coordinates, tone: u8) -> (r: bool)
        requires
            self.tone_addressable(coords),
        ensures
            r == self.tone_is(coords, tone),
    ;
}

/// Pixel access by 16-bit coordinates.
pub trait SmallCoord {
    /// Whether `coords` addresses a pixel.
    spec fn holds(&self, coords: Coordinates) -> bool;

    /// Intensity and alpha of the pixel at `coords`.
    spec fn pixel_at(&self, coords: Coordinates) -> (u8, u8);

    /// Intensity and alpha of the pixel at `coords`, in that order.
    fn get_pixel_s(&self, coords: Coordinates) -> (p: [u8; 2])
        requires
            self.holds(coords),
        ensures
            (p@[0], p@[1]) == self.pixel_at(coords),
    ;
}

impl SmallCoord for GrayAlphaImage {
    open spec fn holds(&self, coords: Coordinates) -> bool {
        self.in_bounds(coords.0 as int, coords.1 as int)
    }

    open spec fn pixel_at(&self, coords: Coordinates) -> (u8, u8) {
        (self.tone(coords.0 as int, coords.1 as int), self.alpha(coords.0 as int, coords.1 as int))
    }

    #[inline]
    fn get_pixel_s(&self, coords: Coordinates) -> (p: [u8; 2]) {
        self.get_pixel(coords.0 as u32, coords.1 as u32)
    }
}

impl Transparent for GrayAlphaImage {
    open spec fn addressable(&self, coords: Coordinates) -> bool {
        self.in_bounds(coords.0 as int, coords.1 as int)
    }

    open spec fn transparent(&self, coords: Coordinates) -> bool {
        self.alpha(coords.0 as int, coords.1 as int) == MINIMUM_TRANSPARENCY
    }

    #[inline]
    fn is_transparent(&self, coords: Coordinates) -> (r: bool) {
        self.get_pixel_s(coords)[1] == MINIMUM_TRANSPARENCY
    }
}

impl SameTone for GrayAlphaImage {
    open spec fn tone_addressable(&self, coords: Coordinates) -> bool {
        self.in_bounds(coords.0 as int, coords.1 as int)
    }

    open spec fn tone_is(&self, coords: Coordinates, tone: u8) -> bool {
        self.tone(coords.0 as int, coords.1 as int) == tone
    }

    #[inline]
    fn same_tone(&self, coords: Coordinates, tone: u8) -> (r: bool) {
        self.get_pixel_s(coords)[0] == tone
    }
}

} // verus!
