//! Square coordinates: validity, board indexing, and vector offsets.

use vstd::prelude::*;

use crate::Coord;

verus! {

impl Coord {
    /// The coordinate lies on the 8x8 board.
    pub open spec fn valid(self) -> bool {
        0 <= self.0 < 8 && 0 <= self.1 < 8
    }

    /// Board-array index of a valid coordinate: `file + rank * 8`.
    pub open spec fn idx(self) -> int {
        self.0 + self.1 * 8
    }

    /// Board-array index. Calling this on an off-board coordinate is a
    /// caller bug, so it is excluded by precondition.
    pub fn index(&self) -> (r: usize)
        requires
            self.valid(),
        ensures
            r == self.idx(),
    {
        (self.0 + self.1 * 8) as usize
    }

    /// Componentwise vector addition.
    pub fn offset(&self, off: &Coord) -> (r: Self)
        requires
            i8::MIN <= self.0 + off.0 <= i8::MAX,
            i8::MIN <= self.1 + off.1 <= i8::MAX,
        ensures
            r.0 == self.0 + off.0,
            r.1 == self.1 + off.1,
    {
        Coord(self.0 + off.0, self.1 + off.1)
    }

    /// Componentwise vector addition, in place.
    pub fn offset_in_place(&mut self, off: &Coord)
        requires
            i8::MIN <= old(self).0 + off.0 <= i8::MAX,
            i8::MIN <= old(self).1 + off.1 <= i8::MAX,
        ensures
            final(self).0 == old(self).0 + off.0,
            final(self).1 == old(self).1 + off.1,
    {
        self.0 = self.0 + off.0;
        self.1 = self.1 + off.1;
    }

    /// Runtime check of [`Coord::valid`].
    pub fn is_valid(&self) -> (r: bool)
        ensures
            r == self.valid(),
    {
        self.0 >= 0 && self.0 < 8 && self.1 >= 0 && self.1 < 8
    }

    pub fn rank_index(&self) -> (r: usize)
        requires
            0 <= self.1,
        ensures
            r as int == self.1 as int,
    {
        self.1 as usize
    }

    pub fn file_index(&self) -> (r: usize)
        requires
            0 <= self.0,
        ensures
            r as int == self.0 as int,
    {
        self.0 as usize
    }

    /// Componentwise scaling. Leaves `self` unchanged; returns the scaled
    /// coordinate.
    pub fn mul(&mut self, fac: i8) -> (r: Self)
        requires
            i8::MIN <= old(self).0 * fac <= i8::MAX,
            i8::MIN <= old(self).1 * fac <= i8::MAX,
        ensures
            *final(self) == *old(self),
            r.0 == old(self).0 * fac,
            r.1 == old(self).1 * fac,
    {
        Coord(self.0 * fac, self.1 * fac)
    }
}

} // verus!
