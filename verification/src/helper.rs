//! Flat-index square helpers: a square as a single `u8` in `0..64`.
//!
//! An alternative addressing scheme kept alongside [`crate::Coord`]:
//! index `rank * 8 + file`, with signed offsets for stepping.

use vstd::prelude::*;

verus! {

/// The flat index addresses one of the 64 board squares.
pub fn is_valid_coord(c: u8) -> (r: bool)
    ensures
        r == (c < 64),
{
    c < 64
}

/// Steps a flat index by a signed offset.
pub fn coord_offset(c: u8, o: i16) -> (r: u8)
    requires
        0 <= c + o <= u8::MAX,
    ensures
        r as int == c + o,
{
    (c as i16 + o) as u8
}

pub fn get_file(c: u8) -> (r: usize)
    ensures
        r as int == c as int % 8,
{
    (c % 8) as usize
}

pub fn get_rank(c: u8) -> (r: usize)
    ensures
        r as int == c as int / 8,
{
    (c / 8) as usize
}

pub fn from_file_rank(file: usize, rank: usize) -> (r: u8)
    requires
        rank * 8 + file <= u8::MAX,
    ensures
        r as int == rank * 8 + file,
{
    (rank * 8 + file) as u8
}

} // verus!
