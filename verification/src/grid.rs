//! The fixed grid hierarchy: five partition levels, each with a tile angular
//! size and a raster shape (rows x columns of sub-cells within a parent tile).
//!
//! All angles in this crate are fixed-point integers in units of 10^-11
//! degree.  At that scale every tile size of the hierarchy is exact:
//! 5.625 degrees is 562_500_000_000 units, and the finest tile,
//! 0.00000308642 degrees, is 308_642 units.

use vstd::prelude::*;

verus! {

/// Number of levels in the grid hierarchy.
pub const LEVEL_COUNT: usize = 5;

/// 90 degrees in angle units: the magnitude of the latitude range.
pub const LAT_RANGE_UNITS: i64 = 9_000_000_000_000;

/// 180 degrees in angle units: the magnitude of the longitude range.
pub const LNG_RANGE_UNITS: i64 = 18_000_000_000_000;

/// 360 degrees in angle units: one full turn of longitude.
pub const FULL_TURN_UNITS: u64 = 36_000_000_000_000;

/// The least vocabulary size every encoder call can index into.
///
/// The largest word index the encoder can ever produce is 2112, reached only
/// at the extreme north-east corner of level 0: row 32 of 32 and column 64 of
/// 64 give 32 * 64 + 64.  Inner levels stay below 45 * 45 + 45.
pub const MIN_WORDLIST_LEN: usize = 2113;

/// Tile angular size of level `i`, in angle units.
pub open spec fn tile_size(i: int) -> int {
    if i == 0 {
        562_500_000_000
    } else if i == 1 {
        12_500_000_000
    } else if i == 2 {
        277_777_777
    } else if i == 3 {
        6_172_839
    } else {
        308_642
    }
}

/// Number of raster rows (latitude subdivisions) of level `i`.
pub open spec fn raster_rows(i: int) -> int {
    if i == 0 {
        32
    } else if i <= 3 {
        45
    } else {
        20
    }
}

/// Number of raster columns (longitude subdivisions) of level `i`.
pub open spec fn raster_cols(i: int) -> int {
    if i == 0 {
        64
    } else if i <= 3 {
        45
    } else {
        20
    }
}

/// Number of cells of level `i`'s raster: the exclusive upper bound on the
/// word indices that are legal at position `i` of a word sequence.
pub open spec fn level_limit(i: int) -> int {
    raster_rows(i) * raster_cols(i)
}

/// Tile angular size of level `i`, in angle units.
pub fn tile_size_at(i: usize) -> (t: u64)
    requires
        i < LEVEL_COUNT,
    ensures
        t == tile_size(i as int),
        t > 0,
{
    if i == 0 {
        562_500_000_000
    } else if i == 1 {
        12_500_000_000
    } else if i == 2 {
        277_777_777
    } else if i == 3 {
        6_172_839
    } else {
        308_642
    }
}

/// Number of raster rows of level `i`.
pub fn raster_rows_at(i: usize) -> (n: u64)
    requires
        i < LEVEL_COUNT,
    ensures
        n == raster_rows(i as int),
{
    if i == 0 {
        32
    } else if i <= 3 {
        45
    } else {
        20
    }
}

/// Number of raster columns of level `i`.
pub fn raster_cols_at(i: usize) -> (n: u64)
    requires
        i < LEVEL_COUNT,
    ensures
        n == raster_cols(i as int),
{
    if i == 0 {
        64
    } else if i <= 3 {
        45
    } else {
        20
    }
}

} // verus!
