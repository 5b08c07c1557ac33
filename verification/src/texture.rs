//! Addressing of texels in an image.

use vstd::prelude::*;

verus! {

/// The texel coordinate that a lookup along one axis of an image with
/// `size` texels reads: the requested coordinate clamped into `0..size`.
pub open spec fn spec_texel_coordinate(coordinate: u32, size: u32) -> u32
    recommends
        size > 0,
{
    if coordinate < size {
        coordinate
    } else {
        (size - 1) as u32
    }
}

/// Clamps a texel coordinate to the last texel of an axis with `size` texels.
pub fn texel_coordinate(coordinate: u32, size: u32) -> (clamped: u32)
    requires
        size > 0,
    ensures
        clamped == spec_texel_coordinate(coordinate, size),
        clamped < size,
        coordinate < size ==> clamped == coordinate,
        coordinate >= size ==> clamped == size - 1,
{
    if coordinate < size {
        coordinate
    } else {
        size - 1
    }
}


/// Texel addressing clamps: a coordinate inside the axis reads that texel,
/// any coordinate at or past the end reads the last texel, the texel read is
/// never past the end, and a larger coordinate never reads an earlier texel.
pub proof fn lemma_texel_coordinate_clamps(coordinate: u32, other: u32, size: u32)
    requires
        size > 0,
    ensures
        spec_texel_coordinate(coordinate, size) < size,
        spec_texel_coordinate(coordinate, size) <= coordinate,
        coordinate < size ==> spec_texel_coordinate(coordinate, size) == coordinate,
        coordinate >= size ==> spec_texel_coordinate(coordinate, size) == size - 1,
        coordinate <= other ==> spec_texel_coordinate(coordinate, size) <= spec_texel_coordinate(
            other,
            size,
        ),
{
}

} // verus!
