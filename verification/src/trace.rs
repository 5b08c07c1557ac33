//! The recursion limit of ray tracing.

use vstd::prelude::*;

verus! {

/// The deepest recursion level at which a ray is still traced; reflected and
/// refracted rays are traced one level deeper than the ray that spawned them.
pub const MAX_RAY_DEPTH: u32 = 3;

/// Whether a ray at recursion level `depth` is traced; beyond
/// `MAX_RAY_DEPTH` the background color is used instead, so no ray is traced
/// more than `MAX_RAY_DEPTH + 1` levels deep.
pub fn continues_tracing(depth: u32) -> (traced: bool)
    ensures
        traced == (depth <= MAX_RAY_DEPTH),
{
    depth <= MAX_RAY_DEPTH
}

} // verus!
