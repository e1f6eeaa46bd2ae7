//! How a vectorized distance kernel walks a sample: in groups of
//! [`LANE_WIDTH`] values as far as whole groups go, then value by value.

use vstd::prelude::*;

verus! {

/// The number of values that the vectorized kernel handles in one step.
pub const LANE_WIDTH: usize = 4;

/// A sample of some length, cut for the vectorized kernel.
#[derive(Debug, Clone, Copy, PartialEq, Eq, Structural)]
pub struct LaneSplit {
    /// The number of whole groups; group `g` covers the positions
    /// `g * LANE_WIDTH .. (g + 1) * LANE_WIDTH`.
    pub groups: usize,
    /// The first position after the last whole group; the positions from
    /// here to the end are handled one by one.
    pub tail_start: usize,
}

/// Cuts a sample of `len` values into whole groups and a tail shorter than
/// a group. Every position falls either into exactly one group or into the
/// tail.
pub fn lane_split(len: usize) -> (split: LaneSplit)
    ensures
        split.tail_start == split.groups * LANE_WIDTH,
        split.tail_start <= len < split.tail_start + LANE_WIDTH,
        split.groups == len / LANE_WIDTH,
        len - split.tail_start == len % LANE_WIDTH,
{
    let groups = len / LANE_WIDTH;
    LaneSplit { groups, tail_start: groups * LANE_WIDTH }
}

} // verus!
