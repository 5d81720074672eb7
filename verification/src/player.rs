//! The player, as the transition core sees it.

use vstd::prelude::*;

use crate::math::Extent2;
use crate::math::Placement;

verus! {

/// The unique player entity: its identifier in the entity store, its current
/// placement, and the rectangular footprint of its collision volume.
#[derive(Clone, Copy, Debug, PartialEq, Eq, Structural)]
pub struct Player {
    pub id: u64,
    pub position: Placement,
    pub footprint: Extent2,
}

} // verus!
