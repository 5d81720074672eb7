//! Area-transition and combat-trigger core of a small 2D game.
//!
//! The library models the per-tick decisions of the game world as pure,
//! verified functions: detecting that the player crossed a passage between
//! areas, swapping the loaded area's triggers and background atomically,
//! toggling the visibility of area-tagged entities, and resolving attack
//! hitboxes against enemies. The surrounding engine (scheduling, rendering,
//! input, physics) feeds these functions plain values and applies their
//! results to its own entity store.

pub mod area;
pub mod attack;
pub mod collision;
pub mod math;
pub mod player;
