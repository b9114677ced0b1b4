//! A deterministic core for a small particle scene: "lifeforms" that act on
//! one another with an inverse-distance force, and entities that are removed
//! once their timer runs out.
//!
//! Everything here works on integers. Coordinates and the attraction constant
//! are fixed-point numbers in a unit of the caller's choosing, and durations
//! are whole nanoseconds. Every function is proved against its contract, but
//! for two that are taken on trust: the one that ticks a timer of bevy and
//! the one that draws a random number from rand.

pub mod sqrt;
pub mod vector;
pub mod force;
pub mod lifetime;
pub mod store;
pub mod scene;
