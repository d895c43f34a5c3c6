//! Verified kinematic collision core of a top-down arcade game.
//!
//! A player-controlled bee is steered toward a cursor while an axis-aligned
//! grid of wall tiles and enemy spawners populates the level.  This crate
//! holds the exact-arithmetic core of that game: parametric segment
//! intersection, the per-tick movement resolver that slides the bee along
//! walls, the tile-grid world model loaded from a tab-separated text map,
//! per-spawner cooldown timers, and the axis-aligned overlap test used for
//! player-versus-enemy detection.
//!
//! Coordinates are signed integers in world units; fractions of a unit that
//! arise inside the geometry (intersection parameters, direction cosines)
//! are carried as exact rationals, so every contract below is exact.

pub mod collision;
pub mod frac;
pub mod player;
pub mod world;
