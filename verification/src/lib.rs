//! World, entities and collision of a small tile-based platformer.
//!
//! A [`world::World`] holds a sparse grid of tiles, read from a text map,
//! and the entities that move in it. Each frame the held directions steer
//! the player ([`control`]), and every entity makes one step against the
//! grid ([`movement`]).
//!
//! Positions and velocities are fixed-point numbers with
//! [`units::UNITS_PER_TILE`] units to the tile, so that every result is
//! exact and the same on every machine. Drawing, the window and the keyboard
//! are left to the program that uses this library.

pub mod control;
pub mod entity;
pub mod movement;
pub mod tile;
pub mod tilemap;
pub mod units;
pub mod world;
