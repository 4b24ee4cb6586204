//! A deterministic simulation kernel for a two-ball, two-team tile field.
//!
//! Two balls bounce inside a rectangular field that is divided into square
//! tiles. Every tile belongs to one of two teams; a ball collides only with
//! tiles of the opposing team and with the outer wall, and every tile it
//! strikes changes sides.
//!
//! All lengths, speeds and times are fixed-point integers counted in
//! millionths (see [`geometry::UNIT`]), so a run is exactly reproducible.
//!
//! A [`world::World`] is built from a [`config::Config`]. One call of
//! `tick` is one physics step, which moves the balls and resolves their
//! contacts ([`step`], [`physics`]), followed by one flip pass over the
//! tiles that were struck ([`flip`]). The state of the world can be read at
//! any time through `tiles` and `balls`.

pub mod body;
pub mod config;
pub mod field;
pub mod filter;
pub mod flip;
pub mod geometry;
pub mod physics;
pub mod step;
pub mod tick;
pub mod world;

