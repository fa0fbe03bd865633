//! Core of a metaball renderer: resolution handling, framebuffer writes,
//! color packing, gradient stop registration, the event sweep that tracks
//! which metaballs influence a ray at each parameter interval, and the
//! trigger step of the isosurface search.

pub mod buffer;
pub mod color;
pub mod gradient;
pub mod resolution;
pub mod search;
pub mod sweep;
