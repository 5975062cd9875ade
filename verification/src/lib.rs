//! A single-frame raycasting core: exact rational geometry for a
//! grid-based first-person renderer. One ray is cast per screen
//! column; each ray's grid-line crossings are enumerated in order of
//! distance and the nearest wall face is turned into a textured
//! vertical strip.

pub mod frac;
pub mod geometry;
pub mod loader;
pub mod render;
