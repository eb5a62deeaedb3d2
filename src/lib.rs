//! Geodesic planet mesh: icosphere topology, equirectangular elevation
//! grids and the integer side of height sampling.

pub mod field;
pub mod topology;
pub mod icosphere;
pub mod sampling;
pub mod view;
