//! Symmetric shadowcasting field of view on a square grid.
//!
//! `fov::compute_fov` marks every position visible from an origin, given a
//! predicate telling which positions block sight; `fov::compute_fov_over`
//! does the same for a predicate tied to an opacity map stated in specs, so
//! that verified callers learn the exact result for their map. Each of the four quadrants
//! around the origin is scanned row by row outward; a row is a depth and two
//! exact slopes bounding the visible cone, and the cone splits wherever a
//! run of floor tiles meets a wall.
//!
//! - `geometry`: quadrants and their local coordinates.
//! - `rational`: exact flooring, ceiling and comparison of fractions.
//! - `row`: rows, slopes and the rounding that decides a row's columns.
//! - `fov`: the scan, its model as spec functions, and its laws.
//! - `occlusion`: adding occluders never reveals more.
pub mod fov;
pub mod geometry;
pub mod occlusion;
pub mod rational;
pub mod row;
