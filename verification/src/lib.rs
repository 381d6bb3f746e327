//! Elevation resolution engine.
//!
//! The library answers "what is the ground elevation at this coordinate?" by
//! consulting a collection of pre-partitioned raster tiles, each covering a
//! rectangular lat/lon region, and returning the nearest sampled value.
//!
//! Coordinates and elevations are carried as fixed-point integers: one unit is
//! a millionth of a degree (for latitudes and longitudes) or a millionth of a
//! meter (for elevations). Callers that live in floating point convert at the
//! boundary.

pub mod index;
pub mod points;
pub mod resolver;
pub mod store;
pub mod tile;

use vstd::prelude::*;

verus! {

/// Number of fixed-point units in one degree or one meter.
pub const MICROS_PER_UNIT: i64 = 1000000;

/// Elevation reported when no tile covers the queried point: -9999 meters,
/// in fixed-point units. A miss is treated as ocean / no-data, not an error.
pub const SENTINEL_MICROS: i64 = -9999000000;

} // verus!
