//! A position given by latitude, longitude and height over the ellipsoid.

use vstd::prelude::*;

verus! {

/// A geodetic position on the WGS84 ellipsoid.
///
/// Latitude and longitude are in micro-degrees (north and east positive);
/// elevation is the height above the ellipsoid in nanometres, and may be
/// negative. Angles outside their usual ranges are accepted and wrap around.
#[derive(Clone, Copy, Debug, PartialEq, Eq, Structural)]
pub struct WGS84 {
    pub latitude: i64,
    pub longitude: i64,
    pub elevation: i64,
}

} // verus!
