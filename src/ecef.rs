//! A position in the Earth-centred, Earth-fixed Cartesian frame.

use vstd::prelude::*;

verus! {

/// A point in the Earth-centred, Earth-fixed frame, in nanometres.
///
/// `x` points through the prime meridian at the equator, `z` through the
/// north pole, and `y` completes a right-handed system.
#[derive(Clone, Copy, Debug, PartialEq, Eq, Structural)]
pub struct ECEF {
    pub x: i64,
    pub y: i64,
    pub z: i64,
}

} // verus!
