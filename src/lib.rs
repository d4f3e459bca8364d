//! Slant range between a geodetic observer and an Earth-centred, Earth-fixed
//! point, computed in fixed-point integer arithmetic.
//!
//! Angles are held in micro-degrees and lengths in nanometres. Sines and
//! cosines are integers scaled by [`fixed::SCALE`] (`10^18`), good to about
//! `10^-18`. Each coordinate of the transform is rounded to the nearest
//! nanometre after each product, and the slant range is rounded down to whole
//! nanometres.

pub mod fixed;
pub mod trig;
pub mod wgs84;
pub mod ecef;
pub mod geodesy;
