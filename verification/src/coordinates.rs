//! Points on and around the earth.

use crate::scalar::{one, Scalar};
use vstd::prelude::*;

verus! {

/// The speed of light in air, in metres per second.
pub const SPEED_OF_LIGHT: u64 = 299_702_547;

/// A point by latitude and longitude in degrees and by height above the ellipsoid in
/// metres.
#[derive(Clone, Copy, Debug, PartialEq, Eq, Structural)]
pub struct GeodeticPoint {
    pub lat: Scalar,
    pub lon: Scalar,
    pub alt: Scalar,
}

impl GeodeticPoint {
    pub fn new(lat: Scalar, lon: Scalar, alt: Scalar) -> (p: Self)
        ensures
            p == (GeodeticPoint { lat, lon, alt }),
    {
        GeodeticPoint { lat, lon, alt }
    }

    /// The latitude is at most 90 degrees from the equator, and the longitude at most 180 from
    /// the meridian.
    pub open spec fn is_on_earth(self) -> bool {
        &&& !self.lat.is_nan() && !self.lat.above(90, 1) && !self.lat.opposite().above(90, 1)
        &&& !self.lon.is_nan() && !self.lon.above(180, 1) && !self.lon.opposite().above(180, 1)
    }

    /// Whether the latitude and the longitude are in range.
    pub fn on_earth(&self) -> (r: bool)
        ensures
            r == self.is_on_earth(),
    {
        !self.lat.nan() && !self.lat.exceeds(90, 1) && !self.lat.negated().exceeds(90, 1)
            && !self.lon.nan() && !self.lon.exceeds(180, 1) && !self.lon.negated().exceeds(180, 1)
    }
}

/// A point, or a velocity, by its components in the frame that turns with the earth, in
/// metres, or metres per second.
#[derive(Clone, Copy, Debug, PartialEq, Eq, Structural)]
pub struct EcefPoint {
    pub x: Scalar,
    pub y: Scalar,
    pub z: Scalar,
}

impl EcefPoint {
    pub fn new(x: Scalar, y: Scalar, z: Scalar) -> (p: Self)
        ensures
            p == (EcefPoint { x, y, z }),
    {
        EcefPoint { x, y, z }
    }
}

/// A place is on the earth if and only if its latitude is from -90 to 90 and its longitude from
/// -180 to 180 degrees.
pub proof fn law_on_earth_within_bounds(p: GeodeticPoint)
    requires
        !p.lat.is_nan(),
        !p.lon.is_nan(),
    ensures
        p.is_on_earth() <==> -90 * one() <= p.lat.units() <= 90 * one() && -180 * one()
            <= p.lon.units() <= 180 * one(),
{
}

} // verus!
