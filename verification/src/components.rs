use vstd::prelude::*;

verus! {

/// A geographical point on the surface of a celestial body.
///
/// Latitude and longitude are angles in degrees, carried as the raw bit
/// patterns of their double-precision values. Two points are the same point
/// exactly when both bit patterns are equal: node identity throughout the
/// library is bit-exact coordinate equality, so coordinates that differ only
/// by floating-point noise are distinct points.
#[derive(Clone, Copy, Debug, PartialEq, Eq, Structural)]
pub struct SpherePoint {
    /// Bit pattern of the latitude, in degrees.
    pub lat_bits: u64,
    /// Bit pattern of the longitude, in degrees.
    pub lng_bits: u64,
}

impl SpherePoint {
    pub fn new(lat_bits: u64, lng_bits: u64) -> (point: Self)
        ensures
            point == (SpherePoint { lat_bits, lng_bits }),
    {
        Self { lat_bits, lng_bits }
    }
}

/// An undirected connection between two geographical points.
///
/// Direction carries no semantic weight: the travel cost of a connection is
/// symmetric. A connection whose endpoints are equal is invalid input to
/// graph construction and is rejected there.
#[derive(Clone, Copy, Debug, PartialEq, Eq, Structural)]
pub struct SphereConnection {
    pub start: SpherePoint,
    pub finish: SpherePoint,
}

impl SphereConnection {
    pub fn new(start: SpherePoint, finish: SpherePoint) -> (connection: Self)
        ensures
            connection == (SphereConnection { start, finish }),
    {
        Self { start, finish }
    }
}

} // verus!
