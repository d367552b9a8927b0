use vstd::prelude::*;

verus! {

/// The celestial bodies whose surfaces routes can be computed on.
///
/// Each body has a fixed mean radius in kilometers; the caller uses that
/// radius when it evaluates the geodesic distance between two points, and
/// hands the resulting costs to graph construction.
#[derive(Clone, Copy, Debug, PartialEq, Eq, Structural)]
#[allow(non_camel_case_types)]
pub enum CelestialObject {
    MERCURY,
    VENUS,
    EARTH,
    MARS,
    JUPITER,
    SATURN,
    URANUS,
    NEPTUNE,
}

} // verus!
