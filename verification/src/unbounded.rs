//! Surfaces represented by a total height function over the plane.

use vstd::prelude::*;

verus! {

/// A map from a 2D coordinate to a height, defined everywhere inside the
/// surface's stated domain.
///
/// `spec_get` is the mathematical content of the surface; `get` computes
/// it. `in_domain` bounds the coordinates a surface accepts (a machine
/// limit: sampling must not overflow the fixed-point range).
pub trait UnboundedSurface {
    /// Coordinates this surface may be sampled at.
    spec fn in_domain(&self, x: i64, y: i64) -> bool;

    /// The height of the surface at `(x, y)`.
    spec fn spec_get(&self, x: i64, y: i64) -> i64;

    /// Determine the height of the terrain at the given coordinate.
    fn get(&self, x: i64, y: i64) -> (r: i64)
        requires
            self.in_domain(x, y),
        ensures
            r == self.spec_get(x, y),
    ;
}

/// An infinite, flat surface.
#[derive(Debug, Clone, Copy)]
pub struct Flat {
    elevation: i64,
}

impl Flat {
    /// The constant height of this surface.
    pub closed spec fn spec_elevation(&self) -> i64 {
        self.elevation
    }

    /// Construct with the given elevation.
    pub fn new(elevation: i64) -> (r: Flat)
        ensures
            r.spec_elevation() == elevation,
    {
        Flat { elevation }
    }
}

impl Default for Flat {
    /// The flat surface at height zero.
    fn default() -> (r: Flat)
        ensures
            r.spec_elevation() == 0,
    {
        Flat { elevation: 0 }
    }
}

impl UnboundedSurface for Flat {
    open spec fn in_domain(&self, x: i64, y: i64) -> bool {
        true
    }

    open spec fn spec_get(&self, x: i64, y: i64) -> i64 {
        self.spec_elevation()
    }

    fn get(&self, x: i64, y: i64) -> (r: i64) {
        self.elevation
    }
}

} // verus!
