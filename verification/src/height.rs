//! Layered height generators: a base generator decorated with noise
//! layers, built up like an iterator chain.

use vstd::prelude::*;

use crate::num::sat_add;
use crate::sampler::Sampler;

verus! {

/// A height generator over a displacement-sample source `S`.
///
/// `spec_base` is the deterministic skeleton of the generator: with a
/// constant-zero source, `sample` returns exactly it.
pub trait Height<S: Sampler> {
    /// The generator's value with all noise suppressed.
    spec fn spec_base(&self, x: i64, y: i64) -> i64;

    /// Calculate the height at the given coordinate.
    fn sample(&self, x: i64, y: i64, s: &mut S) -> (r: i64)
        ensures
            old(s).spec_zero() ==> r == self.spec_base(x, y),
            final(s).spec_zero() == old(s).spec_zero(),
    ;
}

/// An infinite plain with height zero.
pub struct Plain;

impl Plain {
    /// Create a plain generator.
    pub fn new() -> (r: Plain) {
        Plain
    }
}

impl<S: Sampler> Height<S> for Plain {
    open spec fn spec_base(&self, x: i64, y: i64) -> i64 {
        0
    }

    fn sample(&self, x: i64, y: i64, s: &mut S) -> (r: i64) {
        0
    }
}

/// A layer of uncorrelated noise over another height generator.
pub struct NoiseLayer<H> {
    /// Scale handed to the sample source for each drawn value.
    pub amplitude: i64,
    /// The generator being decorated.
    pub height: H,
}

impl<H> NoiseLayer<H> {
    /// Wrap `height` with noise of the given amplitude.
    pub fn new(amplitude: i64, height: H) -> (r: NoiseLayer<H>)
        requires
            amplitude >= 0,
    {
        NoiseLayer { amplitude, height }
    }
}

impl<S: Sampler, H: Height<S>> Height<S> for NoiseLayer<H> {
    open spec fn spec_base(&self, x: i64, y: i64) -> i64 {
        self.height.spec_base(x, y)
    }

    fn sample(&self, x: i64, y: i64, s: &mut S) -> (r: i64) {
        let base = self.height.sample(x, y, s);
        let a = if self.amplitude >= 0 { self.amplitude } else { 0 };
        let noise = s.sample(a);
        sat_add(base, noise)
    }
}

} // verus!
