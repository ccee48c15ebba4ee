//! Random displacement sources for the generation algorithms.
//!
//! Randomness comes from `rand`'s `StdRng` behind small trusted wrappers;
//! everything computed from the drawn values is verified for every value
//! the wrappers can return.

use vstd::prelude::*;

use crate::num::{UNIT, div_floor, isqrt, lemma_isqrt_spec, sat_of_i128};

verus! {

#[verifier::external_type_specification]
#[verifier::external_body]
pub struct ExStdRng(rand::rngs::StdRng);

/// Relies on `rand_core::SeedableRng::seed_from_u64` for `rand::rngs::StdRng`:
/// builds a generator deterministically from the seed; never panics.
#[verifier::external_body]
pub(crate) fn rng_from_seed(seed: u64) -> rand::rngs::StdRng {
    <rand::rngs::StdRng as rand::SeedableRng>::seed_from_u64(seed)
}

/// Relies on `rand::RngExt::random_range` over `lo..=hi`: the drawn value
/// lies in the range; the call panics only on an empty range, which the
/// precondition rules out.
#[verifier::external_body]
pub(crate) fn sample_range(rng: &mut rand::rngs::StdRng, lo: i64, hi: i64) -> (r: i64)
    requires
        lo <= hi,
    ensures
        lo <= r <= hi,
{
    rand::RngExt::random_range(rng, lo..=hi)
}

/// A source of displacement samples for the fractal algorithms.
///
/// `sample(scale)` draws one displacement, already scaled by `scale` (the
/// current half quad side, as a fixed-point scalar). A source with
/// `spec_zero()` always returns `0`; running an algorithm with such a
/// source isolates its deterministic interpolation skeleton.
pub trait Sampler {
    /// Whether every sample from this source is `0`.
    spec fn spec_zero(&self) -> bool;

    /// Draw the next displacement for the given scale.
    fn sample(&mut self, scale: i64) -> (r: i64)
        requires
            scale >= 0,
        ensures
            old(self).spec_zero() ==> r == 0,
            final(self).spec_zero() == old(self).spec_zero(),
    ;
}

/// The constant-zero displacement source.
pub struct ZeroSampler;

impl Sampler for ZeroSampler {
    open spec fn spec_zero(&self) -> bool {
        true
    }

    fn sample(&mut self, scale: i64) -> (r: i64) {
        0
    }
}

/// Uniform displacements: `sample(scale)` is uniform on
/// `[-scale * amplitude, scale * amplitude]` (fixed-point product,
/// saturated).
pub struct UniformSampler {
    rng: rand::rngs::StdRng,
    amplitude: i64,
}

impl UniformSampler {
    /// Build a seeded uniform source with the given per-unit amplitude.
    pub fn new(seed: u64, amplitude: i64) -> (r: UniformSampler)
        requires
            amplitude >= 0,
    {
        UniformSampler { rng: rng_from_seed(seed), amplitude }
    }
}

impl Sampler for UniformSampler {
    open spec fn spec_zero(&self) -> bool {
        false
    }

    fn sample(&mut self, scale: i64) -> (r: i64) {
        let a: i64 = if self.amplitude >= 0 { self.amplitude } else { 0 };
        proof {
            assert((scale as int) * (a as int) >= 0) by (nonlinear_arith)
                requires scale as int >= 0 && a as int >= 0;
            assert((scale as int) * (a as int) < 0x4000_0000_0000_0000_0000_0000_0000_0000)
                by (nonlinear_arith)
                requires 0 <= (scale as int) < 0x8000_0000_0000_0000
                    && 0 <= (a as int) < 0x8000_0000_0000_0000;
        }
        let m128: i128 = div_floor(scale as i128 * a as i128, UNIT as i128);
        proof {
            vstd::arithmetic::div_mod::lemma_div_is_ordered(
                0, (scale as int) * (a as int), UNIT as int);
        }
        let m: i64 = sat_of_i128(m128);
        sample_range(&mut self.rng, -m, m)
    }
}

/// A near-unit fixed-point vector: its squared norm is at most `UNIT^2`,
/// and growing the second component's magnitude by one would overshoot.
/// In particular the zero vector is not near-unit.
pub open spec fn near_unit(g: (i64, i64)) -> bool {
    &&& g.0 * g.0 + g.1 * g.1 <= UNIT * UNIT
    &&& UNIT * UNIT < g.0 * g.0 + g.1 * g.1
        + 2 * (if g.1 >= 0 { g.1 as int } else { -(g.1 as int) }) + 1
}

/// Draw a near-unit direction: `vx` uniform on `[-UNIT, UNIT]`, `|vy|` the
/// integer square root of `UNIT^2 - vx^2` with a random sign.
pub fn unit_dir(rng: &mut rand::rngs::StdRng) -> (r: (i64, i64))
    ensures
        -UNIT <= r.0 <= UNIT,
        -UNIT <= r.1 <= UNIT,
        near_unit(r),
{
    let vx = sample_range(rng, -UNIT, UNIT);
    let ax: i64 = if vx >= 0 { vx } else { -vx };
    proof {
        assert((ax as int) * (ax as int) <= (UNIT as int) * (UNIT as int)) by (nonlinear_arith)
            requires 0 <= ax as int <= UNIT as int;
        assert((ax as int) * (ax as int) >= 0) by (nonlinear_arith);
        assert((ax as int) * (ax as int) == (vx as int) * (vx as int)) by (nonlinear_arith)
            requires ax as int == vx as int || ax as int == -(vx as int);
    }
    let rest: u128 = (UNIT as u128) * (UNIT as u128) - (ax as u128) * (ax as u128);
    let vy_mag: u64 = isqrt(rest);
    proof {
        lemma_isqrt_spec(rest as int);
        assert(vy_mag as int * vy_mag as int <= rest <= (UNIT as int) * (UNIT as int));
        assert(vy_mag <= UNIT) by (nonlinear_arith)
            requires
                (vy_mag as int) * (vy_mag as int) <= (UNIT as int) * (UNIT as int)
                && vy_mag as int >= 0 && UNIT as int > 0;
    }
    let sign = sample_range(rng, 0, 1);
    let vy: i64 = if sign == 1 { vy_mag as i64 } else { -(vy_mag as i64) };
    proof {
        assert(vy * vy == (vy_mag as int) * (vy_mag as int)) by (nonlinear_arith)
            requires vy as int == vy_mag as int || vy as int == -(vy_mag as int);
        assert(rest < (vy_mag as int + 1) * (vy_mag as int + 1));
        assert((vy_mag as int + 1) * (vy_mag as int + 1)
            == (vy_mag as int) * (vy_mag as int) + 2 * (vy_mag as int) + 1) by (nonlinear_arith);
    }
    (vx, vy)
}

/// The diamond-square variance correction's fractional part:
/// `sqrt(2) - 1` in fixed point, used to scale square-point samples.
pub const ROOT2_FRAC: i64 = 27146;

/// Scale `s` by approximately `sqrt(2)`: `s + s * ROOT2_FRAC / UNIT`.
pub fn scale_root2(s: i64) -> (r: i64)
    requires
        0 <= s < 0x1_0000_0000_0000,
    ensures
        r == s + (s * ROOT2_FRAC as int) / (UNIT as int),
        r >= 0,
{
    proof {
        assert(0 <= (s as int) * (ROOT2_FRAC as int) < 0x6A0A_0000_0000_0000)
            by (nonlinear_arith)
            requires 0 <= (s as int) < 0x1_0000_0000_0000 && ROOT2_FRAC == 27146;
    }
    let extra128: i128 = div_floor(s as i128 * ROOT2_FRAC as i128, UNIT as i128);
    proof {
        vstd::arithmetic::div_mod::lemma_div_is_ordered(
            0, (s as int) * (ROOT2_FRAC as int), UNIT as int);
        vstd::arithmetic::div_mod::lemma_div_is_ordered(
            (s as int) * (ROOT2_FRAC as int), 0x6A0A_0000_0000_0000, UNIT as int);
    }
    let extra: i64 = extra128 as i64;
    s + extra
}

} // verus!
