//! Coherent gradient noise over a lattice of near-unit gradient vectors.
//!
//! Sampling scales the coordinate, finds the containing integer lattice
//! cell, hashes each of the four cell corners to a gradient (an integer
//! mixing hash masked to the lattice size — not cryptographic), takes the
//! dot product of each corner's gradient with the offset from that corner
//! to the sample point, and interpolates the four dot products with a
//! smootherstep easing curve on each axis. All in fixed point: offsets
//! within a cell run from `0` to `UNIT`.

use vstd::prelude::*;
use vstd::arithmetic::power2::{pow2, lemma_pow2_pos, lemma_pow2_adds, lemma_pow2_strictly_increases};

use crate::num::{UNIT, div_floor};
use crate::sampler::near_unit;
use crate::unbounded::UnboundedSurface;

verus! {

/// Why a noise field refused its lattice size.
#[derive(Debug, Clone, Copy, PartialEq, Eq, Structural)]
pub enum PerlinError {
    /// The gradient count is not a power of two.
    NotPowerOf2,
}

/// First multiplier of the mixing hash.
pub const MIX_M1: u64 = 0xcb24_d0a5_c88c_35b3;

/// Second multiplier of the mixing hash.
pub const MIX_M2: u64 = 0x9e37_79b9_7f4a_7c15;

/// The mixing hash: two rounds of multiply and xor-shift over `u64`.
pub open spec fn spec_mix(k: u64) -> u64 {
    let a = (((k as int) * (MIX_M1 as int)) % 0x1_0000_0000_0000_0000) as u64;
    let b = a ^ (a >> 33);
    let c = (((b as int) * (MIX_M2 as int)) % 0x1_0000_0000_0000_0000) as u64;
    c ^ (c >> 29)
}

/// Combine a lattice corner's two (offset) coordinates into one hash key.
pub open spec fn spec_key(cx: int, cy: int) -> u64 {
    ((cx + 0x8000_0000) + (cy + 0x8000_0000) * 0x1_0000_0000) as u64
}

/// Smootherstep easing: `3 t^2 - 2 t^3`, over offsets `t` in `[0, UNIT]`,
/// scaled so that its result runs from `0` to `UNIT`.
pub open spec fn smoother(t: int) -> int {
    t * t * (3 * UNIT - 2 * t) / ((UNIT * UNIT) as int)
}

/// Fixed-point linear interpolation from `a` to `b` by `s` in `[0, UNIT]`.
pub open spec fn fxlerp(a: int, b: int, s: int) -> int {
    a + s * (b - a) / (UNIT as int)
}

/// Fixed-point dot product of a gradient with an offset vector.
pub open spec fn grad_dot(g: (i64, i64), ox: int, oy: int) -> int {
    (ox * g.0 + oy * g.1) / (UNIT as int)
}

/// Whether `n` is a power of two (and hence a valid lattice size).
fn is_pow2(n: usize) -> (r: bool)
    requires
        n <= 0x1_0000_0000,
    ensures
        r ==> exists|k: nat| k <= 32 && n == pow2(k),
        !r ==> forall|k: nat| n != pow2(k),
        r ==> n >= 1,
{
    if n == 0 {
        proof {
            assert forall|k: nat| n as nat != pow2(k) by {
                lemma_pow2_pos(k);
            };
        }
        return false;
    }
    let mut p: u64 = 1;
    let mut k: u32 = 0;
    proof {
        assert(pow2(0) == 1 && pow2(32) == 0x1_0000_0000) by {
            vstd::arithmetic::power2::lemma2_to64();
        };
    }
    while p < n as u64
        invariant
            p == pow2(k as nat),
            1 <= p <= 0x1_0000_0000,
            n as u64 <= 0x1_0000_0000,
            k <= 32,
            pow2(32) == 0x1_0000_0000,
            forall|j: nat| j < k ==> pow2(j) < n as u64,
        decreases 32 - k,
    {
        proof {
            if k >= 32 {
                if k > 32 {
                    lemma_pow2_strictly_increases(32, k as nat);
                }
                assert(false);
            }
            assert(pow2((k + 1) as nat) == 2 * pow2(k as nat)) by {
                lemma_pow2_adds(1, k as nat);
                assert(pow2(1) == 2) by {
                    vstd::arithmetic::power2::lemma2_to64();
                };
            };
            assert(pow2((k + 1) as nat) <= pow2(32)) by {
                if k + 1 < 32 {
                    lemma_pow2_strictly_increases((k + 1) as nat, 32);
                }
            };
            assert forall|j: nat| j < k + 1 implies pow2(j) < n as u64 by {
                if j == k {
                    assert(pow2(j) == p);
                }
            };
        }
        p = p * 2;
        k = k + 1;
    }
    if p == n as u64 {
        true
    } else {
        proof {
            assert forall|j: nat| n as nat != pow2(j) by {
                if j > k {
                    lemma_pow2_strictly_increases(k as nat, j);
                }
            };
        }
        false
    }
}

/// A Perlin-style noise generator.
pub struct Perlin {
    scale: i64,
    mask: u64,
    gradient: Vec<(i64, i64)>,
}

impl Perlin {
    /// The spatial scale: each coordinate is multiplied by it (fixed
    /// point) before sampling.
    pub closed spec fn spec_scale(self) -> int {
        self.scale as int
    }

    /// The gradient table.
    pub closed spec fn gradients(self) -> Seq<(i64, i64)> {
        self.gradient@
    }

    /// The generator's invariant: a power-of-two gradient table of
    /// near-unit vectors, a matching index mask, and a bounded scale.
    pub closed spec fn wf(self) -> bool {
        &&& exists|k: nat| k <= 32 && self.gradient@.len() == pow2(k)
        &&& self.mask as int == self.gradient@.len() - 1
        &&& 0 < self.scale as int <= 0x1_0000_0000
        &&& forall|i: int| 0 <= i < self.gradient@.len()
            ==> -UNIT <= (#[trigger] self.gradient@[i]).0 <= UNIT
                && -UNIT <= self.gradient@[i].1 <= UNIT
    }

    /// Gradient index of the lattice corner `(cx, cy)`.
    pub open spec fn corner_index(self, cx: int, cy: int) -> int {
        (spec_mix(spec_key(cx, cy)) & self.mask_spec()) as int
    }

    /// The index mask (`gradient count - 1`).
    pub closed spec fn mask_spec(self) -> u64 {
        self.mask
    }

    /// Gradient assigned to the lattice corner `(cx, cy)`.
    pub open spec fn corner_gradient(self, cx: int, cy: int) -> (i64, i64) {
        self.gradients()[self.corner_index(cx, cy)]
    }

    /// Noise inside the lattice cell with lower corner `(cx, cy)` at
    /// offset `(fx, fy)` from that corner (offsets in `[0, UNIT]`).
    pub open spec fn cell_noise(self, cx: int, cy: int, fx: int, fy: int) -> int {
        let d00 = grad_dot(self.corner_gradient(cx, cy), fx, fy);
        let d10 = grad_dot(self.corner_gradient(cx + 1, cy), fx - UNIT, fy);
        let d01 = grad_dot(self.corner_gradient(cx, cy + 1), fx, fy - UNIT);
        let d11 = grad_dot(self.corner_gradient(cx + 1, cy + 1), fx - UNIT, fy - UNIT);
        let sx = smoother(fx);
        let sy = smoother(fy);
        fxlerp(fxlerp(d00, d10, sx), fxlerp(d01, d11, sx), sy)
    }

    /// A coordinate scaled into lattice space.
    pub open spec fn scaled(self, c: int) -> int {
        c * self.spec_scale() / (UNIT as int)
    }

    /// The noise value at the (unscaled) coordinate `(x, y)`: the cell
    /// noise of the containing lattice cell.
    pub open spec fn noise_at(self, x: int, y: int) -> int {
        let px = self.scaled(x);
        let py = self.scaled(y);
        self.cell_noise(
            px / (UNIT as int), py / (UNIT as int),
            px % (UNIT as int), py % (UNIT as int))
    }

    /// Construct a noise generator from explicit gradients.
    ///
    /// The gradient count must be a power of two; gradients must be
    /// near-unit fixed-point vectors (components within `[-UNIT, UNIT]`),
    /// and the scale positive and bounded — machine limits of the fixed
    /// point representation.
    pub fn with_gradients(scale: i64, gradient: Vec<(i64, i64)>)
        -> (r: Result<Perlin, PerlinError>)
        requires
            0 < scale <= 0x1_0000_0000,
            gradient@.len() <= 0x1_0000_0000,
            forall|i: int| 0 <= i < gradient@.len()
                ==> -UNIT <= (#[trigger] gradient@[i]).0 <= UNIT
                    && -UNIT <= gradient@[i].1 <= UNIT,
        ensures
            match r {
                Ok(p) => {
                    &&& p.wf()
                    &&& p.spec_scale() == scale
                    &&& p.gradients() == gradient@
                    &&& exists|k: nat| gradient@.len() == pow2(k)
                },
                Err(e) => {
                    &&& e is NotPowerOf2
                    &&& forall|k: nat| gradient@.len() != pow2(k)
                },
            },
    {
        let n = gradient.len();
        if !is_pow2(n) {
            return Err(PerlinError::NotPowerOf2);
        }
        Ok(Perlin { scale, mask: (n - 1) as u64, gradient })
    }

    /// Look up the gradient assigned to lattice corner `(cx, cy)`.
    fn gradient_at(&self, cx: i64, cy: i64) -> (g: (i64, i64))
        requires
            self.wf(),
            -0x8000_0000 < cx < 0x8000_0000,
            -0x8000_0000 < cy < 0x8000_0000,
        ensures
            g == self.corner_gradient(cx as int, cy as int),
            -UNIT <= g.0 <= UNIT,
            -UNIT <= g.1 <= UNIT,
    {
        let kx: u64 = (cx + 0x8000_0000) as u64;
        let ky: u64 = (cy + 0x8000_0000) as u64;
        let key: u64 = kx + ky * 0x1_0000_0000;
        proof {
            assert(key == spec_key(cx as int, cy as int));
        }
        let h = mix(key);
        proof {
            lemma_and_mask_le(h, self.mask);
            let k = choose|k: nat| k <= 32 && self.gradient@.len() == pow2(k);
            lemma_pow2_pos(k);
            if k < 32 {
                lemma_pow2_strictly_increases(k, 32);
            }
            assert(pow2(32) == 0x1_0000_0000) by {
                vstd::arithmetic::power2::lemma2_to64();
            };
        }
        let idx: usize = (h & self.mask) as usize;
        proof {
            assert(idx as int == self.corner_index(cx as int, cy as int));
        }
        self.gradient[idx]
    }

    /// Construct a noise generator with `n` random near-unit gradients.
    ///
    /// The lattice size is validated before any gradient is drawn, so on
    /// the error path the generator state is untouched.
    pub fn new(scale: i64, n: usize, rng: &mut rand::rngs::StdRng)
        -> (r: Result<Perlin, PerlinError>)
        requires
            0 < scale <= 0x1_0000_0000,
            n <= 0x1_0000_0000,
        ensures
            match r {
                Ok(p) => {
                    &&& p.wf()
                    &&& p.spec_scale() == scale
                    &&& p.gradients().len() == n
                    &&& forall|i: int| 0 <= i < n ==> near_unit(#[trigger] p.gradients()[i])
                },
                Err(e) => {
                    &&& e is NotPowerOf2
                    &&& forall|k: nat| n as nat != pow2(k)
                },
            },
    {
        if !is_pow2(n) {
            return Err(PerlinError::NotPowerOf2);
        }
        let mut gradient: Vec<(i64, i64)> = Vec::new();
        let mut i: usize = 0;
        while i < n
            invariant
                i <= n,
                gradient@.len() == i,
                forall|j: int| 0 <= j < i ==> near_unit(#[trigger] gradient@[j]),
                forall|j: int| 0 <= j < i
                    ==> -UNIT <= (#[trigger] gradient@[j]).0 <= UNIT
                        && -UNIT <= gradient@[j].1 <= UNIT,
            decreases n - i,
        {
            let g = crate::sampler::unit_dir(rng);
            gradient.push(g);
            i = i + 1;
        }
        Perlin::with_gradients(scale, gradient)
    }
}

impl UnboundedSurface for Perlin {
    open spec fn in_domain(&self, x: i64, y: i64) -> bool {
        self.wf() && -0x4000_0000 <= x <= 0x4000_0000 && -0x4000_0000 <= y <= 0x4000_0000
    }

    open spec fn spec_get(&self, x: i64, y: i64) -> i64 {
        self.noise_at(x as int, y as int) as i64
    }

    fn get(&self, x: i64, y: i64) -> (r: i64) {
        let (cx, fx) = self.scale_split(x);
        let (cy, fy) = self.scale_split(y);
        let g00 = self.gradient_at(cx, cy);
        let g10 = self.gradient_at(cx + 1, cy);
        let g01 = self.gradient_at(cx, cy + 1);
        let g11 = self.gradient_at(cx + 1, cy + 1);
        let d00 = dot_fx(g00, fx, fy);
        let d10 = dot_fx(g10, fx - UNIT, fy);
        let d01 = dot_fx(g01, fx, fy - UNIT);
        let d11 = dot_fx(g11, fx - UNIT, fy - UNIT);
        let sx = smoother_fx(fx);
        let sy = smoother_fx(fy);
        let a = lerp_fx(d00, d10, sx);
        let b = lerp_fx(d01, d11, sx);
        let r = lerp_fx(a, b, sy);
        proof {
            assert(r as int == self.cell_noise(cx as int, cy as int, fx as int, fy as int));
            assert(r as int == self.noise_at(x as int, y as int));
        }
        r
    }
}

impl Perlin {
    /// Scale one coordinate into lattice space and split it into the
    /// containing lattice cell and the offset within it.
    fn scale_split(&self, c: i64) -> (r: (i64, i64))
        requires
            self.wf(),
            -0x4000_0000 <= c <= 0x4000_0000,
        ensures
            r.0 as int == self.scaled(c as int) / (UNIT as int),
            r.1 as int == self.scaled(c as int) % (UNIT as int),
            -0x4000_0001 < r.0 < 0x4000_0001,
            0 <= r.1 < UNIT,
    {
        let scale = self.scale;
        proof {
            assert(-0x4000_0000_0000_0000 <= (c as int) * (scale as int)
                    <= 0x4000_0000_0000_0000)
                by (nonlinear_arith)
                requires
                    -0x4000_0000 <= (c as int) <= 0x4000_0000
                    && 0 < (scale as int) <= 0x1_0000_0000;
            vstd::arithmetic::div_mod::lemma_div_is_ordered(
                -0x4000_0000_0000_0000, (c as int) * (scale as int), UNIT as int);
            vstd::arithmetic::div_mod::lemma_div_is_ordered(
                (c as int) * (scale as int), 0x4000_0000_0000_0000, UNIT as int);
        }
        let px128: i128 = div_floor(c as i128 * scale as i128, UNIT as i128);
        let px: i64 = px128 as i64;
        let t: u64 = (px + 0x4000_0000_0000) as u64;
        let q: u64 = t / 65536;
        let rem: u64 = t % 65536;
        let cell: i64 = q as i64 - 0x4000_0000;
        proof {
            assert(t == q * 65536 + rem && rem < 65536) by {
                vstd::arithmetic::div_mod::lemma_fundamental_div_mod(t as int, 65536);
            };
            assert(px as int == (cell as int) * (UNIT as int) + rem) by {
                assert((q as int - 0x4000_0000) * 65536 == q as int * 65536
                    - 0x4000_0000 * 65536) by (nonlinear_arith);
            };
            vstd::arithmetic::div_mod::lemma_fundamental_div_mod_converse(
                px as int, UNIT as int, cell as int, rem as int);
        }
        (cell, rem as i64)
    }
}

/// The noise value at any point on the integer lattice itself is zero:
/// the offset from the containing corner vanishes, so its gradient's dot
/// product — the value the easing curve selects there — is zero.
pub proof fn lemma_noise_zero_on_lattice(p: Perlin, x: int, y: int)
    requires
        p.wf(),
        p.scaled(x) % (UNIT as int) == 0,
        p.scaled(y) % (UNIT as int) == 0,
    ensures
        p.noise_at(x, y) == 0,
{
    let cx = p.scaled(x) / (UNIT as int);
    let cy = p.scaled(y) / (UNIT as int);
    assert((UNIT as int) * (UNIT as int) == 0x1_0000_0000) by (nonlinear_arith);
    vstd::arithmetic::div_mod::lemma_div_basics(UNIT as int);
    vstd::arithmetic::div_mod::lemma_div_basics((UNIT * UNIT) as int);
    assert(grad_dot(p.corner_gradient(cx, cy), 0, 0) == 0);
    assert(0 * 0 * (3 * UNIT - 2 * 0) == 0) by (nonlinear_arith);
    assert(smoother(0) == 0 * 0 * (3 * UNIT - 2 * 0) / ((UNIT * UNIT) as int));
    assert(smoother(0) == 0);
    assert(fxlerp(0, grad_dot(p.corner_gradient(cx + 1, cy), -UNIT as int, 0), 0) == 0);
}

/// The noise interpolant is continuous across a vertical lattice cell
/// boundary: evaluating the right edge of one cell agrees with the left
/// edge of its x-neighbour (the shared corners' gradients coincide and
/// the easing curve is exact at the ends).
pub proof fn lemma_noise_continuous_x(p: Perlin, cx: int, cy: int, fy: int)
    requires
        p.wf(),
    ensures
        p.cell_noise(cx, cy, UNIT as int, fy) == p.cell_noise(cx + 1, cy, 0, fy),
{
    assert((UNIT as int) * (UNIT as int) == 0x1_0000_0000) by (nonlinear_arith);
    vstd::arithmetic::div_mod::lemma_div_basics(UNIT as int);
    vstd::arithmetic::div_mod::lemma_div_basics((UNIT * UNIT) as int);
    let d10 = grad_dot(p.corner_gradient(cx + 1, cy), 0, fy);
    let d11 = grad_dot(p.corner_gradient(cx + 1, cy + 1), 0, fy - UNIT);
    assert(smoother(UNIT as int) == UNIT) by {
        assert((UNIT as int) * (UNIT as int) * (3 * UNIT - 2 * UNIT)
            == ((UNIT * UNIT) as int) * (UNIT as int)) by (nonlinear_arith);
        vstd::arithmetic::div_mod::lemma_div_multiples_vanish(
            UNIT as int, (UNIT * UNIT) as int);
    };
    assert forall|a: int, b: int| #[trigger] fxlerp(a, b, UNIT as int) == b by {
        vstd::arithmetic::div_mod::lemma_div_multiples_vanish(b - a, UNIT as int);
        assert((UNIT as int) * (b - a) == (b - a) * (UNIT as int)) by (nonlinear_arith);
    };
    assert(fxlerp(fxlerp(grad_dot(p.corner_gradient(cx, cy), UNIT as int, fy), d10,
        UNIT as int), fxlerp(grad_dot(p.corner_gradient(cx, cy + 1), UNIT as int,
        fy - UNIT), d11, UNIT as int), smoother(fy))
        == fxlerp(d10, d11, smoother(fy)));
    assert(0 * 0 * (3 * UNIT - 2 * 0) == 0) by (nonlinear_arith);
    assert(smoother(0) == 0 * 0 * (3 * UNIT - 2 * 0) / ((UNIT * UNIT) as int));
    assert(smoother(0) == 0);
    assert(fxlerp(d10, d11, 0) == d10);
    assert(fxlerp(fxlerp(d10, d11, 0), fxlerp(grad_dot(p.corner_gradient(cx + 1, cy + 1),
        0, fy - UNIT), grad_dot(p.corner_gradient(cx + 2, cy + 1), -(UNIT as int),
        fy - UNIT), 0), smoother(fy)) == fxlerp(d10, d11, smoother(fy)));
}

/// The noise interpolant is likewise continuous across a horizontal
/// lattice cell boundary.
pub proof fn lemma_noise_continuous_y(p: Perlin, cx: int, cy: int, fx: int)
    requires
        p.wf(),
    ensures
        p.cell_noise(cx, cy, fx, UNIT as int) == p.cell_noise(cx, cy + 1, fx, 0),
{
    assert((UNIT as int) * (UNIT as int) == 0x1_0000_0000) by (nonlinear_arith);
    vstd::arithmetic::div_mod::lemma_div_basics(UNIT as int);
    vstd::arithmetic::div_mod::lemma_div_basics((UNIT * UNIT) as int);
    let d01 = grad_dot(p.corner_gradient(cx, cy + 1), fx, 0);
    let d11 = grad_dot(p.corner_gradient(cx + 1, cy + 1), fx - UNIT, 0);
    assert(smoother(UNIT as int) == UNIT) by {
        assert((UNIT as int) * (UNIT as int) * (3 * UNIT - 2 * UNIT)
            == ((UNIT * UNIT) as int) * (UNIT as int)) by (nonlinear_arith);
        vstd::arithmetic::div_mod::lemma_div_multiples_vanish(
            UNIT as int, (UNIT * UNIT) as int);
    };
    assert forall|a: int, b: int| #[trigger] fxlerp(a, b, UNIT as int) == b by {
        vstd::arithmetic::div_mod::lemma_div_multiples_vanish(b - a, UNIT as int);
        assert((UNIT as int) * (b - a) == (b - a) * (UNIT as int)) by (nonlinear_arith);
    };
    assert(0 * 0 * (3 * UNIT - 2 * 0) == 0) by (nonlinear_arith);
    assert(smoother(0) == 0 * 0 * (3 * UNIT - 2 * 0) / ((UNIT * UNIT) as int));
    assert(smoother(0) == 0);
    let sx = smoother(fx);
    assert(fxlerp(fxlerp(grad_dot(p.corner_gradient(cx, cy), fx, UNIT as int),
        grad_dot(p.corner_gradient(cx + 1, cy), fx - UNIT, UNIT as int), sx),
        fxlerp(d01, d11, sx), UNIT as int) == fxlerp(d01, d11, sx));
    assert(fxlerp(fxlerp(d01, d11, sx), fxlerp(grad_dot(p.corner_gradient(cx, cy + 2),
        fx, -(UNIT as int)), grad_dot(p.corner_gradient(cx + 1, cy + 2), fx - UNIT,
        -(UNIT as int)), sx), 0) == fxlerp(d01, d11, sx));
}

/// Masking keeps a hash below the mask.
proof fn lemma_and_mask_le(x: u64, m: u64)
    ensures
        x & m <= m,
{
    assert(x & m <= m) by (bit_vector);
}

/// Fixed-point dot product of a near-unit gradient with an in-cell offset.
fn dot_fx(g: (i64, i64), ox: i64, oy: i64) -> (r: i64)
    requires
        -UNIT <= g.0 <= UNIT,
        -UNIT <= g.1 <= UNIT,
        -UNIT <= ox <= UNIT,
        -UNIT <= oy <= UNIT,
    ensures
        r == grad_dot(g, ox as int, oy as int),
        -2 * UNIT <= r <= 2 * UNIT,
{
    proof {
        assert(-0x1_0000_0000 <= (ox as int) * (g.0 as int) <= 0x1_0000_0000
            && -0x1_0000_0000 <= (oy as int) * (g.1 as int) <= 0x1_0000_0000)
            by (nonlinear_arith)
            requires
                -0x1_0000 <= (ox as int) <= 0x1_0000 && -0x1_0000 <= (g.0 as int) <= 0x1_0000
                && -0x1_0000 <= (oy as int) <= 0x1_0000
                && -0x1_0000 <= (g.1 as int) <= 0x1_0000;
    }
    let num: i64 = ox * g.0 + oy * g.1;
    let q: i128 = div_floor(num as i128, UNIT as i128);
    proof {
        assert((UNIT as int) * (-2 * UNIT) == -0x2_0000_0000
            && (UNIT as int) * (2 * UNIT) == 0x2_0000_0000) by (nonlinear_arith);
        vstd::arithmetic::div_mod::lemma_div_is_ordered(
            -0x2_0000_0000, num as int, UNIT as int);
        vstd::arithmetic::div_mod::lemma_div_is_ordered(
            num as int, 0x2_0000_0000, UNIT as int);
        vstd::arithmetic::div_mod::lemma_div_multiples_vanish(-2 * UNIT, UNIT as int);
        vstd::arithmetic::div_mod::lemma_div_multiples_vanish(2 * UNIT, UNIT as int);
    }
    q as i64
}

/// Smootherstep easing over a fixed-point offset.
fn smoother_fx(t: i64) -> (r: i64)
    requires
        0 <= t <= UNIT,
    ensures
        r == smoother(t as int),
        0 <= r <= UNIT,
{
    proof {
        assert(0 <= (t as int) * (t as int) <= 0x1_0000_0000) by (nonlinear_arith)
            requires 0 <= (t as int) <= 0x1_0000;
        assert(0 <= (t as int) * (t as int) * (3 * UNIT - 2 * (t as int))
                <= 0x4_0000_0000_0000)
            by (nonlinear_arith)
            requires 0 <= (t as int) <= 0x1_0000 && UNIT == 0x1_0000;
        assert((t as int) * (t as int) * (3 * UNIT - 2 * (t as int))
                <= ((UNIT * UNIT) as int) * (UNIT as int))
            by (nonlinear_arith)
            requires 0 <= (t as int) <= (UNIT as int) && UNIT == 0x1_0000;
    }
    let num: i64 = t * t * (3 * UNIT - 2 * t);
    let q: i128 = div_floor(num as i128, 0x1_0000_0000);
    proof {
        vstd::arithmetic::div_mod::lemma_div_is_ordered(
            0, num as int, 0x1_0000_0000);
        vstd::arithmetic::div_mod::lemma_div_is_ordered(
            num as int, ((UNIT * UNIT) as int) * (UNIT as int), 0x1_0000_0000);
        vstd::arithmetic::div_mod::lemma_div_multiples_vanish(
            UNIT as int, 0x1_0000_0000);
        assert(((UNIT * UNIT) as int) * (UNIT as int)
            == 0x1_0000_0000 * (UNIT as int)) by (nonlinear_arith);
    }
    q as i64
}

/// Fixed-point linear interpolation between two bounded values; the
/// result stays between the two endpoints.
fn lerp_fx(a: i64, b: i64, s: i64) -> (r: i64)
    requires
        -0x20_0000 <= a <= 0x20_0000,
        -0x20_0000 <= b <= 0x20_0000,
        0 <= s <= UNIT,
    ensures
        r == fxlerp(a as int, b as int, s as int),
        a <= b ==> a <= r <= b,
        b <= a ==> b <= r <= a,
{
    proof {
        if a <= b {
            assert(0 <= (s as int) * ((b as int) - (a as int))
                    <= (UNIT as int) * ((b as int) - (a as int)))
                by (nonlinear_arith)
                requires 0 <= (s as int) <= (UNIT as int) && (a as int) <= (b as int);
        } else {
            assert((UNIT as int) * ((b as int) - (a as int))
                    <= (s as int) * ((b as int) - (a as int)) <= 0)
                by (nonlinear_arith)
                requires 0 <= (s as int) <= (UNIT as int) && (b as int) <= (a as int);
        }
        assert(-0x400_0000_0000 <= (UNIT as int) * ((b as int) - (a as int))
                <= 0x400_0000_0000)
            by (nonlinear_arith)
            requires -0x40_0000 <= (b as int) - (a as int) <= 0x40_0000
                && UNIT == 0x1_0000;
    }
    let num: i64 = s * (b - a);
    let q: i128 = div_floor(num as i128, UNIT as i128);
    proof {
        vstd::arithmetic::div_mod::lemma_div_multiples_vanish(
            (b as int) - (a as int), UNIT as int);
        if a <= b {
            vstd::arithmetic::div_mod::lemma_div_is_ordered(0, num as int, UNIT as int);
            vstd::arithmetic::div_mod::lemma_div_is_ordered(
                num as int, (UNIT as int) * ((b as int) - (a as int)), UNIT as int);
            vstd::arithmetic::div_mod::lemma_div_basics(UNIT as int);
        } else {
            vstd::arithmetic::div_mod::lemma_div_is_ordered(
                (UNIT as int) * ((b as int) - (a as int)), num as int, UNIT as int);
            vstd::arithmetic::div_mod::lemma_div_is_ordered(num as int, 0, UNIT as int);
            vstd::arithmetic::div_mod::lemma_div_basics(UNIT as int);
        }
    }
    a + q as i64
}

/// The mixing hash, executable form.
fn mix(k: u64) -> (r: u64)
    ensures
        r == spec_mix(k),
{
    let a: u64 = k.wrapping_mul(MIX_M1);
    let b: u64 = a ^ (a >> 33);
    let c: u64 = b.wrapping_mul(MIX_M2);
    c ^ (c >> 29)
}

} // verus!
