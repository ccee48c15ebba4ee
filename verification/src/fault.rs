//! Fault-line displacement: raise or lower terrain on the two sides of a
//! randomly sampled straight line according to a distance-based profile.
//!
//! The line is given by a near-unit direction `v` and a point `p`; each
//! vertex's signed distance to the line is the dot product of the offset
//! from `p` against `v`, and its height changes by the profile's value at
//! that distance. The profile is a caller obligation: it should evaluate
//! to `0` outside the fault's width interval, which makes every vertex
//! whose distance falls outside that interval provably unchanged.

use vstd::prelude::*;

use crate::heightmap::{Heightmap, lemma_index_bounds, lemma_index_injective};
use crate::num::{UNIT, div_floor, isqrt, sat_add, sat_of_i128, sat64};
use crate::sampler::{near_unit, sample_range, unit_dir};

verus! {

/// A displacement profile: a pure function from a signed distance to a
/// height delta.
pub trait FaultProfile {
    /// The height delta assigned to signed distance `d`.
    spec fn spec_value(&self, d: i64) -> i64;

    /// Evaluate the profile.
    fn value(&self, d: i64) -> (r: i64)
        ensures
            r == self.spec_value(d),
    ;
}

/// A rectangular profile: a constant `height` on `[w_min, w_max]`, zero
/// outside — the simplest profile honouring the fault-width contract.
pub struct StepProfile {
    /// Lower edge of the fault width interval.
    pub w_min: i64,
    /// Upper edge of the fault width interval.
    pub w_max: i64,
    /// The height delta applied inside the interval.
    pub height: i64,
}

impl FaultProfile for StepProfile {
    open spec fn spec_value(&self, d: i64) -> i64 {
        if self.w_min <= d <= self.w_max {
            self.height
        } else {
            0
        }
    }

    fn value(&self, d: i64) -> (r: i64) {
        if self.w_min <= d && d <= self.w_max {
            self.height
        } else {
            0
        }
    }
}

/// Signed distance of the vertex coordinate `(x, y)` to the line through
/// `(px, py)` with direction `(vx, vy)`: the fixed-point dot product,
/// saturated into the scalar range.
pub open spec fn line_dist(vx: i64, vy: i64, px: i64, py: i64, x: int, y: int) -> i64 {
    sat64(((x - px) * vx + (y - py) * vy) / (UNIT as int)) as i64
}

/// `post` is `pre` displaced along the given fault line with `profile`:
/// every vertex's height has grown by the profile's value at the vertex's
/// signed distance to the line.
pub open spec fn fault_applied<P: FaultProfile>(pre: Heightmap, post: Heightmap,
    profile: P, vx: i64, vy: i64, px: i64, py: i64) -> bool {
    &&& post.wf()
    &&& post.same_frame(pre)
    &&& forall|cx: int, cy: int| pre.valid_vertex(cx, cy)
        ==> #[trigger] post.at(cx, cy) as int == sat64(
            pre.at(cx, cy)
            + profile.spec_value(line_dist(vx, vy, px, py, pre.coord_x(cx), pre.coord_y(cy))))
}

/// Displace the grid along the given fault line.
///
/// Deterministic core of `fault_displacement`: every vertex's height grows
/// by `profile(d)` for its signed distance `d` to the line. In particular
/// any vertex whose distance the profile maps to `0` keeps its height.
pub fn fault_displacement_along<P: FaultProfile>(m: &mut Heightmap, vx: i64, vy: i64,
    px: i64, py: i64, profile: &P)
    requires
        old(m).wf(),
        -UNIT <= vx <= UNIT,
        -UNIT <= vy <= UNIT,
    ensures
        fault_applied(*old(m), *final(m), *profile, vx, vy, px, py),
        forall|cx: int, cy: int|
            old(m).valid_vertex(cx, cy)
                && profile.spec_value(line_dist(vx, vy, px, py,
                    old(m).coord_x(cx), old(m).coord_y(cy))) == 0
            ==> #[trigger] final(m).at(cx, cy) == old(m).at(cx, cy),
{
    let ghost m0 = *old(m);
    let (nx, ny) = m.dim();
    let mut iy: usize = 0;
    while iy < ny
        invariant
            iy <= ny,
            m.wf(),
            m.same_frame(m0),
            m.nx() == nx && m.ny() == ny,
            m0.wf(),
            -UNIT <= vx <= UNIT,
            -UNIT <= vy <= UNIT,
            forall|cx: int, cy: int| m0.valid_vertex(cx, cy) && cy < iy
                ==> #[trigger] m.at(cx, cy) as int == sat64(
                    m0.at(cx, cy) + profile.spec_value(
                        line_dist(vx, vy, px, py, m0.coord_x(cx), m0.coord_y(cy)))),
            forall|cx: int, cy: int| m0.valid_vertex(cx, cy) && cy >= iy
                ==> #[trigger] m.at(cx, cy) == m0.at(cx, cy),
        decreases ny - iy,
    {
        let mut ix: usize = 0;
        while ix < nx
            invariant
                ix <= nx,
                iy < ny,
                m.wf(),
                m.same_frame(m0),
                m.nx() == nx && m.ny() == ny,
                m0.wf(),
                -UNIT <= vx <= UNIT,
                -UNIT <= vy <= UNIT,
                forall|cx: int, cy: int| m0.valid_vertex(cx, cy)
                        && (cy < iy || (cy == iy && cx < ix))
                    ==> #[trigger] m.at(cx, cy) as int == sat64(
                        m0.at(cx, cy) + profile.spec_value(
                            line_dist(vx, vy, px, py, m0.coord_x(cx), m0.coord_y(cy)))),
                forall|cx: int, cy: int| m0.valid_vertex(cx, cy)
                        && (cy > iy || (cy == iy && cx >= ix))
                    ==> #[trigger] m.at(cx, cy) == m0.at(cx, cy),
            decreases nx - ix,
        {
            let (x, y) = m.coord_of(ix, iy);
            proof {
                assert(m0.valid_vertex(ix as int, iy as int));
                assert(x as int == m0.coord_x(ix as int));
                assert(y as int == m0.coord_y(iy as int));
            }
            let ddx: i128 = x as i128 - px as i128;
            let ddy: i128 = y as i128 - py as i128;
            proof {
                assert(-0x20_0000_0000_0000_0000_0000
                        <= ddx as int * (vx as int) <= 0x20_0000_0000_0000_0000_0000
                    && -0x20_0000_0000_0000_0000_0000
                        <= ddy as int * (vy as int) <= 0x20_0000_0000_0000_0000_0000)
                    by (nonlinear_arith)
                    requires
                        -0x2_0000_0000_0000_0000 <= (ddx as int) <= 0x2_0000_0000_0000_0000
                        && -0x2_0000_0000_0000_0000 <= (ddy as int) <= 0x2_0000_0000_0000_0000
                        && -0x1_0000 <= (vx as int) <= 0x1_0000
                        && -0x1_0000 <= (vy as int) <= 0x1_0000;
            }
            let dot: i128 = ddx * (vx as i128) + ddy * (vy as i128);
            let dq: i128 = div_floor(dot, UNIT as i128);
            proof {
                vstd::arithmetic::div_mod::lemma_div_is_ordered(
                    -0x40_0000_0000_0000_0000_0000, dot as int, UNIT as int);
                vstd::arithmetic::div_mod::lemma_div_is_ordered(
                    dot as int, 0x40_0000_0000_0000_0000_0000, UNIT as int);
            }
            let d: i64 = sat_of_i128(dq);
            let h = m.get(ix, iy);
            let v = sat_add(h, profile.value(d));
            let ghost pre = *m;
            m.set(ix, iy, v);
            proof {
                pre.lemma_wf();
                lemma_index_bounds(nx as int, ny as int, ix as int, iy as int);
                assert forall|cx: int, cy: int| m0.valid_vertex(cx, cy)
                        && !(cx == ix && cy == iy)
                    implies #[trigger] m.at(cx, cy) == pre.at(cx, cy) by {
                    lemma_index_bounds(nx as int, ny as int, cx, cy);
                    lemma_index_injective(nx as int, ny as int, cx, cy, ix as int, iy as int);
                };
            }
            ix = ix + 1;
        }
        iy = iy + 1;
    }
}

/// Half the diagonal of the grid's physical extents, rounded to the
/// fixed-point grid.
pub open spec fn half_diag(m: Heightmap) -> int {
    crate::num::isqrt_spec(m.sx() * m.sx() + m.sy() * m.sy()) / 2
}

/// Displace terrain via a random fault-line.
///
/// Samples a near-unit direction `v` and a perpendicular offset within
/// `[width.0 - r, width.1 + r]` for the half diagonal `r`, then applies
/// `profile` at every vertex's signed distance to the line through
/// `centre + offset * v`. Whatever line was drawn, the grid ends up
/// exactly displaced along it, and the `ensures` pins the direction's
/// near-unit norm, the offset's interval and the line point's
/// construction — the facts behind the fault's coverage guarantee that
/// part of the grid can be affected whenever `width.0` is at most `r`.
pub fn fault_displacement<P: FaultProfile>(m: &mut Heightmap, rng: &mut rand::rngs::StdRng,
    width: (i64, i64), profile: &P)
    requires
        old(m).wf(),
        -0x100_0000_0000 <= width.0 <= width.1 <= 0x100_0000_0000,
    ensures
        final(m).wf(),
        final(m).same_frame(*old(m)),
        exists|vx: i64, vy: i64, off: i64|
            #[trigger] fault_applied(*old(m), *final(m), *profile, vx, vy,
                (old(m).sx() / 2 + (off * vx) / (UNIT as int)) as i64,
                (old(m).sy() / 2 + (off * vy) / (UNIT as int)) as i64)
            && near_unit((vx, vy))
            && width.0 - half_diag(*old(m)) <= off <= width.1 + half_diag(*old(m)),
{
    proof {
        m.lemma_wf();
    }
    let size = m.size();
    let (vx, vy) = unit_dir(rng);
    proof {
        assert((size.0 as int) * (size.0 as int) < 0x1_0000_0000_0000_0000_0000_0000
            && (size.1 as int) * (size.1 as int) < 0x1_0000_0000_0000_0000_0000_0000)
            by (nonlinear_arith)
            requires
                0 < (size.0 as int) < 0x1_0000_0000_0000
                && 0 < (size.1 as int) < 0x1_0000_0000_0000;
    }
    let r2: u128 = (size.0 as u128) * (size.0 as u128) + (size.1 as u128) * (size.1 as u128);
    let radius: i64 = (isqrt(r2) / 2) as i64;
    proof {
        crate::num::lemma_isqrt_spec(r2 as int);
        let rt = crate::num::isqrt_spec(r2 as int);
        assert(rt <= 0x2_0000_0000_0000) by (nonlinear_arith)
            requires
                rt * rt <= 0x2_0000_0000_0000_0000_0000_0000 && rt >= 0;
    }
    let offset = sample_range(rng, width.0 - radius, width.1 + radius);
    proof {
        assert(-0x2_0000_0000_0000_0000 <= (offset as int) * (vx as int)
                <= 0x2_0000_0000_0000_0000
            && -0x2_0000_0000_0000_0000 <= (offset as int) * (vy as int)
                <= 0x2_0000_0000_0000_0000)
            by (nonlinear_arith)
            requires
                -0x2_0000_0000_0000 <= (offset as int) <= 0x2_0000_0000_0000
                && -0x1_0000 <= (vx as int) <= 0x1_0000
                && -0x1_0000 <= (vy as int) <= 0x1_0000;
    }
    let ox: i128 = div_floor(offset as i128 * vx as i128, UNIT as i128);
    let oy: i128 = div_floor(offset as i128 * vy as i128, UNIT as i128);
    proof {
        vstd::arithmetic::div_mod::lemma_div_is_ordered(
            -0x2_0000_0000_0000_0000, (offset as int) * (vx as int), UNIT as int);
        vstd::arithmetic::div_mod::lemma_div_is_ordered(
            (offset as int) * (vx as int), 0x2_0000_0000_0000_0000, UNIT as int);
        vstd::arithmetic::div_mod::lemma_div_is_ordered(
            -0x2_0000_0000_0000_0000, (offset as int) * (vy as int), UNIT as int);
        vstd::arithmetic::div_mod::lemma_div_is_ordered(
            (offset as int) * (vy as int), 0x2_0000_0000_0000_0000, UNIT as int);
    }
    let px: i64 = ((size.0 as u64) / 2) as i64 + ox as i64;
    let py: i64 = ((size.1 as u64) / 2) as i64 + oy as i64;
    let ghost m0 = *m;
    fault_displacement_along(m, vx, vy, px, py, profile);
    proof {
        assert(px as int == m0.sx() / 2 + (offset * vx) / (UNIT as int));
        assert(py as int == m0.sy() / 2 + (offset * vy) / (UNIT as int));
        assert(px == (m0.sx() / 2 + (offset * vx) / (UNIT as int)) as i64);
        assert(py == (m0.sy() / 2 + (offset * vy) / (UNIT as int)) as i64);
        assert(radius as int == half_diag(m0));
        assert(fault_applied(m0, *m, *profile, vx, vy,
                (m0.sx() / 2 + (offset * vx) / (UNIT as int)) as i64,
                (m0.sy() / 2 + (offset * vy) / (UNIT as int)) as i64)
            && near_unit((vx, vy))
            && width.0 - half_diag(m0) <= offset <= width.1 + half_diag(m0));
    }
}

} // verus!
