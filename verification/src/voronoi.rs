//! A generalised Voronoi field: seed points whose rank-weighted distances
//! are added onto a height grid.
//!
//! For every vertex, the distances to all seeds are computed with a
//! pluggable metric, sorted ascending, and the weighted sum of the nearest
//! distances (in fixed point: `sum(w[i] * d[i]) / UNIT`) is added to the
//! stored height.

use vstd::prelude::*;
use vstd::relations::{sorted_by, total_ordering};
use vstd::seq_lib::lemma_sorted_unique;

use crate::heightmap::{Heightmap, lemma_index_bounds, lemma_index_injective};
use crate::num::{UNIT, div_floor, sat_of_i128, sat64, isqrt, isqrt_spec, lemma_isqrt_spec};
use crate::sampler::sample_range;

verus! {

/// Greatest distance a metric may report (a machine limit keeping the
/// weighted sums exactly representable).
pub const MAX_DIST: i64 = 0x1_0000_0000_0000;

/// The ascending order distances are sorted by.
pub open spec fn dist_le() -> spec_fn(i64, i64) -> bool {
    |a: i64, b: i64| a <= b
}

/// A pluggable distance function from a coordinate offset to a combined
/// distance. It may be the Euclidean metric or any perturbed variant; it
/// must be a pure function of the offset, bounded by `MAX_DIST`.
pub trait DistanceMetric {
    /// Offsets this metric accepts (a machine limit on magnitudes).
    spec fn in_domain(&self, dx: int, dy: int) -> bool;

    /// The distance assigned to offset `(dx, dy)`.
    spec fn spec_dist(&self, dx: int, dy: int) -> i64;

    /// Compute the distance for the given offset.
    fn dist(&self, dx: i64, dy: i64) -> (r: i64)
        requires
            self.in_domain(dx as int, dy as int),
        ensures
            r == self.spec_dist(dx as int, dy as int),
            -MAX_DIST <= r <= MAX_DIST,
    ;
}

/// The Euclidean metric, rounded to the fixed-point grid: the integer
/// square root of `dx^2 + dy^2`.
pub struct Euclidean;

impl DistanceMetric for Euclidean {
    open spec fn in_domain(&self, dx: int, dy: int) -> bool {
        -0x2000_0000_0000 <= dx <= 0x2000_0000_0000
            && -0x2000_0000_0000 <= dy <= 0x2000_0000_0000
    }

    open spec fn spec_dist(&self, dx: int, dy: int) -> i64 {
        isqrt_spec(dx * dx + dy * dy) as i64
    }

    fn dist(&self, dx: i64, dy: i64) -> (r: i64) {
        proof {
            assert(0 <= (dx as int) * (dx as int) <= 0x400_0000_0000_0000_0000_0000
                && 0 <= (dy as int) * (dy as int) <= 0x400_0000_0000_0000_0000_0000)
                by (nonlinear_arith)
                requires
                    -0x2000_0000_0000 <= dx as int <= 0x2000_0000_0000
                    && -0x2000_0000_0000 <= dy as int <= 0x2000_0000_0000;
        }
        let n: i128 = dx as i128 * dx as i128 + dy as i128 * dy as i128;
        let r64: u64 = isqrt(n as u128);
        proof {
            lemma_isqrt_spec(n as int);
            assert(r64 as int <= MAX_DIST) by (nonlinear_arith)
                requires
                    (r64 as int) * (r64 as int) <= n as int
                    && n as int <= 0x800_0000_0000_0000_0000_0000
                    && r64 as int >= 0
                    && MAX_DIST == 0x1_0000_0000_0000;
        }
        r64 as i64
    }
}

/// Distances from the point `(px, py)` to every seed, in seed order.
pub open spec fn seed_dists<D: DistanceMetric>(metric: D, seeds: Seq<(i64, i64)>,
    px: int, py: int) -> Seq<i64> {
    Seq::new(seeds.len(), |i: int| metric.spec_dist(seeds[i].0 - px, seeds[i].1 - py))
}

/// Every seed-to-vertex offset of the grid lies in the metric's domain
/// and in the scalar range.
pub open spec fn offsets_ok<D: DistanceMetric>(metric: D, seeds: Seq<(i64, i64)>,
    m: Heightmap) -> bool {
    forall|i: int, cx: int, cy: int|
        #![trigger seeds[i], m.coord_x(cx), m.coord_y(cy)]
        0 <= i < seeds.len() && m.valid_vertex(cx, cy)
        ==> {
            let dx = seeds[i].0 - m.coord_x(cx);
            let dy = seeds[i].1 - m.coord_y(cy);
            &&& i64::MIN <= dx <= i64::MAX
            &&& i64::MIN <= dy <= i64::MAX
            &&& metric.in_domain(dx, dy)
        }
}

/// Sum of the first `k` products `w[i] * d[i]` (exact integers).
pub open spec fn wsum_prefix(w: Seq<i64>, d: Seq<i64>, k: int) -> int
    decreases k,
{
    if k <= 0 {
        0
    } else {
        wsum_prefix(w, d, k - 1) + w[k - 1] * d[k - 1]
    }
}

/// A generalised Voronoi diagram generator.
pub struct Voronoi {
    points: Vec<(i64, i64)>,
}

impl Voronoi {
    /// The seed points, in construction order.
    pub closed spec fn seeds(self) -> Seq<(i64, i64)> {
        self.points@
    }

    /// Construct a new diagram with the given points (coordinates in the
    /// grid's physical coordinate space).
    pub fn with_points(points: Vec<(i64, i64)>) -> (r: Voronoi)
        ensures
            r.seeds() == points@,
    {
        Voronoi { points }
    }

    /// Construct a new diagram, generating `num` random points, sampled
    /// uniformly per axis from the grid's physical coordinate space
    /// `[0, size]`.
    pub fn random(m: &Heightmap, num: usize, rng: &mut rand::rngs::StdRng) -> (r: Voronoi)
        requires
            m.wf(),
        ensures
            r.seeds().len() == num,
            forall|i: int| 0 <= i < num ==> {
                &&& 0 <= (#[trigger] r.seeds()[i]).0 <= m.sx()
                &&& 0 <= r.seeds()[i].1 <= m.sy()
            },
    {
        let size = m.size();
        proof {
            m.lemma_wf();
        }
        let mut points: Vec<(i64, i64)> = Vec::new();
        let mut i: usize = 0;
        while i < num
            invariant
                i <= num,
                points@.len() == i,
                0 < size.0 as int == m.sx(),
                0 < size.1 as int == m.sy(),
                forall|j: int| 0 <= j < i ==> {
                    &&& 0 <= (#[trigger] points@[j]).0 <= m.sx()
                    &&& 0 <= points@[j].1 <= m.sy()
                },
            decreases num - i,
        {
            let x = sample_range(rng, 0, size.0);
            let y = sample_range(rng, 0, size.1);
            points.push((x, y));
            i = i + 1;
        }
        Voronoi { points }
    }

    /// Apply the field to a grid.
    ///
    /// The grid should be initialised to zero or an existing terrain: the
    /// operation is strictly additive. Every vertex's height grows by the
    /// weighted sum of its sorted seed distances,
    /// `sum(w[i] * sorted_d[i]) / UNIT` for `i` up to
    /// `min(|w|, number of seeds)`, saturated into the scalar range.
    pub fn apply_to<D: DistanceMetric>(&self, m: &mut Heightmap, w: &Vec<i64>, metric: &D)
        requires
            old(m).wf(),
            self.seeds().len() <= 0x1_0000,
            w@.len() <= 0x1_0000,
            forall|i: int| 0 <= i < w@.len()
                ==> -0x1_0000_0000_0000 <= #[trigger] w@[i] <= 0x1_0000_0000_0000,
            offsets_ok(*metric, self.seeds(), *old(m)),
        ensures
            final(m).wf(),
            final(m).same_frame(*old(m)),
            forall|cx: int, cy: int| old(m).valid_vertex(cx, cy)
                ==> #[trigger] final(m).at(cx, cy) as int == sat64(
                    old(m).at(cx, cy) + wsum_prefix(
                        w@,
                        seed_dists(*metric, self.seeds(),
                            old(m).coord_x(cx), old(m).coord_y(cy)).sort_by(dist_le()),
                        if w@.len() <= self.seeds().len() { w@.len() as int }
                            else { self.seeds().len() as int },
                    ) / (UNIT as int)),
    {
        let ghost m0 = *old(m);
        let np = self.points.len();
        let nw = if w.len() < np { w.len() } else { np };
        let (nx, ny) = m.dim();
        let mut iy: usize = 0;
        while iy < ny
            invariant
                iy <= ny,
                m.wf(),
                m.same_frame(m0),
                m.nx() == nx && m.ny() == ny,
                m0.wf(),
                np == self.seeds().len() <= 0x1_0000,
                w@.len() <= 0x1_0000,
                nw == if w@.len() <= np { w@.len() as int } else { np as int },
                forall|i: int| 0 <= i < w@.len()
                    ==> -0x1_0000_0000_0000 <= #[trigger] w@[i] <= 0x1_0000_0000_0000,
                offsets_ok(*metric, self.seeds(), m0),
                forall|cx: int, cy: int| m0.valid_vertex(cx, cy) && cy < iy
                    ==> #[trigger] m.at(cx, cy) as int == sat64(
                        m0.at(cx, cy) + wsum_prefix(
                            w@,
                            seed_dists(*metric, self.seeds(),
                                m0.coord_x(cx), m0.coord_y(cy)).sort_by(dist_le()),
                            nw as int,
                        ) / (UNIT as int)),
                forall|cx: int, cy: int| m0.valid_vertex(cx, cy) && cy >= iy
                    ==> #[trigger] m.at(cx, cy) == m0.at(cx, cy),
            decreases ny - iy,
        {
            let mut ix: usize = 0;
            while ix < nx
                invariant
                    ix <= nx,
                    iy < ny,
                    m.wf(),
                    m.same_frame(m0),
                    m.nx() == nx && m.ny() == ny,
                    m0.wf(),
                    np == self.seeds().len() <= 0x1_0000,
                    w@.len() <= 0x1_0000,
                    nw == if w@.len() <= np { w@.len() as int } else { np as int },
                    forall|i: int| 0 <= i < w@.len()
                        ==> -0x1_0000_0000_0000 <= #[trigger] w@[i] <= 0x1_0000_0000_0000,
                    offsets_ok(*metric, self.seeds(), m0),
                    forall|cx: int, cy: int| m0.valid_vertex(cx, cy)
                            && (cy < iy || (cy == iy && cx < ix))
                        ==> #[trigger] m.at(cx, cy) as int == sat64(
                            m0.at(cx, cy) + wsum_prefix(
                                w@,
                                seed_dists(*metric, self.seeds(),
                                    m0.coord_x(cx), m0.coord_y(cy)).sort_by(dist_le()),
                                nw as int,
                            ) / (UNIT as int)),
                    forall|cx: int, cy: int| m0.valid_vertex(cx, cy)
                            && (cy > iy || (cy == iy && cx >= ix))
                        ==> #[trigger] m.at(cx, cy) == m0.at(cx, cy),
                decreases nx - ix,
            {
                let (x, y) = m.coord_of(ix, iy);
                proof {
                    assert(m0.valid_vertex(ix as int, iy as int));
                    assert(x as int == m0.coord_x(ix as int));
                    assert(y as int == m0.coord_y(iy as int));
                }
                let ghost sd_orig = seed_dists(*metric, self.seeds(), x as int, y as int);

                // Distances to every seed, in seed order.
                let mut d: Vec<i64> = Vec::new();
                let mut i: usize = 0;
                while i < np
                    invariant
                        i <= np,
                        np == self.seeds().len(),
                        d@.len() == i,
                        m0.valid_vertex(ix as int, iy as int),
                        x as int == m0.coord_x(ix as int),
                        y as int == m0.coord_y(iy as int),
                        offsets_ok(*metric, self.seeds(), m0),
                        forall|j: int| 0 <= j < i ==> #[trigger] d@[j] == sd_orig[j],
                        forall|j: int| 0 <= j < i
                            ==> -MAX_DIST <= #[trigger] d@[j] <= MAX_DIST,
                        sd_orig == seed_dists(*metric, self.seeds(), x as int, y as int),
                    decreases np - i,
                {
                    let p = self.points[i];
                    let dx = p.0 - x;
                    let dy = p.1 - y;
                    let dist = metric.dist(dx, dy);
                    d.push(dist);
                    i = i + 1;
                }

                proof {
                    assert(d@ =~= sd_orig);
                }
                let ghost dpre = d@;
                sort_dists(&mut d);
                proof {
                    assert(total_ordering(dist_le()));
                    sd_orig.lemma_sort_by_ensures(dist_le());
                    lemma_sorted_unique(d@, sd_orig.sort_by(dist_le()), dist_le());
                    assert(d@ == sd_orig.sort_by(dist_le()));
                    lemma_sorted_bounds(dpre, d@);
                }

                // Weighted sum of the nearest distances.
                let mut acc: i128 = 0;
                let mut k: usize = 0;
                while k < nw
                    invariant
                        k <= nw,
                        nw <= 0x1_0000,
                        nw <= w@.len(),
                        nw <= d@.len(),
                        acc == wsum_prefix(w@, d@, k as int),
                        -0x1_0000_0000_0000_0000_0000_0000 * (k as int) <= acc
                            <= 0x1_0000_0000_0000_0000_0000_0000 * (k as int),
                        forall|j: int| 0 <= j < w@.len()
                            ==> -0x1_0000_0000_0000 <= #[trigger] w@[j] <= 0x1_0000_0000_0000,
                        forall|j: int| 0 <= j < d@.len()
                            ==> -MAX_DIST <= #[trigger] d@[j] <= MAX_DIST,
                    decreases nw - k,
                {
                    let wk = w[k];
                    let dk = d[k];
                    proof {
                        assert(-0x1_0000_0000_0000_0000_0000_0000
                                <= (wk as int) * (dk as int)
                                <= 0x1_0000_0000_0000_0000_0000_0000)
                            by (nonlinear_arith)
                            requires
                                -0x1_0000_0000_0000 <= wk as int <= 0x1_0000_0000_0000
                                && -0x1_0000_0000_0000 <= dk as int <= 0x1_0000_0000_0000;
                    }
                    acc = acc + wk as i128 * dk as i128;
                    k = k + 1;
                }

                let t128: i128 = div_floor(acc, UNIT as i128);
                let h = m.get(ix, iy);
                let v = sat_of_i128(h as i128 + t128);
                let ghost pre = *m;
                m.set(ix, iy, v);
                proof {
                    pre.lemma_wf();
                    lemma_index_bounds(nx as int, ny as int, ix as int, iy as int);
                    assert forall|cx: int, cy: int| m0.valid_vertex(cx, cy)
                            && !(cx == ix && cy == iy)
                        implies #[trigger] m.at(cx, cy) == pre.at(cx, cy) by {
                        lemma_index_bounds(nx as int, ny as int, cx, cy);
                        lemma_index_injective(
                            nx as int, ny as int, cx, cy, ix as int, iy as int);
                    };
                }
                ix = ix + 1;
            }
            iy = iy + 1;
        }
    }
}

/// At a vertex coincident with seed `i`, the nearest sorted Euclidean
/// distance is zero, and applying the single weight `UNIT` (the fixed-point
/// one) adds exactly nothing to the height there.
pub proof fn lemma_euclid_seed_zero(seeds: Seq<(i64, i64)>, i: int, px: int, py: int,
    w: Seq<i64>, h: i64)
    requires
        0 <= i < seeds.len(),
        seeds[i].0 == px,
        seeds[i].1 == py,
        forall|j: int| 0 <= j < seeds.len()
            ==> Euclidean.in_domain((#[trigger] seeds[j]).0 - px, seeds[j].1 - py),
        w.len() == 1,
        w[0] == UNIT,
    ensures
        seed_dists(Euclidean, seeds, px, py).sort_by(dist_le())[0] == 0,
        sat64(h + wsum_prefix(
            w, seed_dists(Euclidean, seeds, px, py).sort_by(dist_le()), 1)
            / (UNIT as int)) == h,
{
    broadcast use vstd::seq_lib::group_to_multiset_ensures;

    let ds = seed_dists(Euclidean, seeds, px, py);
    assert(ds[i] == 0) by {
        assert(seeds[i].0 - px == 0 && seeds[i].1 - py == 0);
        assert(isqrt_spec(0) == 0);
    };
    assert forall|j: int| 0 <= j < ds.len() implies #[trigger] ds[j] >= 0 by {
        let dx = seeds[j].0 - px;
        let dy = seeds[j].1 - py;
        assert(dx * dx + dy * dy >= 0) by (nonlinear_arith);
        lemma_isqrt_spec(dx * dx + dy * dy);
        assert(dx * dx + dy * dy <= 0x800_0000_0000_0000_0000_0000) by (nonlinear_arith)
            requires
                -0x2000_0000_0000 <= dx <= 0x2000_0000_0000
                && -0x2000_0000_0000 <= dy <= 0x2000_0000_0000;
        let r = isqrt_spec(dx * dx + dy * dy);
        assert(r <= 0x1_0000_0000_0000) by (nonlinear_arith)
            requires
                r * r <= 0x800_0000_0000_0000_0000_0000 && r >= 0;
    };
    assert(total_ordering(dist_le()));
    ds.lemma_sort_by_ensures(dist_le());
    let sorted = ds.sort_by(dist_le());
    assert(sorted.to_multiset() == ds.to_multiset());
    assert(sorted.len() == ds.len()) by {
        assert(sorted.to_multiset().len() == sorted.len());
        assert(ds.to_multiset().len() == ds.len());
    };
    assert(ds.contains(0i64)) by {
        assert(0 <= i < ds.len() && ds[i] == 0i64);
    };
    assert(ds.to_multiset().count(0i64) > 0);
    assert(sorted.to_multiset().count(0i64) > 0);
    assert(sorted.contains(0i64));
    let k = choose|k: int| 0 <= k < sorted.len() && sorted[k] == 0i64;
    assert forall|j: int| 0 <= j < sorted.len() implies #[trigger] sorted[j] >= 0 by {
        assert(sorted.to_multiset().count(sorted[j]) > 0);
        assert(ds.to_multiset().count(sorted[j]) > 0);
        assert(ds.contains(sorted[j]));
        let t = choose|t: int| 0 <= t < ds.len() && ds[t] == sorted[j];
        assert(ds[t] >= 0);
    };
    if k > 0 {
        assert(dist_le()(sorted[0], sorted[k]));
    }
    assert(sorted[0] == 0);
    assert(wsum_prefix(w, sorted, 0) == 0);
    assert(wsum_prefix(w, sorted, 1) == w[0] * sorted[0]);
    assert((UNIT as int) * 0 == 0) by (nonlinear_arith);
    assert(0int / (UNIT as int) == 0) by {
        vstd::arithmetic::div_mod::lemma_div_basics(UNIT as int);
    };
}

/// Elements of the sorted sequence carry the bounds of the unsorted
/// distance sequence.
proof fn lemma_sorted_bounds(orig: Seq<i64>, sorted: Seq<i64>)
    requires
        sorted.to_multiset() == orig.to_multiset(),
        forall|j: int| 0 <= j < orig.len() ==> -MAX_DIST <= #[trigger] orig[j] <= MAX_DIST,
    ensures
        forall|j: int| 0 <= j < sorted.len()
            ==> -MAX_DIST <= #[trigger] sorted[j] <= MAX_DIST,
{
    broadcast use vstd::seq_lib::group_to_multiset_ensures;

    assert forall|j: int| 0 <= j < sorted.len()
        implies -MAX_DIST <= #[trigger] sorted[j] <= MAX_DIST by {
        assert(sorted.to_multiset().contains(sorted[j]));
        assert(orig.to_multiset().contains(sorted[j]));
        assert(orig.contains(sorted[j]));
        let i = choose|i: int| 0 <= i < orig.len() && orig[i] == sorted[j];
    };
}

/// Sort a distance vector ascending (insertion sort), preserving its
/// multiset of values.
fn sort_dists(d: &mut Vec<i64>)
    ensures
        final(d)@.len() == old(d)@.len(),
        sorted_by(final(d)@, dist_le()),
        final(d)@.to_multiset() == old(d)@.to_multiset(),
{
    broadcast use vstd::seq_lib::to_multiset_update;
    broadcast use vstd::seq_lib::group_to_multiset_ensures;
    broadcast use vstd::multiset::group_multiset_axioms;

    let n = d.len();
    let mut i: usize = 1;
    while i < n
        invariant
            n == d@.len(),
            1 <= i,
            n > 1 ==> i <= n,
            d@.to_multiset() == old(d)@.to_multiset(),
            forall|a: int, b: int| 0 <= a < b < i && b < n ==> dist_le()(d@[a], d@[b]),
        decreases n - i,
    {
        let mut j: usize = i;
        while j > 0 && d[j - 1] > d[j]
            invariant
                0 <= j <= i < n,
                n == d@.len(),
                d@.to_multiset() == old(d)@.to_multiset(),
                forall|a: int, b: int|
                    0 <= a < b <= i && b != j ==> dist_le()(d@[a], d@[b]),
            decreases j,
        {
            let lo = d[j - 1];
            let hi = d[j];
            let ghost before = d@;
            d.set(j - 1, hi);
            d.set(j, lo);
            proof {
                assert(d@ =~= before.update(j - 1, hi).update(j as int, lo));
                let mid = before.update(j - 1, hi);
                assert(before[j - 1] == lo && mid[j as int] == hi);
                vstd::seq_lib::to_multiset_update(before, j - 1, hi);
                vstd::seq_lib::to_multiset_update(mid, j as int, lo);
                assert(before.contains(lo)) by {
                    assert(0 <= j - 1 < before.len() && before[j - 1] == lo);
                }
                vstd::seq_lib::to_multiset_contains(before, lo);
                assert(before.to_multiset().count(lo) > 0);
                assert(mid.to_multiset()
                    == before.to_multiset().insert(hi).remove(lo));
                assert(d@.to_multiset() == mid.to_multiset().insert(lo).remove(hi));
                assert(d@.to_multiset() =~= before.to_multiset());
                assert forall|a: int, b: int|
                    0 <= a < b <= i && b != j - 1 implies dist_le()(d@[a], d@[b]) by {
                    assert(dist_le()(lo, hi) == (lo <= hi));
                };
            }
            j = j - 1;
        }
        proof {
            assert forall|a: int, b: int| 0 <= a < b <= i implies dist_le()(d@[a], d@[b]) by {
                if b == j && j > 0 {
                    assert(dist_le()(d@[j - 1], d@[j as int]));
                    if a < j - 1 {
                        assert(dist_le()(d@[a], d@[j - 1]));
                    }
                }
            };
        }
        i = i + 1;
    }
    proof {
        if n > 0 {
            assert(forall|a: int, b: int|
                0 <= a < b < n ==> dist_le()(d@[a], d@[b]));
        }
        assert(sorted_by(d@, dist_le()));
    }
}

} // verus!
