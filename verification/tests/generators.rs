//! Tests for the generation algorithms and the ray-cast query.

use rand::SeedableRng;

use terrain::displacement::{Error, diamond_square, midpoint_displacement};
use terrain::fault::{StepProfile, fault_displacement, fault_displacement_along};
use terrain::heightmap::Heightmap;
use terrain::height::{Height, NoiseLayer, Plain};
use terrain::num::{UNIT, isqrt};
use terrain::perlin::{Perlin, PerlinError};
use terrain::raycast::Ray;
use terrain::sampler::{Sampler, UniformSampler, ZeroSampler};
use terrain::unbounded::{Flat, UnboundedSurface};
use terrain::voronoi::{DistanceMetric, Euclidean, Voronoi};

fn rng(seed: u64) -> rand::rngs::StdRng {
    rand::rngs::StdRng::seed_from_u64(seed)
}

fn range_oracle(m: &Heightmap) -> (i64, i64) {
    let (nx, ny) = m.dim();
    let mut mn = i64::MAX;
    let mut mx = i64::MIN;
    for cy in 0..ny {
        for cx in 0..nx {
            let v = m.get(cx, cy);
            mn = mn.min(v);
            mx = mx.max(v);
        }
    }
    (mn, mx)
}

#[test]
fn diamond_square_rejects_bad_grids() {
    let mut m = Heightmap::new_flat((4, 5), (UNIT, UNIT));
    assert_eq!(diamond_square(&mut m, 0, &mut ZeroSampler), Err(Error::NotSquare));
    let mut m = Heightmap::new_flat((6, 6), (UNIT, UNIT));
    assert_eq!(diamond_square(&mut m, 0, &mut ZeroSampler), Err(Error::NotPowerOf2Plus1));
    let mut m = Heightmap::new_flat((1, 1), (UNIT, UNIT));
    assert_eq!(diamond_square(&mut m, 0, &mut ZeroSampler), Err(Error::NotPowerOf2Plus1));
    let mut m = Heightmap::new_flat((2, 2), (UNIT, UNIT));
    assert_eq!(diamond_square(&mut m, 0, &mut ZeroSampler), Ok(()));
}

#[test]
fn midpoint_rejects_bad_grids() {
    let mut m = Heightmap::new_flat((3, 5), (UNIT, UNIT));
    assert_eq!(midpoint_displacement(&mut m, 0, &mut ZeroSampler), Err(Error::NotSquare));
    let mut m = Heightmap::new_flat((7, 7), (UNIT, UNIT));
    assert_eq!(
        midpoint_displacement(&mut m, 0, &mut ZeroSampler),
        Err(Error::NotPowerOf2Plus1)
    );
}

#[test]
fn diamond_square_zero_distribution_keeps_zero_grid() {
    // A 5x5 grid (side 2^2 + 1) with all four corners zero, run with the
    // constant-zero distribution over all levels: every vertex stays 0.
    let mut m = Heightmap::new_flat((5, 5), (4 * UNIT, 4 * UNIT));
    assert_eq!(diamond_square(&mut m, 0, &mut ZeroSampler), Ok(()));
    for cy in 0..5 {
        for cx in 0..5 {
            assert_eq!(m.get(cx, cy), 0);
        }
    }
}

#[test]
fn midpoint_zero_distribution_keeps_zero_grid() {
    let mut m = Heightmap::new_flat((5, 5), (4 * UNIT, 4 * UNIT));
    assert_eq!(midpoint_displacement(&mut m, 0, &mut ZeroSampler), Ok(()));
    for cy in 0..5 {
        for cx in 0..5 {
            assert_eq!(m.get(cx, cy), 0);
        }
    }
}

#[test]
fn midpoint_zero_distribution_sweeps_unequal_corners() {
    // 3x3 grid, corners 5, 0, 0, 3: the zero-variance sweep sets each
    // edge midpoint to the floor-average of its two adjacent corners and
    // the centre to the floor-average of the four fresh midpoints.
    let mut m = Heightmap::new_flat((3, 3), (2 * UNIT, 2 * UNIT));
    m.set(0, 0, 5);
    m.set(2, 0, 0);
    m.set(0, 2, 0);
    m.set(2, 2, 3);
    assert_eq!(midpoint_displacement(&mut m, 0, &mut ZeroSampler), Ok(()));
    assert_eq!(m.get(0, 1), 2); // avg(5, 0)
    assert_eq!(m.get(2, 1), 1); // avg(0, 3)
    assert_eq!(m.get(1, 0), 2); // avg(5, 0)
    assert_eq!(m.get(1, 2), 1); // avg(0, 3)
    assert_eq!(m.get(1, 1), 1); // avg(2, 1, 2, 1) floored
    assert_eq!(m.get(0, 0), 5);
    assert_eq!(m.get(2, 2), 3);
}

#[test]
fn diamond_square_zero_distribution_sweeps_unequal_corners() {
    // Same corners under diamond-square: the centre averages the four
    // corners first, then each square point averages its two adjacent
    // corners and the available centre (three-way at the boundary).
    let mut m = Heightmap::new_flat((3, 3), (2 * UNIT, 2 * UNIT));
    m.set(0, 0, 5);
    m.set(2, 0, 0);
    m.set(0, 2, 0);
    m.set(2, 2, 3);
    assert_eq!(diamond_square(&mut m, 0, &mut ZeroSampler), Ok(()));
    assert_eq!(m.get(1, 1), 2); // avg(5, 0, 0, 3)
    assert_eq!(m.get(0, 1), 2); // avg(5, 0, 2) floored
    assert_eq!(m.get(1, 0), 2); // avg(5, 0, 2) floored
    assert_eq!(m.get(1, 2), 1); // avg(0, 3, 2) floored
    assert_eq!(m.get(2, 1), 1); // avg(0, 3, 2) floored
    assert_eq!(m.get(0, 0), 5);
    assert_eq!(m.get(2, 2), 3);
}

#[test]
fn zero_distribution_reproduces_bilinear_interpolation_of_equal_corners() {
    // Equal corners make the bilinear interpolant constant; with a
    // zero-variance distribution both algorithms must reproduce it
    // exactly at every vertex.
    let mut m = Heightmap::from_surface((9, 9), (8 * UNIT, 8 * UNIT), &Flat::new(3 * UNIT));
    assert_eq!(diamond_square(&mut m, 0, &mut ZeroSampler), Ok(()));
    for cy in 0..9 {
        for cx in 0..9 {
            assert_eq!(m.get(cx, cy), 3 * UNIT);
        }
    }
    let mut m = Heightmap::from_surface((9, 9), (8 * UNIT, 8 * UNIT), &Flat::new(3 * UNIT));
    assert_eq!(midpoint_displacement(&mut m, 0, &mut ZeroSampler), Ok(()));
    for cy in 0..9 {
        for cx in 0..9 {
            assert_eq!(m.get(cx, cy), 3 * UNIT);
        }
    }
}

#[test]
fn displacement_leaves_corners_unchanged() {
    for algo in 0..2 {
        let mut m = Heightmap::new_flat((5, 5), (4 * UNIT, 4 * UNIT));
        m.set(0, 0, 10 * UNIT);
        m.set(4, 0, -5 * UNIT);
        m.set(0, 4, 3 * UNIT);
        m.set(4, 4, UNIT / 2);
        let mut s = UniformSampler::new(7, UNIT);
        let r = if algo == 0 {
            diamond_square(&mut m, 0, &mut s)
        } else {
            midpoint_displacement(&mut m, 0, &mut s)
        };
        assert_eq!(r, Ok(()));
        assert_eq!(m.get(0, 0), 10 * UNIT);
        assert_eq!(m.get(4, 0), -5 * UNIT);
        assert_eq!(m.get(0, 4), 3 * UNIT);
        assert_eq!(m.get(4, 4), UNIT / 2);
        assert_eq!(m.range(), range_oracle(&m));
    }
}

#[test]
fn displacement_is_deterministic_for_a_fixed_seed() {
    let mut a = Heightmap::new_flat((5, 5), (4 * UNIT, 4 * UNIT));
    let mut b = Heightmap::new_flat((5, 5), (4 * UNIT, 4 * UNIT));
    let mut sa = UniformSampler::new(42, UNIT);
    let mut sb = UniformSampler::new(42, UNIT);
    assert_eq!(diamond_square(&mut a, 0, &mut sa), Ok(()));
    assert_eq!(diamond_square(&mut b, 0, &mut sb), Ok(()));
    for cy in 0..5 {
        for cx in 0..5 {
            assert_eq!(a.get(cx, cy), b.get(cx, cy));
        }
    }
}

#[test]
fn fault_vertices_outside_width_are_unchanged() {
    // Line through (UNIT, 0) with direction (1, 0): the signed distance of
    // a vertex is x - UNIT. The profile is nonzero only on [0, 0], so only
    // the x == UNIT column moves.
    let mut m = Heightmap::new_flat((3, 3), (2 * UNIT, 2 * UNIT));
    let profile = StepProfile { w_min: 0, w_max: 0, height: 7 * UNIT };
    fault_displacement_along(&mut m, UNIT, 0, UNIT, 0, &profile);
    for cy in 0..3 {
        assert_eq!(m.get(0, cy), 0);
        assert_eq!(m.get(1, cy), 7 * UNIT);
        assert_eq!(m.get(2, cy), 0);
    }
    assert_eq!(m.range(), range_oracle(&m));
}

#[test]
fn random_fault_keeps_frame_and_range_invariant() {
    let mut m = Heightmap::new_flat((5, 5), (4 * UNIT, 4 * UNIT));
    let mut r = rng(3);
    let profile = StepProfile { w_min: -UNIT, w_max: UNIT, height: 2 * UNIT };
    fault_displacement(&mut m, &mut r, (-UNIT, UNIT), &profile);
    assert_eq!(m.dim(), (5, 5));
    assert_eq!(m.range(), range_oracle(&m));
    // A step profile can only add 0 or its height.
    for cy in 0..5 {
        for cx in 0..5 {
            let v = m.get(cx, cy);
            assert!(v == 0 || v == 2 * UNIT);
        }
    }
}

#[test]
fn voronoi_adds_zero_at_a_seed_vertex() {
    // Seed at the origin vertex, weights [1]: the nearest sorted distance
    // there is 0, so nothing is added at the seed itself.
    let mut m = Heightmap::new_flat((3, 3), (2 * UNIT, 2 * UNIT));
    let v = Voronoi::with_points(vec![(0, 0)]);
    v.apply_to(&mut m, &vec![UNIT], &Euclidean);
    assert_eq!(m.get(0, 0), 0);
    // One grid step away the Euclidean distance is exactly one unit.
    assert_eq!(m.get(1, 0), UNIT);
    // Diagonal: sqrt(2) units, rounded down to the fixed-point grid.
    let diag = isqrt(2 * (UNIT as u128) * (UNIT as u128)) as i64;
    assert_eq!(m.get(1, 1), diag);
    assert_eq!(m.range(), range_oracle(&m));
}

#[test]
fn voronoi_weighted_sum_uses_sorted_distances() {
    // Two seeds; weight only the nearest: each vertex gains its distance
    // to the closer seed.
    let mut m = Heightmap::new_flat((3, 1), (2 * UNIT, UNIT));
    let v = Voronoi::with_points(vec![(0, 0), (2 * UNIT, 0)]);
    v.apply_to(&mut m, &vec![UNIT], &Euclidean);
    assert_eq!(m.get(0, 0), 0);
    assert_eq!(m.get(1, 0), UNIT);
    assert_eq!(m.get(2, 0), 0);
}

#[test]
fn voronoi_random_seeds_apply() {
    let mut m = Heightmap::new_flat((3, 3), (2 * UNIT, 2 * UNIT));
    let mut r = rng(9);
    let v = Voronoi::random(&m, 4, &mut r);
    v.apply_to(&mut m, &vec![UNIT], &Euclidean);
    // Euclidean distances are non-negative, so no height can drop.
    assert!(m.range().0 >= 0);
    assert_eq!(m.range(), range_oracle(&m));
}

#[test]
fn euclidean_metric_exact_values() {
    assert_eq!(Euclidean.dist(3, 4), 5);
    assert_eq!(Euclidean.dist(0, 0), 0);
    assert_eq!(Euclidean.dist(-3, 4), 5);
    assert_eq!(Euclidean.dist(UNIT, 0), UNIT);
}

#[test]
fn perlin_rejects_non_power_of_two() {
    assert!(matches!(
        Perlin::with_gradients(UNIT, vec![(UNIT, 0), (0, UNIT), (-UNIT, 0)]),
        Err(PerlinError::NotPowerOf2)
    ));
    assert!(matches!(
        Perlin::with_gradients(UNIT, vec![]),
        Err(PerlinError::NotPowerOf2)
    ));
    let mut r = rng(5);
    assert!(matches!(Perlin::new(UNIT, 12, &mut r), Err(PerlinError::NotPowerOf2)));
    assert!(Perlin::new(UNIT, 8, &mut r).is_ok());
}

#[test]
fn perlin_is_zero_on_lattice_points() {
    // With scale one, integer lattice points are exactly the multiples of
    // UNIT; the gradient dot product with a zero offset vanishes there.
    let p = Perlin::with_gradients(
        UNIT,
        vec![(UNIT, 0), (0, UNIT), (-UNIT, 0), (0, -UNIT)],
    )
    .unwrap();
    assert_eq!(p.get(0, 0), 0);
    assert_eq!(p.get(UNIT, 0), 0);
    assert_eq!(p.get(-3 * UNIT, 2 * UNIT), 0);
}

#[test]
fn perlin_sampling_is_pure_and_bounded() {
    let p = Perlin::with_gradients(
        2 * UNIT,
        vec![(UNIT, 0), (0, UNIT), (-UNIT, 0), (0, -UNIT)],
    )
    .unwrap();
    let a = p.get(UNIT / 3, UNIT / 5);
    let b = p.get(UNIT / 3, UNIT / 5);
    assert_eq!(a, b);
    assert!(a.abs() <= 4 * UNIT);
}

#[test]
fn perlin_octaves_sum_into_a_grid() {
    let mut r = rng(11);
    let p = Perlin::new(UNIT, 8, &mut r).unwrap();
    let mut m = Heightmap::new_flat((5, 5), (4 * UNIT, 4 * UNIT));
    m.add_surface(&p, UNIT);
    assert_eq!(m.range(), range_oracle(&m));
}

#[test]
fn ray_hits_flat_grid_at_exact_parameter() {
    // A single-cell flat grid at height zero; a ray pointing straight
    // down from height one hits the surface at parameter one exactly.
    let m = Heightmap::new_flat((2, 2), (2 * UNIT, 2 * UNIT));
    let ray = Ray { origin: (UNIT, UNIT, UNIT), dir: (0, 0, -UNIT) };
    let hit = m.ray_intersect(&ray).expect("ray must hit the surface");
    assert_eq!(hit.toi, UNIT);
    assert_eq!(hit.cell, (0, 0));
    assert!(!hit.second);
}

#[test]
fn ray_respects_triangle_split() {
    // Below the diagonal (x > y) only the second triangle covers the
    // point.
    let m = Heightmap::new_flat((2, 2), (2 * UNIT, 2 * UNIT));
    let ray = Ray { origin: (UNIT + UNIT / 2, UNIT / 2, 3 * UNIT), dir: (0, 0, -UNIT) };
    let hit = m.ray_intersect(&ray).expect("ray must hit the surface");
    assert_eq!(hit.toi, 3 * UNIT);
    assert!(hit.second);
}

#[test]
fn ray_outside_grid_misses() {
    let m = Heightmap::new_flat((2, 2), (2 * UNIT, 2 * UNIT));
    let away = Ray { origin: (5 * UNIT, 5 * UNIT, UNIT), dir: (0, 0, -UNIT) };
    assert!(m.ray_intersect(&away).is_none());
    let upward = Ray { origin: (UNIT, UNIT, UNIT), dir: (0, 0, UNIT) };
    assert!(m.ray_intersect(&upward).is_none());
}

#[test]
fn ray_picks_nearest_of_several_cells() {
    // A 3x3 grid with one raised column: a grazing ray from above the
    // raised vertex going straight down must report that vertex's cell.
    let mut m = Heightmap::new_flat((3, 3), (2 * UNIT, 2 * UNIT));
    m.set(1, 1, UNIT);
    let ray = Ray { origin: (UNIT, UNIT, 3 * UNIT), dir: (0, 0, -UNIT) };
    let hit = m.ray_intersect(&ray).expect("ray must hit the raised vertex");
    assert_eq!(hit.toi, 2 * UNIT);
}

#[test]
fn plain_and_noise_layers() {
    let mut zs = ZeroSampler;
    let plain = Plain::new();
    assert_eq!(plain.sample(3 * UNIT, -2 * UNIT, &mut zs), 0);
    let layered = NoiseLayer::new(UNIT, Plain::new());
    assert_eq!(layered.sample(0, 0, &mut zs), 0);
    let mut us = UniformSampler::new(13, UNIT);
    let noisy = layered.sample(0, 0, &mut us);
    assert!(noisy.abs() <= UNIT);
}

#[test]
fn full_pipeline_keeps_grid_invariants() {
    // Fractal roughening, a Voronoi pass, a noise octave and a fault, in
    // sequence; the cached range must stay the true min/max throughout
    // and the grid frame must never change.
    let mut m = Heightmap::new_flat((9, 9), (8 * UNIT, 8 * UNIT));
    m.set(0, 0, 2 * UNIT);
    m.set(8, 8, -2 * UNIT);
    let mut s = UniformSampler::new(21, UNIT / 2);
    assert_eq!(diamond_square(&mut m, 0, &mut s), Ok(()));
    assert_eq!(m.range(), range_oracle(&m));

    let mut r = rng(22);
    let v = Voronoi::random(&m, 3, &mut r);
    v.apply_to(&mut m, &vec![UNIT, UNIT / 2], &Euclidean);
    assert_eq!(m.range(), range_oracle(&m));

    let p = Perlin::new(2 * UNIT, 16, &mut r).unwrap();
    m.add_surface(&p, UNIT / 2);
    assert_eq!(m.range(), range_oracle(&m));

    let profile = StepProfile { w_min: 0, w_max: 2 * UNIT, height: UNIT };
    fault_displacement(&mut m, &mut r, (0, 2 * UNIT), &profile);
    assert_eq!(m.dim(), (9, 9));
    assert_eq!(m.size(), (8 * UNIT, 8 * UNIT));
    assert_eq!(m.range(), range_oracle(&m));
}

#[test]
fn zero_sampler_always_returns_zero() {
    let mut zs = ZeroSampler;
    assert_eq!(zs.sample(0), 0);
    assert_eq!(zs.sample(5 * UNIT), 0);
}
