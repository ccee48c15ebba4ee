//! Tests for the height grid, the fixed-point toolkit and plain surfaces.

use terrain::heightmap::Heightmap;
use terrain::num::{UNIT, avg2, avg3, avg4, div_floor, isqrt, sat_add};
use terrain::unbounded::{Flat, UnboundedSurface};

fn range_oracle(m: &Heightmap) -> (i64, i64) {
    let (nx, ny) = m.dim();
    let mut mn = i64::MAX;
    let mut mx = i64::MIN;
    for cy in 0..ny {
        for cx in 0..nx {
            let v = m.get(cx, cy);
            mn = mn.min(v);
            mx = mx.max(v);
        }
    }
    (mn, mx)
}

#[test]
fn sat_add_basics() {
    assert_eq!(sat_add(2, 3), 5);
    assert_eq!(sat_add(-2, -3), -5);
    assert_eq!(sat_add(i64::MAX, 1), i64::MAX);
    assert_eq!(sat_add(i64::MIN, -1), i64::MIN);
    assert_eq!(sat_add(i64::MAX, i64::MIN), -1);
}

#[test]
fn division_rounds_toward_negative_infinity() {
    assert_eq!(div_floor(7, 2), 3);
    assert_eq!(div_floor(-7, 2), -4);
    assert_eq!(div_floor(-8, 2), -4);
    assert_eq!(avg2(3, 4), 3);
    assert_eq!(avg2(-3, -4), -4);
    assert_eq!(avg3(1, 2, 3), 2);
    assert_eq!(avg4(1, 2, 3, 4), 2);
}

#[test]
fn isqrt_exact_values() {
    assert_eq!(isqrt(0), 0);
    assert_eq!(isqrt(1), 1);
    assert_eq!(isqrt(15), 3);
    assert_eq!(isqrt(16), 4);
    assert_eq!(isqrt(2 * (UNIT as u128) * (UNIT as u128)), 92681);
}

#[test]
fn new_flat_is_all_zero() {
    let m = Heightmap::new_flat((3, 3), (2 * UNIT, 2 * UNIT));
    assert_eq!(m.dim(), (3, 3));
    assert_eq!(m.size(), (2 * UNIT, 2 * UNIT));
    for cy in 0..3 {
        for cx in 0..3 {
            assert_eq!(m.get(cx, cy), 0);
        }
    }
    assert_eq!(m.range(), (0, 0));
}

#[test]
fn range_tracks_true_min_max_after_sets() {
    let mut m = Heightmap::new_flat((3, 3), (2 * UNIT, 2 * UNIT));
    m.set(0, 0, 5 * UNIT);
    assert_eq!(m.range(), range_oracle(&m));
    m.set(2, 2, -3 * UNIT);
    assert_eq!(m.range(), range_oracle(&m));
    // Overwrite the current maximum with a smaller value: the cached
    // range must shrink back to the true min/max.
    m.set(0, 0, UNIT);
    assert_eq!(m.range(), range_oracle(&m));
    assert_eq!(m.range(), (-3 * UNIT, UNIT));
    // And overwrite the minimum too.
    m.set(2, 2, 0);
    assert_eq!(m.range(), (0, UNIT));
    assert_eq!(m.range(), range_oracle(&m));
}

#[test]
fn coord_of_maps_indices_to_physical_coordinates() {
    let m = Heightmap::new_flat((3, 3), (2 * UNIT, 2 * UNIT));
    assert_eq!(m.coord_of(0, 0), (0, 0));
    assert_eq!(m.coord_of(1, 1), (UNIT, UNIT));
    assert_eq!(m.coord_of(2, 2), (2 * UNIT, 2 * UNIT));
}

#[test]
fn cell_at_coord_inverts_coordinates() {
    let m = Heightmap::new_flat((3, 3), (2 * UNIT, 2 * UNIT));
    assert_eq!(m.cell_at_coord(UNIT + 5, 3), Some((1, 0)));
    assert_eq!(m.cell_at_coord(0, 0), Some((0, 0)));
    assert_eq!(m.cell_at_coord(-1, 0), None);
    assert_eq!(m.cell_at_coord(0, 2 * UNIT + 1), None);
}

#[test]
fn from_surface_samples_every_vertex() {
    let m = Heightmap::from_surface((4, 3), (3 * UNIT, 2 * UNIT), &Flat::new(7 * UNIT));
    for cy in 0..3 {
        for cx in 0..4 {
            assert_eq!(m.get(cx, cy), 7 * UNIT);
        }
    }
    assert_eq!(m.range(), (7 * UNIT, 7 * UNIT));
}

#[test]
fn add_surface_adds_scaled_heights() {
    let mut m = Heightmap::new_flat((3, 3), (2 * UNIT, 2 * UNIT));
    m.set(1, 1, UNIT);
    // Adding twice the unit-high flat surface raises everything by 2.
    m.add_surface(&Flat::new(UNIT), 2 * UNIT);
    for cy in 0..3 {
        for cx in 0..3 {
            let expected = if (cx, cy) == (1, 1) { 3 * UNIT } else { 2 * UNIT };
            assert_eq!(m.get(cx, cy), expected);
        }
    }
    assert_eq!(m.range(), range_oracle(&m));
}

#[test]
fn flat_surface_reports_its_elevation() {
    let f = Flat::new(42);
    assert_eq!(f.get(0, 0), 42);
    assert_eq!(f.get(-5 * UNIT, 9 * UNIT), 42);
    let d = Flat::default();
    assert_eq!(d.get(UNIT, UNIT), 0);
}
