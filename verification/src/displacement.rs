//! Fractal subdivision displacement: midpoint displacement and
//! diamond-square.
//!
//! Both algorithms run on a square grid of side `2^n + 1` whose four corners
//! have been seeded, and roughen it level by level: at level `i` the grid
//! splits into quads of side `2^(n-i)`, and every new vertex is an average
//! of already-known neighbours plus a displacement sample scaled by half the
//! quad side. Verified facts: the error cases are exact, the four corners
//! are never touched, and with a constant-zero sampler a constant grid is
//! reproduced unchanged — the degenerate bilinear-interpolation case that a
//! zero-variance distribution must yield.

use vstd::prelude::*;
use vstd::arithmetic::power2::{pow2, lemma_pow2_adds, lemma_pow2_pos, lemma_pow2_strictly_increases};

use crate::heightmap::{Heightmap, lemma_index_bounds, lemma_index_injective};
use crate::num::{UNIT, avg2, avg3, avg4, sat_add, sat64};
use crate::sampler::{Sampler, scale_root2};

verus! {

/// Why fractal displacement refused a grid.
#[derive(Debug, PartialEq, Eq, Structural)]
pub enum Error {
    /// The grid's two dimensions differ.
    NotSquare,
    /// The (square) side length is not of the form `2^n + 1`.
    NotPowerOf2Plus1,
}

/// The side length suits fractal displacement: it is `2^n + 1`.
pub open spec fn is_fractal_side(side: int) -> bool {
    exists|k: nat| side == pow2(k) + 1
}

/// All heights of the grid hold one value.
pub open spec fn is_constant(m: Heightmap) -> bool {
    forall|i: int| 0 <= i < m.heights().len() ==> #[trigger] m.heights()[i] == m.heights()[0]
}

/// The four corner heights of `b` equal those of `a` (same-dimension grids).
pub open spec fn corners_preserved(a: Heightmap, b: Heightmap) -> bool {
    &&& b.at(0, 0) == a.at(0, 0)
    &&& b.at(a.nx() - 1, 0) == a.at(a.nx() - 1, 0)
    &&& b.at(0, a.ny() - 1) == a.at(0, a.ny() - 1)
    &&& b.at(a.nx() - 1, a.ny() - 1) == a.at(a.nx() - 1, a.ny() - 1)
}


/// Height at vertex `(x, y)` of a row-major `side x side` height sequence.
pub open spec fn hat(h: Seq<i64>, side: int, x: int, y: int) -> int {
    h[y * side + x] as int
}

/// One midpoint-displacement level with quad side `q` and all samples
/// zero, at vertex `(x, y)`: each edge midpoint becomes the floor-average
/// of its two adjacent quad corners, each quad centre the floor-average
/// of its four fresh edge midpoints; every other vertex keeps its value.
pub open spec fn mp_level_at(h: Seq<i64>, side: int, q: int, x: int, y: int) -> int {
    let m = q / 2;
    if x % q == 0 && y % q == 0 {
        hat(h, side, x, y)
    } else if x % q == 0 && y % q == m {
        (hat(h, side, x, y - m) + hat(h, side, x, y + m)) / 2
    } else if x % q == m && y % q == 0 {
        (hat(h, side, x - m, y) + hat(h, side, x + m, y)) / 2
    } else if x % q == m && y % q == m {
        ((hat(h, side, x - m, y - m) + hat(h, side, x - m, y + m)) / 2
            + (hat(h, side, x + m, y - m) + hat(h, side, x + m, y + m)) / 2
            + (hat(h, side, x - m, y - m) + hat(h, side, x + m, y - m)) / 2
            + (hat(h, side, x - m, y + m) + hat(h, side, x + m, y + m)) / 2) / 4
    } else {
        hat(h, side, x, y)
    }
}

/// One zero-sample midpoint-displacement level as a whole sequence.
pub open spec fn mp_level(h: Seq<i64>, side: int, q: int) -> Seq<i64> {
    Seq::new(h.len(), |idx: int| mp_level_at(h, side, q, idx % side, idx / side) as i64)
}

/// The full zero-sample midpoint sweep, halving the quad side down to one.
pub open spec fn mp_sweep(h: Seq<i64>, side: int, q: int) -> Seq<i64>
    decreases q,
{
    if q < 2 {
        h
    } else {
        mp_sweep(mp_level(h, side, q), side, q / 2)
    }
}

/// The quad side the sweep starts from: the full side for `n0 == 0`,
/// halved once per skipped level, never below one.
pub open spec fn start_quad(side: int, n0: nat) -> int {
    let n = fractal_levels(side);
    if n0 >= n {
        1
    } else {
        pow2((n - n0) as nat) as int
    }
}

/// The subdivision depth of a fractal side (`side == 2^n + 1`).
pub open spec fn fractal_levels(side: int) -> nat {
    choose|k: nat| side == pow2(k) + 1
}

/// `pow2` is injective.
proof fn lemma_pow2_injective(a: nat, b: nat)
    requires
        pow2(a) == pow2(b),
    ensures
        a == b,
{
    if a < b {
        lemma_pow2_strictly_increases(a, b);
    }
    if b < a {
        lemma_pow2_strictly_increases(b, a);
    }
}

/// `j * q + b` leaves remainder `b` when divided by `q`.
proof fn lemma_mod_offset(j: int, b: int, q: int)
    requires
        q > 0,
        0 <= b < q,
    ensures
        (j * q + b) % q == b,
{
    vstd::arithmetic::div_mod::lemma_fundamental_div_mod_converse(j * q + b, q, j, b);
}

/// A value with remainder `b` inside the window `[s, s + q)` over a
/// multiple `s` of `q` is exactly `s + b`.
proof fn lemma_mod_window(v: int, s: int, b: int, q: int, js: int)
    requires
        q > 0,
        0 <= b < q,
        s == js * q,
        s <= v < s + q,
        v % q == b,
    ensures
        v == s + b,
{
    let d = v - s;
    assert(v == js * q + d);
    vstd::arithmetic::div_mod::lemma_fundamental_div_mod_converse(v, q, js, d);
}

/// The partially-swept state of one zero-sample midpoint level: vertices
/// inside the written region hold the level value over the pre-level
/// heights `hp`, all others still hold `hp`.
pub open spec fn mp_region(side: int, q: int, xb: int, yb: int, x: int, y: int) -> bool {
    let m = q / 2;
    if x % q == 0 && y % q == m {
        x < xb || (x == xb && xb > 0) || ((x == xb || x == xb + q) && y < yb)
    } else if x % q == m && y % q == 0 {
        x < xb || (x == xb + m && y <= yb && yb > 0)
    } else if x % q == m && y % q == m {
        x < xb || (x == xb + m && y < yb)
    } else {
        false
    }
}

/// All of `h` matches the pre-level heights `hp`, except the region
/// already written, which holds the level values.
pub open spec fn mp_partial(h: Seq<i64>, hp: Seq<i64>, side: int, q: int, xb: int, yb: int)
    -> bool {
    &&& h.len() == hp.len()
    &&& hp.len() == side * side
    &&& forall|x: int, y: int| 0 <= x < side && 0 <= y < side
        ==> #[trigger] h[y * side + x] == (if mp_region(side, q, xb, yb, x, y) {
                mp_level_at(hp, side, q, x, y) as i64
            } else {
                hp[y * side + x]
            })
}


/// Average of the four quad corners around the centre `(x, y)` — the
/// zero-sample "diamond" value.
pub open spec fn ds_center(h: Seq<i64>, side: int, q: int, x: int, y: int) -> int {
    let m = q / 2;
    (hat(h, side, x - m, y - m) + hat(h, side, x - m, y + m)
        + hat(h, side, x + m, y - m) + hat(h, side, x + m, y + m)) / 4
}

/// One diamond-square level with quad side `q` and all samples zero, at
/// vertex `(x, y)`: quad centres average their four corners; edge
/// midpoints ("square" points) average their two adjacent corners and
/// the adjacent fresh centres — both of them inside the grid, the one
/// available at the domain boundary.
pub open spec fn ds_level_at(h: Seq<i64>, side: int, q: int, x: int, y: int) -> int {
    let m = q / 2;
    if x % q == 0 && y % q == 0 {
        hat(h, side, x, y)
    } else if x % q == 0 && y % q == m {
        if x == 0 {
            (hat(h, side, x, y - m) + hat(h, side, x, y + m)
                + ds_center(h, side, q, x + m, y)) / 3
        } else if x == side - 1 {
            (hat(h, side, x, y - m) + hat(h, side, x, y + m)
                + ds_center(h, side, q, x - m, y)) / 3
        } else {
            (hat(h, side, x, y - m) + hat(h, side, x, y + m)
                + ds_center(h, side, q, x + m, y) + ds_center(h, side, q, x - m, y)) / 4
        }
    } else if x % q == m && y % q == 0 {
        if y == 0 {
            (hat(h, side, x - m, y) + hat(h, side, x + m, y)
                + ds_center(h, side, q, x, y + m)) / 3
        } else if y == side - 1 {
            (hat(h, side, x - m, y) + hat(h, side, x + m, y)
                + ds_center(h, side, q, x, y - m)) / 3
        } else {
            (hat(h, side, x - m, y) + hat(h, side, x + m, y)
                + ds_center(h, side, q, x, y + m) + ds_center(h, side, q, x, y - m)) / 4
        }
    } else if x % q == m && y % q == m {
        ds_center(h, side, q, x, y)
    } else {
        hat(h, side, x, y)
    }
}

/// One zero-sample diamond-square level as a whole sequence.
pub open spec fn ds_level(h: Seq<i64>, side: int, q: int) -> Seq<i64> {
    Seq::new(h.len(), |idx: int| ds_level_at(h, side, q, idx % side, idx / side) as i64)
}

/// The full zero-sample diamond-square sweep.
pub open spec fn ds_sweep(h: Seq<i64>, side: int, q: int) -> Seq<i64>
    decreases q,
{
    if q < 2 {
        h
    } else {
        ds_sweep(ds_level(h, side, q), side, q / 2)
    }
}

/// The written region of one zero-sample diamond-square level: the
/// column phase has finished all cells left of `xb` and, in column `xb`,
/// all writes below row bound `yb`; the row-end phase reuses the same
/// shape with `xb` on the last grid line.
pub open spec fn ds_region(side: int, q: int, xb: int, yb: int, x: int, y: int) -> bool {
    let m = q / 2;
    if x % q == 0 && y % q == m {
        x < xb || (x == xb && y < yb)
    } else if x % q == m && (y % q == 0 || y % q == m) {
        x < xb || (x == xb + m && y < yb)
    } else {
        false
    }
}

/// All of `h` matches the pre-level heights `hp`, except the diamond-
/// square region already written, which holds the level values.
pub open spec fn ds_partial(h: Seq<i64>, hp: Seq<i64>, side: int, q: int, xb: int, yb: int)
    -> bool {
    &&& h.len() == hp.len()
    &&& hp.len() == side * side
    &&& forall|x: int, y: int| 0 <= x < side && 0 <= y < side
        ==> #[trigger] h[y * side + x] == (if ds_region(side, q, xb, yb, x, y) {
                ds_level_at(hp, side, q, x, y) as i64
            } else {
                hp[y * side + x]
            })
}

/// Folding one quad's three zero-sample diamond-square writes advances
/// the written region by one quad row.
proof fn lemma_ds_quad_update(p0: Seq<i64>, p3: Seq<i64>, hp: Seq<i64>, side: int, q: int,
    x0: int, y0: int, jx: int, jy: int, cols: int, v1: i64, v2: i64, v3: i64)
    requires
        q >= 2,
        q == 2 * (q / 2),
        cols >= 1,
        side == cols * q + 1,
        x0 == jx * q,
        0 <= jx < cols,
        y0 == jy * q,
        0 <= jy < cols,
        ds_partial(p0, hp, side, q, x0, y0),
        v1 as int == ds_level_at(hp, side, q, x0, y0 + q / 2),
        v2 as int == ds_level_at(hp, side, q, x0 + q / 2, y0),
        v3 as int == ds_level_at(hp, side, q, x0 + q / 2, y0 + q / 2),
        p3 == p0
            .update((y0 + q / 2) * side + x0, v1)
            .update(y0 * side + (x0 + q / 2), v2)
            .update((y0 + q / 2) * side + (x0 + q / 2), v3),
    ensures
        ds_partial(p3, hp, side, q, x0, y0 + q),
{
    let m = q / 2;
    let xm = x0 + m;
    let ym = y0 + m;
    let y1 = y0 + q;
    assert((jx + 1) * q <= cols * q && (jy + 1) * q <= cols * q) by (nonlinear_arith)
        requires jx + 1 <= cols && jy + 1 <= cols && q > 0;
    assert((jx + 1) * q == x0 + q && (jy + 1) * q == y0 + q) by (nonlinear_arith)
        requires x0 == jx * q && y0 == jy * q;
    lemma_mod_offset(jx, 0, q);
    lemma_mod_offset(jx, m, q);
    lemma_mod_offset(jy, 0, q);
    lemma_mod_offset(jy, m, q);
    lemma_mod_offset(jy + 1, 0, q);
    lemma_mod_offset(cols, 0, q);
    lemma_index_bounds(side, side, x0, ym);
    lemma_index_bounds(side, side, xm, y0);
    lemma_index_bounds(side, side, xm, ym);
    assert forall|x: int, y: int| 0 <= x < side && 0 <= y < side
        implies #[trigger] p3[y * side + x] == (if ds_region(side, q, x0, y1, x, y) {
            ds_level_at(hp, side, q, x, y) as i64
        } else {
            hp[y * side + x]
        }) by {
        lemma_index_bounds(side, side, x, y);
        let w1 = (x == x0 && y == ym);
        let w2 = (x == xm && y == y0);
        let w3 = (x == xm && y == ym);
        if w1 || w2 || w3 {
            if !w3 {
                lemma_index_injective(side, side, x, y, xm, ym);
            }
            if !w2 && !w3 {
                lemma_index_injective(side, side, x, y, xm, y0);
            }
            assert(ds_region(side, q, x0, y1, x, y));
            assert(p3[y * side + x] as int == ds_level_at(hp, side, q, x, y));
        } else {
            lemma_index_injective(side, side, x, y, x0, ym);
            lemma_index_injective(side, side, x, y, xm, y0);
            lemma_index_injective(side, side, x, y, xm, ym);
            assert(p3[y * side + x] == p0[y * side + x]);
            if ds_region(side, q, x0, y1, x, y) && !ds_region(side, q, x0, y0, x, y) {
                if x % q == 0 && y % q == m {
                    assert(x == x0 && y0 <= y < y1);
                    lemma_mod_window(y, y0, m, q, jy);
                    assert(false);
                } else if x % q == m && y % q == 0 {
                    assert(x == xm && y0 <= y < y1);
                    lemma_mod_window(y, y0, 0, q, jy);
                    assert(false);
                } else if x % q == m && y % q == m {
                    assert(x == xm && y0 <= y < y1);
                    lemma_mod_window(y, y0, m, q, jy);
                    assert(false);
                }
            }
            assert(ds_region(side, q, x0, y1, x, y) == ds_region(side, q, x0, y0, x, y));
        }
    };
}

/// Folding the end-of-column write (the square point on the far y
/// boundary) completes the column.
proof fn lemma_ds_colend_update(p0: Seq<i64>, p1: Seq<i64>, hp: Seq<i64>, side: int,
    q: int, x0: int, jx: int, cols: int, v: i64)
    requires
        q >= 2,
        q == 2 * (q / 2),
        cols >= 1,
        side == cols * q + 1,
        x0 == jx * q,
        0 <= jx < cols,
        ds_partial(p0, hp, side, q, x0, cols * q),
        v as int == ds_level_at(hp, side, q, x0 + q / 2, cols * q),
        p1 == p0.update(cols * q * side + (x0 + q / 2), v),
    ensures
        ds_partial(p1, hp, side, q, x0 + q, 0),
{
    let m = q / 2;
    let xm = x0 + m;
    let s1 = cols * q;
    assert((jx + 1) * q <= cols * q) by (nonlinear_arith)
        requires jx + 1 <= cols && q > 0;
    assert((jx + 1) * q == x0 + q) by (nonlinear_arith)
        requires x0 == jx * q;
    lemma_mod_offset(jx, 0, q);
    lemma_mod_offset(jx, m, q);
    lemma_mod_offset(cols, 0, q);
    lemma_index_bounds(side, side, xm, s1);
    assert forall|x: int, y: int| 0 <= x < side && 0 <= y < side
        implies #[trigger] p1[y * side + x] == (if ds_region(side, q, x0 + q, 0, x, y) {
            ds_level_at(hp, side, q, x, y) as i64
        } else {
            hp[y * side + x]
        }) by {
        lemma_index_bounds(side, side, x, y);
        if x == xm && y == s1 {
            assert(ds_region(side, q, x0 + q, 0, x, y)) by {
                assert(x < x0 + q);
            };
            assert(p1[y * side + x] as int == ds_level_at(hp, side, q, x, y));
        } else {
            lemma_index_injective(side, side, x, y, xm, s1);
            assert(p1[y * side + x] == p0[y * side + x]);
            if x % q == 0 && y % q == m {
                if y == s1 {
                    assert(false);
                }
                if x0 < x < x0 + q {
                    lemma_mod_window(x, x0, 0, q, jx);
                    assert(false);
                }
            } else if x % q == m && (y % q == 0 || y % q == m) {
                if y % q == m && y == s1 {
                    assert(false);
                }
                if x0 <= x < x0 + q {
                    lemma_mod_window(x, x0, m, q, jx);
                    assert(x == xm);
                }
                if x == s1 {
                    assert(false);
                }
            }
            assert(ds_region(side, q, x0 + q, 0, x, y)
                == ds_region(side, q, x0, s1, x, y));
        }
    };
}

/// Folding one end-of-row write (a square point on the far x boundary)
/// advances the row-end phase by one row.
proof fn lemma_ds_rowend_update(p0: Seq<i64>, p1: Seq<i64>, hp: Seq<i64>, side: int,
    q: int, y0: int, jy: int, cols: int, v: i64)
    requires
        q >= 2,
        q == 2 * (q / 2),
        cols >= 1,
        side == cols * q + 1,
        y0 == jy * q,
        0 <= jy < cols,
        ds_partial(p0, hp, side, q, cols * q, y0),
        v as int == ds_level_at(hp, side, q, cols * q, y0 + q / 2),
        p1 == p0.update((y0 + q / 2) * side + cols * q, v),
    ensures
        ds_partial(p1, hp, side, q, cols * q, y0 + q),
{
    let m = q / 2;
    let ym = y0 + m;
    let s1 = cols * q;
    assert((jy + 1) * q <= cols * q) by (nonlinear_arith)
        requires jy + 1 <= cols && q > 0;
    assert((jy + 1) * q == y0 + q) by (nonlinear_arith)
        requires y0 == jy * q;
    lemma_mod_offset(jy, m, q);
    lemma_mod_offset(cols, 0, q);
    lemma_index_bounds(side, side, s1, ym);
    assert forall|x: int, y: int| 0 <= x < side && 0 <= y < side
        implies #[trigger] p1[y * side + x] == (if ds_region(side, q, s1, y0 + q, x, y) {
            ds_level_at(hp, side, q, x, y) as i64
        } else {
            hp[y * side + x]
        }) by {
        lemma_index_bounds(side, side, x, y);
        if x == s1 && y == ym {
            assert(ds_region(side, q, s1, y0 + q, x, y));
            assert(p1[y * side + x] as int == ds_level_at(hp, side, q, x, y));
        } else {
            lemma_index_injective(side, side, x, y, s1, ym);
            assert(p1[y * side + x] == p0[y * side + x]);
            if ds_region(side, q, s1, y0 + q, x, y) && !ds_region(side, q, s1, y0, x, y) {
                if x % q == 0 && y % q == m {
                    assert(x == s1 && y0 <= y < y0 + q);
                    lemma_mod_window(y, y0, m, q, jy);
                    assert(false);
                } else if x % q == m && (y % q == 0 || y % q == m) {
                    assert(x == s1 + m);
                    assert(false);
                }
            }
            assert(ds_region(side, q, s1, y0 + q, x, y)
                == ds_region(side, q, s1, y0, x, y));
        }
    };
}

/// A completely written diamond-square level equals the level image.
proof fn lemma_ds_level_done(h: Seq<i64>, hp: Seq<i64>, side: int, q: int, cols: int)
    requires
        q >= 2,
        q == 2 * (q / 2),
        cols >= 1,
        side == cols * q + 1,
        ds_partial(h, hp, side, q, cols * q, cols * q),
    ensures
        h == ds_level(hp, side, q),
{
    let m = q / 2;
    let s1 = cols * q;
    lemma_mod_offset(cols, 0, q);
    assert forall|idx: int| 0 <= idx < hp.len()
        implies h[idx] == ds_level_at(hp, side, q, idx % side, idx / side) as i64 by {
        vstd::arithmetic::div_mod::lemma_fundamental_div_mod(idx, side);
        let x = idx % side;
        let y = idx / side;
        assert(0 <= x < side);
        assert(0 <= y < side) by (nonlinear_arith)
            requires idx == y * side + x && 0 <= idx < side * side && 0 <= x < side
                && side > 0;
        assert(idx == y * side + x);
        if x % q == 0 && y % q == m {
            if y == s1 {
                assert(false);
            }
            assert(ds_region(side, q, s1, s1, x, y));
        } else if x % q == m && (y % q == 0 || y % q == m) {
            if x == s1 {
                assert(false);
            }
            assert(ds_region(side, q, s1, s1, x, y));
        } else {
            assert(!ds_region(side, q, s1, s1, x, y));
            assert(ds_level_at(hp, side, q, x, y) == hat(hp, side, x, y));
        }
        assert(h[y * side + x] == ds_level_at(hp, side, q, x, y) as i64);
    };
    assert(h =~= ds_level(hp, side, q));
}

/// Exact bilinear interpolation of four corner values over a square of
/// side `s`, evaluated at `(x, y)`.
pub open spec fn bilerp(c00: int, c10: int, c01: int, c11: int, x: int, y: int, s: int)
    -> int {
    (c00 * (s - x) * (s - y) + c10 * x * (s - y) + c01 * (s - x) * y + c11 * x * y)
        / (s * s)
}

/// Bilinear interpolation of four equal corners is that shared value.
pub proof fn lemma_bilerp_const(c: i64, x: int, y: int, s: int)
    requires
        s > 0,
    ensures
        bilerp(c as int, c as int, c as int, c as int, x, y, s) == c as int,
{
    let ci = c as int;
    assert(ci * (s - x) * (s - y) + ci * x * (s - y) + ci * (s - x) * y + ci * x * y
        == (s * s) * ci) by (nonlinear_arith);
    assert(s * s > 0) by (nonlinear_arith)
        requires s > 0;
    vstd::arithmetic::div_mod::lemma_div_multiples_vanish(ci, s * s);
}

/// The degenerate-interpolation law: a fractal displacement pass that
/// changes nothing on a constant grid (as both algorithms guarantee under
/// a constant-zero sampler) leaves every vertex equal to the exact
/// bilinear interpolation of the four corner values.
pub proof fn lemma_const_grid_is_bilinear(pre: Heightmap, post: Heightmap, cx: int, cy: int)
    requires
        pre.wf(),
        pre.nx() == pre.ny(),
        pre.nx() >= 2,
        is_constant(pre),
        post.nx() == pre.nx(),
        post.ny() == pre.ny(),
        post.heights() == pre.heights(),
        pre.valid_vertex(cx, cy),
    ensures
        post.at(cx, cy) as int == bilerp(
            pre.at(0, 0) as int,
            pre.at(pre.nx() - 1, 0) as int,
            pre.at(0, pre.ny() - 1) as int,
            pre.at(pre.nx() - 1, pre.ny() - 1) as int,
            cx, cy, pre.nx() - 1),
{
    let c = pre.heights()[0];
    lemma_constant_at(pre, cx, cy);
    lemma_constant_at(pre, 0, 0);
    lemma_constant_at(pre, pre.nx() - 1, 0);
    lemma_constant_at(pre, 0, pre.ny() - 1);
    lemma_constant_at(pre, pre.nx() - 1, pre.ny() - 1);
    lemma_bilerp_const(c, cx, cy, pre.nx() - 1);
}


/// Folding one quad's five zero-sample writes into the partial-level
/// state advances the written region by one quad row.
proof fn lemma_mp_quad_update(p0: Seq<i64>, p5: Seq<i64>, hp: Seq<i64>, side: int, q: int,
    x0: int, y0: int, jx: int, jy: int, cols: int, v1: i64, v2: i64, v3: i64, v4: i64,
    v5: i64)
    requires
        q >= 2,
        q == 2 * (q / 2),
        cols >= 1,
        side == cols * q + 1,
        x0 == jx * q,
        0 <= jx < cols,
        y0 == jy * q,
        0 <= jy < cols,
        mp_partial(p0, hp, side, q, x0, y0),
        v1 as int == (hat(hp, side, x0, y0) + hat(hp, side, x0, y0 + q)) / 2,
        v2 as int == (hat(hp, side, x0 + q, y0) + hat(hp, side, x0 + q, y0 + q)) / 2,
        v3 as int == (hat(hp, side, x0, y0) + hat(hp, side, x0 + q, y0)) / 2,
        v4 as int == (hat(hp, side, x0, y0 + q) + hat(hp, side, x0 + q, y0 + q)) / 2,
        v5 as int == (v1 + v2 + v3 + v4) / 4,
        p5 == p0
            .update((y0 + q / 2) * side + x0, v1)
            .update((y0 + q / 2) * side + (x0 + q), v2)
            .update(y0 * side + (x0 + q / 2), v3)
            .update((y0 + q) * side + (x0 + q / 2), v4)
            .update((y0 + q / 2) * side + (x0 + q / 2), v5),
    ensures
        mp_partial(p5, hp, side, q, x0, y0 + q),
{
    let m = q / 2;
    let xm = x0 + m;
    let x1 = x0 + q;
    let ym = y0 + m;
    let y1 = y0 + q;
    assert((jx + 1) * q <= cols * q && (jy + 1) * q <= cols * q) by (nonlinear_arith)
        requires jx + 1 <= cols && jy + 1 <= cols && q > 0;
    assert((jx + 1) * q == x0 + q && (jy + 1) * q == y0 + q) by (nonlinear_arith)
        requires x0 == jx * q && y0 == jy * q;
    assert(x1 <= cols * q && y1 <= cols * q);
    // Remainder classes of every point involved.
    lemma_mod_offset(jx, 0, q);
    lemma_mod_offset(jx, m, q);
    lemma_mod_offset(jx + 1, 0, q);
    lemma_mod_offset(jy, 0, q);
    lemma_mod_offset(jy, m, q);
    lemma_mod_offset(jy + 1, 0, q);
    assert((jx + 1) * q == x0 + q && (jy + 1) * q == y0 + q) by (nonlinear_arith)
        requires x0 == jx * q && y0 == jy * q;
    lemma_mod_offset(cols, 0, q);
    assert(x0 % q == 0 && xm % q == m && x1 % q == 0);
    assert(y0 % q == 0 && ym % q == m && y1 % q == 0);
    assert((side - 1) % q == 0);
    // The five write targets are in range.
    lemma_index_bounds(side, side, x0, ym);
    lemma_index_bounds(side, side, x1, ym);
    lemma_index_bounds(side, side, xm, y0);
    lemma_index_bounds(side, side, xm, y1);
    lemma_index_bounds(side, side, xm, ym);
    // Their level values are the written values.
    assert(mp_level_at(hp, side, q, x0, ym) == v1 as int);
    assert(mp_level_at(hp, side, q, x1, ym) == v2 as int);
    assert(mp_level_at(hp, side, q, xm, y0) == v3 as int);
    assert(mp_level_at(hp, side, q, xm, y1) == v4 as int);
    assert(mp_level_at(hp, side, q, xm, ym) == v5 as int);
    assert forall|x: int, y: int| 0 <= x < side && 0 <= y < side
        implies #[trigger] p5[y * side + x] == (if mp_region(side, q, x0, y1, x, y) {
            mp_level_at(hp, side, q, x, y) as i64
        } else {
            hp[y * side + x]
        }) by {
        lemma_index_bounds(side, side, x, y);
        let w1 = (x == x0 && y == ym);
        let w2 = (x == x1 && y == ym);
        let w3 = (x == xm && y == y0);
        let w4 = (x == xm && y == y1);
        let w5 = (x == xm && y == ym);
        if w1 || w2 || w3 || w4 || w5 {
            // A written point: its value is the level value, and it lies
            // inside the advanced region.
            if !w5 {
                lemma_index_injective(side, side, x, y, xm, ym);
            }
            if !w4 && !w5 {
                lemma_index_injective(side, side, x, y, xm, y1);
            }
            if !w3 && !w4 && !w5 {
                lemma_index_injective(side, side, x, y, xm, y0);
            }
            if !w2 && !w3 && !w4 && !w5 {
                lemma_index_injective(side, side, x, y, x1, ym);
            }
            assert(mp_region(side, q, x0, y1, x, y));
            assert(p5[y * side + x] as int == mp_level_at(hp, side, q, x, y));
        } else {
            // Untouched by this quad: the value is unchanged, and the
            // advanced region adds only the five written points.
            lemma_index_injective(side, side, x, y, x0, ym);
            lemma_index_injective(side, side, x, y, x1, ym);
            lemma_index_injective(side, side, x, y, xm, y0);
            lemma_index_injective(side, side, x, y, xm, y1);
            lemma_index_injective(side, side, x, y, xm, ym);
            assert(p5[y * side + x] == p0[y * side + x]);
            if mp_region(side, q, x0, y1, x, y) && !mp_region(side, q, x0, y0, x, y) {
                if x % q == 0 && y % q == m {
                    assert((x == x0 || x == x1) && y0 <= y < y1);
                    lemma_mod_window(y, y0, m, q, jy);
                    assert(false);
                } else if x % q == m && y % q == 0 {
                    assert(x == xm && y <= y1 && !(y <= y0 && y0 > 0));
                    if y == y1 {
                        // that would be the fourth write
                        assert(false);
                    } else if y0 == 0 {
                        // y < y1 == q: the only multiple of q there is 0,
                        // the third write
                        lemma_mod_window(y, 0, 0, q, 0);
                        assert(false);
                    } else {
                        // y0 < y < y1: no multiple of q strictly inside
                        lemma_mod_window(y, y0, 0, q, jy);
                        assert(false);
                    }
                } else if x % q == m && y % q == m {
                    assert(x == xm && y0 <= y < y1);
                    lemma_mod_window(y, y0, m, q, jy);
                    assert(false);
                }
            }
            assert(mp_region(side, q, x0, y1, x, y) == mp_region(side, q, x0, y0, x, y));
        }
    };
}

/// A fully written column lets the region bound move to the next column.
proof fn lemma_mp_col_advance(h: Seq<i64>, hp: Seq<i64>, side: int, q: int, x0: int,
    jx: int, cols: int)
    requires
        q >= 2,
        q == 2 * (q / 2),
        cols >= 1,
        side == cols * q + 1,
        x0 == jx * q,
        0 <= jx < cols,
        mp_partial(h, hp, side, q, x0, cols * q),
    ensures
        mp_partial(h, hp, side, q, x0 + q, 0),
{
    let m = q / 2;
    let s1 = cols * q;
    lemma_mod_offset(cols, 0, q);
    assert forall|x: int, y: int| 0 <= x < side && 0 <= y < side
        implies mp_region(side, q, x0 + q, 0, x, y) == mp_region(side, q, x0, s1, x, y) by {
        if x % q == 0 && y % q == m {
            // A vertical edge midpoint is never on the last grid line.
            if y == s1 {
                assert(false);
            }
            assert(y < s1);
            if x0 < x < x0 + q {
                lemma_mod_window(x, x0, 0, q, jx);
                assert(false);
            }
        } else if x % q == m && (y % q == 0 || y % q == m) {
            if x == s1 {
                assert(false);
            }
            if y % q == m && y == s1 {
                assert(false);
            }
            if x0 <= x < x0 + q {
                lemma_mod_window(x, x0, m, q, jx);
                assert(x == x0 + m);
            }
        }
    };
}

/// A completely written level equals the level image.
proof fn lemma_mp_level_done(h: Seq<i64>, hp: Seq<i64>, side: int, q: int, cols: int)
    requires
        q >= 2,
        q == 2 * (q / 2),
        cols >= 1,
        side == cols * q + 1,
        mp_partial(h, hp, side, q, cols * q, 0),
    ensures
        h == mp_level(hp, side, q),
{
    let m = q / 2;
    let s1 = cols * q;
    lemma_mod_offset(cols, 0, q);
    assert forall|idx: int| 0 <= idx < hp.len()
        implies h[idx] == mp_level_at(hp, side, q, idx % side, idx / side) as i64 by {
        vstd::arithmetic::div_mod::lemma_fundamental_div_mod(idx, side);
        let x = idx % side;
        let y = idx / side;
        assert(0 <= x < side);
        assert(0 <= y < side) by (nonlinear_arith)
            requires idx == y * side + x && 0 <= idx < side * side && 0 <= x < side
                && side > 0;
        assert(idx == y * side + x);
        if x % q == 0 && y % q == m {
            assert(x <= s1 && s1 > 0);
            assert(mp_region(side, q, s1, 0, x, y));
        } else if x % q == m && (y % q == 0 || y % q == m) {
            if x == s1 {
                assert(false);
            }
            assert(x < s1);
            assert(mp_region(side, q, s1, 0, x, y));
        } else {
            assert(!mp_region(side, q, s1, 0, x, y));
            assert(mp_level_at(hp, side, q, x, y) == hat(hp, side, x, y));
        }
        assert(h[y * side + x] == mp_level_at(hp, side, q, x, y) as i64);
    };
    assert(h =~= mp_level(hp, side, q));
}

/// Number of subdivision levels for a side of the form `2^n + 1`, else `None`.
fn side_levels(side: usize) -> (r: Option<u32>)
    requires
        side <= 0x1_0000_0000,
    ensures
        match r {
            Some(n) => n <= 32 && side == pow2(n as nat) + 1,
            None => !is_fractal_side(side as int),
        },
{
    if side < 2 {
        proof {
            assert forall|k: nat| side != pow2(k) + 1 by {
                lemma_pow2_pos(k);
            };
        }
        return None;
    }
    let s1: u64 = (side - 1) as u64;
    let mut p: u64 = 1;
    let mut k: u32 = 0;
    proof {
        assert(pow2(0) == 1 && pow2(32) == 0x1_0000_0000) by {
            vstd::arithmetic::power2::lemma2_to64();
        };
    }
    while p < s1
        invariant
            p == pow2(k as nat),
            1 <= p <= 0x1_0000_0000,
            s1 <= 0x1_0000_0000,
            k <= 32,
            pow2(32) == 0x1_0000_0000,
            forall|j: nat| j < k ==> pow2(j) < s1,
        decreases 32 - k,
    {
        proof {
            if k >= 32 {
                if k > 32 {
                    lemma_pow2_strictly_increases(32, k as nat);
                }
                assert(false);
            }
            assert(pow2((k + 1) as nat) == 2 * pow2(k as nat)) by {
                lemma_pow2_adds(1, k as nat);
                assert(pow2(1) == 2) by {
                    vstd::arithmetic::power2::lemma2_to64();
                };
            };
            assert(pow2((k + 1) as nat) <= pow2(32)) by {
                if k + 1 < 32 {
                    lemma_pow2_strictly_increases((k + 1) as nat, 32);
                }
            };
            assert forall|j: nat| j < k + 1 implies pow2(j) < s1 by {
                if j == k {
                    assert(pow2(j) == p);
                }
            };
        }
        p = p * 2;
        k = k + 1;
    }
    if p == s1 {
        Some(k)
    } else {
        proof {
            assert forall|j: nat| (side as int) != pow2(j) + 1 by {
                if j < k {
                } else if j == k {
                } else {
                    lemma_pow2_strictly_increases(k as nat, j);
                }
            };
        }
        None
    }
}

/// A write at `(wx, wy)` with an interior coordinate leaves all four corner
/// heights of a `side x side` grid unchanged.
proof fn lemma_interior_write_preserves_corners(
    pre: Seq<i64>, post: Seq<i64>, side: int, wx: int, wy: int, v: i64,
)
    requires
        side >= 2,
        pre.len() == side * side,
        0 <= wx < side,
        0 <= wy < side,
        (0 < wx < side - 1) || (0 < wy < side - 1),
        post == pre.update(wy * side + wx, v),
    ensures
        post.len() == pre.len(),
        post[0] == pre[0],
        post[side - 1] == pre[side - 1],
        post[(side - 1) * side] == pre[(side - 1) * side],
        post[(side - 1) * side + (side - 1)] == pre[(side - 1) * side + (side - 1)],
{
    lemma_index_bounds(side, side, wx, wy);
    lemma_index_bounds(side, side, 0, 0);
    lemma_index_bounds(side, side, side - 1, 0);
    lemma_index_bounds(side, side, 0, side - 1);
    lemma_index_bounds(side, side, side - 1, side - 1);
    lemma_index_injective(side, side, wx, wy, 0, 0);
    lemma_index_injective(side, side, wx, wy, side - 1, 0);
    lemma_index_injective(side, side, wx, wy, 0, side - 1);
    lemma_index_injective(side, side, wx, wy, side - 1, side - 1);
}

/// In a constant grid every vertex holds the shared value.
proof fn lemma_constant_at(m: Heightmap, cx: int, cy: int)
    requires
        m.wf(),
        m.nx() == m.ny(),
        is_constant(m),
        m.valid_vertex(cx, cy),
    ensures
        m.at(cx, cy) == m.heights()[0],
{
    m.lemma_wf();
    lemma_index_bounds(m.nx(), m.ny(), cx, cy);
}

/// Perform midpoint displacement on the given grid.
///
/// Applicable to square grids of side `2^n + 1` whose four corners are
/// seeded; fails fast (leaving the grid untouched) otherwise. Levels
/// `n0 .. n` are swept; at each level every quad's four edge midpoints
/// become the average of their two adjacent corners plus a sample scaled
/// by half the quad side, and the quad centre becomes the average of those
/// four fresh midpoints plus an independent sample.
pub fn midpoint_displacement<S: Sampler>(m: &mut Heightmap, n0: u32, s: &mut S)
    -> (r: Result<(), Error>)
    requires
        old(m).wf(),
    ensures
        final(s).spec_zero() == old(s).spec_zero(),
        match r {
            Err(e) => {
                &&& *final(m) == *old(m)
                &&& e is NotSquare <==> old(m).nx() != old(m).ny()
                &&& e is NotPowerOf2Plus1
                    ==> old(m).nx() == old(m).ny() && !is_fractal_side(old(m).nx())
            },
            Ok(_) => {
                &&& old(m).nx() == old(m).ny()
                &&& is_fractal_side(old(m).nx())
                &&& final(m).wf()
                &&& final(m).same_frame(*old(m))
                &&& corners_preserved(*old(m), *final(m))
                &&& old(s).spec_zero() && is_constant(*old(m))
                    ==> final(m).heights() == old(m).heights()
                &&& old(s).spec_zero() ==> final(m).heights() == mp_sweep(
                    old(m).heights(), old(m).nx(),
                    start_quad(old(m).nx(), n0 as nat))
            },
        },
{
    let dims = m.dim();
    if dims.0 != dims.1 {
        return Err(Error::NotSquare);
    }
    let side = dims.0;
    proof {
        m.lemma_wf();
    }
    let n = match side_levels(side) {
        None => {
            return Err(Error::NotPowerOf2Plus1);
        },
        Some(n) => n,
    };
    let s1 = side - 1;
    let ghost m0 = *m;
    let ghost zero_const = s.spec_zero() && is_constant(m0);
    let ghost zero = s.spec_zero();

    let mut quad: usize = s1;
    let mut i: u32 = 0;
    while i < n0 && i < n
        invariant
            i <= n,
            i <= n0,
            n <= 32,
            quad == pow2((n - i) as nat),
            s1 == pow2(n as nat),
        decreases n - i,
    {
        proof {
            lemma_pow2_adds(1, (n - i - 1) as nat);
            assert(pow2(1) == 2) by {
                vstd::arithmetic::power2::lemma2_to64();
            };
            lemma_pow2_pos((n - i - 1) as nat);
        }
        quad = quad / 2;
        i = i + 1;
    }

    let ghost q0: int = quad as int;
    proof {
        if i > 0 {
            lemma_pow2_strictly_increases((n - i) as nat, n as nat);
        }
        lemma_index_bounds(side as int, side as int, 0, 0);
        // The spec-level starting quad side matches the skip loop's result.
        assert(side as int == pow2(n as nat) + 1);
        assert(exists|k: nat| side as int == pow2(k) + 1);
        let k = fractal_levels(side as int);
        assert(side as int == pow2(k) + 1);
        lemma_pow2_injective(k, n as nat);
        assert(pow2(0) == 1) by {
            vstd::arithmetic::power2::lemma2_to64();
        };
        assert(q0 == start_quad(side as int, n0 as nat));
    }
    while i < n
        invariant
            i <= n,
            n <= 32,
            quad == pow2((n - i) as nat),
            s1 == pow2(n as nat),
            quad <= s1,
            m.wf(),
            m.same_frame(m0),
            m.nx() == side,
            m.ny() == side,
            side == s1 + 1,
            side <= 0x1_0000_0000,
            corners_preserved(m0, *m),
            s.spec_zero() == old(s).spec_zero(),
            zero_const == (old(s).spec_zero() && is_constant(m0)),
            zero_const ==> m.heights() == m0.heights(),
            zero == old(s).spec_zero(),
            q0 == start_quad(side as int, n0 as nat),
            zero ==> mp_sweep(m.heights(), side as int, quad as int)
                == mp_sweep(m0.heights(), side as int, q0),
        decreases n - i,
    {
        proof {
            if i < n {
                lemma_pow2_strictly_increases((n - i - 1) as nat, (n - i) as nat);
            }
            lemma_pow2_adds(1, (n - i - 1) as nat);
            assert(pow2(1) == 2) by {
                vstd::arithmetic::power2::lemma2_to64();
            };
            lemma_pow2_pos((n - i - 1) as nat);
        }
        let mid = quad / 2;
        let ghost cols: int = pow2(i as nat) as int;
        proof {
            lemma_pow2_adds(i as nat, (n - i) as nat);
            lemma_pow2_pos(i as nat);
        }
        let scale: i64 = (mid as i64) * UNIT;
        let ghost hpre = m.heights();
        proof {
            m.lemma_wf();
            assert(hpre.len() == side * side);
            assert forall|x: int, y: int| 0 <= x < side && 0 <= y < side
                implies !mp_region(side as int, quad as int, 0, 0, x, y) by {};
            assert(mp_partial(m.heights(), hpre, side as int, quad as int, 0, 0));
        }

        let mut x0: usize = 0;
        let ghost mut jx: int = 0;
        while x0 < s1
            invariant
                0 <= jx <= cols,
                x0 == jx * quad,
                x0 <= s1,
                s1 == cols * quad,
                cols >= 1,
                quad == pow2((n - i) as nat),
                quad >= 2,
                mid == quad / 2,
                quad == 2 * mid,
                scale == mid * UNIT,
                m.wf(),
                m.same_frame(m0),
                m.nx() == side,
                m.ny() == side,
                side == s1 + 1,
                side <= 0x1_0000_0000,
                corners_preserved(m0, *m),
                s.spec_zero() == old(s).spec_zero(),
                zero_const == (old(s).spec_zero() && is_constant(m0)),
                zero_const ==> m.heights() == m0.heights(),
                zero == old(s).spec_zero(),
                hpre.len() == side * side,
                zero ==> mp_partial(m.heights(), hpre, side as int, quad as int,
                    x0 as int, 0),
                zero ==> mp_sweep(hpre, side as int, quad as int)
                    == mp_sweep(m0.heights(), side as int, q0),
            decreases s1 - x0,
        {
            proof {
                assert(jx < cols) by (nonlinear_arith)
                    requires jx * quad < cols * quad && quad > 0 && 0 <= jx <= cols;
                assert((jx + 1) * quad <= cols * quad) by (nonlinear_arith)
                    requires jx + 1 <= cols && quad > 0;
                assert((jx + 1) * quad == jx * quad + quad) by (nonlinear_arith);
            }
            let x1 = x0 + quad;
            let xm = x0 + mid;

            let mut y0: usize = 0;
            let ghost mut jy: int = 0;
            while y0 < s1
                invariant
                    0 <= jy <= cols,
                    y0 == jy * quad,
                    y0 <= s1,
                    s1 == cols * quad,
                    cols >= 1,
                    0 <= jx < cols,
                    x0 == jx * quad,
                    quad == pow2((n - i) as nat),
                    quad >= 2,
                    mid == quad / 2,
                    quad == 2 * mid,
                    scale == mid * UNIT,
                    x1 == x0 + quad,
                    xm == x0 + mid,
                    x0 + quad <= s1,
                    m.wf(),
                    m.same_frame(m0),
                    m.nx() == side,
                    m.ny() == side,
                    side == s1 + 1,
                    side <= 0x1_0000_0000,
                    corners_preserved(m0, *m),
                    s.spec_zero() == old(s).spec_zero(),
                    zero_const == (old(s).spec_zero() && is_constant(m0)),
                    zero_const ==> m.heights() == m0.heights(),
                    zero == old(s).spec_zero(),
                    hpre.len() == side * side,
                    zero ==> mp_partial(m.heights(), hpre, side as int, quad as int,
                        x0 as int, y0 as int),
                    zero ==> mp_sweep(hpre, side as int, quad as int)
                        == mp_sweep(m0.heights(), side as int, q0),
                decreases s1 - y0,
            {
                let ghost p0 = m.heights();
                proof {
                    assert(jy < cols) by (nonlinear_arith)
                        requires jy * quad < cols * quad && quad > 0 && 0 <= jy <= cols;
                    assert((jy + 1) * quad <= cols * quad) by (nonlinear_arith)
                        requires jy + 1 <= cols && quad > 0;
                    assert((jy + 1) * quad == jy * quad + quad) by (nonlinear_arith);
                }
                let y1 = y0 + quad;
                let ym = y0 + mid;
                let ghost c: i64 = m0.heights()[0];
                proof {
                    if zero_const {
                        lemma_constant_at(*m, x0 as int, y0 as int);
                        lemma_constant_at(*m, x0 as int, y1 as int);
                        lemma_constant_at(*m, x1 as int, y0 as int);
                        lemma_constant_at(*m, x1 as int, y1 as int);
                        assert(m.heights()[0] == m0.heights()[0]);
                    }
                }

                let h00 = m.get(x0, y0);
                let h01 = m.get(x0, y1);
                let h10 = m.get(x1, y0);
                let h11 = m.get(x1, y1);
                let h0m = sat_add(avg2(h00, h01), s.sample(scale));
                let h1m = sat_add(avg2(h10, h11), s.sample(scale));
                let hm0 = sat_add(avg2(h00, h10), s.sample(scale));
                let hm1 = sat_add(avg2(h01, h11), s.sample(scale));
                let hmm = sat_add(avg4(h0m, h1m, hm0, hm1), s.sample(scale));
                proof {
                    if zero_const {
                        assert(h00 == c && h01 == c && h10 == c && h11 == c);
                        assert((c + c) / 2 == c as int) by {
                            vstd::arithmetic::div_mod::lemma_div_multiples_vanish(c as int, 2);
                            assert(c + c == 2 * (c as int));
                        };
                        assert(h0m == c && h1m == c && hm0 == c && hm1 == c);
                        assert((c + c + c + c) / 4 == c as int) by {
                            vstd::arithmetic::div_mod::lemma_div_multiples_vanish(c as int, 4);
                            assert(c + c + c + c == 4 * (c as int));
                        };
                        assert(hmm == c);
                    }
                }

                set_checked(m, x0, ym, h0m, Ghost(m0), Ghost(zero_const));
                set_checked(m, x1, ym, h1m, Ghost(m0), Ghost(zero_const));
                set_checked(m, xm, y0, hm0, Ghost(m0), Ghost(zero_const));
                set_checked(m, xm, y1, hm1, Ghost(m0), Ghost(zero_const));
                set_checked(m, xm, ym, hmm, Ghost(m0), Ghost(zero_const));
                proof {
                    if zero {
                        let sidei = side as int;
                        let qi = quad as int;
                        lemma_mod_offset(jx, 0, qi);
                        lemma_mod_offset(jy, 0, qi);
                        lemma_mod_offset(jx + 1, 0, qi);
                        lemma_mod_offset(jy + 1, 0, qi);
                        assert((jx + 1) * qi == x0 + qi && (jy + 1) * qi == y0 + qi)
                            by (nonlinear_arith)
                            requires x0 == jx * qi && y0 == jy * qi;
                        lemma_index_bounds(sidei, sidei, x0 as int, y0 as int);
                        lemma_index_bounds(sidei, sidei, x0 as int, y1 as int);
                        lemma_index_bounds(sidei, sidei, x1 as int, y0 as int);
                        lemma_index_bounds(sidei, sidei, x1 as int, y1 as int);
                        assert(h00 as int == hat(hpre, sidei, x0 as int, y0 as int));
                        assert(h01 as int == hat(hpre, sidei, x0 as int, y1 as int));
                        assert(h10 as int == hat(hpre, sidei, x1 as int, y0 as int));
                        assert(h11 as int == hat(hpre, sidei, x1 as int, y1 as int));
                        assert(h0m as int == (hat(hpre, sidei, x0 as int, y0 as int)
                            + hat(hpre, sidei, x0 as int, y1 as int)) / 2);
                        assert(h1m as int == (hat(hpre, sidei, x1 as int, y0 as int)
                            + hat(hpre, sidei, x1 as int, y1 as int)) / 2);
                        assert(hm0 as int == (hat(hpre, sidei, x0 as int, y0 as int)
                            + hat(hpre, sidei, x1 as int, y0 as int)) / 2);
                        assert(hm1 as int == (hat(hpre, sidei, x0 as int, y1 as int)
                            + hat(hpre, sidei, x1 as int, y1 as int)) / 2);
                        assert(hmm as int
                            == (h0m as int + h1m as int + hm0 as int + hm1 as int) / 4);
                        assert(m.heights() == p0
                            .update((y0 as int + qi / 2) * sidei + x0 as int, h0m)
                            .update((y0 as int + qi / 2) * sidei + (x0 as int + qi), h1m)
                            .update(y0 as int * sidei + (x0 as int + qi / 2), hm0)
                            .update((y0 as int + qi) * sidei + (x0 as int + qi / 2), hm1)
                            .update((y0 as int + qi / 2) * sidei + (x0 as int + qi / 2),
                                hmm));
                        lemma_mp_quad_update(p0, m.heights(), hpre, sidei, qi,
                            x0 as int, y0 as int, jx, jy, cols, h0m, h1m, hm0, hm1, hmm);
                    }
                }

                y0 = y1;
                proof {
                    jy = jy + 1;
                }
            }
            proof {
                if zero {
                    lemma_mp_col_advance(m.heights(), hpre, side as int, quad as int,
                        x0 as int, jx, cols);
                }
            }
            x0 = x1;
            proof {
                jx = jx + 1;
            }
        }
        proof {
            if zero {
                lemma_mp_level_done(m.heights(), hpre, side as int, quad as int, cols);
                assert(mp_sweep(m.heights(), side as int, (quad as int) / 2)
                    == mp_sweep(hpre, side as int, quad as int));
            }
        }
        i = i + 1;
        quad = mid;
    }
    proof {
        if zero {
            assert(pow2(0) == 1) by {
                vstd::arithmetic::power2::lemma2_to64();
            };
            assert(quad as int == 1);
            assert(mp_sweep(m.heights(), side as int, 1) == m.heights());
        }
    }
    Ok(())
}

/// Perform diamond-square displacement on the given grid.
///
/// A variant of midpoint displacement with fewer directional artifacts.
/// At each level the quad centre ("diamond" point) is displaced first from
/// the average of the four quad corners; each remaining edge midpoint
/// ("square" point) then averages its two adjacent corners, the fresh
/// centre and — away from the domain boundary — the neighbouring quad's
/// centre, with the sample scaled by half the quad side times `sqrt(2)`.
/// Square points on the far boundary are displaced by the end-of-column
/// and end-of-row sweeps from the available three neighbours.
pub fn diamond_square<S: Sampler>(m: &mut Heightmap, n0: u32, s: &mut S)
    -> (r: Result<(), Error>)
    requires
        old(m).wf(),
    ensures
        final(s).spec_zero() == old(s).spec_zero(),
        match r {
            Err(e) => {
                &&& *final(m) == *old(m)
                &&& e is NotSquare <==> old(m).nx() != old(m).ny()
                &&& e is NotPowerOf2Plus1
                    ==> old(m).nx() == old(m).ny() && !is_fractal_side(old(m).nx())
            },
            Ok(_) => {
                &&& old(m).nx() == old(m).ny()
                &&& is_fractal_side(old(m).nx())
                &&& final(m).wf()
                &&& final(m).same_frame(*old(m))
                &&& corners_preserved(*old(m), *final(m))
                &&& old(s).spec_zero() && is_constant(*old(m))
                    ==> final(m).heights() == old(m).heights()
                &&& old(s).spec_zero() ==> final(m).heights() == ds_sweep(
                    old(m).heights(), old(m).nx(),
                    start_quad(old(m).nx(), n0 as nat))
            },
        },
{
    let dims = m.dim();
    if dims.0 != dims.1 {
        return Err(Error::NotSquare);
    }
    let side = dims.0;
    proof {
        m.lemma_wf();
    }
    let n = match side_levels(side) {
        None => {
            return Err(Error::NotPowerOf2Plus1);
        },
        Some(n) => n,
    };
    let s1 = side - 1;
    let ghost m0 = *m;
    let ghost zero_const = s.spec_zero() && is_constant(m0);
    let ghost zero = s.spec_zero();

    let mut quad: usize = s1;
    let mut i: u32 = 0;
    while i < n0 && i < n
        invariant
            i <= n,
            i <= n0,
            n <= 32,
            quad == pow2((n - i) as nat),
            s1 == pow2(n as nat),
        decreases n - i,
    {
        proof {
            lemma_pow2_adds(1, (n - i - 1) as nat);
            assert(pow2(1) == 2) by {
                vstd::arithmetic::power2::lemma2_to64();
            };
            lemma_pow2_pos((n - i - 1) as nat);
        }
        quad = quad / 2;
        i = i + 1;
    }

    let ghost q0: int = quad as int;
    proof {
        if i > 0 {
            lemma_pow2_strictly_increases((n - i) as nat, n as nat);
        }
        lemma_index_bounds(side as int, side as int, 0, 0);
        // The spec-level starting quad side matches the skip loop's result.
        assert(side as int == pow2(n as nat) + 1);
        assert(exists|k: nat| side as int == pow2(k) + 1);
        let k = fractal_levels(side as int);
        assert(side as int == pow2(k) + 1);
        lemma_pow2_injective(k, n as nat);
        assert(pow2(0) == 1) by {
            vstd::arithmetic::power2::lemma2_to64();
        };
        assert(q0 == start_quad(side as int, n0 as nat));
    }
    while i < n
        invariant
            i <= n,
            n <= 32,
            quad == pow2((n - i) as nat),
            s1 == pow2(n as nat),
            quad <= s1,
            m.wf(),
            m.same_frame(m0),
            m.nx() == side,
            m.ny() == side,
            side == s1 + 1,
            side <= 0x1_0000_0000,
            corners_preserved(m0, *m),
            s.spec_zero() == old(s).spec_zero(),
            zero_const == (old(s).spec_zero() && is_constant(m0)),
            zero_const ==> m.heights() == m0.heights(),
            zero == old(s).spec_zero(),
            q0 == start_quad(side as int, n0 as nat),
            zero ==> ds_sweep(m.heights(), side as int, quad as int)
                == ds_sweep(m0.heights(), side as int, q0),
        decreases n - i,
    {
        proof {
            if i < n {
                lemma_pow2_strictly_increases((n - i - 1) as nat, (n - i) as nat);
            }
            lemma_pow2_adds(1, (n - i - 1) as nat);
            assert(pow2(1) == 2) by {
                vstd::arithmetic::power2::lemma2_to64();
            };
            lemma_pow2_pos((n - i - 1) as nat);
        }
        let mid = quad / 2;
        let ghost cols: int = pow2(i as nat) as int;
        proof {
            lemma_pow2_adds(i as nat, (n - i) as nat);
            lemma_pow2_pos(i as nat);
        }
        let scale: i64 = (mid as i64) * UNIT;
        let scale2: i64 = scale_root2(scale);
        let ghost hpre = m.heights();
        proof {
            m.lemma_wf();
            assert(hpre.len() == side * side);
            assert forall|x: int, y: int| 0 <= x < side && 0 <= y < side
                implies !ds_region(side as int, quad as int, 0, 0, x, y) by {};
            assert(ds_partial(m.heights(), hpre, side as int, quad as int, 0, 0));
        }

        let mut x0: usize = 0;
        let ghost mut jx: int = 0;
        while x0 < s1
            invariant
                0 <= jx <= cols,
                x0 == jx * quad,
                x0 <= s1,
                s1 == cols * quad,
                cols >= 1,
                quad == pow2((n - i) as nat),
                quad >= 2,
                mid == quad / 2,
                quad == 2 * mid,
                scale == mid * UNIT,
                scale2 >= 0,
                m.wf(),
                m.same_frame(m0),
                m.nx() == side,
                m.ny() == side,
                side == s1 + 1,
                side <= 0x1_0000_0000,
                corners_preserved(m0, *m),
                s.spec_zero() == old(s).spec_zero(),
                zero_const == (old(s).spec_zero() && is_constant(m0)),
                zero_const ==> m.heights() == m0.heights(),
                zero == old(s).spec_zero(),
                hpre.len() == side * side,
                zero ==> ds_partial(m.heights(), hpre, side as int, quad as int,
                    x0 as int, 0),
                zero ==> ds_sweep(hpre, side as int, quad as int)
                    == ds_sweep(m0.heights(), side as int, q0),
            decreases s1 - x0,
        {
            proof {
                assert(jx < cols) by (nonlinear_arith)
                    requires jx * quad < cols * quad && quad > 0 && 0 <= jx <= cols;
                assert((jx + 1) * quad <= cols * quad) by (nonlinear_arith)
                    requires jx + 1 <= cols && quad > 0;
                assert((jx + 1) * quad == jx * quad + quad) by (nonlinear_arith);
            }
            let x1 = x0 + quad;
            let xm = x0 + mid;

            let mut y0: usize = 0;
            let ghost mut jy: int = 0;
            while y0 < s1
                invariant
                    0 <= jy <= cols,
                    y0 == jy * quad,
                    y0 <= s1,
                    s1 == cols * quad,
                    cols >= 1,
                    0 <= jx < cols,
                    x0 == jx * quad,
                    quad == pow2((n - i) as nat),
                    quad >= 2,
                    mid == quad / 2,
                    quad == 2 * mid,
                    scale == mid * UNIT,
                    scale2 >= 0,
                    x1 == x0 + quad,
                    xm == x0 + mid,
                    x0 + quad <= s1,
                    m.wf(),
                    m.same_frame(m0),
                    m.nx() == side,
                    m.ny() == side,
                    side == s1 + 1,
                    side <= 0x1_0000_0000,
                    corners_preserved(m0, *m),
                    s.spec_zero() == old(s).spec_zero(),
                    zero_const == (old(s).spec_zero() && is_constant(m0)),
                    zero_const ==> m.heights() == m0.heights(),
                    zero == old(s).spec_zero(),
                    hpre.len() == side * side,
                    zero ==> ds_partial(m.heights(), hpre, side as int, quad as int,
                        x0 as int, y0 as int),
                    zero ==> ds_sweep(hpre, side as int, quad as int)
                        == ds_sweep(m0.heights(), side as int, q0),
                decreases s1 - y0,
            {
                let ghost p0 = m.heights();
                proof {
                    assert(jy < cols) by (nonlinear_arith)
                        requires jy * quad < cols * quad && quad > 0 && 0 <= jy <= cols;
                    assert((jy + 1) * quad <= cols * quad) by (nonlinear_arith)
                        requires jy + 1 <= cols && quad > 0;
                    assert((jy + 1) * quad == jy * quad + quad) by (nonlinear_arith);
                }
                let y1 = y0 + quad;
                let ym = y0 + mid;
                let ghost c: i64 = m0.heights()[0];
                proof {
                    if zero_const {
                        lemma_constant_at(*m, x0 as int, y0 as int);
                        lemma_constant_at(*m, x0 as int, y1 as int);
                        lemma_constant_at(*m, x1 as int, y0 as int);
                        lemma_constant_at(*m, x1 as int, y1 as int);
                    }
                }

                let h00 = m.get(x0, y0);
                let h01 = m.get(x0, y1);
                let h10 = m.get(x1, y0);
                let h11 = m.get(x1, y1);

                let hmm = sat_add(avg4(h00, h01, h10, h11), s.sample(scale));
                let h0m = if x0 > mid {
                    proof {
                        if zero_const {
                            lemma_constant_at(*m, x0 - mid, ym as int);
                        }
                    }
                    let hnm = m.get(x0 - mid, ym);
                    sat_add(avg4(h00, h01, hmm, hnm), s.sample(scale2))
                } else {
                    sat_add(avg3(h00, h01, hmm), s.sample(scale2))
                };
                let hm0 = if y0 > mid {
                    proof {
                        if zero_const {
                            lemma_constant_at(*m, xm as int, y0 - mid);
                        }
                    }
                    let hmn = m.get(xm, y0 - mid);
                    sat_add(avg4(h00, h10, hmm, hmn), s.sample(scale2))
                } else {
                    sat_add(avg3(h00, h10, hmm), s.sample(scale2))
                };
                proof {
                    if zero_const {
                        assert((c + c + c + c) / 4 == c as int) by {
                            vstd::arithmetic::div_mod::lemma_div_multiples_vanish(c as int, 4);
                            assert(c + c + c + c == 4 * (c as int));
                        };
                        assert((c + c + c) / 3 == c as int) by {
                            vstd::arithmetic::div_mod::lemma_div_multiples_vanish(c as int, 3);
                            assert(c + c + c == 3 * (c as int));
                        };
                        assert(hmm == c && h0m == c && hm0 == c);
                    }
                }

                set_checked(m, x0, ym, h0m, Ghost(m0), Ghost(zero_const));
                set_checked(m, xm, y0, hm0, Ghost(m0), Ghost(zero_const));
                set_checked(m, xm, ym, hmm, Ghost(m0), Ghost(zero_const));
                proof {
                    if zero {
                        let sidei = side as int;
                        let qi = quad as int;
                        let mi = mid as int;
                        lemma_mod_offset(jx, 0, qi);
                        lemma_mod_offset(jx, mi, qi);
                        lemma_mod_offset(jy, 0, qi);
                        lemma_mod_offset(jy, mi, qi);
                        lemma_mod_offset(jx + 1, 0, qi);
                        lemma_mod_offset(jy + 1, 0, qi);
                        assert((jx + 1) * qi == x0 + qi && (jy + 1) * qi == y0 + qi)
                            by (nonlinear_arith)
                            requires x0 == jx * qi && y0 == jy * qi;
                        lemma_index_bounds(sidei, sidei, x0 as int, y0 as int);
                        lemma_index_bounds(sidei, sidei, x0 as int, y1 as int);
                        lemma_index_bounds(sidei, sidei, x1 as int, y0 as int);
                        lemma_index_bounds(sidei, sidei, x1 as int, y1 as int);
                        assert(h00 as int == hat(hpre, sidei, x0 as int, y0 as int));
                        assert(h01 as int == hat(hpre, sidei, x0 as int, y1 as int));
                        assert(h10 as int == hat(hpre, sidei, x1 as int, y0 as int));
                        assert(h11 as int == hat(hpre, sidei, x1 as int, y1 as int));
                        assert(hmm as int == ds_center(hpre, sidei, qi, xm as int, ym as int));
                        assert(hmm as int
                            == ds_level_at(hpre, sidei, qi, xm as int, ym as int));
                        // The vertical square point.
                        if x0 > mid {
                            assert(x0 as int == jx * qi && jx >= 1);
                            assert(x0 as int >= qi) by (nonlinear_arith)
                                requires x0 as int == jx * qi && jx >= 1 && qi > 0;
                            assert((jx - 1) * qi + mi == x0 - mid) by (nonlinear_arith)
                                requires x0 as int == jx * qi && qi == 2 * mi
                                    && mi == mid as int;
                            lemma_mod_offset(jx - 1, mi, qi);
                            lemma_index_bounds(sidei, sidei, x0 - mid, ym as int);
                            assert(ds_region(sidei, qi, x0 as int, y0 as int,
                                x0 - mid, ym as int));
                            assert(p0[(ym as int) * sidei + (x0 - mid)] as int
                                == ds_level_at(hpre, sidei, qi, x0 - mid, ym as int));
                            assert(ds_level_at(hpre, sidei, qi, x0 - mid, ym as int)
                                == ds_center(hpre, sidei, qi, x0 - mid, ym as int));
                            assert(h0m as int
                                == (hat(hpre, sidei, x0 as int, y0 as int)
                                    + hat(hpre, sidei, x0 as int, y1 as int)
                                    + ds_center(hpre, sidei, qi, xm as int, ym as int)
                                    + ds_center(hpre, sidei, qi, x0 - mid, ym as int)) / 4);
                            assert(x0 as int != 0 && x0 as int != sidei - 1);
                            assert(h0m as int
                                == ds_level_at(hpre, sidei, qi, x0 as int, ym as int));
                        } else {
                            assert(x0 as int == 0) by (nonlinear_arith)
                                requires x0 as int == jx * qi && jx >= 0 && qi > 0
                                    && x0 as int <= qi / 2 && qi == 2 * (qi / 2);
                            assert(h0m as int
                                == ds_level_at(hpre, sidei, qi, x0 as int, ym as int));
                        }
                        // The horizontal square point.
                        if y0 > mid {
                            assert(y0 as int >= qi) by (nonlinear_arith)
                                requires y0 as int == jy * qi && jy >= 1 && qi > 0;
                            assert(jy >= 1);
                            assert((jy - 1) * qi + mi == y0 - mid) by (nonlinear_arith)
                                requires y0 as int == jy * qi && qi == 2 * mi
                                    && mi == mid as int;
                            lemma_mod_offset(jy - 1, mi, qi);
                            lemma_index_bounds(sidei, sidei, xm as int, y0 - mid);
                            assert(ds_region(sidei, qi, x0 as int, y0 as int,
                                xm as int, y0 - mid));
                            assert(p0[(y0 - mid) * sidei + xm as int] as int
                                == ds_level_at(hpre, sidei, qi, xm as int, y0 - mid));
                            assert(ds_level_at(hpre, sidei, qi, xm as int, y0 - mid)
                                == ds_center(hpre, sidei, qi, xm as int, y0 - mid));
                            assert(y0 as int != 0 && y0 as int != sidei - 1);
                            assert(hm0 as int
                                == ds_level_at(hpre, sidei, qi, xm as int, y0 as int));
                        } else {
                            assert(y0 as int == 0) by (nonlinear_arith)
                                requires y0 as int == jy * qi && jy >= 0 && qi > 0
                                    && y0 as int <= qi / 2 && qi == 2 * (qi / 2);
                            assert(hm0 as int
                                == ds_level_at(hpre, sidei, qi, xm as int, y0 as int));
                        }
                        assert(m.heights() == p0
                            .update((y0 as int + qi / 2) * sidei + x0 as int, h0m)
                            .update(y0 as int * sidei + (x0 as int + qi / 2), hm0)
                            .update((y0 as int + qi / 2) * sidei + (x0 as int + qi / 2),
                                hmm));
                        lemma_ds_quad_update(p0, m.heights(), hpre, sidei, qi,
                            x0 as int, y0 as int, jx, jy, cols, h0m, hm0, hmm);
                    }
                }

                y0 = y1;
                proof {
                    jy = jy + 1;
                }
            }

            let ghost pc0 = m.heights();
            // End of column: displace the square point on the far y
            // boundary from the three known neighbours.
            let ghost c: i64 = m0.heights()[0];
            proof {
                if zero_const {
                    lemma_constant_at(*m, x0 as int, s1 as int);
                    lemma_constant_at(*m, x1 as int, s1 as int);
                    lemma_constant_at(*m, xm as int, s1 - mid);
                }
            }
            let h00 = m.get(x0, s1);
            let h10 = m.get(x1, s1);
            let hmn = m.get(xm, s1 - mid);
            let hm0 = sat_add(avg3(h00, h10, hmn), s.sample(scale2));
            proof {
                if zero_const {
                    assert((c + c + c) / 3 == c as int) by {
                        vstd::arithmetic::div_mod::lemma_div_multiples_vanish(c as int, 3);
                        assert(c + c + c == 3 * (c as int));
                    };
                    assert(hm0 == c);
                }
            }
            set_checked(m, xm, s1, hm0, Ghost(m0), Ghost(zero_const));
            proof {
                if zero {
                    let sidei = side as int;
                    let qi = quad as int;
                    let mi = mid as int;
                    lemma_mod_offset(jx, 0, qi);
                    lemma_mod_offset(jx, mi, qi);
                    lemma_mod_offset(cols, 0, qi);
                    lemma_mod_offset(cols - 1, mi, qi);
                    assert((cols - 1) * qi + mi == s1 - mid && cols * qi == s1 as int)
                        by (nonlinear_arith)
                        requires s1 as int == cols * qi && qi == 2 * mi
                            && mi == mid as int;
                    lemma_index_bounds(sidei, sidei, x0 as int, s1 as int);
                    lemma_index_bounds(sidei, sidei, x1 as int, s1 as int);
                    lemma_index_bounds(sidei, sidei, xm as int, s1 - mid);
                    assert(h00 as int == hat(hpre, sidei, x0 as int, s1 as int));
                    assert(h10 as int == hat(hpre, sidei, x1 as int, s1 as int));
                    assert(ds_region(sidei, qi, x0 as int, s1 as int,
                        xm as int, s1 - mid));
                    assert(pc0[(s1 - mid) * sidei + xm as int] as int
                        == ds_level_at(hpre, sidei, qi, xm as int, s1 - mid));
                    assert(ds_level_at(hpre, sidei, qi, xm as int, s1 - mid)
                        == ds_center(hpre, sidei, qi, xm as int, s1 - mid));
                    assert(s1 as int != 0);
                    assert(hm0 as int
                        == ds_level_at(hpre, sidei, qi, xm as int, s1 as int));
                    assert(m.heights()
                        == pc0.update(s1 as int * sidei + (x0 as int + qi / 2), hm0));
                    lemma_ds_colend_update(pc0, m.heights(), hpre, sidei, qi,
                        x0 as int, jx, cols, hm0);
                }
            }

            x0 = x1;
            proof {
                jx = jx + 1;
            }
        }

        // End of rows: displace the square points on the far x boundary.
        let mut y0: usize = 0;
        let ghost mut jy: int = 0;
        while y0 < s1
            invariant
                0 <= jy <= cols,
                y0 == jy * quad,
                y0 <= s1,
                s1 == cols * quad,
                cols >= 1,
                quad == pow2((n - i) as nat),
                quad >= 2,
                mid == quad / 2,
                quad == 2 * mid,
                scale2 >= 0,
                m.wf(),
                m.same_frame(m0),
                m.nx() == side,
                m.ny() == side,
                side == s1 + 1,
                side <= 0x1_0000_0000,
                corners_preserved(m0, *m),
                s.spec_zero() == old(s).spec_zero(),
                zero_const == (old(s).spec_zero() && is_constant(m0)),
                zero_const ==> m.heights() == m0.heights(),
                zero == old(s).spec_zero(),
                hpre.len() == side * side,
                zero ==> ds_partial(m.heights(), hpre, side as int, quad as int,
                    s1 as int, y0 as int),
                zero ==> ds_sweep(hpre, side as int, quad as int)
                    == ds_sweep(m0.heights(), side as int, q0),
            decreases s1 - y0,
        {
            let ghost pr0 = m.heights();
            proof {
                assert(jy < cols) by (nonlinear_arith)
                    requires jy * quad < cols * quad && quad > 0 && 0 <= jy <= cols;
                assert((jy + 1) * quad <= cols * quad) by (nonlinear_arith)
                    requires jy + 1 <= cols && quad > 0;
                assert((jy + 1) * quad == jy * quad + quad) by (nonlinear_arith);
            }
            let y1 = y0 + quad;
            let ym = y0 + mid;
            let ghost c: i64 = m0.heights()[0];
            proof {
                if zero_const {
                    lemma_constant_at(*m, s1 as int, y0 as int);
                    lemma_constant_at(*m, s1 as int, y1 as int);
                    lemma_constant_at(*m, s1 - mid, ym as int);
                }
            }
            let h00 = m.get(s1, y0);
            let h01 = m.get(s1, y1);
            let hnm = m.get(s1 - mid, ym);
            let h0m = sat_add(avg3(h00, h01, hnm), s.sample(scale2));
            proof {
                if zero_const {
                    assert((c + c + c) / 3 == c as int) by {
                        vstd::arithmetic::div_mod::lemma_div_multiples_vanish(c as int, 3);
                        assert(c + c + c == 3 * (c as int));
                    };
                    assert(h0m == c);
                }
            }
            set_checked(m, s1, ym, h0m, Ghost(m0), Ghost(zero_const));
            proof {
                if zero {
                    let sidei = side as int;
                    let qi = quad as int;
                    let mi = mid as int;
                    lemma_mod_offset(jy, 0, qi);
                    lemma_mod_offset(jy, mi, qi);
                    lemma_mod_offset(jy + 1, 0, qi);
                    lemma_mod_offset(cols, 0, qi);
                    lemma_mod_offset(cols - 1, mi, qi);
                    assert((jy + 1) * qi == y0 + qi) by (nonlinear_arith)
                        requires y0 as int == jy * qi;
                    assert((cols - 1) * qi + mi == s1 - mid && cols * qi == s1 as int)
                        by (nonlinear_arith)
                        requires s1 as int == cols * qi && qi == 2 * mi
                            && mi == mid as int;
                    lemma_index_bounds(sidei, sidei, s1 as int, y0 as int);
                    lemma_index_bounds(sidei, sidei, s1 as int, y1 as int);
                    lemma_index_bounds(sidei, sidei, s1 - mid, ym as int);
                    assert(h00 as int == hat(hpre, sidei, s1 as int, y0 as int));
                    assert(h01 as int == hat(hpre, sidei, s1 as int, y1 as int));
                    assert(ds_region(sidei, qi, s1 as int, y0 as int,
                        s1 - mid, ym as int));
                    assert(pr0[(ym as int) * sidei + (s1 - mid)] as int
                        == ds_level_at(hpre, sidei, qi, s1 - mid, ym as int));
                    assert(ds_level_at(hpre, sidei, qi, s1 - mid, ym as int)
                        == ds_center(hpre, sidei, qi, s1 - mid, ym as int));
                    assert(s1 as int != 0 && s1 as int == sidei - 1);
                    assert(h0m as int
                        == ds_level_at(hpre, sidei, qi, s1 as int, ym as int));
                    assert(m.heights()
                        == pr0.update((y0 as int + qi / 2) * sidei + s1 as int, h0m));
                    lemma_ds_rowend_update(pr0, m.heights(), hpre, sidei, qi,
                        y0 as int, jy, cols, h0m);
                }
            }

            y0 = y1;
            proof {
                jy = jy + 1;
            }
        }
        proof {
            if zero {
                lemma_ds_level_done(m.heights(), hpre, side as int, quad as int, cols);
                assert(ds_sweep(m.heights(), side as int, (quad as int) / 2)
                    == ds_sweep(hpre, side as int, quad as int));
            }
        }

        i = i + 1;
        quad = mid;
    }
    proof {
        if zero {
            assert(pow2(0) == 1) by {
                vstd::arithmetic::power2::lemma2_to64();
            };
            assert(quad as int == 1);
            assert(ds_sweep(m.heights(), side as int, 1) == m.heights());
        }
    }
    Ok(())
}

/// Write one displaced vertex: an interior-coordinate write that keeps the
/// corner heights, and — in the constant-grid, zero-sampler case — rewrites
/// the value already there.
fn set_checked(m: &mut Heightmap, wx: usize, wy: usize, v: i64, m0: Ghost<Heightmap>,
    zero_const: Ghost<bool>)
    requires
        old(m).wf(),
        old(m).nx() == old(m).ny(),
        old(m).nx() >= 2,
        old(m).valid_vertex(wx as int, wy as int),
        (0 < wx < old(m).nx() - 1) || (0 < wy < old(m).ny() - 1),
        corners_preserved(m0@, *old(m)),
        m0@.nx() == old(m).nx(),
        m0@.ny() == old(m).ny(),
        zero_const@ ==> is_constant(m0@)
            && m0@.heights().len() == old(m).heights().len(),
        zero_const@ && old(m).heights() == m0@.heights() ==> v == m0@.heights()[0],
    ensures
        final(m).wf(),
        final(m).same_frame(*old(m)),
        final(m).heights()
            == old(m).heights().update(old(m).index_of(wx as int, wy as int), v),
        corners_preserved(m0@, *final(m)),
        zero_const@ && old(m).heights() == m0@.heights()
            ==> final(m).heights() == m0@.heights(),
{
    let ghost pre = *m;
    proof {
        pre.lemma_wf();
    }
    m.set(wx, wy, v);
    proof {
        let side = pre.nx();
        lemma_interior_write_preserves_corners(
            pre.heights(), m.heights(), side, wx as int, wy as int, v);
        if zero_const@ && pre.heights() == m0@.heights() {
            lemma_index_bounds(side, side, wx as int, wy as int);
            assert(m0@.heights()[(wy as int) * side + wx as int] == m0@.heights()[0]);
            assert(m.heights() =~= m0@.heights());
        }
    }
}

} // verus!
