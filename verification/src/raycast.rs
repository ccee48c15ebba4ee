//! Ray / height-grid intersection.
//!
//! Each grid cell covers two triangles built from its four corner heights.
//! A query scans the triangles in row-major cell order, testing each with
//! an exact integer Moller-Trumbore predicate, and returns the hit with
//! the smallest fixed-point ray parameter (ties broken by scan order), so
//! the result is pinned down completely: it is the earliest intersection
//! of the ray with the terrain surface.

use vstd::prelude::*;

use crate::heightmap::Heightmap;
use crate::num::{UNIT, div_floor, sat_of_i128, sat64};

verus! {

/// A ray in the grid's local frame: origin and direction, fixed point.
#[derive(Debug, Clone, Copy)]
pub struct Ray {
    /// Starting point of the ray.
    pub origin: (i64, i64, i64),
    /// Direction of travel (need not be normalised).
    pub dir: (i64, i64, i64),
}

/// A triangle of the terrain surface, fixed point.
#[derive(Debug, Clone, Copy)]
pub struct Triangle {
    /// First vertex.
    pub a: (i64, i64, i64),
    /// Second vertex.
    pub b: (i64, i64, i64),
    /// Third vertex.
    pub c: (i64, i64, i64),
}

/// An intersection: the fixed-point ray parameter (time of impact), the
/// cell hit, and which of its two triangles.
///
/// The hit identifies the triangle exactly, so a caller needing the
/// surface normal at the intersection can recover the triangle through
/// [`Heightmap::triangles_at`] and take its cross product.
#[derive(Debug, Clone, Copy)]
pub struct RayHit {
    /// Fixed-point ray parameter of the intersection.
    pub toi: i64,
    /// The cell whose triangle was hit.
    pub cell: (usize, usize),
    /// Whether the second of the cell's two triangles was hit.
    pub second: bool,
}

/// Component-wise difference of two points.
pub open spec fn sub3(u: (i64, i64, i64), v: (i64, i64, i64)) -> (int, int, int) {
    (u.0 - v.0, u.1 - v.1, u.2 - v.2)
}

/// Cross product.
pub open spec fn cross3(u: (int, int, int), v: (int, int, int)) -> (int, int, int) {
    (u.1 * v.2 - u.2 * v.1, u.2 * v.0 - u.0 * v.2, u.0 * v.1 - u.1 * v.0)
}

/// Dot product.
pub open spec fn dot3(u: (int, int, int), v: (int, int, int)) -> int {
    u.0 * v.0 + u.1 * v.1 + u.2 * v.2
}

/// A direction as an int triple.
pub open spec fn as3(u: (i64, i64, i64)) -> (int, int, int) {
    (u.0 as int, u.1 as int, u.2 as int)
}

/// Moller-Trumbore determinant of a ray against a triangle.
pub open spec fn tri_det(r: Ray, t: Triangle) -> int {
    dot3(sub3(t.b, t.a), cross3(as3(r.dir), sub3(t.c, t.a)))
}

/// Barycentric numerator `u` (scaled by the determinant).
pub open spec fn tri_u_num(r: Ray, t: Triangle) -> int {
    dot3(sub3(r.origin, t.a), cross3(as3(r.dir), sub3(t.c, t.a)))
}

/// Barycentric numerator `v` (scaled by the determinant).
pub open spec fn tri_v_num(r: Ray, t: Triangle) -> int {
    dot3(as3(r.dir), cross3(sub3(r.origin, t.a), sub3(t.b, t.a)))
}

/// Ray-parameter numerator (scaled by the determinant).
pub open spec fn tri_t_num(r: Ray, t: Triangle) -> int {
    dot3(sub3(t.c, t.a), cross3(sub3(r.origin, t.a), sub3(t.b, t.a)))
}

/// The sign that normalises the determinant to be positive.
pub open spec fn tri_sign(r: Ray, t: Triangle) -> int {
    if tri_det(r, t) >= 0 {
        1
    } else {
        -1
    }
}

/// The ray meets the triangle: not parallel, barycentric coordinates
/// within the triangle (edges inclusive), and a non-negative parameter.
pub open spec fn spec_hits(r: Ray, t: Triangle) -> bool {
    let det = tri_det(r, t);
    let s = tri_sign(r, t);
    &&& det != 0
    &&& s * tri_u_num(r, t) >= 0
    &&& s * tri_v_num(r, t) >= 0
    &&& s * (tri_u_num(r, t) + tri_v_num(r, t)) <= s * det
    &&& s * tri_t_num(r, t) >= 0
}

/// The fixed-point ray parameter of the intersection: the exact rational
/// `t_num / det` scaled by `UNIT`, floored and saturated.
pub open spec fn spec_toi(r: Ray, t: Triangle) -> int {
    sat64((tri_sign(r, t) * tri_t_num(r, t) * UNIT) / (tri_sign(r, t) * tri_det(r, t)))
}

impl Heightmap {
    /// `(cx, cy)` names a cell (not just a vertex) of the grid.
    pub open spec fn valid_cell(self, cx: int, cy: int) -> bool {
        0 <= cx < self.nx() - 1 && 0 <= cy < self.ny() - 1
    }

    /// One of the two triangles covering cell `(cx, cy)`; they share the
    /// diagonal from the cell's low corner to its high corner.
    pub open spec fn spec_triangle(self, cx: int, cy: int, second: bool) -> Triangle {
        let v00 = (self.coord_x(cx) as i64, self.coord_y(cy) as i64, self.at(cx, cy));
        let v10 = (self.coord_x(cx + 1) as i64, self.coord_y(cy) as i64,
            self.at(cx + 1, cy));
        let v01 = (self.coord_x(cx) as i64, self.coord_y(cy + 1) as i64,
            self.at(cx, cy + 1));
        let v11 = (self.coord_x(cx + 1) as i64, self.coord_y(cy + 1) as i64,
            self.at(cx + 1, cy + 1));
        if second {
            Triangle { a: v00, b: v10, c: v11 }
        } else {
            Triangle { a: v01, b: v00, c: v11 }
        }
    }

    /// Scan position of a triangle, for the tie-break order.
    pub open spec fn tri_order(self, cx: int, cy: int, second: bool) -> int {
        (cy * (self.nx() - 1) + cx) * 2 + if second { 1int } else { 0int }
    }

    /// The two triangles of the cell `(cx, cy)`.
    pub fn triangles_at(&self, cx: usize, cy: usize) -> (r: (Triangle, Triangle))
        requires
            self.wf(),
            self.valid_cell(cx as int, cy as int),
        ensures
            r.0 == self.spec_triangle(cx as int, cy as int, false),
            r.1 == self.spec_triangle(cx as int, cy as int, true),
    {
        proof {
            self.lemma_wf();
        }
        let (x0, y0) = self.coord_of(cx, cy);
        let (x1, y1) = self.coord_of(cx + 1, cy + 1);
        let v00 = (x0, y0, self.get(cx, cy));
        let v10 = (x1, y0, self.get(cx + 1, cy));
        let v01 = (x0, y1, self.get(cx, cy + 1));
        let v11 = (x1, y1, self.get(cx + 1, cy + 1));
        (Triangle { a: v01, b: v00, c: v11 }, Triangle { a: v00, b: v10, c: v11 })
    }

    /// All heights lie within the bound the ray cast needs.
    pub open spec fn heights_bounded(self, bound: int) -> bool {
        forall|i: int| 0 <= i < self.heights().len()
            ==> -bound <= #[trigger] self.heights()[i] <= bound
    }

    /// Find the first intersection of `ray` with the terrain surface.
    ///
    /// Scans every cell's two triangles and returns the hit with the
    /// smallest fixed-point parameter; among equal parameters the first
    /// triangle in row-major cell order wins. `None` exactly when no
    /// triangle of the surface is met.
    pub fn ray_intersect(&self, ray: &Ray) -> (r: Option<RayHit>)
        requires
            self.wf(),
            self.sx() <= 0x1_0000_0000,
            self.sy() <= 0x1_0000_0000,
            self.heights_bounded(0x1_0000_0000),
            -0x1_0000_0000 <= ray.origin.0 <= 0x1_0000_0000,
            -0x1_0000_0000 <= ray.origin.1 <= 0x1_0000_0000,
            -0x1_0000_0000 <= ray.origin.2 <= 0x1_0000_0000,
            -0x1_0000_0000 <= ray.dir.0 <= 0x1_0000_0000,
            -0x1_0000_0000 <= ray.dir.1 <= 0x1_0000_0000,
            -0x1_0000_0000 <= ray.dir.2 <= 0x1_0000_0000,
        ensures
            match r {
                None => forall|cx: int, cy: int, second: bool|
                    self.valid_cell(cx, cy)
                    ==> !spec_hits(*ray, #[trigger] self.spec_triangle(cx, cy, second)),
                Some(h) => {
                    &&& self.valid_cell(h.cell.0 as int, h.cell.1 as int)
                    &&& spec_hits(*ray,
                        self.spec_triangle(h.cell.0 as int, h.cell.1 as int, h.second))
                    &&& h.toi as int == spec_toi(*ray,
                        self.spec_triangle(h.cell.0 as int, h.cell.1 as int, h.second))
                    &&& forall|cx: int, cy: int, second: bool|
                        self.valid_cell(cx, cy)
                            && spec_hits(*ray, #[trigger] self.spec_triangle(cx, cy, second))
                        ==> (h.toi as int) < spec_toi(*ray, self.spec_triangle(cx, cy, second))
                            || (h.toi as int == spec_toi(*ray, self.spec_triangle(cx, cy, second))
                                && self.tri_order(h.cell.0 as int, h.cell.1 as int, h.second)
                                    <= self.tri_order(cx, cy, second))
                },
            },
    {
        let (nx, ny) = self.dim();
        let mut best: Option<RayHit> = None;
        proof {
            self.lemma_wf();
        }
        let mut cy: usize = 0;
        while cy + 1 < ny
            invariant
                self.wf(),
                cy < ny,
                1 <= ny <= 0x1_0000_0000,
                1 <= nx <= 0x1_0000_0000,
                nx == self.nx() && ny == self.ny(),
                self.sx() <= 0x1_0000_0000,
                self.sy() <= 0x1_0000_0000,
                self.heights_bounded(0x1_0000_0000),
                -0x1_0000_0000 <= ray.origin.0 <= 0x1_0000_0000,
                -0x1_0000_0000 <= ray.origin.1 <= 0x1_0000_0000,
                -0x1_0000_0000 <= ray.origin.2 <= 0x1_0000_0000,
                -0x1_0000_0000 <= ray.dir.0 <= 0x1_0000_0000,
                -0x1_0000_0000 <= ray.dir.1 <= 0x1_0000_0000,
                -0x1_0000_0000 <= ray.dir.2 <= 0x1_0000_0000,
                scan_ok(*self, *ray, best, self.tri_order(0, cy as int, false)),
            decreases ny - cy,
        {
            let mut cx: usize = 0;
            proof {
                assert(self.tri_order(0, cy as int, false)
                    == self.tri_order(cx as int, cy as int, false));
            }
            while cx + 1 < nx
                invariant
                    self.wf(),
                    cx < nx,
                    1 <= nx <= 0x1_0000_0000,
                    1 <= ny <= 0x1_0000_0000,
                    cy as int + 1 < ny,
                    nx == self.nx() && ny == self.ny(),
                    self.sx() <= 0x1_0000_0000,
                    self.sy() <= 0x1_0000_0000,
                    self.heights_bounded(0x1_0000_0000),
                    -0x1_0000_0000 <= ray.origin.0 <= 0x1_0000_0000,
                    -0x1_0000_0000 <= ray.origin.1 <= 0x1_0000_0000,
                    -0x1_0000_0000 <= ray.origin.2 <= 0x1_0000_0000,
                    -0x1_0000_0000 <= ray.dir.0 <= 0x1_0000_0000,
                    -0x1_0000_0000 <= ray.dir.1 <= 0x1_0000_0000,
                    -0x1_0000_0000 <= ray.dir.2 <= 0x1_0000_0000,
                    scan_ok(*self, *ray, best, self.tri_order(cx as int, cy as int, false)),
                decreases nx - cx,
            {
                let (t1, t2) = self.triangles_at(cx, cy);
                proof {
                    self.lemma_triangle_bounds(cx as int, cy as int, false);
                    self.lemma_triangle_bounds(cx as int, cy as int, true);
                }
                let r1 = ray_triangle_toi(ray, &t1);
                best = fold_hit(best, r1, cx, cy, false, Ghost(*self), Ghost(*ray));
                let r2 = ray_triangle_toi(ray, &t2);
                proof {
                    assert(self.tri_order(cx as int, cy as int, false) + 1
                        == self.tri_order(cx as int, cy as int, true));
                }
                best = fold_hit(best, r2, cx, cy, true, Ghost(*self), Ghost(*ray));
                proof {
                    assert(self.tri_order(cx as int, cy as int, true) + 1
                        == self.tri_order(cx as int + 1, cy as int, false)) by {
                        assert((cy as int) * (nx - 1) + cx as int + 1
                            == (cy as int) * (nx - 1) + (cx as int + 1));
                    };
                }
                cx = cx + 1;
            }
            proof {
                // Row finished: the position just past this row's last cell
                // is exactly the next row's first triangle.
                assert(cx as int == nx as int - 1);
                assert((cy as int + 1) * (nx as int - 1)
                    == (cy as int) * (nx as int - 1) + (nx as int - 1)) by (nonlinear_arith);
                assert(self.tri_order(0, cy as int + 1, false)
                    == self.tri_order(cx as int, cy as int, false));
            }
            cy = cy + 1;
        }
        proof {
            assert forall|ax: int, ay: int, asec: bool| self.valid_cell(ax, ay)
                implies #[trigger] self.tri_order(ax, ay, asec)
                    < self.tri_order(0, cy as int, false) by {
                assert(ay * (nx as int - 1) + ax < (cy as int) * (nx as int - 1))
                    by (nonlinear_arith)
                    requires
                        0 <= ax < nx as int - 1 && 0 <= ay < ny as int - 1
                        && cy as int >= ny as int - 1 && nx as int >= 1;
            };
        }
        best
    }

    /// The vertices of every triangle of a bounded grid are bounded.
    proof fn lemma_triangle_bounds(self, cx: int, cy: int, second: bool)
        requires
            self.wf(),
            self.valid_cell(cx, cy),
            self.sx() <= 0x1_0000_0000,
            self.sy() <= 0x1_0000_0000,
            self.heights_bounded(0x1_0000_0000),
        ensures
            triangle_bounded(self.spec_triangle(cx, cy, second), 0x1_0000_0000),
    {
        self.lemma_wf();
        crate::heightmap::lemma_index_bounds(self.nx(), self.ny(), cx, cy);
        crate::heightmap::lemma_index_bounds(self.nx(), self.ny(), cx + 1, cy);
        crate::heightmap::lemma_index_bounds(self.nx(), self.ny(), cx, cy + 1);
        crate::heightmap::lemma_index_bounds(self.nx(), self.ny(), cx + 1, cy + 1);
        lemma_axis_coord_bounds(cx, self.nx(), self.sx());
        lemma_axis_coord_bounds(cx + 1, self.nx(), self.sx());
        lemma_axis_coord_bounds(cy, self.ny(), self.sy());
        lemma_axis_coord_bounds(cy + 1, self.ny(), self.sy());
    }
}

/// A vertex coordinate lies between zero and the axis extent.
proof fn lemma_axis_coord_bounds(c: int, d: int, s: int)
    requires
        0 <= c < d,
        0 < s,
    ensures
        0 <= crate::heightmap::axis_coord(c, d, s) <= s,
{
    if d > 1 {
        assert(0 <= c * s && c * s <= (d - 1) * s) by (nonlinear_arith)
            requires 0 <= c <= d - 1 && 0 < s;
        vstd::arithmetic::div_mod::lemma_div_is_ordered(0, c * s, d - 1);
        vstd::arithmetic::div_mod::lemma_div_is_ordered(c * s, (d - 1) * s, d - 1);
        vstd::arithmetic::div_mod::lemma_div_multiples_vanish(s, d - 1);
        vstd::arithmetic::div_mod::lemma_div_basics(d - 1);
    }
}

/// All triangle vertex components lie within `bound`.
pub open spec fn triangle_bounded(t: Triangle, bound: int) -> bool {
    &&& -bound <= t.a.0 <= bound && -bound <= t.a.1 <= bound && -bound <= t.a.2 <= bound
    &&& -bound <= t.b.0 <= bound && -bound <= t.b.1 <= bound && -bound <= t.b.2 <= bound
    &&& -bound <= t.c.0 <= bound && -bound <= t.c.1 <= bound && -bound <= t.c.2 <= bound
}

/// `best` is exactly the best hit among the triangles of scan order
/// below `n`: `None` when none of them is hit, else the hit with the
/// smallest parameter (first in scan order among equals).
pub open spec fn scan_ok(m: Heightmap, r: Ray, best: Option<RayHit>, n: int) -> bool {
    match best {
        None => forall|ax: int, ay: int, asec: bool|
            m.valid_cell(ax, ay) && m.tri_order(ax, ay, asec) < n
            ==> !spec_hits(r, #[trigger] m.spec_triangle(ax, ay, asec)),
        Some(h) => {
            &&& m.valid_cell(h.cell.0 as int, h.cell.1 as int)
            &&& m.tri_order(h.cell.0 as int, h.cell.1 as int, h.second) < n
            &&& spec_hits(r, m.spec_triangle(h.cell.0 as int, h.cell.1 as int, h.second))
            &&& h.toi as int == spec_toi(r,
                m.spec_triangle(h.cell.0 as int, h.cell.1 as int, h.second))
            &&& forall|ax: int, ay: int, asec: bool|
                m.valid_cell(ax, ay) && m.tri_order(ax, ay, asec) < n
                    && spec_hits(r, #[trigger] m.spec_triangle(ax, ay, asec))
                ==> (h.toi as int) < spec_toi(r, m.spec_triangle(ax, ay, asec))
                    || (h.toi as int == spec_toi(r, m.spec_triangle(ax, ay, asec))
                        && m.tri_order(h.cell.0 as int, h.cell.1 as int, h.second)
                            <= m.tri_order(ax, ay, asec))
        },
    }
}

/// Two distinct triangles have distinct scan orders.
proof fn lemma_tri_order_injective(m: Heightmap, ax: int, ay: int, asec: bool, bx: int,
    by: int, bsec: bool)
    requires
        m.valid_cell(ax, ay),
        m.valid_cell(bx, by),
        m.tri_order(ax, ay, asec) == m.tri_order(bx, by, bsec),
    ensures
        ax == bx && ay == by && asec == bsec,
{
    let w = m.nx() - 1;
    assert(asec == bsec) by {
        if asec != bsec {
            assert((ay * w + ax) * 2 + (if asec { 1int } else { 0int })
                != (by * w + bx) * 2 + (if bsec { 1int } else { 0int }))
                by (nonlinear_arith)
                requires asec != bsec;
        }
    };
    assert(ay * w + ax == by * w + bx) by (nonlinear_arith)
        requires (ay * w + ax) * 2 == (by * w + bx) * 2;
    assert(ax == bx && ay == by) by (nonlinear_arith)
        requires
            ay * w + ax == by * w + bx && 0 <= ax < w && 0 <= bx < w
            && 0 <= ay && 0 <= by;
}

/// Fold one triangle's test result into the best hit so far, advancing
/// the scan bound past that triangle.
fn fold_hit(best: Option<RayHit>, cand: Option<i64>, cx: usize, cy: usize, second: bool,
    m: Ghost<Heightmap>, r: Ghost<Ray>) -> (res: Option<RayHit>)
    requires
        m@.wf(),
        m@.valid_cell(cx as int, cy as int),
        scan_ok(m@, r@, best, m@.tri_order(cx as int, cy as int, second)),
        cand is Some <==> spec_hits(r@, m@.spec_triangle(cx as int, cy as int, second)),
        cand matches Some(t)
            ==> t as int == spec_toi(r@, m@.spec_triangle(cx as int, cy as int, second)),
    ensures
        scan_ok(m@, r@, res, m@.tri_order(cx as int, cy as int, second) + 1),
{
    let ghost n = m@.tri_order(cx as int, cy as int, second);
    proof {
        assert forall|ax: int, ay: int, asec: bool|
            m@.valid_cell(ax, ay) && m@.tri_order(ax, ay, asec) < n + 1
                && m@.tri_order(ax, ay, asec) >= n
            implies ax == cx as int && ay == cy as int && asec == second by {
            lemma_tri_order_injective(m@, ax, ay, asec, cx as int, cy as int, second);
        };
    }
    match (best, cand) {
        (None, None) => None,
        (None, Some(t)) => Some(RayHit { toi: t, cell: (cx, cy), second }),
        (Some(h), None) => Some(h),
        (Some(h), Some(t)) => {
            if t < h.toi {
                Some(RayHit { toi: t, cell: (cx, cy), second })
            } else {
                Some(h)
            }
        },
    }
}

/// Test one triangle: `Some` exactly on a hit, with the exact fixed-point
/// time of impact.
pub fn ray_triangle_toi(r: &Ray, t: &Triangle) -> (res: Option<i64>)
    requires
        -0x1_0000_0000 <= r.origin.0 <= 0x1_0000_0000,
        -0x1_0000_0000 <= r.origin.1 <= 0x1_0000_0000,
        -0x1_0000_0000 <= r.origin.2 <= 0x1_0000_0000,
        -0x1_0000_0000 <= r.dir.0 <= 0x1_0000_0000,
        -0x1_0000_0000 <= r.dir.1 <= 0x1_0000_0000,
        -0x1_0000_0000 <= r.dir.2 <= 0x1_0000_0000,
        triangle_bounded(*t, 0x1_0000_0000),
    ensures
        res is Some <==> spec_hits(*r, *t),
        res matches Some(x) ==> x as int == spec_toi(*r, *t),
{
    let e1 = sub_exec(t.b, t.a);
    let e2 = sub_exec(t.c, t.a);
    let tv = sub_exec(r.origin, t.a);
    let dirv = (r.dir.0 as i128, r.dir.1 as i128, r.dir.2 as i128);
    let p = cross_exec(dirv, e2);
    let q = cross_exec(tv, e1);
    let det = dot_exec(e1, p);
    let u_num = dot_exec(tv, p);
    let v_num = dot_exec(dirv, q);
    let t_num = dot_exec(e2, q);
    if det == 0 {
        return None;
    }
    let (tn, dn, un, vn) = if det > 0 {
        (t_num, det, u_num, v_num)
    } else {
        (-t_num, -det, -u_num, -v_num)
    };
    proof {
        assert(tn as int == tri_sign(*r, *t) * tri_t_num(*r, *t)
            && dn as int == tri_sign(*r, *t) * tri_det(*r, *t)
            && un as int == tri_sign(*r, *t) * tri_u_num(*r, *t)
            && vn as int == tri_sign(*r, *t) * tri_v_num(*r, *t)
            && (un as int) + (vn as int)
                == tri_sign(*r, *t) * (tri_u_num(*r, *t) + tri_v_num(*r, *t)));
    }
    if un < 0 || vn < 0 || un + vn > dn || tn < 0 {
        return None;
    }
    proof {
        assert(-0x1000_0000_0000_0000_0000_0000_0000_0000
                <= (tn as int) * (UNIT as int)
                <= 0x1000_0000_0000_0000_0000_0000_0000_0000)
            by (nonlinear_arith)
            requires
                -0x1000_0000_0000_0000_0000_0000_0000 <= (tn as int)
                    <= 0x1000_0000_0000_0000_0000_0000_0000
                && UNIT == 0x1_0000;
    }
    let toi128 = div_floor(tn * (UNIT as i128), dn);
    Some(sat_of_i128(toi128))
}

/// Difference of two bounded fixed-point points, as `i128` components.
fn sub_exec(u: (i64, i64, i64), v: (i64, i64, i64)) -> (r: (i128, i128, i128))
    requires
        -0x1_0000_0000 <= u.0 <= 0x1_0000_0000,
        -0x1_0000_0000 <= u.1 <= 0x1_0000_0000,
        -0x1_0000_0000 <= u.2 <= 0x1_0000_0000,
        -0x1_0000_0000 <= v.0 <= 0x1_0000_0000,
        -0x1_0000_0000 <= v.1 <= 0x1_0000_0000,
        -0x1_0000_0000 <= v.2 <= 0x1_0000_0000,
    ensures
        (r.0 as int, r.1 as int, r.2 as int) == sub3(u, v),
        -0x2_0000_0000 <= r.0 <= 0x2_0000_0000,
        -0x2_0000_0000 <= r.1 <= 0x2_0000_0000,
        -0x2_0000_0000 <= r.2 <= 0x2_0000_0000,
{
    (u.0 as i128 - v.0 as i128, u.1 as i128 - v.1 as i128, u.2 as i128 - v.2 as i128)
}

/// Cross product of two small vectors.
fn cross_exec(u: (i128, i128, i128), v: (i128, i128, i128)) -> (r: (i128, i128, i128))
    requires
        -0x2_0000_0000 <= u.0 <= 0x2_0000_0000,
        -0x2_0000_0000 <= u.1 <= 0x2_0000_0000,
        -0x2_0000_0000 <= u.2 <= 0x2_0000_0000,
        -0x2_0000_0000 <= v.0 <= 0x2_0000_0000,
        -0x2_0000_0000 <= v.1 <= 0x2_0000_0000,
        -0x2_0000_0000 <= v.2 <= 0x2_0000_0000,
    ensures
        (r.0 as int, r.1 as int, r.2 as int)
            == cross3((u.0 as int, u.1 as int, u.2 as int),
                (v.0 as int, v.1 as int, v.2 as int)),
        -0x8_0000_0000_0000_0000 <= r.0 <= 0x8_0000_0000_0000_0000,
        -0x8_0000_0000_0000_0000 <= r.1 <= 0x8_0000_0000_0000_0000,
        -0x8_0000_0000_0000_0000 <= r.2 <= 0x8_0000_0000_0000_0000,
{
    proof {
        assert forall|a: int, b: int|
            -0x2_0000_0000 <= a <= 0x2_0000_0000 && -0x2_0000_0000 <= b <= 0x2_0000_0000
            implies -0x4_0000_0000_0000_0000 <= #[trigger] (a * b) <= 0x4_0000_0000_0000_0000
            by {
            assert(-0x4_0000_0000_0000_0000 <= a * b <= 0x4_0000_0000_0000_0000)
                by (nonlinear_arith)
                requires
                    -0x2_0000_0000 <= a <= 0x2_0000_0000
                    && -0x2_0000_0000 <= b <= 0x2_0000_0000;
        };
    }
    (u.1 * v.2 - u.2 * v.1, u.2 * v.0 - u.0 * v.2, u.0 * v.1 - u.1 * v.0)
}

/// Dot product of a small vector with a cross-product-sized vector.
fn dot_exec(u: (i128, i128, i128), v: (i128, i128, i128)) -> (r: i128)
    requires
        -0x2_0000_0000 <= u.0 <= 0x2_0000_0000,
        -0x2_0000_0000 <= u.1 <= 0x2_0000_0000,
        -0x2_0000_0000 <= u.2 <= 0x2_0000_0000,
        -0x8_0000_0000_0000_0000 <= v.0 <= 0x8_0000_0000_0000_0000,
        -0x8_0000_0000_0000_0000 <= v.1 <= 0x8_0000_0000_0000_0000,
        -0x8_0000_0000_0000_0000 <= v.2 <= 0x8_0000_0000_0000_0000,
    ensures
        r as int == dot3((u.0 as int, u.1 as int, u.2 as int),
            (v.0 as int, v.1 as int, v.2 as int)),
        -0x1000_0000_0000_0000_0000_0000_0000 <= r <= 0x1000_0000_0000_0000_0000_0000_0000,
{
    proof {
        assert forall|a: int, b: int|
            -0x2_0000_0000 <= a <= 0x2_0000_0000
                && -0x8_0000_0000_0000_0000 <= b <= 0x8_0000_0000_0000_0000
            implies -0x10_0000_0000_0000_0000_0000_0000 <= #[trigger] (a * b)
                <= 0x10_0000_0000_0000_0000_0000_0000
            by {
            assert(-0x10_0000_0000_0000_0000_0000_0000 <= a * b
                    <= 0x10_0000_0000_0000_0000_0000_0000)
                by (nonlinear_arith)
                requires
                    -0x2_0000_0000 <= a <= 0x2_0000_0000
                    && -0x8_0000_0000_0000_0000 <= b <= 0x8_0000_0000_0000_0000;
        };
    }
    u.0 * v.0 + u.1 * v.1 + u.2 * v.2
}

} // verus!
