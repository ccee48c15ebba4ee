//! The height grid: a dense row-major grid of fixed-point heights with
//! physical extents and a cached `(min, max)` range.
//!
//! The cached range is an invariant of the type: after every mutation it
//! equals the true minimum and maximum over all stored heights.

use vstd::prelude::*;

use crate::num::{UNIT, sat_add, sat64, sat_of_i128, div_floor};
use crate::unbounded::UnboundedSurface;

verus! {

/// Least height in a sequence (`0` for an empty sequence, which no
/// well-formed grid has).
pub open spec fn min_of(s: Seq<i64>) -> int
    decreases s.len(),
{
    if s.len() == 0 {
        0
    } else if s.len() == 1 {
        s[0] as int
    } else {
        let m = min_of(s.drop_last());
        if (s.last() as int) < m {
            s.last() as int
        } else {
            m
        }
    }
}

/// Greatest height in a sequence (`0` for an empty sequence).
pub open spec fn max_of(s: Seq<i64>) -> int
    decreases s.len(),
{
    if s.len() == 0 {
        0
    } else if s.len() == 1 {
        s[0] as int
    } else {
        let m = max_of(s.drop_last());
        if (s.last() as int) > m {
            s.last() as int
        } else {
            m
        }
    }
}

/// `min_of` and `max_of` bound every element and are attained.
pub proof fn lemma_min_max_of(s: Seq<i64>)
    requires
        s.len() > 0,
    ensures
        forall|i: int| 0 <= i < s.len() ==> min_of(s) <= #[trigger] s[i] as int <= max_of(s),
        exists|i: int| 0 <= i < s.len() && s[i] as int == min_of(s),
        exists|i: int| 0 <= i < s.len() && s[i] as int == max_of(s),
    decreases s.len(),
{
    if s.len() > 1 {
        lemma_min_max_of(s.drop_last());
        assert(forall|i: int| 0 <= i < s.len() - 1 ==> s.drop_last()[i] == s[i]);
        let j = choose|j: int| 0 <= j < s.len() - 1 && s.drop_last()[j] as int == min_of(s.drop_last());
        let k = choose|k: int| 0 <= k < s.len() - 1 && s.drop_last()[k] as int == max_of(s.drop_last());
        if (s.last() as int) < min_of(s.drop_last()) {
            assert(s[s.len() - 1] as int == min_of(s));
        } else {
            assert(s[j] as int == min_of(s));
        }
        if (s.last() as int) > max_of(s.drop_last()) {
            assert(s[s.len() - 1] as int == max_of(s));
        } else {
            assert(s[k] as int == max_of(s));
        }
    } else {
        assert(s[0] as int == min_of(s));
        assert(s[0] as int == max_of(s));
    }
}

/// Physical coordinate of vertex `c` on an axis of `d` vertices spanning
/// extent `s`: `c * s / (d - 1)`, or `0` on a one-vertex axis.
pub open spec fn axis_coord(c: int, d: int, s: int) -> int {
    if d <= 1 {
        0
    } else {
        c * s / (d - 1)
    }
}

/// A terrain surface represented by a `dim.0 x dim.1` grid of heights.
///
/// A vertex index `(cx, cy)` maps to the physical coordinate
/// `(cx * size.0 / (dim.0 - 1), cy * size.1 / (dim.1 - 1))`; the vertex's
/// height completes the surface point. Heights are stored row-major:
/// `(cx, cy)` lives at `cx + cy * dim.0`.
pub struct Heightmap {
    dim: (usize, usize),
    size: (i64, i64),
    range: (i64, i64),
    data: Vec<i64>,
}

impl Heightmap {
    /// Number of vertices along the x axis.
    pub closed spec fn nx(self) -> int {
        self.dim.0 as int
    }

    /// Number of vertices along the y axis.
    pub closed spec fn ny(self) -> int {
        self.dim.1 as int
    }

    /// Physical extent along the x axis.
    pub closed spec fn sx(self) -> int {
        self.size.0 as int
    }

    /// Physical extent along the y axis.
    pub closed spec fn sy(self) -> int {
        self.size.1 as int
    }

    /// All stored heights, row-major.
    pub closed spec fn heights(self) -> Seq<i64> {
        self.data@
    }

    /// Row-major position of vertex `(cx, cy)`.
    pub open spec fn index_of(self, cx: int, cy: int) -> int {
        cy * self.nx() + cx
    }

    /// Height stored at vertex `(cx, cy)`.
    pub open spec fn at(self, cx: int, cy: int) -> i64 {
        self.heights()[self.index_of(cx, cy)]
    }

    /// `(cx, cy)` names a vertex of the grid.
    pub open spec fn valid_vertex(self, cx: int, cy: int) -> bool {
        0 <= cx < self.nx() && 0 <= cy < self.ny()
    }

    /// The grid's structural invariant: positive extents, a height for every
    /// vertex, and a cached range equal to the true minimum and maximum.
    pub closed spec fn wf(self) -> bool {
        &&& 1 <= self.nx() <= 0x1_0000_0000
        &&& 1 <= self.ny() <= 0x1_0000_0000
        &&& self.nx() * self.ny() == self.heights().len()
        &&& 0 < self.sx() < 0x1_0000_0000_0000
        &&& 0 < self.sy() < 0x1_0000_0000_0000
        &&& self.range.0 as int == min_of(self.heights())
        &&& self.range.1 as int == max_of(self.heights())
    }

    /// Physical x coordinate of column `cx` (exact floor division).
    pub open spec fn coord_x(self, cx: int) -> int {
        axis_coord(cx, self.nx(), self.sx())
    }

    /// Physical y coordinate of row `cy` (exact floor division).
    pub open spec fn coord_y(self, cy: int) -> int {
        axis_coord(cy, self.ny(), self.sy())
    }

    /// Two grids agree on everything but the stored heights.
    pub open spec fn same_frame(self, other: Heightmap) -> bool {
        &&& self.nx() == other.nx()
        &&& self.ny() == other.ny()
        &&& self.sx() == other.sx()
        &&& self.sy() == other.sy()
        &&& self.heights().len() == other.heights().len()
    }

    /// The structural facts that `wf` guarantees, for use outside this
    /// module.
    pub proof fn lemma_wf(&self)
        requires
            self.wf(),
        ensures
            1 <= self.nx() <= 0x1_0000_0000,
            1 <= self.ny() <= 0x1_0000_0000,
            self.heights().len() == self.nx() * self.ny(),
            0 < self.sx() < 0x1_0000_0000_0000,
            0 < self.sy() < 0x1_0000_0000_0000,
    {
    }

    /// Get the grid dimension (vertex counts).
    pub fn dim(&self) -> (r: (usize, usize))
        ensures
            r.0 as int == self.nx(),
            r.1 as int == self.ny(),
    {
        self.dim
    }

    /// Get the physical size of the grid.
    pub fn size(&self) -> (r: (i64, i64))
        ensures
            r.0 as int == self.sx(),
            r.1 as int == self.sy(),
    {
        self.size
    }

    /// Get the cached `(min, max)` height range; by the grid invariant it is
    /// the true minimum and maximum over all stored heights.
    pub fn range(&self) -> (r: (i64, i64))
        requires
            self.wf(),
        ensures
            r.0 as int == min_of(self.heights()),
            r.1 as int == max_of(self.heights()),
            forall|cx: int, cy: int| self.valid_vertex(cx, cy)
                ==> r.0 as int <= #[trigger] self.at(cx, cy) as int <= r.1 as int,
    {
        proof {
            lemma_index_bounds(self.nx(), self.ny(), 0, 0);
            lemma_min_max_of(self.heights());
            assert forall|cx: int, cy: int| self.valid_vertex(cx, cy)
                implies self.range.0 as int <= #[trigger] self.at(cx, cy) as int
                    <= self.range.1 as int by {
                lemma_index_bounds(self.nx(), self.ny(), cx, cy);
            };
        }
        self.range
    }

    /// Height at vertex `(cx, cy)`; the vertex must be on the grid.
    pub fn get(&self, cx: usize, cy: usize) -> (r: i64)
        requires
            self.wf(),
            self.valid_vertex(cx as int, cy as int),
        ensures
            r == self.at(cx as int, cy as int),
    {
        let n = self.data.len();
        proof {
            lemma_index_bounds(self.nx(), self.ny(), cx as int, cy as int);
        }
        self.data[cx + cy * self.dim.0]
    }

    /// Set the height at vertex `(cx, cy)`, keeping the cached range equal
    /// to the true minimum and maximum of the stored heights.
    pub fn set(&mut self, cx: usize, cy: usize, val: i64)
        requires
            old(self).wf(),
            old(self).valid_vertex(cx as int, cy as int),
        ensures
            final(self).wf(),
            final(self).same_frame(*old(self)),
            final(self).heights()
                == old(self).heights().update(old(self).index_of(cx as int, cy as int), val),
    {
        let n = self.data.len();
        proof {
            lemma_index_bounds(self.nx(), self.ny(), cx as int, cy as int);
        }
        let i = cx + cy * self.dim.0;
        self.data.set(i, val);
        self.recompute_range();
    }

    /// Physical coordinate of the given vertex.
    pub fn coord_of(&self, cx: usize, cy: usize) -> (r: (i64, i64))
        requires
            self.wf(),
            self.valid_vertex(cx as int, cy as int),
        ensures
            r.0 as int == self.coord_x(cx as int),
            r.1 as int == self.coord_y(cy as int),
    {
        let x = coord_1d(cx, self.dim.0, self.size.0);
        let y = coord_1d(cy, self.dim.1, self.size.1);
        (x, y)
    }

    /// Find the cell containing the physical coordinate `(x, y)`: its lowest
    /// vertex index. `None` exactly when the coordinate is outside the grid.
    pub fn cell_at_coord(&self, x: i64, y: i64) -> (r: Option<(usize, usize)>)
        requires
            self.wf(),
        ensures
            r is Some <==> 0 <= x as int <= self.sx() && 0 <= y as int <= self.sy(),
            r matches Some(c) ==> {
                &&& c.0 as int == x as int * (self.nx() - 1) / self.sx()
                &&& c.1 as int == y as int * (self.ny() - 1) / self.sy()
            },
    {
        if 0 <= x && x <= self.size.0 && 0 <= y && y <= self.size.1 {
            let cx = cell_1d(x, self.dim.0, self.size.0);
            let cy = cell_1d(y, self.dim.1, self.size.1);
            Some((cx, cy))
        } else {
            None
        }
    }

    /// Construct a flat (all-zero) grid with the given dimension and size.
    pub fn new_flat(dim: (usize, usize), size: (i64, i64)) -> (r: Heightmap)
        requires
            1 <= dim.0 <= 0x1_0000_0000,
            1 <= dim.1 <= 0x1_0000_0000,
            dim.0 * dim.1 <= usize::MAX,
            0 < size.0 < 0x1_0000_0000_0000,
            0 < size.1 < 0x1_0000_0000_0000,
        ensures
            r.wf(),
            r.nx() == dim.0,
            r.ny() == dim.1,
            r.sx() == size.0,
            r.sy() == size.1,
            r.heights() == Seq::new((dim.0 * dim.1) as nat, |i: int| 0i64),
    {
        proof {
            assert(dim.0 * dim.1 >= 1 * 1) by (nonlinear_arith)
                requires dim.0 >= 1 && dim.1 >= 1;
        }
        let n = dim.0 * dim.1;
        let mut data: Vec<i64> = Vec::new();
        let mut i: usize = 0;
        while i < n
            invariant
                i <= n,
                data@ == Seq::new(i as nat, |j: int| 0i64),
            decreases n - i,
        {
            data.push(0);
            proof {
                assert(data@ =~= Seq::new((i + 1) as nat, |j: int| 0i64));
            }
            i = i + 1;
        }
        let r = Heightmap { dim, size, range: (0, 0), data };
        proof {
            lemma_const_min_max(r.heights(), 0);
        }
        r
    }

    /// Construct a grid by sampling `surface` at every vertex coordinate.
    pub fn from_surface<S: UnboundedSurface>(dim: (usize, usize), size: (i64, i64),
        surface: &S) -> (r: Heightmap)
        requires
            1 <= dim.0 <= 0x1_0000_0000,
            1 <= dim.1 <= 0x1_0000_0000,
            dim.0 * dim.1 <= usize::MAX,
            0 < size.0 < 0x1_0000_0000_0000,
            0 < size.1 < 0x1_0000_0000_0000,
            forall|cx: int, cy: int| 0 <= cx < dim.0 && 0 <= cy < dim.1
                ==> surface.in_domain(
                    axis_coord(cx, dim.0 as int, size.0 as int) as i64,
                    axis_coord(cy, dim.1 as int, size.1 as int) as i64),
        ensures
            r.wf(),
            r.nx() == dim.0,
            r.ny() == dim.1,
            r.sx() == size.0,
            r.sy() == size.1,
            forall|cx: int, cy: int| r.valid_vertex(cx, cy)
                ==> #[trigger] r.at(cx, cy) == surface.spec_get(
                    axis_coord(cx, dim.0 as int, size.0 as int) as i64,
                    axis_coord(cy, dim.1 as int, size.1 as int) as i64),
    {
        let nx = dim.0;
        let ny = dim.1;
        proof {
            assert(nx * ny >= 1 * 1) by (nonlinear_arith)
                requires nx >= 1 && ny >= 1;
        }
        let mut data: Vec<i64> = Vec::new();
        let mut iy: usize = 0;
        while iy < ny
            invariant
                iy <= ny,
                1 <= nx <= 0x1_0000_0000,
                1 <= ny <= 0x1_0000_0000,
                nx * ny <= usize::MAX,
                nx == dim.0 && ny == dim.1,
                0 < size.0 < 0x1_0000_0000_0000,
                0 < size.1 < 0x1_0000_0000_0000,
                data@.len() == iy * nx,
                forall|cx: int, cy: int| 0 <= cx < dim.0 && 0 <= cy < dim.1
                    ==> surface.in_domain(
                        axis_coord(cx, dim.0 as int, size.0 as int) as i64,
                        axis_coord(cy, dim.1 as int, size.1 as int) as i64),
                forall|cx: int, cy: int| 0 <= cx < nx && 0 <= cy < iy
                    ==> #[trigger] data@[cy * nx + cx] == surface.spec_get(
                        axis_coord(cx, dim.0 as int, size.0 as int) as i64,
                        axis_coord(cy, dim.1 as int, size.1 as int) as i64),
            decreases ny - iy,
        {
            proof {
                lemma_index_bounds(nx as int, ny as int, 0, iy as int);
                assert((iy + 1) * nx == iy * nx + nx) by (nonlinear_arith);
            }
            let y = coord_1d(iy, ny, size.1);
            proof {
                assert forall|cx: int, cy: int|
                    0 <= cx < nx && 0 <= cy < ny && cy * nx + cx < data@.len()
                    implies #[trigger] data@[cy * nx + cx] == surface.spec_get(
                        axis_coord(cx, dim.0 as int, size.0 as int) as i64,
                        axis_coord(cy, dim.1 as int, size.1 as int) as i64) by {
                    assert(cy < iy) by (nonlinear_arith)
                        requires
                            cy * nx + cx < iy * nx && 0 <= cx && nx >= 1 && cy >= 0;
                };
            }
            let mut ix: usize = 0;
            while ix < nx
                invariant
                    ix <= nx,
                    iy < ny,
                    1 <= nx <= 0x1_0000_0000,
                    1 <= ny <= 0x1_0000_0000,
                    nx * ny <= usize::MAX,
                    nx == dim.0 && ny == dim.1,
                    0 < size.0 < 0x1_0000_0000_0000,
                    0 < size.1 < 0x1_0000_0000_0000,
                    y as int == axis_coord(iy as int, dim.1 as int, size.1 as int),
                    data@.len() == iy * nx + ix,
                    forall|cx: int, cy: int| 0 <= cx < dim.0 && 0 <= cy < dim.1
                        ==> surface.in_domain(
                            axis_coord(cx, dim.0 as int, size.0 as int) as i64,
                            axis_coord(cy, dim.1 as int, size.1 as int) as i64),
                    forall|cx: int, cy: int|
                        0 <= cx < nx && 0 <= cy < ny && cy * nx + cx < data@.len()
                        ==> #[trigger] data@[cy * nx + cx] == surface.spec_get(
                            axis_coord(cx, dim.0 as int, size.0 as int) as i64,
                            axis_coord(cy, dim.1 as int, size.1 as int) as i64),
                decreases nx - ix,
            {
                let x = coord_1d(ix, nx, size.0);
                proof {
                    assert(x == axis_coord(ix as int, dim.0 as int, size.0 as int) as i64);
                    assert(y == axis_coord(iy as int, dim.1 as int, size.1 as int) as i64);
                }
                let h = surface.get(x, y);
                data.push(h);
                proof {
                    assert forall|cx: int, cy: int|
                        0 <= cx < nx && 0 <= cy < ny && cy * nx + cx < data@.len()
                        implies #[trigger] data@[cy * nx + cx] == surface.spec_get(
                            axis_coord(cx, dim.0 as int, size.0 as int) as i64,
                            axis_coord(cy, dim.1 as int, size.1 as int) as i64) by {
                        lemma_index_bounds(nx as int, ny as int, cx, cy);
                        if cy * nx + cx == iy * nx + ix {
                            assert(cx == ix && cy == iy) by (nonlinear_arith)
                                requires
                                    cy * nx + cx == iy * nx + ix
                                    && 0 <= cx < nx && 0 <= ix < nx
                                    && 0 <= cy && 0 <= iy;
                        }
                    };
                }
                ix = ix + 1;
            }
            proof {
                assert forall|cx: int, cy: int| 0 <= cx < nx && 0 <= cy < iy + 1
                    implies #[trigger] data@[cy * nx + cx] == surface.spec_get(
                        axis_coord(cx, dim.0 as int, size.0 as int) as i64,
                        axis_coord(cy, dim.1 as int, size.1 as int) as i64) by {
                    assert(cy * nx + cx < iy * nx + nx) by (nonlinear_arith)
                        requires
                            0 <= cx < nx && 0 <= cy <= iy && nx >= 1;
                };
            }
            iy = iy + 1;
        }
        proof {
            assert(iy * nx == ny * nx);
            vstd::arithmetic::mul::lemma_mul_is_commutative(ny as int, nx as int);
        }
        let mut r = Heightmap { dim, size, range: (0, 0), data };
        r.recompute_range();
        proof {
            assert forall|cx: int, cy: int| r.valid_vertex(cx, cy)
                implies #[trigger] r.at(cx, cy) == surface.spec_get(
                    axis_coord(cx, dim.0 as int, size.0 as int) as i64,
                    axis_coord(cy, dim.1 as int, size.1 as int) as i64) by {
                lemma_index_bounds(nx as int, ny as int, cx, cy);
            };
        }
        r
    }

    /// Add `mult * surface` to every vertex: each height becomes
    /// `sat64(h + sat64(mult * g / UNIT))` for the surface height `g`
    /// sampled at the vertex's coordinate.
    pub fn add_surface<S: UnboundedSurface>(&mut self, surface: &S, mult: i64)
        requires
            old(self).wf(),
            forall|cx: int, cy: int| old(self).valid_vertex(cx, cy)
                ==> surface.in_domain(
                    old(self).coord_x(cx) as i64, old(self).coord_y(cy) as i64),
        ensures
            final(self).wf(),
            final(self).same_frame(*old(self)),
            forall|cx: int, cy: int| old(self).valid_vertex(cx, cy)
                ==> #[trigger] final(self).at(cx, cy) as int == sat64(
                    old(self).at(cx, cy)
                    + sat64(mult * surface.spec_get(
                        old(self).coord_x(cx) as i64,
                        old(self).coord_y(cy) as i64) / (UNIT as int))),
    {
        let ghost m0 = *old(self);
        let (nx, ny) = self.dim();
        let mut iy: usize = 0;
        while iy < ny
            invariant
                iy <= ny,
                self.wf(),
                self.same_frame(m0),
                self.nx() == nx && self.ny() == ny,
                m0.wf(),
                forall|cx: int, cy: int| m0.valid_vertex(cx, cy)
                    ==> surface.in_domain(m0.coord_x(cx) as i64, m0.coord_y(cy) as i64),
                forall|cx: int, cy: int| m0.valid_vertex(cx, cy) && cy < iy
                    ==> #[trigger] self.at(cx, cy) as int == sat64(
                        m0.at(cx, cy)
                        + sat64(mult * surface.spec_get(
                            m0.coord_x(cx) as i64, m0.coord_y(cy) as i64) / (UNIT as int))),
                forall|cx: int, cy: int| m0.valid_vertex(cx, cy) && cy >= iy
                    ==> #[trigger] self.at(cx, cy) == m0.at(cx, cy),
            decreases ny - iy,
        {
            let mut ix: usize = 0;
            while ix < nx
                invariant
                    ix <= nx,
                    iy < ny,
                    self.wf(),
                    self.same_frame(m0),
                    self.nx() == nx && self.ny() == ny,
                    m0.wf(),
                    forall|cx: int, cy: int| m0.valid_vertex(cx, cy)
                        ==> surface.in_domain(m0.coord_x(cx) as i64, m0.coord_y(cy) as i64),
                    forall|cx: int, cy: int| m0.valid_vertex(cx, cy)
                            && (cy < iy || (cy == iy && cx < ix))
                        ==> #[trigger] self.at(cx, cy) as int == sat64(
                            m0.at(cx, cy)
                            + sat64(mult * surface.spec_get(
                                m0.coord_x(cx) as i64, m0.coord_y(cy) as i64)
                                / (UNIT as int))),
                    forall|cx: int, cy: int| m0.valid_vertex(cx, cy)
                            && (cy > iy || (cy == iy && cx >= ix))
                        ==> #[trigger] self.at(cx, cy) == m0.at(cx, cy),
                decreases nx - ix,
            {
                let (x, y) = self.coord_of(ix, iy);
                proof {
                    assert(m0.valid_vertex(ix as int, iy as int));
                    assert(x as int == m0.coord_x(ix as int));
                    assert(y as int == m0.coord_y(iy as int));
                    assert(x == m0.coord_x(ix as int) as i64);
                    assert(y == m0.coord_y(iy as int) as i64);
                }
                let g = surface.get(x, y);
                let h = self.get(ix, iy);
                proof {
                    assert((mult as int) * (g as int) >= (i64::MIN as int) * (i64::MAX as int)
                        && (mult as int) * (g as int) <= (i64::MIN as int) * (i64::MIN as int))
                        by (nonlinear_arith)
                        requires
                            i64::MIN <= mult as int <= i64::MAX
                            && i64::MIN <= g as int <= i64::MAX;
                }
                let term128: i128 = div_floor(mult as i128 * g as i128, UNIT as i128);
                proof {
                    vstd::arithmetic::div_mod::lemma_div_is_ordered(
                        (i64::MIN as int) * (i64::MAX as int),
                        (mult as int) * (g as int), UNIT as int);
                    vstd::arithmetic::div_mod::lemma_div_is_ordered(
                        (mult as int) * (g as int),
                        (i64::MIN as int) * (i64::MIN as int), UNIT as int);
                }
                let term: i64 = sat_of_i128(term128);
                let v = sat_add(h, term);
                let ghost pre = *self;
                self.set(ix, iy, v);
                proof {
                    pre.lemma_wf();
                    lemma_index_bounds(nx as int, ny as int, ix as int, iy as int);
                    assert forall|cx: int, cy: int| m0.valid_vertex(cx, cy)
                            && !(cx == ix && cy == iy)
                        implies #[trigger] self.at(cx, cy) == pre.at(cx, cy) by {
                        lemma_index_bounds(nx as int, ny as int, cx, cy);
                        lemma_index_injective(
                            nx as int, ny as int, cx, cy, ix as int, iy as int);
                        assert(pre.heights().len() == nx * ny);
                        assert(0 <= cy * (nx as int) + cx < nx * ny);
                        assert(cy * (nx as int) + cx
                            != (iy as int) * (nx as int) + ix as int);
                        assert(self.heights() == pre.heights().update(
                            (iy as int) * (nx as int) + ix as int, v));
                        assert(self.heights()[cy * (nx as int) + cx]
                            == pre.heights()[cy * (nx as int) + cx]);
                    };
                    lemma_index_bounds(nx as int, ny as int, ix as int, iy as int);
                }
                ix = ix + 1;
            }
            iy = iy + 1;
        }
    }

    /// Recompute the cached `(min, max)` range by a full scan.
    fn recompute_range(&mut self)
        requires
            old(self).data@.len() >= 1,
        ensures
            final(self).dim == old(self).dim,
            final(self).size == old(self).size,
            final(self).data == old(self).data,
            final(self).range.0 as int == min_of(final(self).heights()),
            final(self).range.1 as int == max_of(final(self).heights()),
    {
        let n = self.data.len();
        let mut mn: i64 = self.data[0];
        let mut mx: i64 = self.data[0];
        let mut i: usize = 1;
        while i < n
            invariant
                1 <= i <= n,
                n == self.data@.len(),
                mn as int == min_of(self.data@.take(i as int)),
                mx as int == max_of(self.data@.take(i as int)),
            decreases n - i,
        {
            let v = self.data[i];
            proof {
                assert(self.data@.take(i + 1).drop_last() =~= self.data@.take(i as int));
                assert(self.data@.take(i + 1).last() == self.data@[i as int]);
            }
            if v < mn {
                mn = v;
            }
            if v > mx {
                mx = v;
            }
            i = i + 1;
        }
        proof {
            assert(self.data@.take(n as int) =~= self.data@);
        }
        self.range = (mn, mx);
    }
}

/// A constant sequence's minimum and maximum are that constant.
pub proof fn lemma_const_min_max(s: Seq<i64>, v: i64)
    requires
        s.len() > 0,
        forall|i: int| 0 <= i < s.len() ==> s[i] == v,
    ensures
        min_of(s) == v as int,
        max_of(s) == v as int,
    decreases s.len(),
{
    if s.len() > 1 {
        lemma_const_min_max(s.drop_last(), v);
    }
}

/// Row-major indices stay inside the grid and are distinct for distinct
/// vertices.
pub proof fn lemma_index_bounds(nx: int, ny: int, cx: int, cy: int)
    requires
        0 <= cx < nx,
        0 <= cy < ny,
    ensures
        0 <= cy * nx + cx < nx * ny,
{
    assert(cy * nx + cx < nx * ny) by (nonlinear_arith)
        requires 0 <= cx < nx && 0 <= cy < ny;
    assert(cy * nx >= 0) by (nonlinear_arith)
        requires cy >= 0 && nx > 0;
}

/// Distinct vertices of one grid have distinct row-major indices.
pub proof fn lemma_index_injective(nx: int, ny: int, ax: int, ay: int, bx: int, by: int)
    requires
        0 <= ax < nx,
        0 <= ay < ny,
        0 <= bx < nx,
        0 <= by < ny,
        (ax, ay) != (bx, by),
    ensures
        ay * nx + ax != by * nx + bx,
{
    assert(ay * nx + ax != by * nx + bx) by (nonlinear_arith)
        requires
            0 <= ax < nx && 0 <= ay < ny && 0 <= bx < nx && 0 <= by < ny
            && !(ax == bx && ay == by);
}

/// Physical coordinate of a vertex index along one axis:
/// `c * s / (d - 1)`, or `0` on a one-vertex axis.
fn coord_1d(c: usize, d: usize, s: i64) -> (r: i64)
    requires
        1 <= d <= 0x1_0000_0000,
        c < d,
        0 < s < 0x1_0000_0000_0000,
    ensures
        d > 1 ==> r as int == c as int * s as int / (d - 1),
        d == 1 ==> r == 0,
{
    if d == 1 {
        0
    } else {
        proof {
            assert((c as int) * (s as int) < 0x1_0000_0000_0000_0000_0000)
                by (nonlinear_arith)
                requires 0 <= (c as int) < 0x1_0000_0000 && 0 < (s as int) < 0x1_0000_0000_0000;
        }
        let num: i128 = c as i128 * s as i128;
        let q: i128 = div_floor(num, (d - 1) as i128);
        proof {
            let ci = c as int;
            let si = s as int;
            let di = d as int - 1;
            assert(0 <= ci * si) by (nonlinear_arith)
                requires 0 <= ci && 0 < si;
            assert(ci * si <= di * si) by (nonlinear_arith)
                requires ci <= di && 0 < si;
            vstd::arithmetic::div_mod::lemma_div_is_ordered(0, ci * si, di);
            vstd::arithmetic::div_mod::lemma_div_is_ordered(ci * si, di * si, di);
            vstd::arithmetic::div_mod::lemma_div_multiples_vanish(si, di);
        }
        q as i64
    }
}

/// Cell index containing a physical coordinate along one axis:
/// `x * (d - 1) / s`, or `0` on a one-vertex axis.
fn cell_1d(x: i64, d: usize, s: i64) -> (r: usize)
    requires
        1 <= d <= 0x1_0000_0000,
        0 <= x <= s,
        0 < s < 0x1_0000_0000_0000,
    ensures
        r as int == x as int * (d - 1) / s as int,
        r < d,
    {
    proof {
        assert((x as int) * (d - 1) < 0x1_0000_0000_0000_0000_0000)
            by (nonlinear_arith)
            requires 0 <= (x as int) < 0x1_0000_0000_0000 && 0 <= (d as int) - 1 < 0x1_0000_0000;
    }
    let num: i128 = x as i128 * (d as i128 - 1);
    let q: i128 = div_floor(num, s as i128);
    proof {
        let xi = x as int;
        let si = s as int;
        let di = d as int - 1;
        assert(0 <= xi * di) by (nonlinear_arith)
            requires 0 <= xi && 0 <= di;
        assert(xi * di <= si * di) by (nonlinear_arith)
            requires xi <= si && 0 <= di;
        vstd::arithmetic::div_mod::lemma_div_is_ordered(0, xi * di, si);
        vstd::arithmetic::div_mod::lemma_div_is_ordered(xi * di, si * di, si);
        vstd::arithmetic::div_mod::lemma_div_multiples_vanish(di, si);
    }
    q as usize
}

} // verus!
