//! The 3-D count arrays that the decoder fills: the packed histogram, the
//! per-detector sub-cubes sliced out of it, and the computed group cubes.
//!
//! Storage is an `ndarray::Array3<u32>` held opaquely; its contents and shape
//! are named by two uninterpreted spec functions, and every access goes
//! through a small trusted wrapper whose contract states exactly what the
//! `ndarray` call does. All arithmetic on cells is done in verified code.

use vstd::prelude::*;

verus! {

/// A 3-D array of `u32` counts indexed `[y, x, z]` (row, column, channel).
#[verifier::external_body]
pub struct Cube {
    inner: ndarray::Array3<u32>,
}

/// What a cube holds: its cells, outermost (`y`) axis first.
pub uninterp spec fn cube_cells(c: Cube) -> Seq<Seq<Seq<u32>>>;

/// A cube's shape as `(y, x, z)` axis lengths.
pub uninterp spec fn cube_dims(c: Cube) -> (nat, nat, nat);

/// The factor an axis length contributes to the allocation size: zero-length
/// axes count as one, as in `ndarray`'s size computation.
pub open spec fn axis_factor(n: int) -> int {
    if n <= 1 {
        1
    } else {
        n
    }
}

/// The shape is small enough that a `u32` array of it can be allocated:
/// `ndarray` panics when the product of non-zero axis lengths overflows
/// `isize`, and the byte count (4 per element) must stay within `isize` too.
pub open spec fn fits_alloc(ny: int, nx: int, nz: int) -> bool {
    axis_factor(ny) * axis_factor(nx) * axis_factor(nz) * 4 <= isize::MAX as int
}

/// All cells zero, with the given shape.
pub open spec fn zero_cells(ny: int, nx: int, nz: int) -> Seq<Seq<Seq<u32>>> {
    Seq::new(ny as nat, |y| Seq::new(nx as nat, |x| Seq::new(nz as nat, |z| 0u32)))
}

/// One cell replaced, everything else unchanged.
pub open spec fn cube_upd(c: Seq<Seq<Seq<u32>>>, y: int, x: int, z: int, v: u32) -> Seq<
    Seq<Seq<u32>>,
> {
    c.update(y, c[y].update(x, c[y][x].update(z, v)))
}

/// `u32` addition that sticks at the top instead of overflowing.
pub open spec fn sat_add(a: u32, b: u32) -> u32 {
    if a + b > u32::MAX {
        u32::MAX
    } else {
        (a + b) as u32
    }
}

/// Relies on `ndarray::Array3::zeros`: a freshly allocated array of the given
/// shape with every element zero. The `requires` keeps the element and byte
/// counts within `isize::MAX`, which `zeros` panics on otherwise.
#[verifier::external_body]
fn array_zeros(ny: usize, nx: usize, nz: usize) -> (c: Cube)
    requires
        fits_alloc(ny as int, nx as int, nz as int),
    ensures
        cube_dims(c) == (ny as nat, nx as nat, nz as nat),
        cube_cells(c) == zero_cells(ny as int, nx as int, nz as int),
{
    Cube { inner: ndarray::Array3::zeros((ny, nx, nz)) }
}

/// Relies on `ndarray`'s `Index<[usize; 3]>` impl: the element at `[y, x, z]`.
/// The `requires` keeps the index in bounds, which indexing panics on
/// otherwise.
#[verifier::external_body]
fn array_get(c: &Cube, y: usize, x: usize, z: usize) -> (v: u32)
    requires
        (y as int) < cube_dims(*c).0,
        (x as int) < cube_dims(*c).1,
        (z as int) < cube_dims(*c).2,
    ensures
        v == cube_cells(*c)[y as int][x as int][z as int],
{
    c.inner[[y, x, z]]
}

/// Relies on `ndarray`'s `IndexMut<[usize; 3]>` impl: writes the element at
/// `[y, x, z]`, leaving the shape and every other element unchanged.
#[verifier::external_body]
fn array_set(c: &mut Cube, y: usize, x: usize, z: usize, v: u32)
    requires
        (y as int) < cube_dims(*old(c)).0,
        (x as int) < cube_dims(*old(c)).1,
        (z as int) < cube_dims(*old(c)).2,
    ensures
        cube_dims(*final(c)) == cube_dims(*old(c)),
        cube_cells(*final(c)) == cube_upd(
            cube_cells(*old(c)),
            y as int,
            x as int,
            z as int,
            v,
        ),
{
    c.inner[[y, x, z]] = v;
}

/// Relies on `ndarray`'s `dim()`: the array's shape as a tuple.
#[verifier::external_body]
fn array_dim(c: &Cube) -> (d: (usize, usize, usize))
    ensures
        d.0 as nat == cube_dims(*c).0,
        d.1 as nat == cube_dims(*c).1,
        d.2 as nat == cube_dims(*c).2,
{
    c.inner.dim()
}

impl Cube {
    /// The cells, as nested sequences.
    pub open spec fn cells(&self) -> Seq<Seq<Seq<u32>>> {
        cube_cells(*self)
    }

    pub open spec fn ny(&self) -> int {
        cube_dims(*self).0 as int
    }

    pub open spec fn nx(&self) -> int {
        cube_dims(*self).1 as int
    }

    pub open spec fn nz(&self) -> int {
        cube_dims(*self).2 as int
    }

    pub open spec fn cell(&self, y: int, x: int, z: int) -> u32 {
        self.cells()[y][x][z]
    }

    /// The cells form a full box of the declared shape, and the shape is
    /// allocatable.
    pub open spec fn wf(&self) -> bool {
        &&& self.cells().len() == self.ny()
        &&& (forall|y: int|
            0 <= y < self.ny() ==> (#[trigger] self.cells()[y]).len() == self.nx())
        &&& (forall|y: int, x: int|
            0 <= y < self.ny() && 0 <= x < self.nx() ==> (#[trigger] self.cells()[y][x]).len()
                == self.nz())
        &&& fits_alloc(self.ny(), self.nx(), self.nz())
    }

    /// A zero-filled cube of the given shape.
    pub fn zeros(ny: usize, nx: usize, nz: usize) -> (c: Cube)
        requires
            fits_alloc(ny as int, nx as int, nz as int),
        ensures
            c.wf(),
            c.ny() == ny,
            c.nx() == nx,
            c.nz() == nz,
            c.cells() == zero_cells(ny as int, nx as int, nz as int),
    {
        let c = array_zeros(ny, nx, nz);
        proof {
            assert forall|y: int| 0 <= y < c.ny() implies (#[trigger] c.cells()[y]).len()
                == c.nx() by {}
            assert forall|y: int, x: int|
                0 <= y < c.ny() && 0 <= x < c.nx() implies (#[trigger] c.cells()[y][x]).len()
                == c.nz() by {}
        }
        c
    }

    /// The shape, as `(y, x, z)` axis lengths.
    pub fn dims(&self) -> (d: (usize, usize, usize))
        ensures
            d.0 == self.ny(),
            d.1 == self.nx(),
            d.2 == self.nz(),
    {
        array_dim(self)
    }

    /// The count stored at `[y, x, z]`.
    pub fn get(&self, y: usize, x: usize, z: usize) -> (v: u32)
        requires
            (y as int) < self.ny(),
            (x as int) < self.nx(),
            (z as int) < self.nz(),
        ensures
            v == self.cell(y as int, x as int, z as int),
    {
        array_get(self, y, x, z)
    }

    /// Replace the count at `[y, x, z]`.
    pub fn set(&mut self, y: usize, x: usize, z: usize, v: u32)
        requires
            old(self).wf(),
            (y as int) < old(self).ny(),
            (x as int) < old(self).nx(),
            (z as int) < old(self).nz(),
        ensures
            final(self).wf(),
            final(self).ny() == old(self).ny(),
            final(self).nx() == old(self).nx(),
            final(self).nz() == old(self).nz(),
            final(self).cells() == cube_upd(old(self).cells(), y as int, x as int, z as int, v),
    {
        array_set(self, y, x, z, v);
        proof {
            let oc = old(self).cells();
            assert forall|yy: int| 0 <= yy < self.ny() implies (#[trigger] self.cells()[yy]).len()
                == self.nx() by {
                if yy == y as int {
                    assert(self.cells()[yy] == oc[yy].update(
                        x as int,
                        oc[yy][x as int].update(z as int, v),
                    ));
                }
            }
            assert forall|yy: int, xx: int|
                0 <= yy < self.ny() && 0 <= xx < self.nx() implies (
            #[trigger] self.cells()[yy][xx]).len() == self.nz() by {
                if yy == y as int {
                    assert(self.cells()[yy] == oc[yy].update(
                        x as int,
                        oc[yy][x as int].update(z as int, v),
                    ));
                    if xx == x as int {
                        assert(self.cells()[yy][xx] == oc[yy][xx].update(z as int, v));
                    }
                }
            }
        }
    }

    /// Add `d` to the count at `[y, x, z]`, saturating at `u32::MAX`.
    pub fn add_at(&mut self, y: usize, x: usize, z: usize, d: u32)
        requires
            old(self).wf(),
            (y as int) < old(self).ny(),
            (x as int) < old(self).nx(),
            (z as int) < old(self).nz(),
        ensures
            final(self).wf(),
            final(self).ny() == old(self).ny(),
            final(self).nx() == old(self).nx(),
            final(self).nz() == old(self).nz(),
            final(self).cells() == cube_upd(
                old(self).cells(),
                y as int,
                x as int,
                z as int,
                sat_add(old(self).cell(y as int, x as int, z as int), d),
            ),
    {
        let v = self.get(y, x, z);
        let nv: u32 = if v > u32::MAX - d {
            u32::MAX
        } else {
            v + d
        };
        self.set(y, x, z, nv);
    }
    /// A copy of the channel band `[lo, hi)`: same `y`/`x` extent, depth
    /// `hi - lo`, cell `[y, x, z]` holding this cube's `[y, x, z + lo]`.
    pub fn slice_z(&self, lo: usize, hi: usize) -> (s: Cube)
        requires
            self.wf(),
            lo <= hi,
            (hi as int) <= self.nz(),
        ensures
            s.wf(),
            s.ny() == self.ny(),
            s.nx() == self.nx(),
            s.nz() == hi - lo,
            forall|y: int, x: int, z: int|
                0 <= y < s.ny() && 0 <= x < s.nx() && 0 <= z < s.nz() ==> #[trigger] s.cell(
                    y,
                    x,
                    z,
                ) == self.cell(y, x, z + lo),
    {
        proof {
            lemma_fits_alloc_shrink(self.ny(), self.nx(), self.nz(), hi - lo);
        }
        let (ny, nx, _nz) = self.dims();
        let d: usize = hi - lo;
        let mut s = Cube::zeros(ny, nx, d);
        let mut y: usize = 0;
        while y < ny
            invariant
                self.wf(),
                s.wf(),
                lo <= hi,
                (hi as int) <= self.nz(),
                d == hi - lo,
                ny == self.ny(),
                nx == self.nx(),
                s.ny() == ny,
                s.nx() == nx,
                s.nz() == d,
                y <= ny,
                forall|y2: int, x2: int, z2: int|
                    0 <= y2 < y && 0 <= x2 < nx && 0 <= z2 < d ==> #[trigger] s.cell(y2, x2, z2)
                        == self.cell(y2, x2, z2 + lo),
            decreases ny - y,
        {
            let mut x: usize = 0;
            while x < nx
                invariant
                    self.wf(),
                    s.wf(),
                    lo <= hi,
                    (hi as int) <= self.nz(),
                    d == hi - lo,
                    ny == self.ny(),
                    nx == self.nx(),
                    s.ny() == ny,
                    s.nx() == nx,
                    s.nz() == d,
                    y < ny,
                    x <= nx,
                    forall|y2: int, x2: int, z2: int|
                        0 <= y2 < y && 0 <= x2 < nx && 0 <= z2 < d ==> #[trigger] s.cell(
                            y2,
                            x2,
                            z2,
                        ) == self.cell(y2, x2, z2 + lo),
                    forall|x2: int, z2: int|
                        0 <= x2 < x && 0 <= z2 < d ==> #[trigger] s.cell(y as int, x2, z2)
                            == self.cell(y as int, x2, z2 + lo),
                decreases nx - x,
            {
                let mut z: usize = 0;
                while z < d
                    invariant
                        self.wf(),
                        s.wf(),
                        lo <= hi,
                        (hi as int) <= self.nz(),
                        d == hi - lo,
                        ny == self.ny(),
                        nx == self.nx(),
                        s.ny() == ny,
                        s.nx() == nx,
                        s.nz() == d,
                        y < ny,
                        x < nx,
                        z <= d,
                        forall|y2: int, x2: int, z2: int|
                            0 <= y2 < y && 0 <= x2 < nx && 0 <= z2 < d ==> #[trigger] s.cell(
                                y2,
                                x2,
                                z2,
                            ) == self.cell(y2, x2, z2 + lo),
                        forall|x2: int, z2: int|
                            0 <= x2 < x && 0 <= z2 < d ==> #[trigger] s.cell(y as int, x2, z2)
                                == self.cell(y as int, x2, z2 + lo),
                        forall|z2: int|
                            0 <= z2 < z ==> #[trigger] s.cell(y as int, x as int, z2) == self.cell(
                                y as int,
                                x as int,
                                z2 + lo,
                            ),
                    decreases d - z,
                {
                    let v = self.get(y, x, z + lo);
                    let ghost s0 = s;
                    s.set(y, x, z, v);
                    proof {
                        lemma_cube_upd_frame(s0, s, y as int, x as int, z as int, v);
                    }
                    z = z + 1;
                }
                x = x + 1;
            }
            y = y + 1;
        }
        s
    }

    /// Whether any cell is non-zero (equivalently, whether the total count is
    /// positive).
    pub fn has_counts(&self) -> (r: bool)
        requires
            self.wf(),
        ensures
            r <==> exists|y: int, x: int, z: int|
                0 <= y < self.ny() && 0 <= x < self.nx() && 0 <= z < self.nz() && #[trigger] self.cell(
                    y,
                    x,
                    z,
                ) != 0,
    {
        let (ny, nx, nz) = self.dims();
        let mut y: usize = 0;
        while y < ny
            invariant
                self.wf(),
                ny == self.ny(),
                nx == self.nx(),
                nz == self.nz(),
                y <= ny,
                forall|y2: int, x2: int, z2: int|
                    0 <= y2 < y && 0 <= x2 < nx && 0 <= z2 < nz ==> #[trigger] self.cell(
                        y2,
                        x2,
                        z2,
                    ) == 0,
            decreases ny - y,
        {
            let mut x: usize = 0;
            while x < nx
                invariant
                    self.wf(),
                    ny == self.ny(),
                    nx == self.nx(),
                    nz == self.nz(),
                    y < ny,
                    x <= nx,
                    forall|y2: int, x2: int, z2: int|
                        0 <= y2 < y && 0 <= x2 < nx && 0 <= z2 < nz ==> #[trigger] self.cell(
                            y2,
                            x2,
                            z2,
                        ) == 0,
                    forall|x2: int, z2: int|
                        0 <= x2 < x && 0 <= z2 < nz ==> #[trigger] self.cell(y as int, x2, z2)
                            == 0,
                decreases nx - x,
            {
                let mut z: usize = 0;
                while z < nz
                    invariant
                        self.wf(),
                        ny == self.ny(),
                        nx == self.nx(),
                        nz == self.nz(),
                        y < ny,
                        x < nx,
                        z <= nz,
                        forall|y2: int, x2: int, z2: int|
                            0 <= y2 < y && 0 <= x2 < nx && 0 <= z2 < nz ==> #[trigger] self.cell(
                                y2,
                                x2,
                                z2,
                            ) == 0,
                        forall|x2: int, z2: int|
                            0 <= x2 < x && 0 <= z2 < nz ==> #[trigger] self.cell(y as int, x2, z2)
                                == 0,
                        forall|z2: int|
                            0 <= z2 < z ==> #[trigger] self.cell(y as int, x as int, z2) == 0,
                    decreases nz - z,
                {
                    if self.get(y, x, z) != 0 {
                        return true;
                    }
                    z = z + 1;
                }
                x = x + 1;
            }
            y = y + 1;
        }
        false
    }
}

/// Total of one innermost row.
pub open spec fn row_sum(r: Seq<u32>) -> int
    decreases r.len(),
{
    if r.len() == 0 {
        0
    } else {
        row_sum(r.drop_last()) + r.last()
    }
}

/// Total of one `y` plane.
pub open spec fn plane_sum(p: Seq<Seq<u32>>) -> int
    decreases p.len(),
{
    if p.len() == 0 {
        0
    } else {
        plane_sum(p.drop_last()) + row_sum(p.last())
    }
}

/// Total of a whole cube.
pub open spec fn cube_sum(c: Seq<Seq<Seq<u32>>>) -> int
    decreases c.len(),
{
    if c.len() == 0 {
        0
    } else {
        cube_sum(c.drop_last()) + plane_sum(c.last())
    }
}

pub proof fn lemma_row_sum_nonneg(r: Seq<u32>)
    ensures
        row_sum(r) >= 0,
    decreases r.len(),
{
    if r.len() > 0 {
        lemma_row_sum_nonneg(r.drop_last());
    }
}

pub proof fn lemma_plane_sum_nonneg(p: Seq<Seq<u32>>)
    ensures
        plane_sum(p) >= 0,
    decreases p.len(),
{
    if p.len() > 0 {
        lemma_plane_sum_nonneg(p.drop_last());
        lemma_row_sum_nonneg(p.last());
    }
}

pub proof fn lemma_cube_sum_nonneg(c: Seq<Seq<Seq<u32>>>)
    ensures
        cube_sum(c) >= 0,
    decreases c.len(),
{
    if c.len() > 0 {
        lemma_cube_sum_nonneg(c.drop_last());
        lemma_plane_sum_nonneg(c.last());
    }
}

pub proof fn lemma_row_sum_update(r: Seq<u32>, i: int, v: u32)
    requires
        0 <= i < r.len(),
    ensures
        row_sum(r.update(i, v)) == row_sum(r) - r[i] + v,
    decreases r.len(),
{
    let u = r.update(i, v);
    if i == r.len() - 1 {
        assert(u.drop_last() =~= r.drop_last());
    } else {
        assert(u.drop_last() =~= r.drop_last().update(i, v));
        lemma_row_sum_update(r.drop_last(), i, v);
    }
}

pub proof fn lemma_plane_sum_update(p: Seq<Seq<u32>>, i: int, r: Seq<u32>)
    requires
        0 <= i < p.len(),
    ensures
        plane_sum(p.update(i, r)) == plane_sum(p) - row_sum(p[i]) + row_sum(r),
    decreases p.len(),
{
    let u = p.update(i, r);
    if i == p.len() - 1 {
        assert(u.drop_last() =~= p.drop_last());
    } else {
        assert(u.drop_last() =~= p.drop_last().update(i, r));
        lemma_plane_sum_update(p.drop_last(), i, r);
    }
}

pub proof fn lemma_cube_sum_update(c: Seq<Seq<Seq<u32>>>, i: int, p: Seq<Seq<u32>>)
    requires
        0 <= i < c.len(),
    ensures
        cube_sum(c.update(i, p)) == cube_sum(c) - plane_sum(c[i]) + plane_sum(p),
    decreases c.len(),
{
    let u = c.update(i, p);
    if i == c.len() - 1 {
        assert(u.drop_last() =~= c.drop_last());
    } else {
        assert(u.drop_last() =~= c.drop_last().update(i, p));
        lemma_cube_sum_update(c.drop_last(), i, p);
    }
}

/// Writing one cell moves the cube total by exactly the difference at that
/// cell.
pub proof fn lemma_cube_upd_sum(c: Seq<Seq<Seq<u32>>>, y: int, x: int, z: int, v: u32)
    requires
        0 <= y < c.len(),
        0 <= x < c[y].len(),
        0 <= z < c[y][x].len(),
    ensures
        cube_sum(cube_upd(c, y, x, z, v)) == cube_sum(c) - c[y][x][z] + v,
{
    lemma_row_sum_update(c[y][x], z, v);
    lemma_plane_sum_update(c[y], x, c[y][x].update(z, v));
    lemma_cube_sum_update(c, y, c[y].update(x, c[y][x].update(z, v)));
}

pub proof fn lemma_row_sum_zero(r: Seq<u32>)
    requires
        forall|i: int| 0 <= i < r.len() ==> r[i] == 0,
    ensures
        row_sum(r) == 0,
    decreases r.len(),
{
    if r.len() > 0 {
        lemma_row_sum_zero(r.drop_last());
    }
}

pub proof fn lemma_plane_sum_zero(p: Seq<Seq<u32>>)
    requires
        forall|i: int, j: int| 0 <= i < p.len() && 0 <= j < p[i].len() ==> p[i][j] == 0,
    ensures
        plane_sum(p) == 0,
    decreases p.len(),
{
    if p.len() > 0 {
        lemma_plane_sum_zero(p.drop_last());
        lemma_row_sum_zero(p.last());
    }
}

pub proof fn lemma_cube_sum_zero(c: Seq<Seq<Seq<u32>>>)
    requires
        forall|i: int, j: int, k: int|
            0 <= i < c.len() && 0 <= j < c[i].len() && 0 <= k < c[i][j].len() ==> c[i][j][k] == 0,
    ensures
        cube_sum(c) == 0,
    decreases c.len(),
{
    if c.len() > 0 {
        lemma_cube_sum_zero(c.drop_last());
        lemma_plane_sum_zero(c.last());
    }
}

/// After a single-cell write, the written cell holds the new value and every
/// other cell reads as before.
pub proof fn lemma_cube_upd_frame(a: Cube, b: Cube, y: int, x: int, z: int, v: u32)
    requires
        a.wf(),
        0 <= y < a.ny(),
        0 <= x < a.nx(),
        0 <= z < a.nz(),
        b.cells() == cube_upd(a.cells(), y, x, z, v),
        b.ny() == a.ny(),
        b.nx() == a.nx(),
        b.nz() == a.nz(),
    ensures
        b.cell(y, x, z) == v,
        forall|y2: int, x2: int, z2: int|
            0 <= y2 < a.ny() && 0 <= x2 < a.nx() && 0 <= z2 < a.nz() && (y2 != y || x2 != x || z2
                != z) ==> #[trigger] b.cell(y2, x2, z2) == a.cell(y2, x2, z2),
{
    assert forall|y2: int, x2: int, z2: int|
        0 <= y2 < a.ny() && 0 <= x2 < a.nx() && 0 <= z2 < a.nz() && (y2 != y || x2 != x || z2
            != z) implies #[trigger] b.cell(y2, x2, z2) == a.cell(y2, x2, z2) by {
        if y2 == y {
            assert(b.cells()[y2] == a.cells()[y].update(x, a.cells()[y][x].update(z, v)));
            if x2 == x {
                assert(b.cells()[y2][x2] == a.cells()[y][x].update(z, v));
            }
        }
    }
}

/// An allocatable shape has every axis within `isize::MAX`.
pub proof fn lemma_fits_alloc_bounds(ny: int, nx: int, nz: int)
    requires
        0 <= ny,
        0 <= nx,
        0 <= nz,
        fits_alloc(ny, nx, nz),
    ensures
        ny <= isize::MAX as int,
        nx <= isize::MAX as int,
        nz <= isize::MAX as int,
{
    assert(axis_factor(ny) <= axis_factor(ny) * axis_factor(nx) * axis_factor(nz))
        by (nonlinear_arith)
        requires
            axis_factor(ny) >= 1,
            axis_factor(nx) >= 1,
            axis_factor(nz) >= 1,
    ;
    assert(axis_factor(nx) <= axis_factor(ny) * axis_factor(nx) * axis_factor(nz))
        by (nonlinear_arith)
        requires
            axis_factor(ny) >= 1,
            axis_factor(nx) >= 1,
            axis_factor(nz) >= 1,
    ;
    assert(axis_factor(nz) <= axis_factor(ny) * axis_factor(nx) * axis_factor(nz))
        by (nonlinear_arith)
        requires
            axis_factor(ny) >= 1,
            axis_factor(nx) >= 1,
            axis_factor(nz) >= 1,
    ;
    assert(axis_factor(ny) * axis_factor(nx) * axis_factor(nz) <= axis_factor(ny) * axis_factor(
        nx,
    ) * axis_factor(nz) * 4) by (nonlinear_arith)
        requires
            axis_factor(ny) >= 1,
            axis_factor(nx) >= 1,
            axis_factor(nz) >= 1,
    ;
}

/// Shrinking one axis keeps the shape allocatable.
pub proof fn lemma_fits_alloc_shrink(ny: int, nx: int, nz: int, nz2: int)
    requires
        fits_alloc(ny, nx, nz),
        0 <= nz2 <= nz,
    ensures
        fits_alloc(ny, nx, nz2),
{
    assert(axis_factor(nz2) <= axis_factor(nz));
    assert(axis_factor(ny) * axis_factor(nx) * axis_factor(nz2) * 4 <= axis_factor(ny)
        * axis_factor(nx) * axis_factor(nz) * 4) by (nonlinear_arith)
        requires
            axis_factor(ny) >= 1,
            axis_factor(nx) >= 1,
            1 <= axis_factor(nz2) <= axis_factor(nz),
    ;
}

} // verus!
