//! Integer core of the integro-differential (Daugman) boundary search.
//!
//! The search samples circular contour sums of an 8-bit image over a grid of
//! candidate centres and radii, differentiates them along the radius, blurs
//! the result with a box window and takes the strongest response. All of it
//! is exact integer arithmetic: pixels are 8-bit, so every contour sum,
//! difference and window sum is an integer. The sample points of a contour
//! are computed by the caller.

use crate::arrays::{
    image8_cells, image8_dim, image8_get, image8_shape, nonzero_product, volume_cells, volume_dim,
    volume_get, volume_set, volume_shape, volume_zeros, Image8, Volume,
};
use crate::layout::lemma_unique_cell;
use vstd::prelude::*;

verus! {

/// Rows of an image.
pub open spec fn img_rows(img: &Image8) -> int {
    image8_shape(*img).0 as int
}

/// Columns of an image.
pub open spec fn img_cols(img: &Image8) -> int {
    image8_shape(*img).1 as int
}

/// Pixel `(y, x)` of an image.
pub open spec fn pixel_at(img: &Image8, y: int, x: int) -> int {
    image8_cells(*img)[y * img_cols(img) + x] as int
}

/// `v` clamped into `[0, n - 1]`.
pub open spec fn clamp_index(v: int, n: int) -> int {
    if v < 0 {
        0
    } else if v > n - 1 {
        n - 1
    } else {
        v
    }
}

/// Sum of the image over the points, each clamped into the image.
pub open spec fn contour_sum(img: &Image8, points: Seq<(isize, isize)>) -> int
    decreases points.len(),
{
    if points.len() == 0 {
        0
    } else {
        let (y, x) = points.last();
        contour_sum(img, points.drop_last()) + pixel_at(
            img,
            clamp_index(y as int, img_rows(img)),
            clamp_index(x as int, img_cols(img)),
        )
    }
}

/// Clamping keeps an index inside `[0, n)` as it is, and sends one below or
/// past the range to the nearest end.
pub proof fn law_clamp_index(v: int, n: int)
    requires
        n >= 1,
    ensures
        0 <= v < n ==> clamp_index(v, n) == v,
        v < 0 ==> clamp_index(v, n) == 0,
        v >= n ==> clamp_index(v, n) == n - 1,
{
}

/// One sample point contributes the pixel it clamps to.
pub proof fn law_contour_sum_single(img: &Image8, pt: (isize, isize))
    ensures
        contour_sum(img, seq![pt]) == pixel_at(
            img,
            clamp_index(pt.0 as int, img_rows(img)),
            clamp_index(pt.1 as int, img_cols(img)),
        ),
{
    let one = seq![pt];
    assert(one.drop_last() =~= Seq::<(isize, isize)>::empty());
    assert(contour_sum(img, one.drop_last()) == 0);
    assert(one.last() == pt);
}

/// The contour sum adds up over the sample points: the points of two lists
/// together sum to the sums of the two lists, so every point counts, a
/// repeated one too.
pub proof fn law_contour_sum_additive(img: &Image8, p: Seq<(isize, isize)>, q: Seq<(isize, isize)>)
    ensures
        contour_sum(img, p + q) == contour_sum(img, p) + contour_sum(img, q),
    decreases q.len(),
{
    if q.len() == 0 {
        assert(p + q =~= p);
    } else {
        law_contour_sum_additive(img, p, q.drop_last());
        assert((p + q).drop_last() =~= p + q.drop_last());
        assert((p + q).last() == q.last());
    }
}

proof fn lemma_dims_fit(h: int, w: int)
    requires
        1 <= h,
        1 <= w,
        nonzero_product(h, w, 1) <= isize::MAX,
    ensures
        h <= isize::MAX,
        w <= isize::MAX,
{
    assert(h * w * 1 == h * w);
    assert(h <= h * w && w <= h * w) by (nonlinear_arith)
        requires
            1 <= h,
            1 <= w,
    ;
}

/// Sum of the image along a contour: each sample point `(y, x)` is clamped
/// into the image and the pixels there are added up.
pub fn contour_integral_circular(img: &Image8, points: &Vec<(isize, isize)>) -> (res: u64)
    requires
        img_rows(img) >= 1,
        img_cols(img) >= 1,
        points@.len() <= 0x00ff_ffff_ffff_ffff,
    ensures
        res == contour_sum(img, points@),
{
    let (h, w) = image8_dim(img);
    proof {
        lemma_dims_fit(h as int, w as int);
    }
    let mut sum: u64 = 0;
    let n = points.len();
    for i in 0..n
        invariant
            n == points@.len(),
            n <= 0x00ff_ffff_ffff_ffff,
            h == img_rows(img),
            w == img_cols(img),
            1 <= h <= isize::MAX,
            1 <= w <= isize::MAX,
            sum == contour_sum(img, points@.take(i as int)),
            sum <= 255 * i,
    {
        let (py, px) = points[i];
        let y: usize = if py < 0 {
            0
        } else if py > (h - 1) as isize {
            h - 1
        } else {
            py as usize
        };
        let x: usize = if px < 0 {
            0
        } else if px > (w - 1) as isize {
            w - 1
        } else {
            px as usize
        };
        proof {
            assert(points@.take(i + 1).drop_last() =~= points@.take(i as int));
        }
        let px_value = image8_get(img, y, x);
        assert(sum + px_value <= 255 * (i + 1));
        sum = sum + px_value as u64;
    }
    proof {
        assert(points@.take(n as int) =~= points@);
    }
    sum
}

/// A cell of a `ny * nx * nr` grid, laid out `(y, x, r)` row-major.
pub open spec fn flat_index(nx: int, nr: int, y: int, x: int, r: int) -> int {
    (y * nx + x) * nr + r
}

/// Facts about the row-major layout of a grid.
pub proof fn lemma_flat(ny: int, nx: int, nr: int, y: int, x: int, r: int)
    requires
        0 <= y < ny,
        0 <= x < nx,
        0 <= r < nr,
    ensures
        0 <= flat_index(nx, nr, y, x, r) < ny * nx * nr,
        flat_index(nx, nr, y, x, r) % nr == r,
        flat_index(nx, nr, y, x, r) / nr == y * nx + x,
{
    let q = y * nx + x;
    assert(0 <= q < ny * nx) by (nonlinear_arith)
        requires
            0 <= y < ny,
            0 <= x < nx,
            q == y * nx + x,
    ;
    assert(0 <= q * nr + r < ny * nx * nr) by (nonlinear_arith)
        requires
            0 <= q < ny * nx,
            0 <= r < nr,
    ;
    vstd::arithmetic::div_mod::lemma_fundamental_div_mod_converse(q * nr + r, nr, q, r);
}

/// Candidate rows of a grid.
pub open spec fn vol_ny(v: &Volume) -> int {
    volume_shape(*v).0 as int
}

/// Candidate columns of a grid.
pub open spec fn vol_nx(v: &Volume) -> int {
    volume_shape(*v).1 as int
}

/// Candidate radii of a grid.
pub open spec fn vol_nr(v: &Volume) -> int {
    volume_shape(*v).2 as int
}

/// `(y, x, r)` lies inside the grid.
pub open spec fn in_grid(v: &Volume, y: int, x: int, r: int) -> bool {
    0 <= y < vol_ny(v) && 0 <= x < vol_nx(v) && 0 <= r < vol_nr(v)
}

/// Cell `(y, x, r)` of the grid.
pub open spec fn vol_at(v: &Volume, y: int, x: int, r: int) -> int {
    volume_cells(*v)[flat_index(vol_nx(v), vol_nr(v), y, x, r)] as int
}

/// Two grids have the same shape.
pub open spec fn same_shape(a: &Volume, b: &Volume) -> bool {
    volume_shape(*a) == volume_shape(*b)
}

/// Every change along the radius fits in an `i64`.
pub open spec fn differences_fit(v: &Volume) -> bool {
    forall|y: int, x: int, r: int| #[trigger]
        in_grid(v, y, x, r) && r > 0 ==> i64::MIN <= vol_at(v, y, x, r) - vol_at(v, y, x, r - 1)
            <= i64::MAX
}

/// Change of the response from radius `r - 1` to `r` (zero at `r == 0`).
pub open spec fn radial_difference(v: &Volume, y: int, x: int, r: int) -> int {
    if r == 0 {
        0
    } else {
        vol_at(v, y, x, r) - vol_at(v, y, x, r - 1)
    }
}

proof fn lemma_flat_step(nx: int, nr: int, y: int, x: int)
    ensures
        flat_index(nx, nr, y, x, nr) == flat_index(nx, nr, y, x + 1, 0),
        flat_index(nx, nr, y, nx, 0) == flat_index(nx, nr, y + 1, 0, 0),
        flat_index(nx, nr, y, 0, 0) == y * nx * nr,
{
    assert(flat_index(nx, nr, y, x, nr) == flat_index(nx, nr, y, x + 1, 0)) by (nonlinear_arith);
    assert(flat_index(nx, nr, y, nx, 0) == flat_index(nx, nr, y + 1, 0, 0)) by (nonlinear_arith);
    assert(flat_index(nx, nr, y, 0, 0) == y * nx * nr) by (nonlinear_arith);
}

/// Distinct cells of a grid sit at distinct places of its layout.
proof fn lemma_cell_place(ny: int, nx: int, nr: int, y: int, x: int, r: int, y2: int, x2: int, r2: int)
    requires
        0 <= y < ny,
        0 <= x < nx,
        0 <= r < nr,
        0 <= y2 < ny,
        0 <= x2 < nx,
        0 <= r2 < nr,
        flat_index(nx, nr, y, x, r) == flat_index(nx, nr, y2, x2, r2),
    ensures
        y == y2 && x == x2 && r == r2,
{
    lemma_flat(ny, nx, nr, y, x, r);
    lemma_flat(ny, nx, nr, y2, x2, r2);
    lemma_unique_cell(nx, y, x, y2, x2);
}

/// Differentiates the responses along the radius: each cell becomes its
/// change from the previous radius, and the first radius becomes zero.
pub fn partial_derivative_r(hs: &Volume) -> (out: Volume)
    requires
        differences_fit(hs),
    ensures
        same_shape(&out, hs),
        volume_cells(out).len() == volume_cells(*hs).len(),
        forall|y: int, x: int, r: int| #[trigger]
            in_grid(hs, y, x, r) ==> vol_at(&out, y, x, r) == radial_difference(hs, y, x, r),
{
    let (ny, nx, nr) = volume_dim(hs);
    let mut out = volume_zeros(ny, nx, nr);
    let ghost nyi = ny as int;
    let ghost nxi = nx as int;
    let ghost nri = nr as int;
    let ghost mut p: int = 0;
    assert(flat_index(nxi, nri, 0, 0, 0) == 0) by (nonlinear_arith);
    for y in 0..ny
        invariant
            volume_shape(*hs) == (ny as nat, nx as nat, nr as nat),
            volume_shape(out) == (ny as nat, nx as nat, nr as nat),
            volume_cells(out).len() == ny * nx * nr,
            nyi == ny && nxi == nx && nri == nr,
            differences_fit(hs),
            p == flat_index(nxi, nri, y as int, 0, 0),
            forall|yy: int, xx: int, rr: int|
                in_grid(hs, yy, xx, rr) && flat_index(nxi, nri, yy, xx, rr) < p ==> #[trigger] vol_at(
                    &out,
                    yy,
                    xx,
                    rr,
                ) == radial_difference(hs, yy, xx, rr),
    {
        for x in 0..nx
            invariant
                volume_shape(*hs) == (ny as nat, nx as nat, nr as nat),
                volume_shape(out) == (ny as nat, nx as nat, nr as nat),
                volume_cells(out).len() == ny * nx * nr,
                nyi == ny && nxi == nx && nri == nr,
                y < ny,
                differences_fit(hs),
                p == flat_index(nxi, nri, y as int, x as int, 0),
                forall|yy: int, xx: int, rr: int|
                    in_grid(hs, yy, xx, rr) && flat_index(nxi, nri, yy, xx, rr) < p
                        ==> #[trigger] vol_at(&out, yy, xx, rr) == radial_difference(hs, yy, xx, rr),
        {
            for r in 0..nr
                invariant
                    volume_shape(*hs) == (ny as nat, nx as nat, nr as nat),
                    volume_shape(out) == (ny as nat, nx as nat, nr as nat),
                    volume_cells(out).len() == ny * nx * nr,
                    nyi == ny && nxi == nx && nri == nr,
                    y < ny,
                    x < nx,
                    differences_fit(hs),
                    p == flat_index(nxi, nri, y as int, x as int, r as int),
                    forall|yy: int, xx: int, rr: int|
                        in_grid(hs, yy, xx, rr) && flat_index(nxi, nri, yy, xx, rr) < p
                            ==> #[trigger] vol_at(&out, yy, xx, rr) == radial_difference(
                            hs,
                            yy,
                            xx,
                            rr,
                        ),
            {
                assert(in_grid(hs, y as int, x as int, r as int));
                let cur = volume_get(hs, y, x, r);
                let prev = if r == 0 {
                    cur
                } else {
                    assert(in_grid(hs, y as int, x as int, r - 1));
                    volume_get(hs, y, x, r - 1)
                };
                let ghost before = out;
                volume_set(&mut out, y, x, r, cur - prev);
                proof {
                    lemma_flat(nyi, nxi, nri, y as int, x as int, r as int);
                    assert forall|yy: int, xx: int, rr: int|
                        in_grid(hs, yy, xx, rr) && flat_index(nxi, nri, yy, xx, rr) < p + 1
                            implies #[trigger] vol_at(&out, yy, xx, rr) == radial_difference(
                        hs,
                        yy,
                        xx,
                        rr,
                    ) by {
                        lemma_flat(nyi, nxi, nri, yy, xx, rr);
                        if flat_index(nxi, nri, yy, xx, rr) == p {
                            lemma_cell_place(nyi, nxi, nri, yy, xx, rr, y as int, x as int, r as int);
                        } else {
                            assert(vol_at(&out, yy, xx, rr) == vol_at(&before, yy, xx, rr));
                        }
                    }
                    p = p + 1;
                }
            }
            proof {
                lemma_flat_step(nxi, nri, y as int, x as int);
            }
        }
        proof {
            lemma_flat_step(nxi, nri, y as int, nxi);
        }
    }
    proof {
        assert forall|y: int, x: int, r: int| #[trigger]
            in_grid(hs, y, x, r) implies vol_at(&out, y, x, r) == radial_difference(hs, y, x, r) by {
            lemma_flat(nyi, nxi, nri, y, x, r);
            lemma_flat_step(nxi, nri, nyi, 0);
            assert(flat_index(nxi, nri, y, x, r) < nyi * nxi * nri);
        }
    }
    out
}

/// The cells of a grid as a function of `(y, x, r)`.
pub open spec fn cell_values(v: &Volume) -> spec_fn(int, int, int) -> int {
    |y: int, x: int, r: int| vol_at(v, y, x, r)
}

/// Sum of `f` over `(y, x, r0 .. r1)`.
pub open spec fn line_sum(f: spec_fn(int, int, int) -> int, y: int, x: int, r0: int, r1: int) -> int
    decreases r1 - r0,
{
    if r1 <= r0 {
        0
    } else {
        line_sum(f, y, x, r0, r1 - 1) + f(y, x, r1 - 1)
    }
}

/// Sum of `f` over `(y, x0 .. x1, r0 .. r1)`.
pub open spec fn plane_sum(
    f: spec_fn(int, int, int) -> int,
    y: int,
    x0: int,
    x1: int,
    r0: int,
    r1: int,
) -> int
    decreases x1 - x0,
{
    if x1 <= x0 {
        0
    } else {
        plane_sum(f, y, x0, x1 - 1, r0, r1) + line_sum(f, y, x1 - 1, r0, r1)
    }
}

/// Sum of `f` over `(y0 .. y1, x0 .. x1, r0 .. r1)`.
pub open spec fn box_sum(
    f: spec_fn(int, int, int) -> int,
    y0: int,
    y1: int,
    x0: int,
    x1: int,
    r0: int,
    r1: int,
) -> int
    decreases y1 - y0,
{
    if y1 <= y0 {
        0
    } else {
        box_sum(f, y0, y1 - 1, x0, x1, r0, r1) + plane_sum(f, y1 - 1, x0, x1, r0, r1)
    }
}

/// First index of the window of half-width `half` around `c`, inside the grid.
pub open spec fn window_lo(c: int, half: int) -> int {
    if c >= half {
        c - half
    } else {
        0
    }
}

/// One past the last index of the window of half-width `half` around `c`,
/// inside a grid of `n` cells.
pub open spec fn window_hi(c: int, half: int, n: int) -> int {
    if c + half + 1 <= n {
        c + half + 1
    } else {
        n
    }
}

/// Cell `(y, x, r)` after a box blur of half-width `half`: the sum of the
/// cells of the window around it that lie inside the grid.
pub open spec fn blurred(v: &Volume, half: int, y: int, x: int, r: int) -> int {
    box_sum(
        cell_values(v),
        window_lo(y, half),
        window_hi(y, half, vol_ny(v)),
        window_lo(x, half),
        window_hi(x, half, vol_nx(v)),
        window_lo(r, half),
        window_hi(r, half, vol_nr(v)),
    )
}

proof fn lemma_terms_before_end(
    a: int,
    b: int,
    c: int,
    ny: int,
    nx: int,
    nr: int,
    yw: int,
    xw: int,
    rw: int,
)
    requires
        0 <= a < yw <= ny,
        0 <= b < xw <= nx,
        0 <= c < rw <= nr,
    ensures
        a * xw * rw + b * rw + c + 1 <= ny * nx * nr,
{
    assert(a * xw * rw + b * rw + c + 1 <= yw * xw * rw) by (nonlinear_arith)
        requires
            0 <= a < yw,
            0 <= b < xw,
            0 <= c < rw,
    ;
    assert(yw * xw * rw <= ny * nx * nr) by (nonlinear_arith)
        requires
            0 <= yw <= ny,
            0 <= xw <= nx,
            0 <= rw <= nr,
    ;
}

proof fn lemma_terms_step(a: int, b: int, xw: int, rw: int)
    ensures
        a * xw * rw + b * rw + rw == a * xw * rw + (b + 1) * rw,
        a * xw * rw + xw * rw == (a + 1) * xw * rw,
{
    assert(a * xw * rw + b * rw + rw == a * xw * rw + (b + 1) * rw) by (nonlinear_arith);
    assert(a * xw * rw + xw * rw == (a + 1) * xw * rw) by (nonlinear_arith);
}

/// Sum of the cells of a box inside the grid.
fn window_sum(
    hs: &Volume,
    ylo: usize,
    yhi: usize,
    xlo: usize,
    xhi: usize,
    rlo: usize,
    rhi: usize,
) -> (res: i128)
    requires
        volume_cells(*hs).len() * 8 <= isize::MAX,
        volume_cells(*hs).len() == vol_ny(hs) * vol_nx(hs) * vol_nr(hs),
        ylo < yhi <= vol_ny(hs),
        xlo < xhi <= vol_nx(hs),
        rlo < rhi <= vol_nr(hs),
    ensures
        res == box_sum(cell_values(hs), ylo as int, yhi as int, xlo as int, xhi as int, rlo as int, rhi as int),
{
    let ghost xw = (xhi - xlo) as int;
    let ghost rw = (rhi - rlo) as int;
    let ghost total = vol_ny(hs) * vol_nx(hs) * vol_nr(hs);
    let mut acc: i128 = 0;
    let mut yy = ylo;
    while yy < yhi
        invariant
            total == volume_cells(*hs).len(),
            total * 8 <= isize::MAX,
            total == vol_ny(hs) * vol_nx(hs) * vol_nr(hs),
            ylo < yhi <= vol_ny(hs),
            xlo < xhi <= vol_nx(hs),
            rlo < rhi <= vol_nr(hs),
            xw == xhi - xlo,
            rw == rhi - rlo,
            ylo <= yy <= yhi,
            acc == box_sum(cell_values(hs), ylo as int, yy as int, xlo as int, xhi as int, rlo as int, rhi as int),
            -((yy - ylo) * xw * rw) * 0x8000_0000_0000_0000 <= acc <= ((yy - ylo) * xw * rw) * 0x8000_0000_0000_0000,
        decreases yhi - yy,
    {
        let ghost at_row = acc;
        let mut xx = xlo;
        while xx < xhi
            invariant
                total == volume_cells(*hs).len(),
                total * 8 <= isize::MAX,
                total == vol_ny(hs) * vol_nx(hs) * vol_nr(hs),
                ylo < yhi <= vol_ny(hs),
                xlo < xhi <= vol_nx(hs),
                rlo < rhi <= vol_nr(hs),
                xw == xhi - xlo,
                rw == rhi - rlo,
                ylo <= yy < yhi,
                xlo <= xx <= xhi,
                at_row == box_sum(
                    cell_values(hs),
                    ylo as int,
                    yy as int,
                    xlo as int,
                    xhi as int,
                    rlo as int,
                    rhi as int,
                ),
                acc == at_row + plane_sum(cell_values(hs), yy as int, xlo as int, xx as int, rlo as int, rhi as int),
                -((yy - ylo) * xw * rw + (xx - xlo) * rw) * 0x8000_0000_0000_0000 <= acc <= ((yy - ylo) * xw
                    * rw + (xx - xlo) * rw) * 0x8000_0000_0000_0000,
            decreases xhi - xx,
        {
            let ghost at_col = acc;
            let mut rr = rlo;
            while rr < rhi
                invariant
                    total == volume_cells(*hs).len(),
                    total * 8 <= isize::MAX,
                    total == vol_ny(hs) * vol_nx(hs) * vol_nr(hs),
                    ylo < yhi <= vol_ny(hs),
                    xlo < xhi <= vol_nx(hs),
                    rlo < rhi <= vol_nr(hs),
                    xw == xhi - xlo,
                    rw == rhi - rlo,
                    ylo <= yy < yhi,
                    xlo <= xx < xhi,
                    rlo <= rr <= rhi,
                    at_col == at_row + plane_sum(
                        cell_values(hs),
                        yy as int,
                        xlo as int,
                        xx as int,
                        rlo as int,
                        rhi as int,
                    ),
                    acc == at_col + line_sum(cell_values(hs), yy as int, xx as int, rlo as int, rr as int),
                    -((yy - ylo) * xw * rw + (xx - xlo) * rw + (rr - rlo)) * 0x8000_0000_0000_0000 <= acc <= ((
                    yy - ylo) * xw * rw + (xx - xlo) * rw + (rr - rlo)) * 0x8000_0000_0000_0000,
                decreases rhi - rr,
            {
                proof {
                    assert(in_grid(hs, yy as int, xx as int, rr as int));
                    lemma_terms_before_end(
                        (yy - ylo) as int,
                        (xx - xlo) as int,
                        (rr - rlo) as int,
                        vol_ny(hs),
                        vol_nx(hs),
                        vol_nr(hs),
                        (yhi - ylo) as int,
                        xw,
                        rw,
                    );
                }
                let v = volume_get(hs, yy, xx, rr);
                acc = acc + v as i128;
                rr = rr + 1;
            }
            proof {
                lemma_terms_step((yy - ylo) as int, (xx - xlo) as int, xw, rw);
            }
            xx = xx + 1;
        }
        proof {
            lemma_terms_step((yy - ylo) as int, (xx - xlo) as int, xw, rw);
        }
        yy = yy + 1;
    }
    acc
}

/// Window `[lo, hi)` of half-width `half` around `c` in a grid of `n` cells.
fn window(c: usize, half: usize, n: usize) -> (res: (usize, usize))
    requires
        c < n,
    ensures
        res.0 == window_lo(c as int, half as int),
        res.1 == window_hi(c as int, half as int, n as int),
        res.0 <= c < res.1 <= n,
{
    let lo = if c >= half {
        c - half
    } else {
        0
    };
    let hi = if half < n - c {
        c + half + 1
    } else {
        n
    };
    (lo, hi)
}

/// Box blur of the grid: each cell becomes the sum of the cells within
/// `sm / 2` of it along every axis that lie inside the grid.
pub fn box_blur_3d(hs: &Volume, sm: usize) -> (out: Volume)
    requires
        forall|y: int, x: int, r: int| #[trigger]
            in_grid(hs, y, x, r) ==> i64::MIN <= blurred(hs, (sm / 2) as int, y, x, r) <= i64::MAX,
    ensures
        same_shape(&out, hs),
        volume_cells(out).len() == volume_cells(*hs).len(),
        forall|y: int, x: int, r: int| #[trigger]
            in_grid(hs, y, x, r) ==> vol_at(&out, y, x, r) == blurred(hs, (sm / 2) as int, y, x, r),
{
    let (ny, nx, nr) = volume_dim(hs);
    let half = sm / 2;
    let mut out = volume_zeros(ny, nx, nr);
    let ghost nyi = ny as int;
    let ghost nxi = nx as int;
    let ghost nri = nr as int;
    let ghost mut p: int = 0;
    assert(flat_index(nxi, nri, 0, 0, 0) == 0) by (nonlinear_arith);
    for y in 0..ny
        invariant
            volume_shape(*hs) == (ny as nat, nx as nat, nr as nat),
            volume_shape(out) == (ny as nat, nx as nat, nr as nat),
            volume_cells(*hs).len() == ny * nx * nr,
            volume_cells(out).len() == ny * nx * nr,
            nyi == ny && nxi == nx && nri == nr,
            half == sm / 2,
            forall|yy: int, xx: int, rr: int| #[trigger]
                in_grid(hs, yy, xx, rr) ==> i64::MIN <= blurred(hs, half as int, yy, xx, rr)
                    <= i64::MAX,
            volume_cells(*hs).len() * 8 <= isize::MAX,
            p == flat_index(nxi, nri, y as int, 0, 0),
            forall|yy: int, xx: int, rr: int|
                in_grid(hs, yy, xx, rr) && flat_index(nxi, nri, yy, xx, rr) < p ==> #[trigger] vol_at(
                    &out,
                    yy,
                    xx,
                    rr,
                ) == blurred(hs, half as int, yy, xx, rr),
    {
        let (ylo, yhi) = window(y, half, ny);
        for x in 0..nx
            invariant
                volume_shape(*hs) == (ny as nat, nx as nat, nr as nat),
                volume_shape(out) == (ny as nat, nx as nat, nr as nat),
                volume_cells(*hs).len() == ny * nx * nr,
                volume_cells(out).len() == ny * nx * nr,
                nyi == ny && nxi == nx && nri == nr,
                half == sm / 2,
                y < ny,
                ylo == window_lo(y as int, half as int),
                yhi == window_hi(y as int, half as int, ny as int),
                ylo <= y < yhi <= ny,
                forall|yy: int, xx: int, rr: int| #[trigger]
                    in_grid(hs, yy, xx, rr) ==> i64::MIN <= blurred(hs, half as int, yy, xx, rr)
                        <= i64::MAX,
                volume_cells(*hs).len() * 8 <= isize::MAX,
                p == flat_index(nxi, nri, y as int, x as int, 0),
                forall|yy: int, xx: int, rr: int|
                    in_grid(hs, yy, xx, rr) && flat_index(nxi, nri, yy, xx, rr) < p
                        ==> #[trigger] vol_at(&out, yy, xx, rr) == blurred(hs, half as int, yy, xx, rr),
        {
            let (xlo, xhi) = window(x, half, nx);
            for r in 0..nr
                invariant
                    volume_shape(*hs) == (ny as nat, nx as nat, nr as nat),
                    volume_shape(out) == (ny as nat, nx as nat, nr as nat),
                    volume_cells(*hs).len() == ny * nx * nr,
                    volume_cells(out).len() == ny * nx * nr,
                    nyi == ny && nxi == nx && nri == nr,
                    half == sm / 2,
                    y < ny,
                    x < nx,
                    ylo == window_lo(y as int, half as int),
                    yhi == window_hi(y as int, half as int, ny as int),
                    ylo <= y < yhi <= ny,
                    xlo == window_lo(x as int, half as int),
                    xhi == window_hi(x as int, half as int, nx as int),
                    xlo <= x < xhi <= nx,
                    forall|yy: int, xx: int, rr: int| #[trigger]
                        in_grid(hs, yy, xx, rr) ==> i64::MIN <= blurred(hs, half as int, yy, xx, rr)
                            <= i64::MAX,
                    volume_cells(*hs).len() * 8 <= isize::MAX,
                    p == flat_index(nxi, nri, y as int, x as int, r as int),
                    forall|yy: int, xx: int, rr: int|
                        in_grid(hs, yy, xx, rr) && flat_index(nxi, nri, yy, xx, rr) < p
                            ==> #[trigger] vol_at(&out, yy, xx, rr) == blurred(
                            hs,
                            half as int,
                            yy,
                            xx,
                            rr,
                        ),
            {
                let (rlo, rhi) = window(r, half, nr);
                let sum = window_sum(hs, ylo, yhi, xlo, xhi, rlo, rhi);
                assert(in_grid(hs, y as int, x as int, r as int));
                let value = sum as i64;
                let ghost before = out;
                volume_set(&mut out, y, x, r, value);
                proof {
                    lemma_flat(nyi, nxi, nri, y as int, x as int, r as int);
                    assert forall|yy: int, xx: int, rr: int|
                        in_grid(hs, yy, xx, rr) && flat_index(nxi, nri, yy, xx, rr) < p + 1
                            implies #[trigger] vol_at(&out, yy, xx, rr) == blurred(
                        hs,
                        half as int,
                        yy,
                        xx,
                        rr,
                    ) by {
                        lemma_flat(nyi, nxi, nri, yy, xx, rr);
                        if flat_index(nxi, nri, yy, xx, rr) == p {
                            lemma_cell_place(nyi, nxi, nri, yy, xx, rr, y as int, x as int, r as int);
                        } else {
                            assert(vol_at(&out, yy, xx, rr) == vol_at(&before, yy, xx, rr));
                        }
                    }
                    p = p + 1;
                }
            }
            proof {
                lemma_flat_step(nxi, nri, y as int, x as int);
            }
        }
        proof {
            lemma_flat_step(nxi, nri, y as int, nxi);
        }
    }
    proof {
        assert forall|y: int, x: int, r: int| #[trigger]
            in_grid(hs, y, x, r) implies vol_at(&out, y, x, r) == blurred(
            hs,
            (sm / 2) as int,
            y,
            x,
            r,
        ) by {
            lemma_flat(nyi, nxi, nri, y, x, r);
            lemma_flat_step(nxi, nri, nyi, 0);
        }
    }
    out
}

/// `(y, x, r)` comes before `(y2, x2, r2)` in row-major order.
pub open spec fn cell_before(v: &Volume, y: int, x: int, r: int, y2: int, x2: int, r2: int) -> bool {
    flat_index(vol_nx(v), vol_nr(v), y, x, r) < flat_index(vol_nx(v), vol_nr(v), y2, x2, r2)
}

/// The first cell, in row-major order, that holds the largest value;
/// `(0, 0, 0)` for an empty grid.
pub fn argmax_3d(a: &Volume) -> (res: (usize, usize, usize))
    ensures
        volume_cells(*a).len() == 0 ==> res == (0usize, 0usize, 0usize),
        volume_cells(*a).len() > 0 ==> {
            &&& in_grid(a, res.0 as int, res.1 as int, res.2 as int)
            &&& forall|y: int, x: int, r: int| #[trigger]
                in_grid(a, y, x, r) ==> vol_at(a, y, x, r) <= vol_at(
                    a,
                    res.0 as int,
                    res.1 as int,
                    res.2 as int,
                )
            &&& forall|y: int, x: int, r: int|
                in_grid(a, y, x, r) && cell_before(
                    a,
                    y,
                    x,
                    r,
                    res.0 as int,
                    res.1 as int,
                    res.2 as int,
                ) ==> #[trigger] vol_at(a, y, x, r) < vol_at(
                    a,
                    res.0 as int,
                    res.1 as int,
                    res.2 as int,
                )
        },
{
    let (ny, nx, nr) = volume_dim(a);
    let ghost nyi = ny as int;
    let ghost nxi = nx as int;
    let ghost nri = nr as int;
    let mut best: Option<i64> = None;
    let mut idx: (usize, usize, usize) = (0, 0, 0);
    let ghost mut p: int = 0;
    assert(flat_index(nxi, nri, 0, 0, 0) == 0) by (nonlinear_arith);
    for y in 0..ny
        invariant
                
                nyi == ny && nxi == nx && nri == nr,
                volume_shape(*a) == (ny as nat, nx as nat, nr as nat),
                volume_cells(*a).len() == ny * nx * nr,
                p == flat_index(nxi, nri, y as int, 0, 0),
                best is None ==> idx == (0usize, 0usize, 0usize),
                best is None ==> forall|yy: int, xx: int, rr: int|
                    #[trigger] in_grid(a, yy, xx, rr) ==> flat_index(nxi, nri, yy, xx, rr) >= p,
                best matches Some(b) ==> {
                    &&& in_grid(a, idx.0 as int, idx.1 as int, idx.2 as int)
                    &&& b == vol_at(a, idx.0 as int, idx.1 as int, idx.2 as int)
                    &&& forall|yy: int, xx: int, rr: int|
                        in_grid(a, yy, xx, rr) && flat_index(nxi, nri, yy, xx, rr) < p
                            ==> #[trigger] vol_at(a, yy, xx, rr) <= b
                    &&& forall|yy: int, xx: int, rr: int|
                        in_grid(a, yy, xx, rr) && cell_before(
                            a,
                            yy,
                            xx,
                            rr,
                            idx.0 as int,
                            idx.1 as int,
                            idx.2 as int,
                        ) ==> #[trigger] vol_at(a, yy, xx, rr) < b
                },
    {
        for x in 0..nx
            invariant
                
                y < ny,
                nyi == ny && nxi == nx && nri == nr,
                volume_shape(*a) == (ny as nat, nx as nat, nr as nat),
                volume_cells(*a).len() == ny * nx * nr,
                p == flat_index(nxi, nri, y as int, x as int, 0),
                best is None ==> idx == (0usize, 0usize, 0usize),
                best is None ==> forall|yy: int, xx: int, rr: int|
                    #[trigger] in_grid(a, yy, xx, rr) ==> flat_index(nxi, nri, yy, xx, rr) >= p,
                best matches Some(b) ==> {
                    &&& in_grid(a, idx.0 as int, idx.1 as int, idx.2 as int)
                    &&& b == vol_at(a, idx.0 as int, idx.1 as int, idx.2 as int)
                    &&& forall|yy: int, xx: int, rr: int|
                        in_grid(a, yy, xx, rr) && flat_index(nxi, nri, yy, xx, rr) < p
                            ==> #[trigger] vol_at(a, yy, xx, rr) <= b
                    &&& forall|yy: int, xx: int, rr: int|
                        in_grid(a, yy, xx, rr) && cell_before(
                            a,
                            yy,
                            xx,
                            rr,
                            idx.0 as int,
                            idx.1 as int,
                            idx.2 as int,
                        ) ==> #[trigger] vol_at(a, yy, xx, rr) < b
                },
        {
            for r in 0..nr
                invariant
                
                y < ny,
                x < nx,
                nyi == ny && nxi == nx && nri == nr,
                volume_shape(*a) == (ny as nat, nx as nat, nr as nat),
                volume_cells(*a).len() == ny * nx * nr,
                p == flat_index(nxi, nri, y as int, x as int, r as int),
                best is None ==> idx == (0usize, 0usize, 0usize),
                best is None ==> forall|yy: int, xx: int, rr: int|
                    #[trigger] in_grid(a, yy, xx, rr) ==> flat_index(nxi, nri, yy, xx, rr) >= p,
                best matches Some(b) ==> {
                    &&& in_grid(a, idx.0 as int, idx.1 as int, idx.2 as int)
                    &&& b == vol_at(a, idx.0 as int, idx.1 as int, idx.2 as int)
                    &&& forall|yy: int, xx: int, rr: int|
                        in_grid(a, yy, xx, rr) && flat_index(nxi, nri, yy, xx, rr) < p
                            ==> #[trigger] vol_at(a, yy, xx, rr) <= b
                    &&& forall|yy: int, xx: int, rr: int|
                        in_grid(a, yy, xx, rr) && cell_before(
                            a,
                            yy,
                            xx,
                            rr,
                            idx.0 as int,
                            idx.1 as int,
                            idx.2 as int,
                        ) ==> #[trigger] vol_at(a, yy, xx, rr) < b
                },
            {
                assert(in_grid(a, y as int, x as int, r as int));
                let v = volume_get(a, y, x, r);
                let take = match best {
                    None => true,
                    Some(b) => v > b,
                };
                let ghost old_best = best;
                let ghost old_idx = idx;
                if take {
                    best = Some(v);
                    idx = (y, x, r);
                }
                proof {
                    lemma_flat(nyi, nxi, nri, y as int, x as int, r as int);
                    assert(v == vol_at(a, y as int, x as int, r as int));
                    assert forall|yy: int, xx: int, rr: int|
                        in_grid(a, yy, xx, rr) && flat_index(nxi, nri, yy, xx, rr) < p + 1
                            implies #[trigger] vol_at(a, yy, xx, rr) <= best->0 by {
                        if flat_index(nxi, nri, yy, xx, rr) == p {
                            lemma_cell_place(nyi, nxi, nri, yy, xx, rr, y as int, x as int, r as int);
                        }
                    }
                    if take {
                        assert forall|yy: int, xx: int, rr: int|
                            in_grid(a, yy, xx, rr) && cell_before(
                                a,
                                yy,
                                xx,
                                rr,
                                idx.0 as int,
                                idx.1 as int,
                                idx.2 as int,
                            ) implies #[trigger] vol_at(a, yy, xx, rr) < best->0 by {
                            if let Some(b) = old_best {
                                if cell_before(
                                    a,
                                    yy,
                                    xx,
                                    rr,
                                    old_idx.0 as int,
                                    old_idx.1 as int,
                                    old_idx.2 as int,
                                ) {
                                } else {
                                    assert(vol_at(a, yy, xx, rr) <= b);
                                }
                            }
                        }
                    }
                    assert forall|yy: int, xx: int, rr: int| #[trigger]
                        in_grid(a, yy, xx, rr) implies flat_index(nxi, nri, yy, xx, rr) != p || (yy
                        == y && xx == x && rr == r) by {
                        if flat_index(nxi, nri, yy, xx, rr) == p {
                            lemma_cell_place(nyi, nxi, nri, yy, xx, rr, y as int, x as int, r as int);
                        }
                    }
                    p = p + 1;
                }
            }
            proof {
                lemma_flat_step(nxi, nri, y as int, x as int);
            }
        }
        proof {
            lemma_flat_step(nxi, nri, y as int, nxi);
        }
    }
    proof {
        lemma_flat_step(nxi, nri, nyi, 0);
        if best is Some {
            lemma_flat(nyi, nxi, nri, idx.0 as int, idx.1 as int, idx.2 as int);
        }
        assert forall|y: int, x: int, r: int| #[trigger]
            in_grid(a, y, x, r) implies flat_index(nxi, nri, y, x, r) < p by {
            lemma_flat(nyi, nxi, nri, y, x, r);
        }
        if volume_cells(*a).len() > 0 {
            assert(best is Some) by {
                if best is None {
                    assert(ny > 0 && nx > 0 && nr > 0) by (nonlinear_arith)
                        requires
                            volume_cells(*a).len() == ny * nx * nr,
                            volume_cells(*a).len() > 0,
                    ;
                    assert(in_grid(a, 0, 0, 0));
                }
            }
        }
    }
    idx
}

/// The radial changes of a grid as a function of `(y, x, r)`.
pub open spec fn radial_values(v: &Volume) -> spec_fn(int, int, int) -> int {
    |y: int, x: int, r: int| radial_difference(v, y, x, r)
}

/// Cell `(y, x, r)` of the blurred radial change: the sum of the radial
/// changes of the window of half-width `half` around it that lie inside the
/// grid.
pub open spec fn blurred_change(v: &Volume, half: int, y: int, x: int, r: int) -> int {
    box_sum(
        radial_values(v),
        window_lo(y, half),
        window_hi(y, half, vol_ny(v)),
        window_lo(x, half),
        window_hi(x, half, vol_nx(v)),
        window_lo(r, half),
        window_hi(r, half, vol_nr(v)),
    )
}

/// Every radial change of the grid, and every blurred radial change of
/// half-width `half`, fits in an `i64`.
pub open spec fn change_fits(v: &Volume, half: int) -> bool {
    &&& differences_fit(v)
    &&& forall|y: int, x: int, r: int| #[trigger]
        in_grid(v, y, x, r) ==> i64::MIN <= blurred_change(v, half, y, x, r) <= i64::MAX
}

proof fn lemma_line_sum_agree(
    f: spec_fn(int, int, int) -> int,
    g: spec_fn(int, int, int) -> int,
    y: int,
    x: int,
    r0: int,
    r1: int,
)
    requires
        forall|r: int| r0 <= r < r1 ==> #[trigger] f(y, x, r) == g(y, x, r),
    ensures
        line_sum(f, y, x, r0, r1) == line_sum(g, y, x, r0, r1),
    decreases r1 - r0,
{
    if r1 > r0 {
        lemma_line_sum_agree(f, g, y, x, r0, r1 - 1);
        assert(f(y, x, r1 - 1) == g(y, x, r1 - 1));
    }
}

proof fn lemma_plane_sum_agree(
    f: spec_fn(int, int, int) -> int,
    g: spec_fn(int, int, int) -> int,
    y: int,
    x0: int,
    x1: int,
    r0: int,
    r1: int,
)
    requires
        forall|x: int, r: int| x0 <= x < x1 && r0 <= r < r1 ==> #[trigger] f(y, x, r) == g(y, x, r),
    ensures
        plane_sum(f, y, x0, x1, r0, r1) == plane_sum(g, y, x0, x1, r0, r1),
    decreases x1 - x0,
{
    if x1 > x0 {
        lemma_plane_sum_agree(f, g, y, x0, x1 - 1, r0, r1);
        lemma_line_sum_agree(f, g, y, x1 - 1, r0, r1);
    }
}

/// Sums of two functions over a box are equal where the functions agree on
/// the box.
proof fn lemma_box_sum_agree(
    f: spec_fn(int, int, int) -> int,
    g: spec_fn(int, int, int) -> int,
    y0: int,
    y1: int,
    x0: int,
    x1: int,
    r0: int,
    r1: int,
)
    requires
        forall|y: int, x: int, r: int|
            y0 <= y < y1 && x0 <= x < x1 && r0 <= r < r1 ==> #[trigger] f(y, x, r) == g(y, x, r),
    ensures
        box_sum(f, y0, y1, x0, x1, r0, r1) == box_sum(g, y0, y1, x0, x1, r0, r1),
    decreases y1 - y0,
{
    if y1 > y0 {
        lemma_box_sum_agree(f, g, y0, y1 - 1, x0, x1, r0, r1);
        lemma_plane_sum_agree(f, g, y1 - 1, x0, x1, r0, r1);
    }
}

/// The blur of the differentiated grid is the blurred radial change of the
/// grid.
proof fn lemma_blurred_derivative(hs: &Volume, d: &Volume, half: int, y: int, x: int, r: int)
    requires
        same_shape(d, hs),
        forall|yy: int, xx: int, rr: int| #[trigger]
            in_grid(hs, yy, xx, rr) ==> vol_at(d, yy, xx, rr) == radial_difference(hs, yy, xx, rr),
        in_grid(hs, y, x, r),
        half >= 0,
    ensures
        blurred(d, half, y, x, r) == blurred_change(hs, half, y, x, r),
{
    let ylo = window_lo(y, half);
    let yhi = window_hi(y, half, vol_ny(hs));
    let xlo = window_lo(x, half);
    let xhi = window_hi(x, half, vol_nx(hs));
    let rlo = window_lo(r, half);
    let rhi = window_hi(r, half, vol_nr(hs));
    assert forall|yy: int, xx: int, rr: int|
        ylo <= yy < yhi && xlo <= xx < xhi && rlo <= rr < rhi implies #[trigger] cell_values(d)(
        yy,
        xx,
        rr,
    ) == radial_values(hs)(yy, xx, rr) by {
        assert(in_grid(hs, yy, xx, rr));
    }
    lemma_box_sum_agree(cell_values(d), radial_values(hs), ylo, yhi, xlo, xhi, rlo, rhi);
}

/// Whether every radial change of the grid fits in an `i64`.
fn differences_in_range(hs: &Volume) -> (ok: bool)
    ensures
        ok == differences_fit(hs),
{
    let (ny, nx, nr) = volume_dim(hs);
    for y in 0..ny
        invariant
            volume_shape(*hs) == (ny as nat, nx as nat, nr as nat),
            forall|yy: int, xx: int, rr: int| #[trigger]
                in_grid(hs, yy, xx, rr) && rr > 0 && yy < y ==> i64::MIN <= vol_at(hs, yy, xx, rr)
                    - vol_at(hs, yy, xx, rr - 1) <= i64::MAX,
    {
        for x in 0..nx
            invariant
                volume_shape(*hs) == (ny as nat, nx as nat, nr as nat),
                y < ny,
                forall|yy: int, xx: int, rr: int| #[trigger]
                    in_grid(hs, yy, xx, rr) && rr > 0 && (yy < y || (yy == y && xx < x)) ==> i64::MIN
                        <= vol_at(hs, yy, xx, rr) - vol_at(hs, yy, xx, rr - 1) <= i64::MAX,
        {
            for r in 0..nr
                invariant
                    volume_shape(*hs) == (ny as nat, nx as nat, nr as nat),
                    y < ny,
                    x < nx,
                    forall|yy: int, xx: int, rr: int| #[trigger]
                        in_grid(hs, yy, xx, rr) && rr > 0 && (yy < y || (yy == y && xx < x) || (yy
                            == y && xx == x && rr < r)) ==> i64::MIN <= vol_at(hs, yy, xx, rr)
                            - vol_at(hs, yy, xx, rr - 1) <= i64::MAX,
            {
                if r > 0 {
                    let cur = volume_get(hs, y, x, r);
                    let prev = volume_get(hs, y, x, r - 1);
                    assert(cur == vol_at(hs, y as int, x as int, r as int));
                    assert(prev == vol_at(hs, y as int, x as int, r - 1));
                    let change = cur as i128 - prev as i128;
                    if change < i64::MIN as i128 || change > i64::MAX as i128 {
                        assert(in_grid(hs, y as int, x as int, r as int));
                        return false;
                    }
                }
            }
        }
    }
    true
}

/// Whether every cell of the blur of half-width `half` fits in an `i64`.
fn blur_in_range(hs: &Volume, half: usize) -> (ok: bool)
    ensures
        ok == (forall|y: int, x: int, r: int| #[trigger]
            in_grid(hs, y, x, r) ==> i64::MIN <= blurred(hs, half as int, y, x, r) <= i64::MAX),
{
    let (ny, nx, nr) = volume_dim(hs);
    for y in 0..ny
        invariant
            volume_shape(*hs) == (ny as nat, nx as nat, nr as nat),
            volume_cells(*hs).len() == ny * nx * nr,
            volume_cells(*hs).len() * 8 <= isize::MAX,
            forall|yy: int, xx: int, rr: int| #[trigger]
                in_grid(hs, yy, xx, rr) && yy < y ==> i64::MIN <= blurred(hs, half as int, yy, xx, rr)
                    <= i64::MAX,
    {
        let (ylo, yhi) = window(y, half, ny);
        for x in 0..nx
            invariant
                volume_shape(*hs) == (ny as nat, nx as nat, nr as nat),
                volume_cells(*hs).len() == ny * nx * nr,
                volume_cells(*hs).len() * 8 <= isize::MAX,
                y < ny,
                ylo == window_lo(y as int, half as int),
                yhi == window_hi(y as int, half as int, ny as int),
                ylo <= y < yhi <= ny,
                forall|yy: int, xx: int, rr: int| #[trigger]
                    in_grid(hs, yy, xx, rr) && (yy < y || (yy == y && xx < x)) ==> i64::MIN <= blurred(
                        hs,
                        half as int,
                        yy,
                        xx,
                        rr,
                    ) <= i64::MAX,
        {
            let (xlo, xhi) = window(x, half, nx);
            for r in 0..nr
                invariant
                    volume_shape(*hs) == (ny as nat, nx as nat, nr as nat),
                    volume_cells(*hs).len() == ny * nx * nr,
                    volume_cells(*hs).len() * 8 <= isize::MAX,
                    y < ny,
                    x < nx,
                    ylo == window_lo(y as int, half as int),
                    yhi == window_hi(y as int, half as int, ny as int),
                    ylo <= y < yhi <= ny,
                    xlo == window_lo(x as int, half as int),
                    xhi == window_hi(x as int, half as int, nx as int),
                    xlo <= x < xhi <= nx,
                    forall|yy: int, xx: int, rr: int| #[trigger]
                        in_grid(hs, yy, xx, rr) && (yy < y || (yy == y && xx < x) || (yy == y && xx
                            == x && rr < r)) ==> i64::MIN <= blurred(hs, half as int, yy, xx, rr)
                            <= i64::MAX,
            {
                let (rlo, rhi) = window(r, half, nr);
                let sum = window_sum(hs, ylo, yhi, xlo, xhi, rlo, rhi);
                if sum < i64::MIN as i128 || sum > i64::MAX as i128 {
                    assert(in_grid(hs, y as int, x as int, r as int));
                    return false;
                }
            }
        }
    }
    true
}

/// The strongest blurred radial change of a grid of contour sums: the first
/// cell, in row-major order, whose sum of radial changes over the window of
/// half-width `sm / 2` around it is largest (`(0, 0, 0)` for an empty grid).
/// `None` when a radial change or one of those sums leaves the `i64` range.
pub fn strongest_change(hs: &Volume, sm: usize) -> (res: Option<(usize, usize, usize)>)
    ensures
        res is Some <==> change_fits(hs, (sm / 2) as int),
        res matches Some(c) ==> {
            &&& volume_cells(*hs).len() == 0 ==> c == (0usize, 0usize, 0usize)
            &&& volume_cells(*hs).len() > 0 ==> {
                &&& in_grid(hs, c.0 as int, c.1 as int, c.2 as int)
                &&& forall|y: int, x: int, r: int| #[trigger]
                    in_grid(hs, y, x, r) ==> blurred_change(hs, (sm / 2) as int, y, x, r)
                        <= blurred_change(hs, (sm / 2) as int, c.0 as int, c.1 as int, c.2 as int)
                &&& forall|y: int, x: int, r: int|
                    in_grid(hs, y, x, r) && cell_before(hs, y, x, r, c.0 as int, c.1 as int, c.2 as int)
                        ==> #[trigger] blurred_change(hs, (sm / 2) as int, y, x, r) < blurred_change(
                        hs,
                        (sm / 2) as int,
                        c.0 as int,
                        c.1 as int,
                        c.2 as int,
                    )
            }
        },
{
    let half = sm / 2;
    let ghost h = half as int;
    if !differences_in_range(hs) {
        return None;
    }
    let d = partial_derivative_r(hs);
    if !blur_in_range(&d, half) {
        proof {
            let (y, x, r) = choose|y: int, x: int, r: int|
                #[trigger] in_grid(&d, y, x, r) && !(i64::MIN <= blurred(&d, h, y, x, r) <= i64::MAX);
            lemma_blurred_derivative(hs, &d, h, y, x, r);
            assert(in_grid(hs, y, x, r));
        }
        return None;
    }
    proof {
        assert forall|y: int, x: int, r: int| #[trigger]
            in_grid(hs, y, x, r) implies i64::MIN <= blurred_change(hs, h, y, x, r) <= i64::MAX by {
            lemma_blurred_derivative(hs, &d, h, y, x, r);
            assert(in_grid(&d, y, x, r));
        }
    }
    let b = box_blur_3d(&d, sm);
    let c = argmax_3d(&b);
    proof {
        if volume_cells(*hs).len() > 0 {
            assert(in_grid(&b, c.0 as int, c.1 as int, c.2 as int));
            assert(in_grid(&d, c.0 as int, c.1 as int, c.2 as int));
            lemma_blurred_derivative(hs, &d, h, c.0 as int, c.1 as int, c.2 as int);
            assert(vol_at(&b, c.0 as int, c.1 as int, c.2 as int) == blurred_change(
                hs,
                h,
                c.0 as int,
                c.1 as int,
                c.2 as int,
            ));
            assert forall|y: int, x: int, r: int| #[trigger]
                in_grid(hs, y, x, r) implies blurred_change(hs, h, y, x, r) <= blurred_change(
                hs,
                h,
                c.0 as int,
                c.1 as int,
                c.2 as int,
            ) by {
                lemma_blurred_derivative(hs, &d, h, y, x, r);
                assert(in_grid(&b, y, x, r));
                assert(in_grid(&d, y, x, r));
                assert(vol_at(&b, y, x, r) == blurred(&d, h, y, x, r));
            }
            assert forall|y: int, x: int, r: int|
                in_grid(hs, y, x, r) && cell_before(hs, y, x, r, c.0 as int, c.1 as int, c.2 as int)
                    implies #[trigger] blurred_change(hs, h, y, x, r) < blurred_change(
                hs,
                h,
                c.0 as int,
                c.1 as int,
                c.2 as int,
            ) by {
                lemma_blurred_derivative(hs, &d, h, y, x, r);
                assert(in_grid(&b, y, x, r));
                assert(in_grid(&d, y, x, r));
                assert(cell_before(&b, y, x, r, c.0 as int, c.1 as int, c.2 as int));
                assert(vol_at(&b, y, x, r) == blurred(&d, h, y, x, r));
            }
        }
    }
    Some(c)
}

/// A box blur whose window is below two cells (half-width zero) leaves
/// every cell as it is.
pub proof fn law_box_blur_unit_window(v: &Volume, y: int, x: int, r: int)
    requires
        in_grid(v, y, x, r),
    ensures
        blurred(v, 0, y, x, r) == vol_at(v, y, x, r),
{
    assert(line_sum(cell_values(v), y, x, r, r) == 0);
    assert(line_sum(cell_values(v), y, x, r, r + 1) == vol_at(v, y, x, r));
    assert(plane_sum(cell_values(v), y, x, x, r, r + 1) == 0);
    assert(box_sum(cell_values(v), y, y, x, x + 1, r, r + 1) == 0);
    assert(plane_sum(cell_values(v), y, x, x + 1, r, r + 1) == vol_at(v, y, x, r));
    assert(box_sum(cell_values(v), y, y + 1, x, x + 1, r, r + 1) == vol_at(v, y, x, r));
}

/// Windows of `2k` and `2k + 1` cells blur alike: both have half-width `k`.
pub proof fn law_box_blur_even_odd(v: &Volume, k: int)
    requires
        k >= 0,
    ensures
        forall|y: int, x: int, r: int| #[trigger]
            in_grid(v, y, x, r) ==> blurred(v, (2 * k) / 2, y, x, r) == blurred(
                v,
                (2 * k + 1) / 2,
                y,
                x,
                r,
            ),
{
    assert((2 * k) / 2 == k);
    assert((2 * k + 1) / 2 == k);
}

} // verus!
