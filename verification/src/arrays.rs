//! The n-dimensional arrays of the pipeline, `ndarray` arrays kept in
//! private fields: an 8-bit image (`Array2<u8>`), a noise-masked image
//! (`Array2<Option<u8>>`) and a grid of integer responses (`Array3<i64>`).
//!
//! Verus does not see inside them: each array's shape and its elements, in
//! row-major logical order, are named below, and every array method the
//! library calls has a wrapper whose contract says what it does over those
//! names.

use crate::layout::lemma_cell_index;
use ndarray::{Array2, Array3};
use vstd::prelude::*;

verus! {

/// Product of the nonzero lengths among `a`, `b`, `c` (what `ndarray`
/// bounds by `isize::MAX`).
pub open spec fn nonzero_product(a: int, b: int, c: int) -> int {
    (if a == 0 { 1int } else { a }) * (if b == 0 { 1int } else { b }) * (if c == 0 { 1int } else { c })
}

/// A grey image of 8-bit pixels, indexed `(row, column)`.
#[verifier::external_body]
pub struct Image8 {
    inner: Array2<u8>,
}

/// `(rows, columns)` of an image.
pub uninterp spec fn image8_shape(img: Image8) -> (nat, nat);

/// The pixels of an image, row by row.
pub uninterp spec fn image8_cells(img: Image8) -> Seq<u8>;

/// An image with the noisy pixels removed: `None` where a pixel is noise.
#[verifier::external_body]
pub struct MaskedImage {
    inner: Array2<Option<u8>>,
}

/// `(rows, columns)` of a masked image.
pub uninterp spec fn masked_shape(img: MaskedImage) -> (nat, nat);

/// The cells of a masked image, row by row.
pub uninterp spec fn masked_cells(img: MaskedImage) -> Seq<Option<u8>>;

/// A grid of integer responses indexed `(y, x, r)`.
#[verifier::external_body]
pub struct Volume {
    inner: Array3<i64>,
}

/// `(ny, nx, nr)` of a grid.
pub uninterp spec fn volume_shape(v: Volume) -> (nat, nat, nat);

/// The cells of a grid in `(y, x, r)` row-major order.
pub uninterp spec fn volume_cells(v: Volume) -> Seq<i64>;

/// `Array2::<u8>::zeros((h, w))`: an image of zero pixels. The crate panics
/// when the product of the nonzero lengths exceeds `isize::MAX`.
#[verifier::external_body]
pub(crate) fn image8_zeros(h: usize, w: usize) -> (res: Image8)
    requires
        nonzero_product(h as int, w as int, 1) <= isize::MAX,
    ensures
        image8_shape(res) == (h as nat, w as nat),
        image8_cells(res) == Seq::new((h * w) as nat, |i: int| 0u8),
{
    Image8 { inner: Array2::<u8>::zeros((h, w)) }
}

/// `ArrayBase::dim`: the shape of an image. Every array holds as many
/// elements as its lengths multiply to, and the crate keeps the product of
/// the nonzero lengths within `isize::MAX`.
#[verifier::external_body]
pub(crate) fn image8_dim(img: &Image8) -> (res: (usize, usize))
    ensures
        image8_shape(*img) == (res.0 as nat, res.1 as nat),
        image8_cells(*img).len() == res.0 * res.1,
        nonzero_product(res.0 as int, res.1 as int, 1) <= isize::MAX,
{
    img.inner.dim()
}

/// `Index<(usize, usize)>`: pixel `(y, x)`; panics out of bounds.
#[verifier::external_body]
pub(crate) fn image8_get(img: &Image8, y: usize, x: usize) -> (res: u8)
    requires
        y < image8_shape(*img).0,
        x < image8_shape(*img).1,
    ensures
        res == image8_cells(*img)[y * image8_shape(*img).1 + x],
{
    img.inner[(y, x)]
}

/// `IndexMut<(usize, usize)>`: writes pixel `(y, x)`; panics out of bounds.
#[verifier::external_body]
pub(crate) fn image8_set(img: &mut Image8, y: usize, x: usize, v: u8)
    requires
        y < image8_shape(*old(img)).0,
        x < image8_shape(*old(img)).1,
    ensures
        image8_shape(*final(img)) == image8_shape(*old(img)),
        image8_cells(*final(img)) == image8_cells(*old(img)).update(
            y * image8_shape(*old(img)).1 + x,
            v,
        ),
{
    img.inner[(y, x)] = v;
}

/// `Array2::<Option<u8>>::from_elem((h, w), None)`: a masked image with every
/// cell `None`. The crate panics when the product of the nonzero lengths
/// exceeds `isize::MAX`, and the allocation fails past `isize::MAX` bytes.
#[verifier::external_body]
pub(crate) fn masked_none(h: usize, w: usize) -> (res: MaskedImage)
    requires
        nonzero_product(h as int, w as int, 1) <= isize::MAX,
        h * w * 2 <= isize::MAX,
    ensures
        masked_shape(res) == (h as nat, w as nat),
        masked_cells(res) == Seq::new((h * w) as nat, |i: int| None::<u8>),
{
    MaskedImage { inner: Array2::<Option<u8>>::from_elem((h, w), None) }
}

/// `ArrayBase::dim`: the shape of a masked image; it holds as many cells as
/// its lengths multiply to.
#[verifier::external_body]
pub(crate) fn masked_dim(img: &MaskedImage) -> (res: (usize, usize))
    ensures
        masked_shape(*img) == (res.0 as nat, res.1 as nat),
        masked_cells(*img).len() == res.0 * res.1,
{
    img.inner.dim()
}

/// `Index<(usize, usize)>`: cell `(y, x)`; panics out of bounds.
#[verifier::external_body]
pub(crate) fn masked_get(img: &MaskedImage, y: usize, x: usize) -> (res: Option<u8>)
    requires
        y < masked_shape(*img).0,
        x < masked_shape(*img).1,
    ensures
        res == masked_cells(*img)[y * masked_shape(*img).1 + x],
{
    img.inner[(y, x)]
}

/// `IndexMut<(usize, usize)>`: writes cell `(y, x)`; panics out of bounds.
#[verifier::external_body]
pub(crate) fn masked_set(img: &mut MaskedImage, y: usize, x: usize, v: Option<u8>)
    requires
        y < masked_shape(*old(img)).0,
        x < masked_shape(*old(img)).1,
    ensures
        masked_shape(*final(img)) == masked_shape(*old(img)),
        masked_cells(*final(img)) == masked_cells(*old(img)).update(
            y * masked_shape(*old(img)).1 + x,
            v,
        ),
{
    img.inner[(y, x)] = v;
}

/// `Array3::<i64>::zeros((ny, nx, nr))`: a grid of zeros. The crate panics
/// when the product of the nonzero lengths exceeds `isize::MAX`, and the
/// allocation fails past `isize::MAX` bytes.
#[verifier::external_body]
pub(crate) fn volume_zeros(ny: usize, nx: usize, nr: usize) -> (res: Volume)
    requires
        nonzero_product(ny as int, nx as int, nr as int) <= isize::MAX,
        ny * nx * nr * 8 <= isize::MAX,
    ensures
        volume_shape(res) == (ny as nat, nx as nat, nr as nat),
        volume_cells(res) == Seq::new((ny * nx * nr) as nat, |i: int| 0i64),
{
    Volume { inner: Array3::<i64>::zeros((ny, nx, nr)) }
}

/// `ArrayBase::dim`: the shape of a grid. It holds as many cells as its
/// lengths multiply to, the crate keeps the product of the nonzero lengths
/// within `isize::MAX`, and its cells fit in one allocation.
#[verifier::external_body]
pub(crate) fn volume_dim(v: &Volume) -> (res: (usize, usize, usize))
    ensures
        volume_shape(*v) == (res.0 as nat, res.1 as nat, res.2 as nat),
        volume_cells(*v).len() == res.0 * res.1 * res.2,
        nonzero_product(res.0 as int, res.1 as int, res.2 as int) <= isize::MAX,
        res.0 * res.1 * res.2 * 8 <= isize::MAX,
{
    v.inner.dim()
}

/// `Index<(usize, usize, usize)>`: cell `(y, x, r)`; panics out of bounds.
#[verifier::external_body]
pub(crate) fn volume_get(v: &Volume, y: usize, x: usize, r: usize) -> (res: i64)
    requires
        y < volume_shape(*v).0,
        x < volume_shape(*v).1,
        r < volume_shape(*v).2,
    ensures
        res == volume_cells(*v)[(y * volume_shape(*v).1 + x) * volume_shape(*v).2 + r],
{
    v.inner[(y, x, r)]
}

/// `IndexMut<(usize, usize, usize)>`: writes cell `(y, x, r)`; panics out of
/// bounds.
#[verifier::external_body]
pub(crate) fn volume_set(v: &mut Volume, y: usize, x: usize, r: usize, value: i64)
    requires
        y < volume_shape(*old(v)).0,
        x < volume_shape(*old(v)).1,
        r < volume_shape(*old(v)).2,
    ensures
        volume_shape(*final(v)) == volume_shape(*old(v)),
        volume_cells(*final(v)) == volume_cells(*old(v)).update(
            (y * volume_shape(*old(v)).1 + x) * volume_shape(*old(v)).2 + r,
            value,
        ),
{
    v.inner[(y, x, r)] = value;
}

impl Image8 {
    /// An image of the given shape holding `pixels`, row by row.
    pub fn from_pixels(height: usize, width: usize, pixels: &Vec<u8>) -> (res: Image8)
        requires
            pixels@.len() == height * width,
            nonzero_product(height as int, width as int, 1) <= isize::MAX,
        ensures
            image8_shape(res) == (height as nat, width as nat),
            image8_cells(res) == pixels@,
    {
        let mut img = image8_zeros(height, width);
        let n = pixels.len();
        let mut p: usize = 0;
        assert(0 * width == 0) by (nonlinear_arith);
        for y in 0..height
            invariant
                pixels@.len() == height * width,
                n == pixels@.len(),
                image8_shape(img) == (height as nat, width as nat),
                image8_cells(img).len() == height * width,
                p == y * width,
                forall|j: int| 0 <= j < p ==> image8_cells(img)[j] == pixels@[j],
        {
            for x in 0..width
                invariant
                    pixels@.len() == height * width,
                    n == pixels@.len(),
                    image8_shape(img) == (height as nat, width as nat),
                    image8_cells(img).len() == height * width,
                    y < height,
                    p == y * width + x,
                    forall|j: int| 0 <= j < p ==> image8_cells(img)[j] == pixels@[j],
            {
                proof {
                    lemma_cell_index(width as int, height as int, y as int, x as int);
                }
                image8_set(&mut img, y, x, pixels[p]);
                p = p + 1;
            }
            proof {
                assert(y * width + width == (y + 1) * width) by (nonlinear_arith);
            }
        }
        proof {
            assert(image8_cells(img) =~= pixels@);
        }
        img
    }

    /// `(rows, columns)` of the image.
    pub fn dim(&self) -> (res: (usize, usize))
        ensures
            image8_shape(*self) == (res.0 as nat, res.1 as nat),
            image8_cells(*self).len() == res.0 * res.1,
    {
        image8_dim(self)
    }

    /// Pixel `(y, x)`.
    pub fn get(&self, y: usize, x: usize) -> (res: u8)
        requires
            y < image8_shape(*self).0,
            x < image8_shape(*self).1,
        ensures
            res == image8_cells(*self)[y * image8_shape(*self).1 + x],
    {
        image8_get(self, y, x)
    }
}

impl MaskedImage {
    /// `(rows, columns)` of the masked image.
    pub fn dim(&self) -> (res: (usize, usize))
        ensures
            masked_shape(*self) == (res.0 as nat, res.1 as nat),
            masked_cells(*self).len() == res.0 * res.1,
    {
        masked_dim(self)
    }

    /// Cell `(y, x)`: the pixel, or `None` where it is noise.
    pub fn get(&self, y: usize, x: usize) -> (res: Option<u8>)
        requires
            y < masked_shape(*self).0,
            x < masked_shape(*self).1,
        ensures
            res == masked_cells(*self)[y * masked_shape(*self).1 + x],
    {
        masked_get(self, y, x)
    }
}

impl Volume {
    /// A grid of zeros of the given shape.
    pub fn zeros(ny: usize, nx: usize, nr: usize) -> (res: Volume)
        requires
            nonzero_product(ny as int, nx as int, nr as int) <= isize::MAX,
            ny * nx * nr * 8 <= isize::MAX,
        ensures
            volume_shape(res) == (ny as nat, nx as nat, nr as nat),
            volume_cells(res) == Seq::new((ny * nx * nr) as nat, |i: int| 0i64),
    {
        volume_zeros(ny, nx, nr)
    }

    /// `(ny, nx, nr)` of the grid.
    pub fn dim(&self) -> (res: (usize, usize, usize))
        ensures
            volume_shape(*self) == (res.0 as nat, res.1 as nat, res.2 as nat),
            volume_cells(*self).len() == res.0 * res.1 * res.2,
    {
        volume_dim(self)
    }

    /// Cell `(y, x, r)`.
    pub fn get(&self, y: usize, x: usize, r: usize) -> (res: i64)
        requires
            y < volume_shape(*self).0,
            x < volume_shape(*self).1,
            r < volume_shape(*self).2,
        ensures
            res == volume_cells(*self)[(y * volume_shape(*self).1 + x) * volume_shape(*self).2 + r],
    {
        volume_get(self, y, x, r)
    }

    /// Writes cell `(y, x, r)`.
    pub fn set(&mut self, y: usize, x: usize, r: usize, value: i64)
        requires
            y < volume_shape(*old(self)).0,
            x < volume_shape(*old(self)).1,
            r < volume_shape(*old(self)).2,
        ensures
            volume_shape(*final(self)) == volume_shape(*old(self)),
            volume_cells(*final(self)) == volume_cells(*old(self)).update(
                (y * volume_shape(*old(self)).1 + x) * volume_shape(*old(self)).2 + r,
                value,
            ),
    {
        volume_set(self, y, x, r, value)
    }
}

} // verus!
