//! Noise masking of an eye image: pixels above the upper eyelid, below the
//! lower eyelid, and dark pixels (eyelashes) are marked unusable.

use crate::arrays::{
    image8_dim, image8_get, masked_cells, masked_none, masked_set, masked_shape, Image8,
    MaskedImage,
};
use crate::daugman::{img_cols, img_rows, pixel_at};
use crate::layout::{lemma_cell_index, lemma_unique_cell};
use vstd::prelude::*;

verus! {

/// Pixels darker than this are taken for eyelashes.
pub const EYELASH_THRESHOLD: u8 = 80;

/// Pixel `(y, x)` is noise: on or above the upper eyelid line of its column,
/// on or below the lower eyelid line of its column, or an eyelash.
pub open spec fn is_noise(
    img: &Image8,
    top: Seq<Option<usize>>,
    bottom: Seq<Option<usize>>,
    y: int,
    x: int,
) -> bool {
    ||| (top[x] matches Some(t) && y <= t)
    ||| (bottom[x] matches Some(b) && y >= b)
    ||| pixel_at(img, y, x) < EYELASH_THRESHOLD
}

/// Cell `(y, x)` of a masked image.
pub open spec fn masked_at(m: &MaskedImage, y: int, x: int) -> Option<u8> {
    masked_cells(*m)[y * masked_shape(*m).1 + x]
}

/// The masked image: every pixel, or `None` where it is noise. `top[x]` is
/// the last row covered by the upper eyelid in column `x` and `bottom[x]`
/// the first row covered by the lower eyelid, if any.
pub fn mask_noise(img: &Image8, top: &Vec<Option<usize>>, bottom: &Vec<Option<usize>>) -> (res:
    MaskedImage)
    requires
        top@.len() == img_cols(img),
        bottom@.len() == img_cols(img),
        img_rows(img) * img_cols(img) * 2 <= isize::MAX,
    ensures
        masked_shape(res) == (img_rows(img) as nat, img_cols(img) as nat),
        masked_cells(res).len() == img_rows(img) * img_cols(img),
        forall|y: int, x: int|
            0 <= y < img_rows(img) && 0 <= x < img_cols(img) ==> #[trigger] masked_at(&res, y, x)
                == if is_noise(img, top@, bottom@, y, x) {
                None
            } else {
                Some(pixel_at(img, y, x) as u8)
            },
        forall|y: int, x: int|
            0 <= y < img_rows(img) && 0 <= x < img_cols(img) && (top@[x] matches Some(t) && y <= t)
                ==> #[trigger] masked_at(&res, y, x) is None,
        forall|y: int, x: int|
            0 <= y < img_rows(img) && 0 <= x < img_cols(img) && (bottom@[x] matches Some(b) && y
                >= b) ==> #[trigger] masked_at(&res, y, x) is None,
        forall|y: int, x: int|
            0 <= y < img_rows(img) && 0 <= x < img_cols(img) && pixel_at(img, y, x)
                < EYELASH_THRESHOLD ==> #[trigger] masked_at(&res, y, x) is None,
        forall|y: int, x: int|
            0 <= y < img_rows(img) && 0 <= x < img_cols(img) && !(top@[x] matches Some(t) && y <= t)
                && !(bottom@[x] matches Some(b) && y >= b) && pixel_at(img, y, x) >= EYELASH_THRESHOLD
                ==> #[trigger] masked_at(&res, y, x) == Some(pixel_at(img, y, x) as u8),
{
    let (h, w) = image8_dim(img);
    let mut out = masked_none(h, w);
    let ghost mut p: int = 0;
    assert(0 * w == 0) by (nonlinear_arith);
    for y in 0..h
        invariant
            h == img_rows(img),
            w == img_cols(img),
            top@.len() == w,
            bottom@.len() == w,
            masked_shape(out) == (h as nat, w as nat),
            masked_cells(out).len() == h * w,
            p == y * w,
            forall|yy: int, xx: int|
                0 <= yy < h && 0 <= xx < w && yy * w + xx < p ==> #[trigger] masked_at(&out, yy, xx)
                    == if is_noise(img, top@, bottom@, yy, xx) {
                    None
                } else {
                    Some(pixel_at(img, yy, xx) as u8)
                },
    {
        for x in 0..w
            invariant
                h == img_rows(img),
                w == img_cols(img),
                top@.len() == w,
                bottom@.len() == w,
                masked_shape(out) == (h as nat, w as nat),
                masked_cells(out).len() == h * w,
                y < h,
                p == y * w + x,
                forall|yy: int, xx: int|
                    0 <= yy < h && 0 <= xx < w && yy * w + xx < p ==> #[trigger] masked_at(
                        &out,
                        yy,
                        xx,
                    ) == if is_noise(img, top@, bottom@, yy, xx) {
                        None
                    } else {
                        Some(pixel_at(img, yy, xx) as u8)
                    },
        {
            proof {
                lemma_cell_index(w as int, h as int, y as int, x as int);
            }
            let v = image8_get(img, y, x);
            let above = match top[x] {
                Some(t) => y <= t,
                None => false,
            };
            let below = match bottom[x] {
                Some(b) => y >= b,
                None => false,
            };
            let noise = above || below || v < EYELASH_THRESHOLD;
            let ghost before = out;
            if noise {
                masked_set(&mut out, y, x, None);
            } else {
                masked_set(&mut out, y, x, Some(v));
            }
            proof {
                assert forall|yy: int, xx: int|
                    0 <= yy < h && 0 <= xx < w && yy * w + xx < p + 1 implies #[trigger] masked_at(
                    &out,
                    yy,
                    xx,
                ) == if is_noise(img, top@, bottom@, yy, xx) {
                    None
                } else {
                    Some(pixel_at(img, yy, xx) as u8)
                } by {
                    lemma_cell_index(w as int, h as int, yy, xx);
                    if yy * w + xx == p {
                        lemma_unique_cell(w as int, yy, xx, y as int, x as int);
                    } else {
                        assert(masked_at(&out, yy, xx) == masked_at(&before, yy, xx));
                    }
                }
                p = p + 1;
            }
        }
        proof {
            assert(y * w + w == (y + 1) * w) by (nonlinear_arith);
        }
    }
    proof {
        assert forall|y: int, x: int| 0 <= y < h && 0 <= x < w implies #[trigger] masked_at(
            &out,
            y,
            x,
        ) == if is_noise(img, top@, bottom@, y, x) {
            None
        } else {
            Some(pixel_at(img, y, x) as u8)
        } by {
            lemma_cell_index(w as int, h as int, y, x);
        }
    }
    out
}

/// Rows on or above the upper eyelid line of a column are noise, whatever
/// the lower eyelid line and the pixel.
pub proof fn law_upper_eyelid_is_noise(
    img: &Image8,
    top: Seq<Option<usize>>,
    bottom: Seq<Option<usize>>,
    y: int,
    x: int,
)
    requires
        top[x] is Some,
        y <= top[x]->0,
    ensures
        is_noise(img, top, bottom, y, x),
{
}

/// Rows on or below the lower eyelid line of a column are noise, whether or
/// not the column also has an upper eyelid line, and whatever the pixel.
pub proof fn law_lower_eyelid_is_noise(
    img: &Image8,
    top: Seq<Option<usize>>,
    bottom: Seq<Option<usize>>,
    y: int,
    x: int,
)
    requires
        bottom[x] is Some,
        y >= bottom[x]->0,
    ensures
        is_noise(img, top, bottom, y, x),
{
}

/// Pixels darker than the eyelash threshold are noise wherever they are.
pub proof fn law_eyelash_is_noise(
    img: &Image8,
    top: Seq<Option<usize>>,
    bottom: Seq<Option<usize>>,
    y: int,
    x: int,
)
    requires
        pixel_at(img, y, x) < EYELASH_THRESHOLD,
    ensures
        is_noise(img, top, bottom, y, x),
{
}

/// A pixel strictly between the eyelid lines of its column (or with no line
/// on that side) that is not dark is kept.
pub proof fn law_clear_pixel_is_kept(
    img: &Image8,
    top: Seq<Option<usize>>,
    bottom: Seq<Option<usize>>,
    y: int,
    x: int,
)
    requires
        top[x] is Some ==> y > top[x]->0,
        bottom[x] is Some ==> y < bottom[x]->0,
        pixel_at(img, y, x) >= EYELASH_THRESHOLD,
    ensures
        !is_noise(img, top, bottom, y, x),
{
}

} // verus!
