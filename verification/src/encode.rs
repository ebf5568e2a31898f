//! Packing of quantised filter phases into an iris code and its noise mask.
//!
//! Each polar cell (row-major, `RADIAL_RES` rows of `ANGULAR_RES` cells)
//! gives two code bits, the signs of the real and the imaginary part of its
//! filter response, at bits `2k` and `2k + 1` for cell `k`. Both mask bits of
//! a cell are set when the cell is noise or its response is too weak.

use crate::bits::bits_set;
use crate::matching::{shifted, source_col};
use crate::matching_laws::{lemma_shifted_at, rotated_index};
use crate::types::{Mask, Template, ANGULAR_RES, RADIAL_RES, TEMPLATE_BITS};
use vstd::prelude::*;

verus! {

/// The quantised filter response of one polar cell.
#[derive(Debug, Clone, Copy, PartialEq, Eq, Structural)]
pub struct PhaseCell {
    /// The real part of the response is positive.
    pub real_positive: bool,
    /// The imaginary part of the response is positive.
    pub imag_positive: bool,
    /// The cell lies on noise (eyelid, eyelash, outside the iris).
    pub noise: bool,
    /// The response amplitude is below the usable floor.
    pub weak: bool,
}

/// Code bit `i` of the cells: a phase sign of cell `i / 2`.
pub open spec fn code_bit(cells: Seq<PhaseCell>, i: int) -> bool {
    if i % 2 == 0 {
        cells[i / 2].real_positive
    } else {
        cells[i / 2].imag_positive
    }
}

/// Mask bit `i` of the cells: cell `i / 2` is noise or weak.
pub open spec fn mask_bit(cells: Seq<PhaseCell>, i: int) -> bool {
    cells[i / 2].noise || cells[i / 2].weak
}

/// The iris code of the cells.
pub open spec fn code_of(cells: Seq<PhaseCell>) -> Seq<bool> {
    Seq::new(TEMPLATE_BITS as nat, |i: int| code_bit(cells, i))
}

/// The noise mask of the cells.
pub open spec fn mask_of(cells: Seq<PhaseCell>) -> Seq<bool> {
    Seq::new(TEMPLATE_BITS as nat, |i: int| mask_bit(cells, i))
}

/// Packs the quantised responses of all polar cells, row-major, into a
/// template and a mask.
pub fn encode(cells: &Vec<PhaseCell>) -> (res: (Template, Mask))
    requires
        cells@.len() == RADIAL_RES * ANGULAR_RES,
    ensures
        res.0@ == code_of(cells@),
        res.1@ == mask_of(cells@),
{
    let mut template = Template::zeros();
    let mut mask = Mask::zeros();
    let n = ANGULAR_RES;
    for row in 0..RADIAL_RES
        invariant
            n == ANGULAR_RES,
            cells@.len() == RADIAL_RES * ANGULAR_RES,
            template@.len() == TEMPLATE_BITS,
            mask@.len() == TEMPLATE_BITS,
            forall|i: int| 0 <= i < row * 2 * n ==> template@[i] == code_bit(cells@, i),
            forall|i: int| 0 <= i < row * 2 * n ==> mask@[i] == mask_bit(cells@, i),
    {
        for c in 0..n
            invariant
                n == ANGULAR_RES,
                row < RADIAL_RES,
                cells@.len() == RADIAL_RES * ANGULAR_RES,
                template@.len() == TEMPLATE_BITS,
                mask@.len() == TEMPLATE_BITS,
                forall|i: int| 0 <= i < row * 2 * n + 2 * c ==> template@[i] == code_bit(cells@, i),
                forall|i: int| 0 <= i < row * 2 * n + 2 * c ==> mask@[i] == mask_bit(cells@, i),
        {
            assert(row * (n * 2) + 2 * c + 1 < TEMPLATE_BITS && row * n + c < RADIAL_RES
                * ANGULAR_RES) by (nonlinear_arith)
                requires
                    row < RADIAL_RES,
                    c < n,
                    n == ANGULAR_RES,
            ;
            let cell = cells[row * n + c];
            let noisy = cell.noise || cell.weak;
            let bit_real_idx = row * (n * 2) + 2 * c;
            let bit_imag_idx = bit_real_idx + 1;
            bits_set(&mut template.bits, bit_real_idx, cell.real_positive);
            bits_set(&mut template.bits, bit_imag_idx, cell.imag_positive);
            bits_set(&mut mask.bits, bit_real_idx, noisy);
            bits_set(&mut mask.bits, bit_imag_idx, noisy);
            assert(bit_real_idx / 2 == row * n + c);
            assert(bit_imag_idx / 2 == row * n + c);
        }
    }
    proof {
        assert(template@ =~= code_of(cells@));
        assert(mask@ =~= mask_of(cells@));
    }
    (template, mask)
}

/// The cells with every row turned by `s` angular samples: cell `c` of a
/// row takes the value of cell `c - s` (cyclically).
pub open spec fn rotate_cells(cells: Seq<PhaseCell>, s: int) -> Seq<PhaseCell> {
    Seq::new(
        cells.len(),
        |k: int| cells[(k / ANGULAR_RES as int) * ANGULAR_RES as int + (k % ANGULAR_RES as int - s) % ANGULAR_RES as int],
    )
}

proof fn lemma_code_index(i: int, s: int)
    requires
        0 <= i < TEMPLATE_BITS,
    ensures
        rotated_index(i, s) % 2 == i % 2,
        rotated_index(i, s) / 2 == ((i / 2) / 240) * 240 + ((i / 2) % 240 - s) % 240,
{
    let row = i / 480;
    let c = i % 480;
    let a = c / 2;
    let b = c % 2;
    let k = i / 2;
    let r0 = (a - s) % 240;
    let q = (a - s) / 240;
    vstd::arithmetic::div_mod::lemma_fundamental_div_mod(i, 480);
    vstd::arithmetic::div_mod::lemma_fundamental_div_mod(c, 2);
    vstd::arithmetic::div_mod::lemma_fundamental_div_mod(a - s, 240);
    assert(0 <= r0 < 240);
    vstd::arithmetic::div_mod::lemma_fundamental_div_mod_converse(i, 2, 240 * row + a, b);
    vstd::arithmetic::div_mod::lemma_fundamental_div_mod_converse(k, 240, row, a);
    vstd::arithmetic::div_mod::lemma_fundamental_div_mod_converse(c - 2 * s, 480, q, 2 * r0 + b);
    assert(source_col(c, s) == 2 * r0 + b);
    let ri = rotated_index(i, s);
    assert(ri == 480 * row + 2 * r0 + b);
    vstd::arithmetic::div_mod::lemma_fundamental_div_mod_converse(ri, 2, 240 * row + r0, b);
}

proof fn lemma_rotation_at(cells: Seq<PhaseCell>, s: int, i: int)
    requires
        cells.len() == RADIAL_RES * ANGULAR_RES,
        0 <= i < TEMPLATE_BITS,
    ensures
        shifted(code_of(cells), s)[i] == code_of(rotate_cells(cells, s))[i],
        shifted(mask_of(cells), s)[i] == mask_of(rotate_cells(cells, s))[i],
{
    lemma_shifted_at(code_of(cells), s, i);
    lemma_shifted_at(mask_of(cells), s, i);
    lemma_code_index(i, s);
    let k = i / 2;
    assert(0 <= k < 4800);
    let ri = rotated_index(i, s);
    assert(rotate_cells(cells, s)[k] == cells[ri / 2]);
}

/// Turning every row of the cells by `s` angular samples and encoding
/// gives the code and mask of the unturned cells rotated by `s`: matching's
/// rotation by one step is a turn of the iris by one angular sample.
pub proof fn law_encode_rotation(cells: Seq<PhaseCell>, s: int)
    requires
        cells.len() == RADIAL_RES * ANGULAR_RES,
    ensures
        shifted(code_of(cells), s) == code_of(rotate_cells(cells, s)),
        shifted(mask_of(cells), s) == mask_of(rotate_cells(cells, s)),
{
    let rc = rotate_cells(cells, s);
    let a = shifted(code_of(cells), s);
    let b = shifted(mask_of(cells), s);
    assert(a.len() == TEMPLATE_BITS);
    assert(b.len() == TEMPLATE_BITS);
    assert forall|i: int| 0 <= i < TEMPLATE_BITS implies #[trigger] a[i] == code_of(rc)[i] by {
        lemma_rotation_at(cells, s, i);
    }
    assert forall|i: int| 0 <= i < TEMPLATE_BITS implies #[trigger] b[i] == mask_of(rc)[i] by {
        lemma_rotation_at(cells, s, i);
    }
    assert(a =~= code_of(rc));
    assert(b =~= mask_of(rc));
}

} // verus!
