//! Shifted Hamming distance between two masked iris codes.
//!
//! A code is `RADIAL_RES` rows of `COLS` bits; each angular sample owns two
//! adjacent bits of its row. Matching rotates the first code (and its mask)
//! by whole angular samples, `-MAX_SHIFT ..= MAX_SHIFT`, and keeps the least
//! fraction of disagreeing bits among the bits that neither mask hides.
//!
//! A fraction is returned exactly, as `(disagreeing bits, usable bits)`.

use crate::bits::{
    bits_and, bits_clone, bits_count_ones, bits_get, bits_len, bits_not, bits_or, bits_repeat,
    bits_set, bits_xor, count_true, lemma_count_true_le_len, seq_and, seq_not, seq_or, seq_xor,
    CodeBits,
};
use crate::matching_laws::lemma_best_upto_min;
use crate::types::{Mask, Template, RADIAL_RES, TEMPLATE_BITS};
use crate::layout::lemma_cell_index;
use vstd::prelude::*;

verus! {

/// Bits in one row of a code: two per angular sample.
pub const COLS: usize = 480;

/// Filter scales in a code.
pub const SCALES: i32 = 1;

/// Largest rotation tried, in angular samples, each way.
pub const MAX_SHIFT: i32 = 8;

/// The column that column `c` of a row takes its bit from when the row is
/// rotated by `s` angular samples (positive `s` rotates right).
pub open spec fn source_col(c: int, s: int) -> int {
    (c - 2 * s) % (COLS as int)
}

/// Bit `i` of `bits` after rotating every row by `s` angular samples. Rotation
/// by zero is a plain copy; any other rotation rebuilds the first
/// `TEMPLATE_BITS` bits and leaves any further bits cleared.
pub open spec fn shifted(bits: Seq<bool>, s: int) -> Seq<bool> {
    if s == 0 {
        bits
    } else {
        Seq::new(
            bits.len(),
            |i: int|
                if i < TEMPLATE_BITS {
                    bits[(i / COLS as int) * COLS as int + source_col(i % COLS as int, s)]
                } else {
                    false
                },
        )
    }
}

/// Bits hidden by either mask when the first code is rotated by `s`.
pub open spec fn combined_mask(m1: Seq<bool>, m2: Seq<bool>, s: int) -> Seq<bool> {
    seq_or(shifted(m1, s), m2)
}

/// Usable bits at rotation `s`: the length of the first code less the
/// hidden bits.
pub open spec fn usable_bits(t1: Seq<bool>, m1: Seq<bool>, m2: Seq<bool>, s: int) -> int {
    t1.len() - count_true(combined_mask(m1, m2, s))
}

/// Bits that differ between the rotated first code and the second one and
/// that no mask hides.
pub open spec fn disagreement(
    t1: Seq<bool>,
    m1: Seq<bool>,
    t2: Seq<bool>,
    m2: Seq<bool>,
    s: int,
) -> Seq<bool> {
    seq_and(seq_xor(shifted(t1, s), t2), seq_not(combined_mask(m1, m2, s)))
}

/// Number of usable bits that disagree at rotation `s`.
pub open spec fn differing_bits(
    t1: Seq<bool>,
    m1: Seq<bool>,
    t2: Seq<bool>,
    m2: Seq<bool>,
    s: int,
) -> int {
    count_true(disagreement(t1, m1, t2, m2, s)) as int
}

/// The best fraction among the first `n` rotations tried (`-MAX_SHIFT`
/// upwards): a rotation with no usable bit is skipped, and a later fraction
/// replaces the best one only when it is strictly smaller.
pub open spec fn best_upto(
    t1: Seq<bool>,
    m1: Seq<bool>,
    t2: Seq<bool>,
    m2: Seq<bool>,
    n: int,
) -> Option<(int, int)>
    decreases n,
{
    if n <= 0 {
        None
    } else {
        let prev = best_upto(t1, m1, t2, m2, n - 1);
        let s = n - 1 - MAX_SHIFT;
        let d = differing_bits(t1, m1, t2, m2, s);
        let v = usable_bits(t1, m1, m2, s);
        if v == 0 {
            prev
        } else {
            match prev {
                None => Some((d, v)),
                Some((bd, bv)) => if d * bv < bd * v {
                    Some((d, v))
                } else {
                    prev
                },
            }
        }
    }
}

/// The matching score of two masked codes: the least fraction of usable
/// disagreeing bits over all rotations, `None` when no rotation leaves a
/// usable bit.
pub open spec fn best_score(t1: Seq<bool>, m1: Seq<bool>, t2: Seq<bool>, m2: Seq<bool>) -> Option<
    (int, int),
> {
    best_upto(t1, m1, t2, m2, 2 * MAX_SHIFT + 1)
}

/// At no rotation do the masks hide more bits than the first code holds.
pub open spec fn hidden_within_code(t1: Seq<bool>, m1: Seq<bool>, m2: Seq<bool>) -> bool {
    forall|s: int| -MAX_SHIFT <= s <= MAX_SHIFT ==> #[trigger] usable_bits(t1, m1, m2, s) >= 0
}

/// An exact score read as integers.
pub open spec fn score_value(r: Option<(usize, usize)>) -> Option<(int, int)> {
    match r {
        None => None,
        Some((d, v)) => Some((d as int, v as int)),
    }
}

proof fn lemma_product_fits(a: int, b: int, bound: int)
    requires
        0 <= a <= bound,
        0 <= b <= bound,
        bound <= usize::MAX / 8,
    ensures
        a * b <= u128::MAX,
{
    assert(a * b <= bound * bound) by (nonlinear_arith)
        requires
            0 <= a <= bound,
            0 <= b <= bound,
    ;
    assert(bound * bound <= u128::MAX) by (nonlinear_arith)
        requires
            0 <= bound <= 0xffff_ffff_ffff_ffff,
    ;
}

/// Rotates every row of a code by `noshifts` angular samples.
pub fn shift_columns(bits: &CodeBits, noshifts: i32) -> (res: CodeBits)
    requires
        bits@.len() >= TEMPLATE_BITS,
        -0x3fff_ffff <= noshifts <= 240,
    ensures
        res@ == shifted(bits@, noshifts as int),
{
    if noshifts == 0 {
        return bits_clone(bits);
    }
    let magnitude: i32 = if noshifts < 0 {
        -noshifts
    } else {
        noshifts
    };
    let shift: usize = (2 * SCALES * magnitude) as usize;
    let len = bits_len(bits);
    let mut out = bits_repeat(false, len);
    let ghost src = bits@;
    let ghost target = shifted(src, noshifts as int);
    for row in 0..RADIAL_RES
        invariant
            len == src.len(),
            src.len() >= TEMPLATE_BITS,
            bits@ == src,
            target == shifted(src, noshifts as int),
            noshifts != 0,
            -0x3fff_ffff <= noshifts <= 240,
            shift == (if noshifts < 0 { -2 * noshifts } else { 2 * noshifts }),
            out@.len() == len,
            forall|i: int| 0 <= i < row * COLS ==> out@[i] == target[i],
            forall|i: int| row * COLS <= i < len ==> !out@[i],
    {
        let base = row * COLS;
        for c in 0..COLS
            invariant
                len == src.len(),
                src.len() >= TEMPLATE_BITS,
                bits@ == src,
                target == shifted(src, noshifts as int),
                noshifts != 0,
                -0x3fff_ffff <= noshifts <= 240,
                shift == (if noshifts < 0 { -2 * noshifts } else { 2 * noshifts }),
                row < RADIAL_RES,
                base == row * COLS,
                out@.len() == len,
                forall|i: int| 0 <= i < base + c ==> out@[i] == target[i],
                forall|i: int| base + c <= i < len ==> !out@[i],
        {
            let src_c = if noshifts > 0 {
                (c + COLS - shift) % COLS
            } else {
                (c + shift) % COLS
            };
            proof {
                if noshifts > 0 {
                    vstd::arithmetic::div_mod::lemma_mod_add_multiples_vanish(
                        c - 2 * noshifts,
                        COLS as int,
                    );
                }
                assert(src_c == source_col(c as int, noshifts as int));
                lemma_cell_index(COLS as int, row as int + 1, row as int, c as int);
            }
            let b = bits_get(bits, base + src_c);
            bits_set(&mut out, base + c, b);
        }
    }
    proof {
        assert(out@ =~= target);
    }
    out
}

/// Matching score of two masked iris codes: over every rotation of the first
/// code by `-MAX_SHIFT ..= MAX_SHIFT` angular samples, the least fraction
/// `disagreeing / usable` of the bits that neither mask hides, returned as the
/// pair `(disagreeing, usable)`; `None` when no rotation leaves a usable bit.
pub fn hamming_distance(t1: &Template, m1: &Mask, t2: &Template, m2: &Mask) -> (res: Option<
    (usize, usize),
>)
    requires
        t1@.len() >= TEMPLATE_BITS,
        m1@.len() >= TEMPLATE_BITS,
        hidden_within_code(t1@, m1@, m2@),
    ensures
        score_value(res) == best_score(t1@, m1@, t2@, m2@),
        res is None <==> forall|s: int|
            -MAX_SHIFT <= s <= MAX_SHIFT ==> #[trigger] usable_bits(t1@, m1@, m2@, s) == 0,
        res matches Some((d, v)) ==> {
            &&& v > 0
            &&& exists|s: int|
                -MAX_SHIFT <= s <= MAX_SHIFT && #[trigger] usable_bits(t1@, m1@, m2@, s) == v
                    && differing_bits(t1@, m1@, t2@, m2@, s) == d
            &&& forall|s: int|
                -MAX_SHIFT <= s <= MAX_SHIFT && #[trigger] usable_bits(t1@, m1@, m2@, s) > 0
                    ==> d * usable_bits(t1@, m1@, m2@, s) <= differing_bits(t1@, m1@, t2@, m2@, s)
                    * v
        },
{
    let mut best: Option<(usize, usize)> = None;
    let total = bits_len(&t1.bits);
    let mut s: i32 = -MAX_SHIFT;
    while s <= MAX_SHIFT
        invariant
            -MAX_SHIFT <= s <= MAX_SHIFT + 1,
            total == t1@.len(),
            t1@.len() >= TEMPLATE_BITS,
            m1@.len() >= TEMPLATE_BITS,
            hidden_within_code(t1@, m1@, m2@),
            score_value(best) == best_upto(t1@, m1@, t2@, m2@, s + MAX_SHIFT),
            total <= usize::MAX / 8,
            best matches Some((bd, bv)) ==> bd <= total && bv <= total,
        decreases MAX_SHIFT + 1 - s,
    {
        let t1s = shift_columns(&t1.bits, s);
        let m1s = shift_columns(&m1.bits, s);
        let combined = bits_or(m1s, bits_clone(&m2.bits));
        let mask_count = bits_count_ones(&combined);
        proof {
            assert(usable_bits(t1@, m1@, m2@, s as int) >= 0);
        }
        let valid = total - mask_count;
        if valid != 0 {
            let diff = bits_and(bits_xor(t1s, bits_clone(&t2.bits)), bits_not(combined));
            let d = bits_count_ones(&diff);
            proof {
                lemma_count_true_le_len(diff@);
            }
            match best {
                None => {
                    best = Some((d, valid));
                },
                Some((bd, bv)) => {
                    proof {
                        lemma_product_fits(d as int, bv as int, total as int);
                        lemma_product_fits(bd as int, valid as int, total as int);
                    }
                    if (d as u128) * (bv as u128) < (bd as u128) * (valid as u128) {
                        best = Some((d, valid));
                    }
                },
            }
        }
        s = s + 1;
    }
    proof {
        lemma_best_upto_min(t1@, m1@, t2@, m2@, 2 * MAX_SHIFT + 1);
    }
    best
}

/// Whether, at every rotation tried, the masks hide no more bits than the
/// first code holds: what `hamming_distance` needs of its inputs.
pub fn masks_fit(t1: &Template, m1: &Mask, m2: &Mask) -> (res: bool)
    requires
        m1@.len() >= TEMPLATE_BITS,
    ensures
        res == hidden_within_code(t1@, m1@, m2@),
{
    let total = bits_len(&t1.bits);
    let mut s: i32 = -MAX_SHIFT;
    while s <= MAX_SHIFT
        invariant
            -MAX_SHIFT <= s <= MAX_SHIFT + 1,
            total == t1@.len(),
            m1@.len() >= TEMPLATE_BITS,
            forall|k: int| -MAX_SHIFT <= k < s ==> #[trigger] usable_bits(t1@, m1@, m2@, k) >= 0,
        decreases MAX_SHIFT + 1 - s,
    {
        let m1s = shift_columns(&m1.bits, s);
        let combined = bits_or(m1s, bits_clone(&m2.bits));
        let count = bits_count_ones(&combined);
        if count > total {
            assert(usable_bits(t1@, m1@, m2@, s as int) < 0);
            return false;
        }
        s = s + 1;
    }
    true
}

} // verus!
