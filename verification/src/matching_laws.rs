//! Properties of rotation and of the matching score.

use crate::bits::{
    count_true, lemma_count_true_concat, lemma_count_true_le_len, lemma_count_true_mono, lemma_count_true_not, seq_and,
    seq_not, seq_or, seq_xor,
};
use crate::matching::{
    best_score, best_upto, combined_mask, hidden_within_code, differing_bits, disagreement, shifted, source_col,
    usable_bits, COLS, MAX_SHIFT,
};
use crate::types::TEMPLATE_BITS;
use crate::layout::lemma_cell_index;
use vstd::prelude::*;

verus! {

/// A code or a mask as the library makes them: `TEMPLATE_BITS` bits.
pub open spec fn code_wf(s: Seq<bool>) -> bool {
    s.len() == TEMPLATE_BITS
}

/// Where bit `i` of a code is read from when its rows rotate by `s`.
pub open spec fn rotated_index(i: int, s: int) -> int {
    (i / COLS as int) * COLS as int + source_col(i % COLS as int, s)
}

/// A rotated index stays inside the code, and rotation by zero reads each
/// bit from itself.
proof fn lemma_rotated_index(i: int, s: int)
    requires
        0 <= i < TEMPLATE_BITS,
    ensures
        0 <= rotated_index(i, s) < TEMPLATE_BITS,
        rotated_index(i, s) / COLS as int == i / COLS as int,
        rotated_index(i, s) % COLS as int == source_col(i % COLS as int, s),
        s == 0 ==> rotated_index(i, s) == i,
{
    let row = i / COLS as int;
    let c = i % COLS as int;
    assert(0 <= row < 20);
    assert(0 <= source_col(c, s) < COLS);
    lemma_cell_index(COLS as int, row + 1, row, source_col(c, s));
    if s == 0 {
        vstd::arithmetic::div_mod::lemma_small_mod(c as nat, COLS as nat);
    }
}

/// Every bit of a rotated well-formed code is read from its rotated index.
pub proof fn lemma_shifted_at(bits: Seq<bool>, s: int, i: int)
    requires
        code_wf(bits),
        0 <= i < TEMPLATE_BITS,
    ensures
        shifted(bits, s).len() == TEMPLATE_BITS,
        shifted(bits, s)[i] == bits[rotated_index(i, s)],
{
    lemma_rotated_index(i, s);
}

/// Rotating a code's rows by `s` and then by `-s` gives the code back.
pub proof fn law_shift_columns_inverse(bits: Seq<bool>, s: int)
    requires
        code_wf(bits),
    ensures
        shifted(shifted(bits, s), -s) == bits,
{
    let once = shifted(bits, s);
    let twice = shifted(once, -s);
    assert forall|i: int| 0 <= i < TEMPLATE_BITS implies twice[i] == bits[i] by {
        lemma_shifted_at(bits, s, i);
        lemma_shifted_at(once, -s, i);
        let j = rotated_index(i, -s);
        lemma_rotated_index(i, -s);
        lemma_shifted_at(bits, s, j);
        lemma_rotated_index(j, s);
        let m = COLS as int;
        let c = i % m;
        let x = c + 2 * s;
        vstd::arithmetic::div_mod::lemma_mod_twice(x, m);
        vstd::arithmetic::div_mod::lemma_sub_mod_noop(x, 2 * s, m);
        vstd::arithmetic::div_mod::lemma_sub_mod_noop(x % m, 2 * s, m);
        assert(source_col(source_col(c, -s), s) == c % m);
        vstd::arithmetic::div_mod::lemma_small_mod(c as nat, m as nat);
        assert(rotated_index(j, s) == i);
    }
    assert(twice =~= bits);
}

/// Rotation by zero leaves a code as it is.
pub proof fn law_shift_columns_zero(bits: Seq<bool>)
    ensures
        shifted(bits, 0) == bits,
{
}

/// At any rotation the disagreeing bits are among the usable ones.
pub proof fn lemma_differing_le_usable(
    t1: Seq<bool>,
    m1: Seq<bool>,
    t2: Seq<bool>,
    m2: Seq<bool>,
    s: int,
)
    requires
        code_wf(t1),
        code_wf(m1),
    ensures
        0 <= differing_bits(t1, m1, t2, m2, s) <= usable_bits(t1, m1, m2, s),
{
    let comb = combined_mask(m1, m2, s);
    let dis = disagreement(t1, m1, t2, m2, s);
    assert(shifted(t1, s).len() == t1.len());
    assert(shifted(m1, s).len() == m1.len());
    lemma_count_true_mono(dis, seq_not(comb));
    lemma_count_true_not(comb);
}

proof fn lemma_ratio_trans(d: int, v: int, bd: int, bv: int, ds: int, u: int)
    requires
        v > 0,
        bv > 0,
        u >= 0,
        d >= 0,
        bd * u <= ds * bv,
        d * bv < bd * v,
    ensures
        d * u <= ds * v,
{
    assert(d * u <= ds * v) by (nonlinear_arith)
        requires
            v > 0,
            bv > 0,
            u >= 0,
            d >= 0,
            bd * u <= ds * bv,
            d * bv < bd * v,
    ;
}

/// The best score over the first `n` rotations is a least fraction among
/// them, taken from one of them, and is absent only when none of them has a
/// usable bit.
pub proof fn lemma_best_upto_min(
    t1: Seq<bool>,
    m1: Seq<bool>,
    t2: Seq<bool>,
    m2: Seq<bool>,
    n: int,
)
    requires
        hidden_within_code(t1, m1, m2),
        0 <= n <= 2 * MAX_SHIFT + 1,
    ensures
        best_upto(t1, m1, t2, m2, n) is None ==> forall|s: int|
            -MAX_SHIFT <= s < n - MAX_SHIFT ==> #[trigger] usable_bits(t1, m1, m2, s) == 0,
        best_upto(t1, m1, t2, m2, n) matches Some((d, v)) ==> {
            &&& 0 <= d
            &&& v > 0
            &&& exists|s: int|
                -MAX_SHIFT <= s < n - MAX_SHIFT && #[trigger] usable_bits(t1, m1, m2, s) == v
                    && differing_bits(t1, m1, t2, m2, s) == d
            &&& forall|s: int|
                -MAX_SHIFT <= s < n - MAX_SHIFT && #[trigger] usable_bits(t1, m1, m2, s) > 0
                    ==> d * usable_bits(t1, m1, m2, s) <= differing_bits(t1, m1, t2, m2, s) * v
        },
    decreases n,
{
    if n > 0 {
        lemma_best_upto_min(t1, m1, t2, m2, n - 1);
        let s = n - 1 - MAX_SHIFT;
        let d = differing_bits(t1, m1, t2, m2, s);
        let v = usable_bits(t1, m1, m2, s);
        assert(v >= 0);
        match best_upto(t1, m1, t2, m2, n - 1) {
            None => {},
            Some((bd, bv)) => {
                if v != 0 && d * bv < bd * v {
                    assert forall|s2: int|
                        -MAX_SHIFT <= s2 < n - 1 - MAX_SHIFT && #[trigger] usable_bits(
                            t1,
                            m1,
                            m2,
                            s2,
                        ) > 0 implies d * usable_bits(t1, m1, m2, s2) <= differing_bits(
                        t1,
                        m1,
                        t2,
                        m2,
                        s2,
                    ) * v by {
                        lemma_ratio_trans(
                            d,
                            v,
                            bd,
                            bv,
                            differing_bits(t1, m1, t2, m2, s2),
                            usable_bits(t1, m1, m2, s2),
                        );
                    }
                }
            },
        }
    }
}

/// Well-formed masks never hide more bits than a well-formed code holds.
pub proof fn lemma_wf_hidden_within_code(t1: Seq<bool>, m1: Seq<bool>, m2: Seq<bool>)
    requires
        code_wf(t1),
        code_wf(m1),
    ensures
        hidden_within_code(t1, m1, m2),
{
    assert forall|s: int| -MAX_SHIFT <= s <= MAX_SHIFT implies #[trigger] usable_bits(
        t1,
        m1,
        m2,
        s,
    ) >= 0 by {
        assert(shifted(m1, s).len() == m1.len());
        lemma_count_true_le_len(combined_mask(m1, m2, s));
    }
}

/// The matching score is a least fraction over all rotations tried: it
/// lies in `[0, 1]`, some rotation attains it, no rotation with a usable bit
/// does better, and it is absent exactly when no rotation has a usable bit.
pub proof fn law_hamming_is_minimum(t1: Seq<bool>, m1: Seq<bool>, t2: Seq<bool>, m2: Seq<bool>)
    requires
        code_wf(t1),
        code_wf(m1),
    ensures
        best_score(t1, m1, t2, m2) is None <==> forall|s: int|
            -MAX_SHIFT <= s <= MAX_SHIFT ==> #[trigger] usable_bits(t1, m1, m2, s) == 0,
        best_score(t1, m1, t2, m2) matches Some((d, v)) ==> {
            &&& 0 <= d <= v
            &&& v > 0
            &&& exists|s: int|
                -MAX_SHIFT <= s <= MAX_SHIFT && #[trigger] usable_bits(t1, m1, m2, s) == v
                    && differing_bits(t1, m1, t2, m2, s) == d
            &&& forall|s: int|
                -MAX_SHIFT <= s <= MAX_SHIFT && #[trigger] usable_bits(t1, m1, m2, s) > 0
                    ==> d * usable_bits(t1, m1, m2, s) <= differing_bits(t1, m1, t2, m2, s) * v
        },
{
    lemma_wf_hidden_within_code(t1, m1, m2);
    lemma_best_upto_min(t1, m1, t2, m2, 2 * MAX_SHIFT + 1);
    if let Some((d, v)) = best_score(t1, m1, t2, m2) {
        let s = choose|s: int|
            -MAX_SHIFT <= s <= MAX_SHIFT && #[trigger] usable_bits(t1, m1, m2, s) == v
                && differing_bits(t1, m1, t2, m2, s) == d;
        lemma_differing_le_usable(t1, m1, t2, m2, s);
    }
}

proof fn lemma_count_true_zero(x: Seq<bool>)
    requires
        forall|i: int| 0 <= i < x.len() ==> !#[trigger] x[i],
    ensures
        count_true(x) == 0,
    decreases x.len(),
{
    if x.len() > 0 {
        lemma_count_true_zero(x.drop_last());
    }
}

/// A code matched against itself, under its own mask, scores zero whenever
/// the mask leaves some bit usable.
pub proof fn law_hamming_self_zero(t: Seq<bool>, m: Seq<bool>)
    requires
        code_wf(t),
        code_wf(m),
        usable_bits(t, m, m, 0) > 0,
    ensures
        best_score(t, m, t, m) matches Some((d, v)) && d == 0,
{
    let dis = disagreement(t, m, t, m, 0);
    lemma_count_true_zero(dis);
    law_hamming_is_minimum(t, m, t, m);
    if let Some((d, v)) = best_score(t, m, t, m) {
        let u = usable_bits(t, m, m, 0);
        assert(d * u <= 0 * v);
        assert(d == 0) by (nonlinear_arith)
            requires
                d >= 0,
                u > 0,
                d * u <= 0,
        ;
    }
}

/// Rotating the rotated index back lands on the index itself.
proof fn lemma_rotated_index_inverse(i: int, s: int)
    requires
        0 <= i < TEMPLATE_BITS,
    ensures
        rotated_index(rotated_index(i, -s), s) == i,
{
    let j = rotated_index(i, -s);
    lemma_rotated_index(i, -s);
    lemma_rotated_index(j, s);
    let m = COLS as int;
    let c = i % m;
    let x = c + 2 * s;
    vstd::arithmetic::div_mod::lemma_mod_twice(x, m);
    vstd::arithmetic::div_mod::lemma_sub_mod_noop(x, 2 * s, m);
    vstd::arithmetic::div_mod::lemma_sub_mod_noop(x % m, 2 * s, m);
    vstd::arithmetic::div_mod::lemma_small_mod(c as nat, m as nat);
}

/// A segment read cyclically from offset `p`.
pub open spec fn rotate_seg(seg: Seq<bool>, p: int) -> Seq<bool> {
    Seq::new(seg.len(), |c: int| seg[(c + p) % seg.len() as int])
}

proof fn lemma_count_rotate_seg(seg: Seq<bool>, p: int)
    requires
        0 <= p < seg.len(),
    ensures
        count_true(rotate_seg(seg, p)) == count_true(seg),
{
    let n = seg.len() as int;
    let a = seg.subrange(p, n);
    let b = seg.subrange(0, p);
    assert forall|c: int| 0 <= c < n implies #[trigger] rotate_seg(seg, p)[c] == (a + b)[c] by {
        if c < n - p {
            vstd::arithmetic::div_mod::lemma_small_mod((c + p) as nat, n as nat);
        } else {
            vstd::arithmetic::div_mod::lemma_fundamental_div_mod_converse(c + p, n, 1, c + p - n);
        }
    }
    assert(rotate_seg(seg, p) =~= a + b);
    assert(seg =~= b + a);
    lemma_count_true_concat(a, b);
    lemma_count_true_concat(b, a);
}

/// Row `r` of a code.
pub open spec fn code_row(x: Seq<bool>, r: int) -> Seq<bool> {
    x.subrange(r * COLS as int, r * COLS as int + COLS as int)
}

proof fn lemma_shifted_row(x: Seq<bool>, s: int, r: int)
    requires
        code_wf(x),
        0 <= r < 20,
    ensures
        code_row(shifted(x, s), r) =~= rotate_seg(code_row(x, r), (-2 * s) % (COLS as int)),
{
    let m = COLS as int;
    let p = (-2 * s) % m;
    assert forall|c: int| 0 <= c < m implies #[trigger] code_row(shifted(x, s), r)[c]
        == rotate_seg(code_row(x, r), p)[c] by {
        let i = r * m + c;
        lemma_cell_index(COLS as int, r + 1, r, c);
        lemma_shifted_at(x, s, i);
        vstd::arithmetic::div_mod::lemma_add_mod_noop(c, -2 * s, m);
        vstd::arithmetic::div_mod::lemma_small_mod(c as nat, m as nat);
        assert((c + p) % m == source_col(c, s));
    }
}

proof fn lemma_count_prefix_rows(x: Seq<bool>, s: int, r: int)
    requires
        code_wf(x),
        0 <= r <= 20,
    ensures
        count_true(shifted(x, s).subrange(0, r * COLS as int)) == count_true(
            x.subrange(0, r * COLS as int),
        ),
    decreases r,
{
    let m = COLS as int;
    let y = shifted(x, s);
    if r == 0 {
        assert(y.subrange(0, 0) =~= x.subrange(0, 0));
    } else {
        lemma_count_prefix_rows(x, s, r - 1);
        assert(y.subrange(0, r * m) =~= y.subrange(0, (r - 1) * m) + code_row(y, r - 1));
        assert(x.subrange(0, r * m) =~= x.subrange(0, (r - 1) * m) + code_row(x, r - 1));
        lemma_count_true_concat(y.subrange(0, (r - 1) * m), code_row(y, r - 1));
        lemma_count_true_concat(x.subrange(0, (r - 1) * m), code_row(x, r - 1));
        lemma_shifted_row(x, s, r - 1);
        lemma_count_rotate_seg(code_row(x, r - 1), (-2 * s) % m);
    }
}

/// Rotating rows keeps the number of set bits.
pub proof fn lemma_count_shifted(x: Seq<bool>, s: int)
    requires
        code_wf(x),
    ensures
        count_true(shifted(x, s)) == count_true(x),
{
    lemma_count_prefix_rows(x, s, 20);
    assert(x.subrange(0, 9600) =~= x);
    assert(shifted(x, s).subrange(0, 9600) =~= shifted(x, s));
}

/// Rotating the first code by `s` scores exactly as rotating the second
/// one by `-s`.
pub proof fn lemma_score_swap(t1: Seq<bool>, m1: Seq<bool>, t2: Seq<bool>, m2: Seq<bool>, s: int)
    requires
        code_wf(t1),
        code_wf(m1),
        code_wf(t2),
        code_wf(m2),
    ensures
        usable_bits(t1, m1, m2, s) == usable_bits(t2, m2, m1, -s),
        differing_bits(t1, m1, t2, m2, s) == differing_bits(t2, m2, t1, m1, -s),
{
    let ca = combined_mask(m1, m2, s);
    let cb = combined_mask(m2, m1, -s);
    let da = disagreement(t1, m1, t2, m2, s);
    let db = disagreement(t2, m2, t1, m1, -s);
    assert(shifted(m1, s).len() == TEMPLATE_BITS);
    assert(shifted(t1, s).len() == TEMPLATE_BITS);
    assert(shifted(m2, -s).len() == TEMPLATE_BITS);
    assert(shifted(t2, -s).len() == TEMPLATE_BITS);
    assert forall|i: int| 0 <= i < TEMPLATE_BITS implies #[trigger] shifted(ca, -s)[i] == cb[i]
        && shifted(da, -s)[i] == db[i] by {
        let j = rotated_index(i, -s);
        lemma_rotated_index(i, -s);
        lemma_rotated_index_inverse(i, s);
        lemma_shifted_at(ca, -s, i);
        lemma_shifted_at(da, -s, i);
        lemma_shifted_at(m1, s, j);
        lemma_shifted_at(t1, s, j);
        lemma_shifted_at(m2, -s, i);
        lemma_shifted_at(t2, -s, i);
    }
    assert(shifted(ca, -s) =~= cb);
    assert(shifted(da, -s) =~= db);
    lemma_count_shifted(ca, -s);
    lemma_count_shifted(da, -s);
}

/// Matching is symmetric: swapping the two masked codes gives the same
/// score (the same fraction, possibly with another numerator and
/// denominator), or no score on both sides.
pub proof fn law_hamming_symmetric(t1: Seq<bool>, m1: Seq<bool>, t2: Seq<bool>, m2: Seq<bool>)
    requires
        code_wf(t1),
        code_wf(m1),
        code_wf(t2),
        code_wf(m2),
    ensures
        best_score(t1, m1, t2, m2) is None <==> best_score(t2, m2, t1, m1) is None,
        best_score(t1, m1, t2, m2) matches Some((d1, v1)) ==> best_score(
            t2,
            m2,
            t1,
            m1,
        ) matches Some((d2, v2)) && d1 * v2 == d2 * v1,
{
    law_hamming_is_minimum(t1, m1, t2, m2);
    law_hamming_is_minimum(t2, m2, t1, m1);
    assert forall|s: int| -MAX_SHIFT <= s <= MAX_SHIFT implies #[trigger] usable_bits(
        t1,
        m1,
        m2,
        s,
    ) == usable_bits(t2, m2, m1, -s) && differing_bits(t1, m1, t2, m2, s) == differing_bits(
        t2,
        m2,
        t1,
        m1,
        -s,
    ) by {
        lemma_score_swap(t1, m1, t2, m2, s);
    }
    if best_score(t1, m1, t2, m2) is None {
        assert forall|s: int| -MAX_SHIFT <= s <= MAX_SHIFT implies #[trigger] usable_bits(
            t2,
            m2,
            m1,
            s,
        ) == 0 by {
            assert(usable_bits(t1, m1, m2, -s) == 0);
        }
    }
    if best_score(t2, m2, t1, m1) is None {
        assert forall|s: int| -MAX_SHIFT <= s <= MAX_SHIFT implies #[trigger] usable_bits(
            t1,
            m1,
            m2,
            s,
        ) == 0 by {
            assert(usable_bits(t2, m2, m1, -s) == 0);
        }
    }
    if let Some((d1, v1)) = best_score(t1, m1, t2, m2) {
        if let Some((d2, v2)) = best_score(t2, m2, t1, m1) {
            let sa = choose|s: int|
                -MAX_SHIFT <= s <= MAX_SHIFT && #[trigger] usable_bits(t1, m1, m2, s) == v1
                    && differing_bits(t1, m1, t2, m2, s) == d1;
            let sb = choose|s: int|
                -MAX_SHIFT <= s <= MAX_SHIFT && #[trigger] usable_bits(t2, m2, m1, s) == v2
                    && differing_bits(t2, m2, t1, m1, s) == d2;
            assert(usable_bits(t1, m1, m2, -sb) == v2);
            assert(usable_bits(t2, m2, m1, -sa) == v1);
            assert(d1 * v2 <= d2 * v1);
            assert(d2 * v1 <= d1 * v2);
        }
    }
}

/// Rotations of a code's rows commute.
proof fn lemma_shift_commute(x: Seq<bool>, k: int, s: int)
    requires
        code_wf(x),
    ensures
        shifted(shifted(x, k), s) == shifted(shifted(x, s), k),
{
    let a = shifted(shifted(x, k), s);
    let b = shifted(shifted(x, s), k);
    assert forall|i: int| 0 <= i < TEMPLATE_BITS implies a[i] == b[i] by {
        let m = COLS as int;
        let c = i % m;
        lemma_rotated_index(i, s);
        lemma_rotated_index(i, k);
        lemma_shifted_at(shifted(x, k), s, i);
        lemma_shifted_at(shifted(x, s), k, i);
        let js = rotated_index(i, s);
        let jk = rotated_index(i, k);
        lemma_shifted_at(x, k, js);
        lemma_shifted_at(x, s, jk);
        lemma_rotated_index(js, k);
        lemma_rotated_index(jk, s);
        vstd::arithmetic::div_mod::lemma_sub_mod_noop(c - 2 * s, 2 * k, m);
        vstd::arithmetic::div_mod::lemma_sub_mod_noop(c - 2 * k, 2 * s, m);
        vstd::arithmetic::div_mod::lemma_mod_twice(c - 2 * s, m);
        vstd::arithmetic::div_mod::lemma_mod_twice(c - 2 * k, m);
        vstd::arithmetic::div_mod::lemma_sub_mod_noop((c - 2 * s) % m, 2 * k, m);
        vstd::arithmetic::div_mod::lemma_sub_mod_noop((c - 2 * k) % m, 2 * s, m);
        assert(source_col(source_col(c, s), k) == source_col(source_col(c, k), s));
        assert(rotated_index(js, k) == rotated_index(jk, s));
    }
    assert(a =~= b);
}

/// Rotation commutes with the bitwise operations of matching.
proof fn lemma_shift_bitwise(a: Seq<bool>, b: Seq<bool>, k: int)
    requires
        code_wf(a),
        code_wf(b),
    ensures
        shifted(seq_or(a, b), k) == seq_or(shifted(a, k), shifted(b, k)),
        shifted(seq_xor(a, b), k) == seq_xor(shifted(a, k), shifted(b, k)),
        shifted(seq_and(a, b), k) == seq_and(shifted(a, k), shifted(b, k)),
        shifted(seq_not(a), k) == seq_not(shifted(a, k)),
{
    assert forall|i: int| 0 <= i < TEMPLATE_BITS implies {
        &&& #[trigger] shifted(seq_or(a, b), k)[i] == seq_or(shifted(a, k), shifted(b, k))[i]
        &&& shifted(seq_xor(a, b), k)[i] == seq_xor(shifted(a, k), shifted(b, k))[i]
        &&& shifted(seq_and(a, b), k)[i] == seq_and(shifted(a, k), shifted(b, k))[i]
        &&& shifted(seq_not(a), k)[i] == seq_not(shifted(a, k))[i]
    } by {
        lemma_rotated_index(i, k);
        lemma_shifted_at(a, k, i);
        lemma_shifted_at(b, k, i);
        lemma_shifted_at(seq_or(a, b), k, i);
        lemma_shifted_at(seq_xor(a, b), k, i);
        lemma_shifted_at(seq_and(a, b), k, i);
        lemma_shifted_at(seq_not(a), k, i);
    }
    assert(shifted(seq_or(a, b), k) =~= seq_or(shifted(a, k), shifted(b, k)));
    assert(shifted(seq_xor(a, b), k) =~= seq_xor(shifted(a, k), shifted(b, k)));
    assert(shifted(seq_and(a, b), k) =~= seq_and(shifted(a, k), shifted(b, k)));
    assert(shifted(seq_not(a), k) =~= seq_not(shifted(a, k)));
}

proof fn lemma_score_turned(t1: Seq<bool>, m1: Seq<bool>, t2: Seq<bool>, m2: Seq<bool>, k: int, s: int)
    requires
        code_wf(t1),
        code_wf(m1),
        code_wf(t2),
        code_wf(m2),
    ensures
        usable_bits(shifted(t1, k), shifted(m1, k), shifted(m2, k), s) == usable_bits(t1, m1, m2, s),
        differing_bits(shifted(t1, k), shifted(m1, k), shifted(t2, k), shifted(m2, k), s)
            == differing_bits(t1, m1, t2, m2, s),
{
    let (rt1, rm1, rt2, rm2) = (shifted(t1, k), shifted(m1, k), shifted(t2, k), shifted(m2, k));
    assert(shifted(m1, s).len() == TEMPLATE_BITS);
    assert(shifted(t1, s).len() == TEMPLATE_BITS);
    lemma_shift_commute(m1, k, s);
    lemma_shift_commute(t1, k, s);
    let comb = combined_mask(m1, m2, s);
    let x = seq_xor(shifted(t1, s), t2);
    lemma_shift_bitwise(shifted(m1, s), m2, k);
    assert(combined_mask(rm1, rm2, s) == shifted(comb, k));
    lemma_shift_bitwise(shifted(t1, s), t2, k);
    lemma_shift_bitwise(comb, comb, k);
    lemma_shift_bitwise(x, seq_not(comb), k);
    assert(disagreement(rt1, rm1, rt2, rm2, s) == shifted(disagreement(t1, m1, t2, m2, s), k));
    lemma_count_shifted(comb, k);
    lemma_count_shifted(disagreement(t1, m1, t2, m2, s), k);
}

proof fn lemma_best_upto_turned(
    t1: Seq<bool>,
    m1: Seq<bool>,
    t2: Seq<bool>,
    m2: Seq<bool>,
    k: int,
    n: int,
)
    requires
        code_wf(t1),
        code_wf(m1),
        code_wf(t2),
        code_wf(m2),
    ensures
        best_upto(shifted(t1, k), shifted(m1, k), shifted(t2, k), shifted(m2, k), n) == best_upto(
            t1,
            m1,
            t2,
            m2,
            n,
        ),
    decreases n,
{
    if n > 0 {
        lemma_best_upto_turned(t1, m1, t2, m2, k, n - 1);
        lemma_score_turned(t1, m1, t2, m2, k, n - 1 - MAX_SHIFT);
    }
}

/// Turning both eyes alike leaves the match unchanged: rotating the rows of
/// both codes and both masks by the same `k` gives exactly the same score.
pub proof fn law_hamming_rotation_invariant(
    t1: Seq<bool>,
    m1: Seq<bool>,
    t2: Seq<bool>,
    m2: Seq<bool>,
    k: int,
)
    requires
        code_wf(t1),
        code_wf(m1),
        code_wf(t2),
        code_wf(m2),
    ensures
        best_score(shifted(t1, k), shifted(m1, k), shifted(t2, k), shifted(m2, k)) == best_score(
            t1,
            m1,
            t2,
            m2,
        ),
{
    lemma_best_upto_turned(t1, m1, t2, m2, k, 2 * MAX_SHIFT + 1);
}

} // verus!
