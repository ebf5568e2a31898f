use iris_rust::encode::{encode, PhaseCell};
use iris_rust::matching::{hamming_distance, masks_fit, shift_columns};
use iris_rust::types::{Mask, Template, ANGULAR_RES, RADIAL_RES, TEMPLATE_BITS};

fn pattern(seed: u64, n: usize) -> Vec<bool> {
    let mut state = seed.wrapping_mul(6364136223846793005).wrapping_add(1442695040888963407);
    let mut out = Vec::with_capacity(n);
    for _ in 0..n {
        state = state.wrapping_mul(6364136223846793005).wrapping_add(1442695040888963407);
        out.push((state >> 33) & 1 == 1);
    }
    out
}

fn sparse(seed: u64, n: usize) -> Vec<bool> {
    let a = pattern(seed, n);
    let b = pattern(seed + 7, n);
    let c = pattern(seed + 13, n);
    (0..n).map(|i| a[i] && b[i] && c[i]).collect()
}

fn bools_of_template(t: &Template) -> Vec<bool> {
    (0..t.len()).map(|i| t.bit(i)).collect()
}

fn reference_shift(bits: &[bool], s: i32) -> Vec<bool> {
    if s == 0 {
        return bits.to_vec();
    }
    let cols = 480i64;
    let mut out = vec![false; bits.len()];
    for i in 0..TEMPLATE_BITS {
        let row = i as i64 / cols;
        let c = i as i64 % cols;
        let src = (c - 2 * s as i64).rem_euclid(cols);
        out[i] = bits[(row * cols + src) as usize];
    }
    out
}

fn reference_hd(t1: &[bool], m1: &[bool], t2: &[bool], m2: &[bool]) -> f64 {
    let mut best = f64::INFINITY;
    for s in -8..=8 {
        let t1s = reference_shift(t1, s);
        let m1s = reference_shift(m1, s);
        let mut masked = 0usize;
        let mut diff = 0usize;
        for i in 0..t1.len() {
            let comb = m1s[i] || m2[i];
            if comb {
                masked += 1;
            } else if t1s[i] != t2[i] {
                diff += 1;
            }
        }
        let valid = t1.len() - masked;
        if valid == 0 {
            continue;
        }
        let hd = diff as f64 / valid as f64;
        if hd < best {
            best = hd;
        }
    }
    best
}

fn as_f64(score: Option<(usize, usize)>) -> f64 {
    match score {
        None => f64::INFINITY,
        Some((d, v)) => d as f64 / v as f64,
    }
}

#[test]
fn zeros_have_template_length() {
    let t = Template::zeros();
    let m = Mask::zeros();
    assert_eq!(t.len(), TEMPLATE_BITS);
    assert_eq!(m.len(), TEMPLATE_BITS);
    assert!((0..TEMPLATE_BITS).all(|i| !t.bit(i) && !m.bit(i)));
}

#[test]
fn from_bools_round_trips() {
    let bits = pattern(3, TEMPLATE_BITS);
    let t = Template::from_bools(&bits);
    assert_eq!(bools_of_template(&t), bits);
    let m = Mask::from_bools(&bits);
    assert_eq!((0..m.len()).map(|i| m.bit(i)).collect::<Vec<_>>(), bits);
}

#[test]
fn shift_by_one_sample_moves_two_columns() {
    let mut bits = vec![false; TEMPLATE_BITS];
    bits[0] = true;
    bits[480 + 479] = true;
    let t = Template::from_bools(&bits);
    let out = Template { bits: shift_columns(&t.bits, 1) };
    let got = bools_of_template(&out);
    let ones: Vec<usize> = (0..TEMPLATE_BITS).filter(|&i| got[i]).collect();
    assert_eq!(ones, vec![2, 480 + 1]);
    let back = Template { bits: shift_columns(&t.bits, -1) };
    let got = bools_of_template(&back);
    let ones: Vec<usize> = (0..TEMPLATE_BITS).filter(|&i| got[i]).collect();
    assert_eq!(ones, vec![478, 480 + 477]);
}

#[test]
fn shift_matches_reference_and_inverts() {
    let bits = pattern(11, TEMPLATE_BITS);
    let t = Template::from_bools(&bits);
    for s in [-8, -3, -1, 0, 1, 5, 8, 240] {
        let shifted = Template { bits: shift_columns(&t.bits, s) };
        assert_eq!(bools_of_template(&shifted), reference_shift(&bits, s));
        let back = Template { bits: shift_columns(&shifted.bits, -s) };
        assert_eq!(bools_of_template(&back), bits);
    }
}

#[test]
fn shift_of_longer_code_clears_tail_unless_zero() {
    let mut bits = pattern(5, TEMPLATE_BITS);
    bits.extend([true, true, true]);
    let t = Template::from_bools(&bits);
    let zero = Template { bits: shift_columns(&t.bits, 0) };
    assert_eq!(bools_of_template(&zero), bits);
    let moved = Template { bits: shift_columns(&t.bits, 2) };
    let got = bools_of_template(&moved);
    assert_eq!(got.len(), TEMPLATE_BITS + 3);
    assert_eq!(&got[TEMPLATE_BITS..], &[false, false, false]);
}

#[test]
fn self_match_scores_zero() {
    let bits = pattern(21, TEMPLATE_BITS);
    let t = Template::from_bools(&bits);
    let m = Mask::zeros();
    assert_eq!(hamming_distance(&t, &m, &t, &m), Some((0, TEMPLATE_BITS)));
    let mask_bits = sparse(4, TEMPLATE_BITS);
    let masked = mask_bits.iter().filter(|&&b| b).count();
    let m = Mask::from_bools(&mask_bits);
    let score = hamming_distance(&t, &m, &t, &m).unwrap();
    assert_eq!(score.0, 0);
    assert!(score.1 >= TEMPLATE_BITS - masked);
}

#[test]
fn fully_masked_codes_have_no_score() {
    let t = Template::from_bools(&pattern(1, TEMPLATE_BITS));
    let full = Mask::from_bools(&vec![true; TEMPLATE_BITS]);
    let none = Mask::zeros();
    assert_eq!(hamming_distance(&t, &full, &t, &none), None);
    assert_eq!(hamming_distance(&t, &none, &t, &full), None);
}

#[test]
fn complement_scores_one_at_every_rotation() {
    let bits = vec![true; TEMPLATE_BITS];
    let t1 = Template::from_bools(&bits);
    let t2 = Template::zeros();
    let m = Mask::zeros();
    assert_eq!(hamming_distance(&t1, &m, &t2, &m), Some((TEMPLATE_BITS, TEMPLATE_BITS)));
}

#[test]
fn hamming_matches_reference() {
    for seed in 0..4u64 {
        let b1 = pattern(100 + seed, TEMPLATE_BITS);
        let b2 = pattern(200 + seed, TEMPLATE_BITS);
        let k1 = sparse(300 + seed, TEMPLATE_BITS);
        let k2 = sparse(400 + seed, TEMPLATE_BITS);
        let (t1, t2) = (Template::from_bools(&b1), Template::from_bools(&b2));
        let (m1, m2) = (Mask::from_bools(&k1), Mask::from_bools(&k2));
        let got = hamming_distance(&t1, &m1, &t2, &m2);
        let (d, v) = got.unwrap();
        assert!(d <= v && v > 0);
        assert_eq!(as_f64(got), reference_hd(&b1, &k1, &b2, &k2));
    }
}

#[test]
fn rotated_copy_matches_exactly() {
    let b1 = pattern(77, TEMPLATE_BITS);
    let t1 = Template::from_bools(&b1);
    let rotated = Template { bits: shift_columns(&t1.bits, 3) };
    let m = Mask::zeros();
    assert_eq!(hamming_distance(&t1, &m, &rotated, &m), Some((0, TEMPLATE_BITS)));
    assert_eq!(hamming_distance(&rotated, &m, &t1, &m), Some((0, TEMPLATE_BITS)));
}

#[test]
fn hamming_is_symmetric() {
    let b1 = pattern(501, TEMPLATE_BITS);
    let b2 = pattern(502, TEMPLATE_BITS);
    let k1 = sparse(503, TEMPLATE_BITS);
    let k2 = sparse(504, TEMPLATE_BITS);
    let (t1, t2) = (Template::from_bools(&b1), Template::from_bools(&b2));
    let (m1, m2) = (Mask::from_bools(&k1), Mask::from_bools(&k2));
    let (d1, v1) = hamming_distance(&t1, &m1, &t2, &m2).unwrap();
    let (d2, v2) = hamming_distance(&t2, &m2, &t1, &m1).unwrap();
    assert_eq!(d1 * v2, d2 * v1);
}

fn cells(seed: u64) -> Vec<PhaseCell> {
    let n = RADIAL_RES * ANGULAR_RES;
    let a = pattern(seed, n);
    let b = pattern(seed + 1, n);
    let c = sparse(seed + 2, n);
    let d = sparse(seed + 3, n);
    (0..n)
        .map(|k| PhaseCell { real_positive: a[k], imag_positive: b[k], noise: c[k], weak: d[k] })
        .collect()
}

#[test]
fn encode_lays_out_two_bits_per_cell() {
    let cs = cells(9);
    let (t, m) = encode(&cs);
    assert_eq!(t.len(), TEMPLATE_BITS);
    assert_eq!(m.len(), TEMPLATE_BITS);
    for k in 0..cs.len() {
        assert_eq!(t.bit(2 * k), cs[k].real_positive);
        assert_eq!(t.bit(2 * k + 1), cs[k].imag_positive);
        assert_eq!(m.bit(2 * k), cs[k].noise || cs[k].weak);
        assert_eq!(m.bit(2 * k + 1), cs[k].noise || cs[k].weak);
    }
}

#[test]
fn encode_of_turned_cells_is_rotated_code() {
    let cs = cells(31);
    let s = 3i32;
    let turned: Vec<PhaseCell> = (0..cs.len())
        .map(|k| {
            let row = k / ANGULAR_RES;
            let c = (k % ANGULAR_RES) as i64;
            cs[row * ANGULAR_RES + (c - s as i64).rem_euclid(ANGULAR_RES as i64) as usize]
        })
        .collect();
    let (t, m) = encode(&cs);
    let (tt, mt) = encode(&turned);
    let ts = Template { bits: shift_columns(&t.bits, s) };
    let ms = Template { bits: shift_columns(&m.bits, s) };
    assert_eq!(bools_of_template(&ts), bools_of_template(&tt));
    assert_eq!(
        bools_of_template(&ms),
        (0..mt.len()).map(|i| mt.bit(i)).collect::<Vec<_>>()
    );
}

#[test]
fn turning_both_eyes_keeps_the_score() {
    let b1 = pattern(601, TEMPLATE_BITS);
    let b2 = pattern(602, TEMPLATE_BITS);
    let k1 = sparse(603, TEMPLATE_BITS);
    let k2 = sparse(604, TEMPLATE_BITS);
    let (t1, t2) = (Template::from_bools(&b1), Template::from_bools(&b2));
    let (m1, m2) = (Mask::from_bools(&k1), Mask::from_bools(&k2));
    let before = hamming_distance(&t1, &m1, &t2, &m2);
    for k in [-5, 2, 17] {
        let rt1 = Template { bits: shift_columns(&t1.bits, k) };
        let rt2 = Template { bits: shift_columns(&t2.bits, k) };
        let rm1 = Mask { bits: shift_columns(&m1.bits, k) };
        let rm2 = Mask { bits: shift_columns(&m2.bits, k) };
        assert_eq!(hamming_distance(&rt1, &rm1, &rt2, &rm2), before);
    }
}

#[test]
fn long_masks_may_still_fit() {
    let t = Template::from_bools(&pattern(700, TEMPLATE_BITS));
    let mut long_clear = vec![false; TEMPLATE_BITS + 10];
    long_clear[3] = true;
    let m1 = Mask::from_bools(&long_clear);
    let m2 = Mask::zeros();
    assert!(masks_fit(&t, &m1, &m2));
    let score = hamming_distance(&t, &m1, &t, &m2).unwrap();
    assert_eq!(score.0, 0);
    let full = Mask::from_bools(&vec![true; TEMPLATE_BITS + 10]);
    assert!(!masks_fit(&t, &full, &m2));
    assert!(masks_fit(&t, &Mask::zeros(), &m2));
}
