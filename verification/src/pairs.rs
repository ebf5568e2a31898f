//! Which template pairs a matching run compares: every pair `i < j` of
//! enrolled images, either of one subject (genuine, intra-class) or of two
//! subjects (impostor, inter-class).

use crate::casia::{casia_id, TOTAL_IMAGES};
use crate::types::ImageId;
use vstd::prelude::*;

verus! {

/// `(i, j)` is a pair of the run: `i < j`, both in range, and the two images
/// are of one subject exactly when `intra` is set.
pub open spec fn pair_wanted(ids: Seq<ImageId>, intra: bool, i: int, j: int) -> bool {
    &&& 0 <= i < j < ids.len()
    &&& (ids[i].subject == ids[j].subject) == intra
}

/// Row-major order on index pairs.
pub open spec fn pair_before(a: (usize, usize), b: (usize, usize)) -> bool {
    a.0 < b.0 || (a.0 == b.0 && a.1 < b.1)
}

/// Pairs `(i, b)` of the run with `b < j`.
pub open spec fn row_pairs(ids: Seq<ImageId>, intra: bool, i: int, j: int) -> nat
    decreases j - i,
{
    if j <= i + 1 {
        0
    } else {
        row_pairs(ids, intra, i, j - 1) + if pair_wanted(ids, intra, i, j - 1) {
            1nat
        } else {
            0nat
        }
    }
}

/// Pairs `(a, b)` of the run with `a < i`.
pub open spec fn pairs_before_row(ids: Seq<ImageId>, intra: bool, i: int) -> nat
    decreases i,
{
    if i <= 0 {
        0
    } else {
        pairs_before_row(ids, intra, i - 1) + row_pairs(ids, intra, i - 1, ids.len() as int)
    }
}

/// How many pairs the run has.
pub open spec fn pair_count(ids: Seq<ImageId>, intra: bool) -> nat {
    pairs_before_row(ids, intra, ids.len() as int)
}

/// All pairs of the run, in row-major order: intra-class pairs (one
/// subject) when `intra` is set, inter-class pairs (two subjects) otherwise.
pub fn pair_indices(ids: &Vec<ImageId>, intra: bool) -> (res: Vec<(usize, usize)>)
    ensures
        res@.len() == pair_count(ids@, intra),
        forall|k: int|
            0 <= k < res@.len() ==> {
                let (i, j) = #[trigger] res@[k];
                &&& i < j < ids@.len()
                &&& (ids@[i as int].subject == ids@[j as int].subject) == intra
            },
        forall|i: int, j: int|
            0 <= i < j < ids@.len() && (#[trigger] ids@[i].subject == #[trigger] ids@[j].subject)
                == intra ==> exists|k: int| 0 <= k < res@.len() && res@[k] == (i as usize, j as usize),
        forall|k: int|
            0 <= k < res@.len() ==> pair_wanted(ids@, intra, #[trigger] res@[k].0 as int, res@[k].1 as int),
        forall|k1: int, k2: int|
            0 <= k1 < k2 < res@.len() ==> pair_before(#[trigger] res@[k1], #[trigger] res@[k2]),
        forall|i: int, j: int|
            #[trigger] pair_wanted(ids@, intra, i, j) ==> exists|k: int|
                0 <= k < res@.len() && #[trigger] res@[k] == (i as usize, j as usize),
{
    let n = ids.len();
    let mut out: Vec<(usize, usize)> = Vec::new();
    for i in 0..n
        invariant
            n == ids@.len(),
            out@.len() == pairs_before_row(ids@, intra, i as int),
            forall|k: int|
                0 <= k < out@.len() ==> pair_wanted(ids@, intra, #[trigger] out@[k].0 as int, out@[k].1 as int),
            forall|k1: int, k2: int|
                0 <= k1 < k2 < out@.len() ==> pair_before(#[trigger] out@[k1], #[trigger] out@[k2]),
            forall|k: int| 0 <= k < out@.len() ==> #[trigger] out@[k].0 < i,
            forall|a: int, b: int|
                #[trigger] pair_wanted(ids@, intra, a, b) && a < i ==> exists|k: int|
                    0 <= k < out@.len() && #[trigger] out@[k] == (a as usize, b as usize),
    {
        for j in i + 1..n
            invariant
                n == ids@.len(),
                i < n,
                out@.len() == pairs_before_row(ids@, intra, i as int) + row_pairs(ids@, intra, i as int, j as int),
                forall|k: int|
                    0 <= k < out@.len() ==> pair_wanted(ids@, intra, #[trigger] out@[k].0 as int, out@[k].1 as int),
                forall|k1: int, k2: int|
                    0 <= k1 < k2 < out@.len() ==> pair_before(#[trigger] out@[k1], #[trigger] out@[k2]),
                forall|k: int| 0 <= k < out@.len() ==> pair_before(#[trigger] out@[k], (i, j)),
                forall|a: int, b: int|
                    #[trigger] pair_wanted(ids@, intra, a, b) && (a < i || (a == i && b < j))
                        ==> exists|k: int|
                        0 <= k < out@.len() && #[trigger] out@[k] == (a as usize, b as usize),
        {
            let same = ids[i].subject == ids[j].subject;
            if same == intra {
                let ghost before = out@;
                out.push((i, j));
                proof {
                    assert forall|a: int, b: int|
                        #[trigger] pair_wanted(ids@, intra, a, b) && (a < i || (a == i && b < j + 1))
                            implies exists|k: int|
                        0 <= k < out@.len() && #[trigger] out@[k] == (a as usize, b as usize) by {
                        if a == i && b == j {
                            assert(out@[before.len() as int] == (a as usize, b as usize));
                        } else {
                            let k = choose|k: int|
                                0 <= k < before.len() && #[trigger] before[k] == (
                                    a as usize,
                                    b as usize,
                                );
                            assert(out@[k] == before[k]);
                        }
                    }
                }
            }
        }
    }
    proof {
        assert forall|k: int| 0 <= k < out@.len() implies {
            let (i, j) = #[trigger] out@[k];
            &&& i < j < ids@.len()
            &&& (ids@[i as int].subject == ids@[j as int].subject) == intra
        } by {
            assert(pair_wanted(ids@, intra, out@[k].0 as int, out@[k].1 as int));
        }
        assert forall|i: int, j: int|
            0 <= i < j < ids@.len() && (#[trigger] ids@[i].subject == #[trigger] ids@[j].subject)
                == intra implies exists|k: int|
            0 <= k < out@.len() && out@[k] == (i as usize, j as usize) by {
            assert(pair_wanted(ids@, intra, i, j));
        }
    }
    out
}

/// The intra-class and the inter-class runs split the pairs: every pair
/// `i < j` of the enrolled images is in exactly one of them.
pub proof fn law_pairs_partition(ids: Seq<ImageId>, i: int, j: int)
    requires
        0 <= i < j < ids.len(),
    ensures
        pair_wanted(ids, true, i, j) != pair_wanted(ids, false, i, j),
{
}

/// A pair `i < j` is in the intra-class run exactly when both images show
/// one subject, and in the inter-class run exactly when they show two,
/// however far apart the images are listed.
pub proof fn law_pair_runs_by_subject(ids: Seq<ImageId>, i: int, j: int)
    requires
        0 <= i < j < ids.len(),
    ensures
        pair_wanted(ids, true, i, j) <==> ids[i].subject == ids[j].subject,
        pair_wanted(ids, false, i, j) <==> ids[i].subject != ids[j].subject,
{
}

proof fn lemma_row_total(ids: Seq<ImageId>, i: int, j: int)
    requires
        0 <= i < j <= ids.len(),
    ensures
        row_pairs(ids, true, i, j) + row_pairs(ids, false, i, j) == j - i - 1,
    decreases j - i,
{
    if j > i + 1 {
        lemma_row_total(ids, i, j - 1);
        law_pairs_partition(ids, i, j - 1);
    }
}

proof fn lemma_rows_total(ids: Seq<ImageId>, i: int)
    requires
        0 <= i <= ids.len(),
    ensures
        2 * (pairs_before_row(ids, true, i) + pairs_before_row(ids, false, i)) == i * (2 * ids.len()
            - i - 1),
    decreases i,
{
    let n = ids.len() as int;
    if i > 0 {
        lemma_rows_total(ids, i - 1);
        lemma_row_total(ids, i - 1, n);
        assert(pairs_before_row(ids, true, i) == pairs_before_row(ids, true, i - 1) + row_pairs(
            ids,
            true,
            i - 1,
            n,
        ));
        assert(pairs_before_row(ids, false, i) == pairs_before_row(ids, false, i - 1) + row_pairs(
            ids,
            false,
            i - 1,
            n,
        ));
        assert((i - 1) * (2 * n - (i - 1) - 1) + 2 * (n - i) == i * (2 * n - i - 1)) by (nonlinear_arith);
    } else {
        assert(i * (2 * n - i - 1) == 0) by (nonlinear_arith)
            requires
                i == 0,
        ;
    }
}

/// The two runs together hold every pair of the enrolled images once:
/// `n * (n - 1) / 2` pairs for `n` images.
pub proof fn law_pair_counts_total(ids: Seq<ImageId>)
    ensures
        pair_count(ids, true) + pair_count(ids, false) == ids.len() * (ids.len() - 1) / 2,
{
    let n = ids.len() as int;
    lemma_rows_total(ids, n);
    assert(n * (2 * n - n - 1) == n * (n - 1)) by (nonlinear_arith);
}

/// Pairs that start at one of the first `r` of a subject's seven images:
/// `6 + 5 + ... + (7 - r)`.
pub open spec fn group_pairs(r: int) -> int
    decreases r,
{
    if r <= 0 {
        0
    } else {
        group_pairs(r - 1) + 7 - r
    }
}

proof fn lemma_group_pairs_full()
    ensures
        group_pairs(0) == 0,
        group_pairs(6) == 21,
{
    reveal_with_fuel(group_pairs, 7);
}

proof fn lemma_same_subject(a: int, b: int)
    requires
        0 <= a < TOTAL_IMAGES,
        0 <= b < TOTAL_IMAGES,
    ensures
        (casia_id(a).subject == casia_id(b).subject) == (a / 7 == b / 7),
{
}

proof fn lemma_casia_row(ids: Seq<ImageId>, i: int, j: int)
    requires
        ids.len() == TOTAL_IMAGES,
        forall|k: int| 0 <= k < TOTAL_IMAGES ==> #[trigger] ids[k] == casia_id(k),
        0 <= i < j <= TOTAL_IMAGES,
    ensures
        row_pairs(ids, true, i, j) == (if j < 7 * (i / 7) + 7 {
            j
        } else {
            7 * (i / 7) + 7
        }) - i - 1,
    decreases j - i,
{
    if j > i + 1 {
        lemma_casia_row(ids, i, j - 1);
        lemma_same_subject(i, j - 1);
        assert(ids[i] == casia_id(i));
        assert(ids[j - 1] == casia_id(j - 1));
    }
}

proof fn lemma_casia_rows(ids: Seq<ImageId>, i: int)
    requires
        ids.len() == TOTAL_IMAGES,
        forall|k: int| 0 <= k < TOTAL_IMAGES ==> #[trigger] ids[k] == casia_id(k),
        0 <= i <= TOTAL_IMAGES,
    ensures
        pairs_before_row(ids, true, i) == 21 * (i / 7) + group_pairs(i % 7),
    decreases i,
{
    if i > 0 {
        lemma_casia_rows(ids, i - 1);
        lemma_casia_row(ids, i - 1, TOTAL_IMAGES as int);
        lemma_group_pairs_full();
        assert(group_pairs((i - 1) % 7 + 1) == group_pairs((i - 1) % 7) + 6 - (i - 1) % 7);
    } else {
        lemma_group_pairs_full();
    }
}

/// Of the 756 images of the database, 7 to each of 108 subjects, 2268 pairs
/// show one subject (21 for each) and the other 283122 show two.
pub proof fn law_casia_pair_counts(ids: Seq<ImageId>)
    requires
        ids.len() == TOTAL_IMAGES,
        forall|k: int| 0 <= k < TOTAL_IMAGES ==> #[trigger] ids[k] == casia_id(k),
    ensures
        pair_count(ids, true) == 2268,
        pair_count(ids, false) == 283122,
{
    lemma_casia_rows(ids, TOTAL_IMAGES as int);
    lemma_group_pairs_full();
    law_pair_counts_total(ids);
}

} // verus!
