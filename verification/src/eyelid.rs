//! Eyelid line detection: edge points of an edge map, and a Hough vote over
//! `(theta, rho)` lines through them.
//!
//! The caller runs the edge detector and, for every edge point and every
//! whole degree `theta`, rounds `x cos(theta) + y sin(theta)` to the nearest
//! integer; the library collects the points, counts the votes and picks the
//! line.

use crate::arrays::{image8_dim, image8_get, Image8};
use crate::daugman::{img_cols, img_rows, pixel_at};
use crate::layout::lemma_cell_index;
use vstd::prelude::*;

verus! {

/// Angles tried, one per degree of `[0, 180)`.
pub const THETA_BINS: usize = 180;

/// Fewest votes a line needs to be accepted.
pub const MIN_VOTES: u32 = 25;

/// A line `x cos(theta) + y sin(theta) = rho`, `theta` in whole degrees.
#[derive(Debug, Clone, Copy, PartialEq, Eq, Structural)]
pub struct Line {
    pub theta_deg: i32,
    pub rho: i32,
}

/// Edge points of the first `n` pixels of an edge map, row-major, as
/// `(y, x)`: the pixels with a nonzero value.
pub open spec fn edge_prefix(img: &Image8, n: int) -> Seq<(usize, usize)>
    decreases n,
{
    if n <= 0 {
        Seq::empty()
    } else {
        let prev = edge_prefix(img, n - 1);
        let y = (n - 1) / img_cols(img);
        let x = (n - 1) % img_cols(img);
        if pixel_at(img, y, x) > 0 {
            prev.push((y as usize, x as usize))
        } else {
            prev
        }
    }
}

/// The points of an edge map that are set, row by row, as `(y, x)`.
pub fn edge_points(edges: &Image8) -> (res: Vec<(usize, usize)>)
    ensures
        res@ == edge_prefix(edges, img_rows(edges) * img_cols(edges)),
{
    let (h, w) = image8_dim(edges);
    let mut pts: Vec<(usize, usize)> = Vec::new();
    let ghost mut p: int = 0;
    assert(0 * w == 0) by (nonlinear_arith);
    for y in 0..h
        invariant
            h == img_rows(edges),
            w == img_cols(edges),
            p == y * w,
            pts@ == edge_prefix(edges, p),
    {
        for x in 0..w
            invariant
                h == img_rows(edges),
                w == img_cols(edges),
                y < h,
                p == y * w + x,
                pts@ == edge_prefix(edges, p),
        {
            proof {
                lemma_cell_index(w as int, h as int, y as int, x as int);
            }
            if image8_get(edges, y, x) > 0 {
                pts.push((y, x));
            }
            proof {
                p = p + 1;
            }
        }
        proof {
            assert(y * w + w == (y + 1) * w) by (nonlinear_arith);
        }
    }
    pts
}

/// `k` is the least natural number whose square reaches `n`.
pub open spec fn is_ceil_sqrt(n: int, k: int) -> bool {
    &&& k >= 0
    &&& k * k >= n
    &&& (k == 0 || (k - 1) * (k - 1) < n)
}

/// The least natural number whose square reaches `n` (the ceiling of the
/// square root of `n`), by bisection.
pub fn ceil_sqrt(n: u64) -> (res: u64)
    requires
        n <= 0x2000_0000_0000_0000,
    ensures
        is_ceil_sqrt(n as int, res as int),
        res <= 0x8000_0000,
{
    let mut lo: u64 = 0;
    let mut hi: u64 = 0x8000_0000;
    assert(hi * hi >= n) by (nonlinear_arith)
        requires
            hi == 0x8000_0000,
            n <= 0x2000_0000_0000_0000,
    ;
    while lo < hi
        invariant
            n <= 0x2000_0000_0000_0000,
            lo <= hi <= 0x8000_0000,
            hi * hi >= n,
            lo == 0 || (lo - 1) * (lo - 1) < n,
        decreases hi - lo,
    {
        let mid = lo + (hi - lo) / 2;
        assert(mid * mid <= 0x4000_0000_0000_0000) by (nonlinear_arith)
            requires
                mid <= 0x8000_0000,
        ;
        if mid * mid >= n {
            hi = mid;
        } else {
            lo = mid + 1;
        }
    }
    lo
}

/// The ceiling square root of a sum of two squares of at most `2^29` each
/// is below `2^30`.
proof fn lemma_diag_bound(h: int, w: int, k: int)
    requires
        0 <= h <= 0x2000_0000,
        0 <= w <= 0x2000_0000,
        is_ceil_sqrt(h * h + w * w, k),
    ensures
        h * h + w * w <= 0x0800_0000_0000_0000,
        k <= 759250125,
{
    assert(h * h + w * w <= 0x0800_0000_0000_0000) by (nonlinear_arith)
        requires
            0 <= h <= 0x2000_0000,
            0 <= w <= 0x2000_0000,
    ;
    if k > 759250125 {
        assert((k - 1) * (k - 1) >= 759250125 * 759250125) by (nonlinear_arith)
            requires
                k - 1 >= 759250125,
        ;
    }
}

/// Votes that point `0 .. n` cast, at angle `t`, for distance bin `bin`:
/// a point votes for the bin of its rounded distance shifted by `rho_max`.
pub open spec fn votes_for(votes: Seq<Vec<i32>>, n: int, t: int, bin: int, rho_max: int) -> nat
    decreases n,
{
    if n <= 0 {
        0
    } else {
        votes_for(votes, n - 1, t, bin, rho_max) + if votes[n - 1]@[t] + rho_max == bin {
            1nat
        } else {
            0nat
        }
    }
}

/// The points among `0 .. n` whose vote at angle `t` falls in bin `bin`.
pub open spec fn agreeing_points(votes: Seq<Vec<i32>>, n: int, t: int, bin: int, rho_max: int) -> Set<
    int,
> {
    Set::new(|p: int| 0 <= p < n && votes[p]@[t] + rho_max == bin)
}

/// Every angle counts alike: the votes of cell `(t, bin)` are the number of
/// points whose rounded distance at angle `t`, shifted by `rho_max`, is
/// `bin`.
pub proof fn law_votes_count_agreeing_points(
    votes: Seq<Vec<i32>>,
    n: int,
    t: int,
    bin: int,
    rho_max: int,
)
    ensures
        agreeing_points(votes, n, t, bin, rho_max).finite(),
        votes_for(votes, n, t, bin, rho_max) == agreeing_points(votes, n, t, bin, rho_max).len(),
    decreases n,
{
    let s = agreeing_points(votes, n, t, bin, rho_max);
    if n <= 0 {
        assert(s =~= Set::<int>::empty());
    } else {
        law_votes_count_agreeing_points(votes, n - 1, t, bin, rho_max);
        let prev = agreeing_points(votes, n - 1, t, bin, rho_max);
        if votes[n - 1]@[t] + rho_max == bin {
            assert(s =~= prev.insert(n - 1));
            assert(!prev.contains(n - 1));
        } else {
            assert(s =~= prev);
        }
    }
}

/// The ceiling square root of `n` is unique.
pub proof fn lemma_ceil_sqrt_unique(n: int, a: int, b: int)
    requires
        is_ceil_sqrt(n, a),
        is_ceil_sqrt(n, b),
    ensures
        a == b,
{
    if a < b {
        assert((b - 1) * (b - 1) >= a * a) by (nonlinear_arith)
            requires
                0 <= a <= b - 1,
        ;
    } else if b < a {
        assert((a - 1) * (a - 1) >= b * b) by (nonlinear_arith)
            requires
                0 <= b <= a - 1,
        ;
    }
}

/// Largest distance bin of a `height * width` image: the image diagonal
/// rounded up.
pub open spec fn rho_limit(height: int, width: int) -> int {
    choose|k: int| #[trigger] is_ceil_sqrt(height * height + width * width, k)
}

/// Votes that all points cast for angle `t` and distance bin `bin`.
pub open spec fn line_votes(votes: Seq<Vec<i32>>, t: int, bin: int, rho_max: int) -> nat {
    votes_for(votes, votes.len() as int, t, bin, rho_max)
}

proof fn lemma_votes_for_le(votes: Seq<Vec<i32>>, n: int, t: int, bin: int, rho_max: int)
    requires
        0 <= n,
    ensures
        votes_for(votes, n, t, bin, rho_max) <= n,
    decreases n,
{
    if n > 0 {
        lemma_votes_for_le(votes, n - 1, t, bin, rho_max);
    }
}

proof fn lemma_cell(rb: int, t: int, b: int, t2: int, b2: int)
    requires
        0 <= b < rb,
        0 <= b2 < rb,
        0 <= t < 180,
        0 <= t2 < 180,
    ensures
        0 <= t * rb + b < 180 * rb,
        t * rb + b == t2 * rb + b2 ==> t == t2 && b == b2,
        t * rb + b < t2 * rb + b2 <==> (t < t2 || (t == t2 && b < b2)),
{
    assert(0 <= t * rb + b < 180 * rb) by (nonlinear_arith)
        requires
            0 <= b < rb,
            0 <= t < 180,
    ;
    vstd::arithmetic::div_mod::lemma_fundamental_div_mod_converse(t * rb + b, rb, t, b);
    vstd::arithmetic::div_mod::lemma_fundamental_div_mod_converse(t2 * rb + b2, rb, t2, b2);
    if t < t2 {
        assert(t * rb + b < t2 * rb + b2) by (nonlinear_arith)
            requires
                0 <= b < rb,
                0 <= b2,
                t < t2,
        ;
    } else if t2 < t {
        assert(t2 * rb + b2 < t * rb + b) by (nonlinear_arith)
            requires
                0 <= b2 < rb,
                0 <= b,
                t2 < t,
        ;
    }
}

/// Finds the strongest line through the edge points of a `height * width`
/// image. `votes[p][t]` is the rounded distance from the origin, along
/// angle `t` degrees, of the line through edge point `p`. Each point adds
/// one vote to the cell `(t, votes[p][t] + rho_max)` when that bin lies in
/// `[0, 2 * rho_max]`, `rho_max` being the diagonal rounded up. The line of
/// the first cell (by angle, then bin) with the most votes is returned when
/// it has at least `MIN_VOTES`; images under 3 pixels a side, and images with
/// no edge point, give none.
pub fn find_line(height: usize, width: usize, votes: &Vec<Vec<i32>>) -> (res: Option<Line>)
    requires
        height <= 0x2000_0000,
        width <= 0x2000_0000,
        THETA_BINS * (2 * rho_limit(height as int, width as int) + 1) <= usize::MAX,
        votes@.len() <= u32::MAX,
        forall|p: int| 0 <= p < votes@.len() ==> #[trigger] votes@[p]@.len() == THETA_BINS,
        forall|p: int, t: int|
            0 <= p < votes@.len() && 0 <= t < THETA_BINS ==> -0x4000_0000 <= #[trigger] votes@[p]@[t]
                <= 0x4000_0000,
    ensures
        res is None <==> (height < 3 || width < 3 || votes@.len() == 0 || forall|t: int, b: int|
            0 <= t < THETA_BINS && 0 <= b <= 2 * rho_limit(height as int, width as int)
                ==> #[trigger] line_votes(votes@, t, b, rho_limit(height as int, width as int))
                < MIN_VOTES),
        forall|t: int, b: int|
            height >= 3 && width >= 3 && 0 <= t < THETA_BINS && 0 <= b <= 2 * rho_limit(
                height as int,
                width as int,
            ) && #[trigger] agreeing_points(
                votes@,
                votes@.len() as int,
                t,
                b,
                rho_limit(height as int, width as int),
            ).len() >= MIN_VOTES ==> res is Some,
        res matches Some(line) ==> {
            let rm = rho_limit(height as int, width as int);
            let t0 = line.theta_deg as int;
            let b0 = line.rho + rm;
            &&& 0 <= t0 < THETA_BINS
            &&& 0 <= b0 <= 2 * rm
            &&& line_votes(votes@, t0, b0, rm) >= MIN_VOTES
            &&& forall|t: int, b: int|
                0 <= t < THETA_BINS && 0 <= b <= 2 * rm ==> #[trigger] line_votes(votes@, t, b, rm)
                    <= line_votes(votes@, t0, b0, rm)
            &&& forall|t: int, b: int|
                0 <= t < THETA_BINS && 0 <= b <= 2 * rm && (t < t0 || (t == t0 && b < b0))
                    ==> #[trigger] line_votes(votes@, t, b, rm) < line_votes(votes@, t0, b0, rm)
        },
{
    if height < 3 || width < 3 {
        return None;
    }
    let npts = votes.len();
    if npts == 0 {
        proof {
            assert forall|t: int, b: int|
                #![trigger agreeing_points(votes@, 0, t, b, rho_limit(height as int, width as int))]
                true implies agreeing_points(
                votes@,
                0,
                t,
                b,
                rho_limit(height as int, width as int),
            ).len() < MIN_VOTES by {
                law_votes_count_agreeing_points(votes@, 0, t, b, rho_limit(height as int, width as int));
            }
        }
        return None;
    }
    let h64 = height as u64;
    let w64 = width as u64;
    assert(h64 * h64 <= 0x0400_0000_0000_0000 && w64 * w64 <= 0x0400_0000_0000_0000)
        by (nonlinear_arith)
        requires
            h64 <= 0x2000_0000,
            w64 <= 0x2000_0000,
    ;
    let n2: u64 = h64 * h64 + w64 * w64;
    let rho_max_u = ceil_sqrt(n2);
    let ghost rm = rho_limit(height as int, width as int);
    proof {
        lemma_ceil_sqrt_unique(
            height * height + width * width,
            rho_max_u as int,
            rho_limit(height as int, width as int),
        );
        lemma_diag_bound(height as int, width as int, rho_max_u as int);
    }
    let rho_max: i64 = rho_max_u as i64;
    let rb: usize = (2 * rho_max_u + 1) as usize;
    let cells: usize = THETA_BINS * rb;
    let mut acc: Vec<u32> = Vec::new();
    for i in 0..cells
        invariant
            acc@.len() == i,
            forall|j: int| 0 <= j < i ==> acc@[j] == 0,
    {
        acc.push(0);
    }
    assert forall|t: int, b: int|
        0 <= t < THETA_BINS && 0 <= b < rb implies #[trigger] acc@[t * rb + b] == votes_for(
        votes@,
        0,
        t,
        b,
        rm,
    ) by {
        lemma_cell(rb as int, t, b, t, b);
    }
    for p in 0..npts
        invariant
            npts == votes@.len(),
            npts <= u32::MAX,
            rho_max == rm,
            rb == 2 * rm + 1,
            rm <= 759250125,
            cells == THETA_BINS * rb,
            acc@.len() == cells,
            forall|q: int| 0 <= q < votes@.len() ==> #[trigger] votes@[q]@.len() == THETA_BINS,
            forall|q: int, t: int|
                0 <= q < votes@.len() && 0 <= t < THETA_BINS ==> -0x4000_0000 <= #[trigger] votes@[q]@[t]
                    <= 0x4000_0000,
            forall|t: int, b: int|
                0 <= t < THETA_BINS && 0 <= b < rb ==> #[trigger] acc@[t * rb + b] == votes_for(
                    votes@,
                    p as int,
                    t,
                    b,
                    rm,
                ),
    {
        let row = &votes[p];
        for t in 0..THETA_BINS
            invariant
                npts == votes@.len(),
                npts <= u32::MAX,
                p < npts,
                row@ == votes@[p as int]@,
                rho_max == rm,
                rb == 2 * rm + 1,
                rm <= 759250125,
                cells == THETA_BINS * rb,
                acc@.len() == cells,
                forall|q: int| 0 <= q < votes@.len() ==> #[trigger] votes@[q]@.len() == THETA_BINS,
                forall|q: int, tt: int|
                    0 <= q < votes@.len() && 0 <= tt < THETA_BINS ==> -0x4000_0000
                        <= #[trigger] votes@[q]@[tt] <= 0x4000_0000,
                forall|tt: int, b: int|
                    0 <= tt < THETA_BINS && 0 <= b < rb ==> #[trigger] acc@[tt * rb + b] == if tt
                        < t {
                        votes_for(votes@, p + 1, tt, b, rm)
                    } else {
                        votes_for(votes@, p as int, tt, b, rm)
                    },
        {
            assert(votes@[p as int]@.len() == THETA_BINS);
            let v = row[t];
            assert(-0x4000_0000 <= votes@[p as int]@[t as int] <= 0x4000_0000);
            let ri: i64 = v as i64 + rho_max;
            if 0 <= ri && ri < rb as i64 {
                let bin = ri as usize;
                proof {
                    lemma_cell(rb as int, t as int, bin as int, t as int, bin as int);
                    lemma_votes_for_le(votes@, p as int, t as int, bin as int, rm);
                }
                let idx = t * rb + bin;
                let cur = acc[idx];
                let ghost before = acc@;
                acc.set(idx, cur + 1);
                proof {
                    assert forall|tt: int, b: int|
                        0 <= tt < THETA_BINS && 0 <= b < rb implies #[trigger] acc@[tt * rb + b]
                        == if tt < t + 1 {
                        votes_for(votes@, p + 1, tt, b, rm)
                    } else {
                        votes_for(votes@, p as int, tt, b, rm)
                    } by {
                        lemma_cell(rb as int, tt, b, t as int, bin as int);
                        if tt == t && b == bin {
                        } else {
                            assert(acc@[tt * rb + b] == before[tt * rb + b]);
                        }
                    }
                }
            } else {
                proof {
                    assert forall|tt: int, b: int|
                        0 <= tt < THETA_BINS && 0 <= b < rb implies #[trigger] acc@[tt * rb + b]
                        == if tt < t + 1 {
                        votes_for(votes@, p + 1, tt, b, rm)
                    } else {
                        votes_for(votes@, p as int, tt, b, rm)
                    } by {}
                }
            }
        }
    }
    let mut best: u32 = 0;
    let mut best_t: usize = 0;
    let mut best_b: usize = 0;
    for t in 0..THETA_BINS
        invariant
            npts == votes@.len(),
            rho_max == rm,
            rb == 2 * rm + 1,
            rm <= 759250125,
            cells == THETA_BINS * rb,
            acc@.len() == cells,
            forall|tt: int, b: int|
                0 <= tt < THETA_BINS && 0 <= b < rb ==> #[trigger] acc@[tt * rb + b] == line_votes(
                    votes@,
                    tt,
                    b,
                    rm,
                ),
            best == 0 ==> best_t == 0 && best_b == 0,
            best > 0 ==> best_t < t && best_b < rb && line_votes(
                votes@,
                best_t as int,
                best_b as int,
                rm,
            ) == best,
            forall|tt: int, b: int|
                0 <= tt < t && 0 <= b < rb ==> #[trigger] line_votes(votes@, tt, b, rm) <= best,
            forall|tt: int, b: int|
                0 <= tt < THETA_BINS && 0 <= b < rb && (tt < best_t || (tt == best_t && b < best_b))
                    ==> #[trigger] line_votes(votes@, tt, b, rm) < best || best == 0,
    {
        for b in 0..rb
            invariant
                npts == votes@.len(),
                rho_max == rm,
                rb == 2 * rm + 1,
                rm <= 759250125,
                t < THETA_BINS,
                cells == THETA_BINS * rb,
                acc@.len() == cells,
                forall|tt: int, bb: int|
                    0 <= tt < THETA_BINS && 0 <= bb < rb ==> #[trigger] acc@[tt * rb + bb]
                        == line_votes(votes@, tt, bb, rm),
                best == 0 ==> best_t == 0 && best_b == 0,
                best > 0 ==> (best_t < t || (best_t == t && best_b < b)) && best_b < rb && line_votes(
                    votes@,
                    best_t as int,
                    best_b as int,
                    rm,
                ) == best,
                forall|tt: int, bb: int|
                    0 <= bb < rb && (0 <= tt < t || (tt == t && bb < b)) ==> #[trigger] line_votes(
                        votes@,
                        tt,
                        bb,
                        rm,
                    ) <= best,
                forall|tt: int, bb: int|
                    0 <= tt < THETA_BINS && 0 <= bb < rb && (tt < best_t || (tt == best_t && bb
                        < best_b)) ==> #[trigger] line_votes(votes@, tt, bb, rm) < best || best
                        == 0,
        {
            proof {
                lemma_cell(rb as int, t as int, b as int, t as int, b as int);
            }
            let v = acc[t * rb + b];
            if v > best {
                best = v;
                best_t = t;
                best_b = b;
            }
        }
    }
    if best < MIN_VOTES {
        proof {
            assert forall|t: int, b: int|
                0 <= t < THETA_BINS && 0 <= b <= 2 * rm implies #[trigger] agreeing_points(
                votes@,
                npts as int,
                t,
                b,
                rm,
            ).len() < MIN_VOTES by {
                law_votes_count_agreeing_points(votes@, npts as int, t, b, rm);
                assert(line_votes(votes@, t, b, rm) <= best);
            }
        }
        return None;
    }
    let line = Line { theta_deg: best_t as i32, rho: (best_b as i64 - rho_max) as i32 };
    Some(line)
}

} // verus!
