//! Folding a magnitude tempogram into one reference octave of cyclic
//! tempo bins.
//!
//! The caller supplies the BPM scan axis and a log-spaced BPM axis (both
//! fixed point); the fold selects for every log bin the nearest scan row,
//! then averages the log rows that lie whole octaves apart.

use crate::matrix::Matrix;
use crate::preprocessing::{nearest_upto, seq_within, AMP_LIMIT, DIM_LIMIT};
use crate::sums::{lemma_sum_n_abs_le, lemma_sum_n_ones, lemma_sum_n_scale, lemma_sum_n_zero, sum_n};
use vstd::prelude::*;

verus! {

/// Floor of the square root: the greatest `r` with `r * r <= x`.
pub open spec fn isqrt_spec(x: nat) -> nat
    decreases x,
{
    if x == 0 {
        0
    } else {
        let p = isqrt_spec((x - 1) as nat);
        if (p + 1) * (p + 1) <= x {
            p + 1
        } else {
            p
        }
    }
}

/// `isqrt_spec` brackets its argument between consecutive squares.
pub proof fn lemma_isqrt_spec_props(x: nat)
    ensures
        isqrt_spec(x) * isqrt_spec(x) <= x,
        (isqrt_spec(x) + 1) * (isqrt_spec(x) + 1) > x,
    decreases x,
{
    if x == 0 {
        assert(isqrt_spec(x) == 0);
        assert(isqrt_spec(x) * isqrt_spec(x) == 0) by (nonlinear_arith)
            requires
                isqrt_spec(x) == 0,
        ;
        assert((isqrt_spec(x) + 1) * (isqrt_spec(x) + 1) == 1) by (nonlinear_arith)
            requires
                isqrt_spec(x) == 0,
        ;
    } else {
        lemma_isqrt_spec_props((x - 1) as nat);
        let p = isqrt_spec((x - 1) as nat);
        assert(p * p <= x - 1);
        assert((p + 1) * (p + 1) > x - 1);
        if (p + 1) * (p + 1) <= x {
            assert(isqrt_spec(x) == p + 1);
            assert((p + 1) * (p + 1) == x);
            assert((p + 2) * (p + 2) > (p + 1) * (p + 1)) by (nonlinear_arith);
            assert(((p + 1) + 1) * ((p + 1) + 1) > x);
        } else {
            assert(isqrt_spec(x) == p);
        }
    }
}

/// Floor of the square root: the greatest `r` with `r * r <= x`.
pub fn isqrt(x: u64) -> (r: u64)
    ensures
        (r * r) as int <= x as int,
        (r + 1) * (r + 1) > x as int,
        r == isqrt_spec(x as nat),
{
    let mut lo: u64 = 0;
    let mut hi: u64 = 0x1_0000_0000;
    proof {
        assert((hi as int) * (hi as int) > u64::MAX as int) by (nonlinear_arith)
            requires
                hi == 0x1_0000_0000u64,
        ;
    }
    while lo + 1 < hi
        invariant
            lo < hi <= 0x1_0000_0000,
            (lo as int) * (lo as int) <= x as int,
            (hi as int) * (hi as int) > x as int,
        decreases hi - lo,
    {
        let mid = lo + (hi - lo) / 2;
        proof {
            assert((mid as int) * (mid as int) < 0x1_0000_0000_0000_0000) by (nonlinear_arith)
                requires
                    mid as int <= 0xFFFF_FFFF,
                    mid as int >= 0,
            ;
        }
        if mid * mid <= x {
            lo = mid;
        } else {
            hi = mid;
        }
    }
    proof {
        assert((lo as int) * (lo as int) <= u64::MAX as int);
        assert(((lo + 1) as int) * ((lo + 1) as int) > x as int);
        let s = isqrt_spec(x as nat);
        lemma_isqrt_spec_props(x as nat);
        if (lo as int) < s {
            assert(((lo + 1) as int) * ((lo + 1) as int) <= (s as int) * (s as int))
                by (nonlinear_arith)
                requires
                    0 <= (lo as int) + 1 <= s as int,
            ;
        }
        if s < lo as int {
            assert(((s + 1) as int) * ((s + 1) as int) <= (lo as int) * (lo as int))
                by (nonlinear_arith)
                requires
                    0 <= (s as int) + 1 <= lo as int,
            ;
        }
        assert(lo as int == s);
    }
    lo
}

/// One term of a tempogram coefficient: the tapered curve sample at the
/// absolute position `start + t`, correlated with the sinusoid table.
pub open spec fn dft_term(
    s: Seq<i64>,
    taper: Seq<i64>,
    tab: Matrix,
    r: int,
    start: int,
    scale: int,
    t: int,
) -> int {
    ((taper[t] as int) * (s[start + t] as int) / scale) * tab.entry(r, start + t)
}

/// Partial sum of the first `n` coefficient terms.
pub open spec fn dft_sum(
    s: Seq<i64>,
    taper: Seq<i64>,
    tab: Matrix,
    r: int,
    start: int,
    scale: int,
    n: nat,
) -> int {
    sum_n(|t: int| dft_term(s, taper, tab, r, start, scale, t), n)
}

/// One tempogram coefficient: the windowed correlation of the curve at
/// `start` with row `r` of the sinusoid table, scaled back to the
/// fixed-point unit.
pub open spec fn dft_coeff_spec(
    s: Seq<i64>,
    taper: Seq<i64>,
    tab: Matrix,
    r: int,
    start: int,
    scale: int,
) -> int {
    crate::sums::div_trunc_spec(dft_sum(s, taper, tab, r, start, scale, taper.len()), scale)
}

/// The curve extended by `half` zero samples on either side.
pub open spec fn padded_curve(c: Seq<i64>, half: int) -> Seq<i64> {
    Seq::new(
        (c.len() + 2 * half) as nat,
        |i: int|
            if half <= i < half + c.len() {
                c[i - half]
            } else {
                0i64
            },
    )
}

/// Correlates one window of the padded curve against one sinusoid row.
fn dft_coeff(
    padded: &Vec<i64>,
    taper: &Vec<i64>,
    tab: &Matrix,
    r: usize,
    start: usize,
    scale: i64,
) -> (c: i64)
    requires
        seq_within(padded@, 0, scale as int),
        seq_within(taper@, 0, scale as int),
        sum_n(|k: int| taper@[k] as int, taper@.len()) <= scale as int,
        1 <= scale <= AMP_LIMIT,
        tab.wf(),
        tab.entries_within(-(scale as int), scale as int),
        r < tab.spec_rows(),
        start + taper@.len() <= padded@.len(),
        padded@.len() <= tab.spec_cols(),
    ensures
        c as int == dft_coeff_spec(padded@, taper@, *tab, r as int, start as int, scale as int),
        -scale <= c <= scale,
{
    let n = taper.len();
    let ghost term = |t: int|
        dft_term(padded@, taper@, *tab, r as int, start as int, scale as int, t);
    let ghost gbound = |t: int| (taper@[t] as int) * (scale as int);
    proof {
        assert forall|t: int| 0 <= t < n implies -(#[trigger] gbound(t)) <= term(t) <= gbound(
            t,
        ) && gbound(t) >= 0 by {
            let w = taper@[t] as int;
            let sv = padded@[start + t] as int;
            let tv = tab.entry(r as int, start + t);
            assert(0 <= w * sv <= w * (scale as int)) by (nonlinear_arith)
                requires
                    0 <= w,
                    0 <= sv <= scale as int,
            ;
            vstd::arithmetic::div_mod::lemma_div_pos_is_pos(w * sv, scale as int);
            vstd::arithmetic::div_mod::lemma_div_is_ordered(
                w * sv,
                w * (scale as int),
                scale as int,
            );
            vstd::arithmetic::div_mod::lemma_div_multiples_vanish(w, scale as int);
            assert(w * (scale as int) == (scale as int) * w) by (nonlinear_arith);
            assert(0 <= w * sv / (scale as int) <= w);
            assert(-(w * (scale as int)) <= (w * sv / (scale as int)) * tv <= w * (scale as int))
                by (nonlinear_arith)
                requires
                    0 <= w * sv / (scale as int) <= w,
                    -(scale as int) <= tv <= scale as int,
                    w >= 0,
            ;
        }
        assert forall|k: int| 0 <= k < taper@.len() implies #[trigger] gbound(k) == (scale
            as int) * (taper@[k] as int) by {
            assert((taper@[k] as int) * (scale as int) == (scale as int) * (taper@[k] as int))
                by (nonlinear_arith);
        }
        lemma_sum_n_scale(
            |k: int| taper@[k] as int,
            gbound,
            scale as int,
            taper@.len(),
        );
        assert(sum_n(gbound, taper@.len()) <= (scale as int) * (scale as int))
            by (nonlinear_arith)
            requires
                sum_n(gbound, taper@.len()) == (scale as int) * sum_n(
                    |k: int| taper@[k] as int,
                    taper@.len(),
                ),
                sum_n(|k: int| taper@[k] as int, taper@.len()) <= scale as int,
                scale as int > 0,
        ;
        assert((scale as int) * (scale as int) <= 0x100_0000_0000) by (nonlinear_arith)
            requires
                0 < scale as int <= AMP_LIMIT as int,
        ;
    }
    let mut acc: i64 = 0;
    let mut t: usize = 0;
    while t < n
        invariant
            t <= n,
            n == taper@.len(),
            seq_within(padded@, 0, scale as int),
            seq_within(taper@, 0, scale as int),
            1 <= scale <= AMP_LIMIT,
            tab.wf(),
            tab.entries_within(-(scale as int), scale as int),
            r < tab.spec_rows(),
            start + taper@.len() <= padded@.len(),
            padded@.len() <= tab.spec_cols(),
            term == (|t: int|
                dft_term(padded@, taper@, *tab, r as int, start as int, scale as int, t)),
            gbound == (|t: int| (taper@[t] as int) * (scale as int)),
            forall|j: int|
                0 <= j < n ==> -(#[trigger] gbound(j)) <= term(j) <= gbound(j) && gbound(j) >= 0,
            sum_n(gbound, taper@.len()) <= (scale as int) * (scale as int),
            (scale as int) * (scale as int) <= 0x100_0000_0000,
            acc == sum_n(term, t as nat),
            -sum_n(gbound, t as nat) <= acc <= sum_n(gbound, t as nat),
        decreases n - t,
    {
        let w = taper[t];
        let sv = padded[start + t];
        let tv = tab.get(r, start + t);
        proof {
            assert(0 <= (w as int) * (sv as int) <= (scale as int) * (scale as int))
                by (nonlinear_arith)
                requires
                    0 <= w as int <= scale as int,
                    0 <= sv as int <= scale as int,
            ;
            lemma_sum_n_abs_le(term, gbound, (t + 1) as nat);
            crate::sums::lemma_sum_n_prefix_le(gbound, (t + 1) as nat, taper@.len());
        }
        let wq: u64 = ((w as u64) * (sv as u64)) / (scale as u64);
        proof {
            vstd::arithmetic::div_mod::lemma_div_pos_is_pos(
                (w as int) * (sv as int),
                scale as int,
            );
            vstd::arithmetic::div_mod::lemma_div_is_ordered(
                (w as int) * (sv as int),
                (scale as int) * (scale as int),
                scale as int,
            );
            vstd::arithmetic::div_mod::lemma_div_multiples_vanish(scale as int, scale as int);
            assert(0 <= wq as int <= scale as int);
            assert(-((scale as int) * (scale as int)) <= (wq as int) * (tv as int) <= (scale
                as int) * (scale as int)) by (nonlinear_arith)
                requires
                    0 <= wq as int <= scale as int,
                    -(scale as int) <= tv as int <= scale as int,
            ;
        }
        let prod: i64 = (wq as i64) * tv;
        acc = acc + prod;
        t += 1;
    }
    proof {
        lemma_sum_n_abs_le(term, gbound, taper@.len());
        assert(acc == dft_sum(padded@, taper@, *tab, r as int, start as int, scale as int, n as nat));
    }
    let c = crate::sums::div_trunc(acc, scale);
    proof {
        if acc >= 0 {
            vstd::arithmetic::div_mod::lemma_div_pos_is_pos(acc as int, scale as int);
            vstd::arithmetic::div_mod::lemma_div_is_ordered(
                acc as int,
                (scale as int) * (scale as int),
                scale as int,
            );
            vstd::arithmetic::div_mod::lemma_div_multiples_vanish(scale as int, scale as int);
        } else {
            vstd::arithmetic::div_mod::lemma_div_pos_is_pos(-(acc as int), scale as int);
            vstd::arithmetic::div_mod::lemma_div_is_ordered(
                -(acc as int),
                (scale as int) * (scale as int),
                scale as int,
            );
            vstd::arithmetic::div_mod::lemma_div_multiples_vanish(scale as int, scale as int);
        }
    }
    c
}

/// The tempogram of a novelty curve by direct correlation: the curve is
/// zero-padded by half the window on both sides, and each analysis frame
/// is tapered and correlated against the caller's sampled complex
/// exponentials (`cos_tab` and `sin_tab`, one row per candidate BPM,
/// indexed by absolute padded position). Returns the real and imaginary
/// coefficient matrices.
///
/// Normalisation: each coefficient comes out divided by the taper's
/// weight sum (the taper is required to sum to at most the fixed-point
/// unit), that is by `window_length * mean(taper)`. This deviates from
/// the classical `sqrt(window_length) * mean(taper)` per-coefficient
/// normalisation by the constant factor `sqrt(window_length)`, which has
/// no exact fixed-point form; the factor is uniform over all rows and
/// frames and cancels in the per-frame L2 normalisation that follows
/// (`normalize_cols_p2`).
pub fn novelty_curve_to_tempogram_dft(
    curve: &Vec<i64>,
    taper: &Vec<i64>,
    hop: usize,
    cos_tab: &Matrix,
    sin_tab: &Matrix,
    scale: i64,
) -> (out: (Matrix, Matrix))
    requires
        curve@.len() >= 1,
        seq_within(curve@, 0, scale as int),
        seq_within(taper@, 0, scale as int),
        taper@.len() >= 1,
        sum_n(|k: int| taper@[k] as int, taper@.len()) <= scale as int,
        1 <= scale <= AMP_LIMIT,
        1 <= hop,
        cos_tab.wf(),
        sin_tab.wf(),
        cos_tab.entries_within(-(scale as int), scale as int),
        sin_tab.entries_within(-(scale as int), scale as int),
        cos_tab.spec_rows() == sin_tab.spec_rows(),
        cos_tab.spec_cols() == sin_tab.spec_cols(),
        curve@.len() + 2 * (taper@.len() / 2) <= cos_tab.spec_cols(),
        curve@.len() + taper@.len() <= usize::MAX,
        cos_tab.spec_rows() * ((curve@.len() + 2 * (taper@.len() / 2) - taper@.len()) / (hop
            as int) + 1) <= usize::MAX,
        taper@.len() <= curve@.len() + 2 * (taper@.len() / 2),
    ensures
        ({
            let padded = padded_curve(curve@, (taper@.len() / 2) as int);
            let frames = (padded.len() - taper@.len()) as int / (hop as int) + 1;
            &&& out.0.wf()
            &&& out.1.wf()
            &&& out.0.spec_rows() == cos_tab.spec_rows()
            &&& out.1.spec_rows() == cos_tab.spec_rows()
            &&& out.0.spec_cols() == frames
            &&& out.1.spec_cols() == frames
            &&& forall|r: int, f: int|
                0 <= r < out.0.spec_rows() && 0 <= f < frames
                    ==> #[trigger] out.0.entry(r, f) == dft_coeff_spec(
                    padded,
                    taper@,
                    *cos_tab,
                    r,
                    f * hop,
                    scale as int,
                )
            &&& forall|r: int, f: int|
                0 <= r < out.1.spec_rows() && 0 <= f < frames
                    ==> #[trigger] out.1.entry(r, f) == dft_coeff_spec(
                    padded,
                    taper@,
                    *sin_tab,
                    r,
                    f * hop,
                    scale as int,
                )
            &&& out.0.entries_within(-(scale as int), scale as int)
            &&& out.1.entries_within(-(scale as int), scale as int)
        }),
{
    let wlen = taper.len();
    let half = wlen / 2;
    let mut padded: Vec<i64> = Vec::new();
    let mut i: usize = 0;
    while i < half
        invariant
            i <= half,
            padded@.len() == i,
            forall|j: int| 0 <= j < i ==> #[trigger] padded@[j] == 0i64,
        decreases half - i,
    {
        padded.push(0);
        i += 1;
    }
    let mut i: usize = 0;
    while i < curve.len()
        invariant
            i <= curve@.len(),
            padded@.len() == half + i,
            forall|j: int| 0 <= j < half ==> #[trigger] padded@[j] == 0i64,
            forall|j: int|
                half <= j < half + i ==> #[trigger] padded@[j] == curve@[j - half],
        decreases curve@.len() - i,
    {
        padded.push(curve[i]);
        i += 1;
    }
    let mut i: usize = 0;
    while i < half
        invariant
            i <= half,
            padded@.len() == half + curve@.len() + i,
            forall|j: int| 0 <= j < half ==> #[trigger] padded@[j] == 0i64,
            forall|j: int|
                half <= j < half + curve@.len() ==> #[trigger] padded@[j] == curve@[j - half],
            forall|j: int|
                half + curve@.len() <= j < padded@.len() ==> #[trigger] padded@[j] == 0i64,
        decreases half - i,
    {
        padded.push(0);
        i += 1;
    }
    proof {
        assert(padded@ =~= padded_curve(curve@, half as int));
        assert forall|j: int| 0 <= j < padded@.len() implies 0 <= #[trigger] padded@[j]
            <= scale as int by {}
    }
    let plen = padded.len();
    let frames = (plen - wlen) / hop + 1;
    let rows = cos_tab.rows();
    let mut re = Matrix::zeros(rows, frames);
    let mut im = Matrix::zeros(rows, frames);
    let mut r: usize = 0;
    while r < rows
        invariant
            r <= rows,
            wlen == taper@.len() >= 1,
            half == wlen / 2,
            1 <= hop,
            1 <= scale <= AMP_LIMIT,
            padded@ == padded_curve(curve@, half as int),
            seq_within(padded@, 0, scale as int),
            seq_within(taper@, 0, scale as int),
            sum_n(|k: int| taper@[k] as int, taper@.len()) <= scale as int,
            cos_tab.wf(),
            sin_tab.wf(),
            cos_tab.entries_within(-(scale as int), scale as int),
            sin_tab.entries_within(-(scale as int), scale as int),
            rows == cos_tab.spec_rows() == sin_tab.spec_rows(),
            cos_tab.spec_cols() == sin_tab.spec_cols(),
            plen == padded@.len() <= cos_tab.spec_cols(),
            wlen <= plen,
            frames == (plen - wlen) / (hop as int) + 1,
            re.wf() && im.wf(),
            re.spec_rows() == rows && im.spec_rows() == rows,
            re.spec_cols() == frames && im.spec_cols() == frames,
            forall|a: int, f: int|
                0 <= a < r && 0 <= f < frames ==> #[trigger] re.entry(a, f) == dft_coeff_spec(
                    padded@,
                    taper@,
                    *cos_tab,
                    a,
                    f * hop,
                    scale as int,
                ),
            forall|a: int, f: int|
                0 <= a < r && 0 <= f < frames ==> #[trigger] im.entry(a, f) == dft_coeff_spec(
                    padded@,
                    taper@,
                    *sin_tab,
                    a,
                    f * hop,
                    scale as int,
                ),
            forall|a: int, f: int|
                0 <= a < rows && 0 <= f < frames
                    ==> -(scale as int) <= #[trigger] re.entry(a, f) <= scale as int,
            forall|a: int, f: int|
                0 <= a < rows && 0 <= f < frames
                    ==> -(scale as int) <= #[trigger] im.entry(a, f) <= scale as int,
        decreases rows - r,
    {
        let mut f: usize = 0;
        while f < frames
            invariant
                f <= frames,
                r < rows,
                wlen == taper@.len() >= 1,
                half == wlen / 2,
                1 <= hop,
                1 <= scale <= AMP_LIMIT,
                padded@ == padded_curve(curve@, half as int),
                seq_within(padded@, 0, scale as int),
                seq_within(taper@, 0, scale as int),
                sum_n(|k: int| taper@[k] as int, taper@.len()) <= scale as int,
                cos_tab.wf(),
                sin_tab.wf(),
                cos_tab.entries_within(-(scale as int), scale as int),
                sin_tab.entries_within(-(scale as int), scale as int),
                rows == cos_tab.spec_rows() == sin_tab.spec_rows(),
                cos_tab.spec_cols() == sin_tab.spec_cols(),
                plen == padded@.len() <= cos_tab.spec_cols(),
                wlen <= plen,
                frames == (plen - wlen) / (hop as int) + 1,
                re.wf() && im.wf(),
                re.spec_rows() == rows && im.spec_rows() == rows,
                re.spec_cols() == frames && im.spec_cols() == frames,
                forall|a: int, g: int|
                    0 <= a < r && 0 <= g < frames ==> #[trigger] re.entry(a, g)
                        == dft_coeff_spec(
                        padded@,
                        taper@,
                        *cos_tab,
                        a,
                        g * hop,
                        scale as int,
                    ),
                forall|a: int, g: int|
                    0 <= a < r && 0 <= g < frames ==> #[trigger] im.entry(a, g)
                        == dft_coeff_spec(
                        padded@,
                        taper@,
                        *sin_tab,
                        a,
                        g * hop,
                        scale as int,
                    ),
                forall|g: int|
                    0 <= g < f ==> #[trigger] re.entry(r as int, g) == dft_coeff_spec(
                        padded@,
                        taper@,
                        *cos_tab,
                        r as int,
                        g * hop,
                        scale as int,
                    ),
                forall|g: int|
                    0 <= g < f ==> #[trigger] im.entry(r as int, g) == dft_coeff_spec(
                        padded@,
                        taper@,
                        *sin_tab,
                        r as int,
                        g * hop,
                        scale as int,
                    ),
                forall|a: int, g: int|
                    0 <= a < rows && 0 <= g < frames
                        ==> -(scale as int) <= #[trigger] re.entry(a, g) <= scale as int,
                forall|a: int, g: int|
                    0 <= a < rows && 0 <= g < frames
                        ==> -(scale as int) <= #[trigger] im.entry(a, g) <= scale as int,
            decreases frames - f,
        {
            proof {
                assert((f as int) * (hop as int) + wlen <= plen) by {
                    assert(f as int <= (plen - wlen) / (hop as int));
                    vstd::arithmetic::div_mod::lemma_fundamental_div_mod(
                        plen - wlen,
                        hop as int,
                    );
                    assert((f as int) * (hop as int) <= ((plen - wlen) / (hop as int)) * (hop
                        as int)) by (nonlinear_arith)
                        requires
                            0 <= f as int <= (plen - wlen) / (hop as int),
                            hop as int >= 1,
                    ;
                    assert(((plen - wlen) / (hop as int)) * (hop as int) <= plen - wlen) by {
                        assert((hop as int) * ((plen - wlen) / (hop as int)) == ((plen - wlen) / (
                        hop as int)) * (hop as int)) by (nonlinear_arith);
                        assert(0 <= (plen - wlen) % (hop as int)) by {
                            vstd::arithmetic::div_mod::lemma_mod_bound(
                                plen - wlen,
                                hop as int,
                            );
                        }
                    }
                }
            }
            let start = f * hop;
            let cr = dft_coeff(&padded, taper, cos_tab, r, start, scale);
            let ci = dft_coeff(&padded, taper, sin_tab, r, start, scale);
            re.set(r, f, cr);
            im.set(r, f, ci);
            f += 1;
        }
        r += 1;
    }
    (re, im)
}

/// Magnitudes of a complex matrix, rounded down: each entry is the floor
/// square root of `re * re + im * im`.
pub fn complex_magnitudes(re: &Matrix, im: &Matrix) -> (mag: Matrix)
    requires
        re.wf(),
        im.wf(),
        re.spec_rows() == im.spec_rows(),
        re.spec_cols() == im.spec_cols(),
        re.entries_within(-(AMP_LIMIT as int), AMP_LIMIT as int),
        im.entries_within(-(AMP_LIMIT as int), AMP_LIMIT as int),
    ensures
        mag.wf(),
        mag.spec_rows() == re.spec_rows(),
        mag.spec_cols() == re.spec_cols(),
        forall|r: int, c: int|
            0 <= r < re.spec_rows() && 0 <= c < re.spec_cols()
                ==> #[trigger] mag.entry(r, c) == isqrt_spec(
                (re.entry(r, c) * re.entry(r, c) + im.entry(r, c) * im.entry(r, c)) as nat,
            ),
        mag.entries_within(0, 2 * AMP_LIMIT as int),
{
    let rows = re.rows();
    let cols = re.cols();
    let _dlen = re.data.len();
    proof {
        assert(rows * cols <= usize::MAX);
    }
    let mut mag = Matrix::zeros(rows, cols);
    let mut r: usize = 0;
    while r < rows
        invariant
            r <= rows,
            re.wf() && im.wf(),
            rows == re.spec_rows() == im.spec_rows(),
            cols == re.spec_cols() == im.spec_cols(),
            re.entries_within(-(AMP_LIMIT as int), AMP_LIMIT as int),
            im.entries_within(-(AMP_LIMIT as int), AMP_LIMIT as int),
            mag.wf(),
            mag.spec_rows() == rows,
            mag.spec_cols() == cols,
            forall|a: int, c: int|
                0 <= a < r && 0 <= c < cols ==> #[trigger] mag.entry(a, c) == isqrt_spec(
                    (re.entry(a, c) * re.entry(a, c) + im.entry(a, c) * im.entry(a, c)) as nat,
                ),
            forall|a: int, c: int|
                0 <= a < rows && 0 <= c < cols ==> 0 <= #[trigger] mag.entry(a, c) <= 2
                    * AMP_LIMIT as int,
        decreases rows - r,
    {
        let mut c: usize = 0;
        while c < cols
            invariant
                c <= cols,
                r < rows,
                re.wf() && im.wf(),
                rows == re.spec_rows() == im.spec_rows(),
                cols == re.spec_cols() == im.spec_cols(),
                re.entries_within(-(AMP_LIMIT as int), AMP_LIMIT as int),
                im.entries_within(-(AMP_LIMIT as int), AMP_LIMIT as int),
                mag.wf(),
                mag.spec_rows() == rows,
                mag.spec_cols() == cols,
                forall|a: int, cc: int|
                    0 <= a < r && 0 <= cc < cols ==> #[trigger] mag.entry(a, cc) == isqrt_spec(
                        (re.entry(a, cc) * re.entry(a, cc) + im.entry(a, cc) * im.entry(
                            a,
                            cc,
                        )) as nat,
                    ),
                forall|cc: int|
                    0 <= cc < c ==> #[trigger] mag.entry(r as int, cc) == isqrt_spec(
                        (re.entry(r as int, cc) * re.entry(r as int, cc) + im.entry(r as int, cc)
                            * im.entry(r as int, cc)) as nat,
                    ),
                forall|a: int, cc: int|
                    0 <= a < rows && 0 <= cc < cols ==> 0 <= #[trigger] mag.entry(a, cc) <= 2
                        * AMP_LIMIT as int,
            decreases cols - c,
        {
            let a = re.get(r, c);
            let b = im.get(r, c);
            proof {
                assert(0 <= (a as int) * (a as int) <= (AMP_LIMIT as int) * (AMP_LIMIT as int)
                    && 0 <= (b as int) * (b as int) <= (AMP_LIMIT as int) * (AMP_LIMIT as int))
                    by (nonlinear_arith)
                    requires
                        -(AMP_LIMIT as int) <= a as int <= AMP_LIMIT as int,
                        -(AMP_LIMIT as int) <= b as int <= AMP_LIMIT as int,
                ;
                assert((a as int) * (a as int) == (if a >= 0 {
                    a as int
                } else {
                    -(a as int)
                }) * (if a >= 0 {
                    a as int
                } else {
                    -(a as int)
                })) by (nonlinear_arith);
                assert((b as int) * (b as int) == (if b >= 0 {
                    b as int
                } else {
                    -(b as int)
                }) * (if b >= 0 {
                    b as int
                } else {
                    -(b as int)
                })) by (nonlinear_arith);
            }
            let aa: u64 = (if a >= 0 {
                a
            } else {
                -a
            }) as u64;
            let bb: u64 = (if b >= 0 {
                b
            } else {
                -b
            }) as u64;
            let sq = aa * aa + bb * bb;
            let m = isqrt(sq);
            proof {
                assert((m as int) * (m as int) <= sq as int);
                assert(m as int <= 2 * AMP_LIMIT as int) by (nonlinear_arith)
                    requires
                        (m as int) * (m as int) <= sq as int,
                        sq as int <= 2 * ((AMP_LIMIT as int) * (AMP_LIMIT as int)),
                        m as int >= 0,
                ;
            }
            mag.set(r, c, m as i64);
            c += 1;
        }
        r += 1;
    }
    mag
}

/// A BPM below the reference octave doubled until it reaches it.
pub open spec fn fold_octave_up(bpm: int, r: int) -> int
    decreases (if bpm >= r { 0int } else { r - bpm }),
    when 1 <= bpm && 1 <= r
{
    if bpm >= r {
        bpm
    } else {
        fold_octave_up(2 * bpm, r)
    }
}

/// A BPM above the reference octave halved (rounding down) until it
/// falls inside it.
pub open spec fn fold_octave_down(bpm: int, r: int) -> int
    decreases bpm,
    when 1 <= r <= bpm
{
    if bpm < 2 * r {
        bpm
    } else {
        fold_octave_down(bpm / 2, r)
    }
}

/// The BPM folded into the reference octave `[r, 2 * r)` by whole-octave
/// doubling or (floor) halving.
pub open spec fn folded_bpm(bpm: int, r: int) -> int {
    if bpm >= r {
        fold_octave_down(bpm, r)
    } else {
        fold_octave_up(bpm, r)
    }
}

/// Where a BPM value falls inside the reference octave: the BPM is
/// folded by whole octaves into `[ref_tempo, 2 * ref_tempo)`, and its
/// relative position is returned as a ratio in `[scale, 2 * scale)`.
pub fn bpm_to_cyclic(bpm: i64, ref_tempo: i64, scale: i64) -> (r: i64)
    requires
        1 <= bpm <= 0x8000_0000,
        1 <= ref_tempo <= 0x8000_0000,
        1 <= scale <= AMP_LIMIT,
    ensures
        r == scale + (folded_bpm(bpm as int, ref_tempo as int) - ref_tempo) * scale / (ref_tempo as int),
        scale <= r < 2 * scale,
{
    let mut f: i64 = bpm;
    if f >= ref_tempo {
        while f >= 2 * ref_tempo
            invariant
                ref_tempo <= f <= 0x8000_0000,
                1 <= ref_tempo <= 0x8000_0000,
                fold_octave_down(f as int, ref_tempo as int) == fold_octave_down(
                    bpm as int,
                    ref_tempo as int,
                ),
            decreases f,
        {
            f = ((f as u64) / 2) as i64;
        }
    } else {
        while f < ref_tempo
            invariant
                1 <= f < 2 * ref_tempo,
                1 <= ref_tempo <= 0x8000_0000,
                fold_octave_up(f as int, ref_tempo as int) == fold_octave_up(
                    bpm as int,
                    ref_tempo as int,
                ),
            decreases 2 * ref_tempo - f,
        {
            f = 2 * f;
        }
    }
    proof {
        assert(f as int == folded_bpm(bpm as int, ref_tempo as int));
        assert(ref_tempo <= f < 2 * ref_tempo);
        assert(0 <= ((f - ref_tempo) as int) * (scale as int) <= (ref_tempo as int) * (scale
            as int)) by (nonlinear_arith)
            requires
                0 <= (f - ref_tempo) as int <= ref_tempo as int,
                1 <= scale as int,
        ;
        assert((ref_tempo as int) * (scale as int) <= 0x8000_0000 * (AMP_LIMIT as int))
            by (nonlinear_arith)
            requires
                0 <= ref_tempo as int <= 0x8000_0000,
                0 <= scale as int <= AMP_LIMIT as int,
        ;
        assert(((f - ref_tempo) as int) * (scale as int) <= ((ref_tempo - 1) as int) * (scale
            as int)) by (nonlinear_arith)
            requires
                (f - ref_tempo) as int <= (ref_tempo - 1) as int,
                0 <= scale as int,
        ;
        assert(((ref_tempo - 1) as int) * (scale as int) == (ref_tempo as int) * (scale as int)
            - scale as int) by (nonlinear_arith);
        vstd::arithmetic::div_mod::lemma_div_pos_is_pos(
            ((f - ref_tempo) as int) * (scale as int),
            ref_tempo as int,
        );
        vstd::arithmetic::div_mod::lemma_div_is_ordered(
            ((f - ref_tempo) as int) * (scale as int),
            (ref_tempo as int) * (scale as int) - 1,
            ref_tempo as int,
        );
        assert((scale as int - 1) * (ref_tempo as int) + (ref_tempo as int - 1) == (ref_tempo
            as int) * (scale as int) - 1) by (nonlinear_arith);
        vstd::arithmetic::div_mod::lemma_fundamental_div_mod_converse(
            (ref_tempo as int) * (scale as int) - 1,
            ref_tempo as int,
            scale as int - 1,
            ref_tempo as int - 1,
        );
    }
    let q: u64 = (((f - ref_tempo) as u64) * (scale as u64)) / (ref_tempo as u64);
    scale + q as i64
}

/// Sum of squared entries of column `c` over the first `n` rows.
pub open spec fn col_sq_sum(s: Matrix, c: int, n: nat) -> int {
    sum_n(|r: int| s.entry(r, c) * s.entry(r, c), n)
}

/// Rescales each column (time frame) so its L2 norm becomes `scale`,
/// taking the floor square root of the frame's energy as the norm; a
/// frame of zero norm is all zero and stays unchanged.
pub fn normalize_cols_p2(s: &Matrix, scale: i64) -> (out: Matrix)
    requires
        s.wf(),
        1 <= s.spec_rows() <= DIM_LIMIT,
        1 <= scale <= AMP_LIMIT,
        s.entries_within(-(AMP_LIMIT as int), AMP_LIMIT as int),
    ensures
        out.wf(),
        out.spec_rows() == s.spec_rows(),
        out.spec_cols() == s.spec_cols(),
        forall|r: int, c: int|
            0 <= r < s.spec_rows() && 0 <= c < s.spec_cols()
                ==> #[trigger] out.entry(r, c) == crate::preprocessing::scale_by_norm(
                    s.entry(r, c),
                    scale as int,
                    isqrt_spec(col_sq_sum(*s, c, s.spec_rows() as nat) as nat) as int,
                ),
        out.entries_within(-(AMP_LIMIT as int), AMP_LIMIT as int),
{
    let rows = s.rows();
    let cols = s.cols();
    let _dlen = s.data.len();
    proof {
        assert(rows * cols <= usize::MAX);
    }
    let mut out = Matrix::zeros(rows, cols);
    let mut c: usize = 0;
    while c < cols
        invariant
            c <= cols,
            s.wf(),
            1 <= rows <= DIM_LIMIT,
            1 <= scale <= AMP_LIMIT,
            s.entries_within(-(AMP_LIMIT as int), AMP_LIMIT as int),
            rows == s.spec_rows(),
            cols == s.spec_cols(),
            out.wf(),
            out.spec_rows() == rows,
            out.spec_cols() == cols,
            forall|i: int, j: int|
                0 <= i < rows && 0 <= j < c ==> #[trigger] out.entry(i, j)
                    == crate::preprocessing::scale_by_norm(
                    s.entry(i, j),
                    scale as int,
                    isqrt_spec(col_sq_sum(*s, j, rows as nat) as nat) as int,
                ),
            forall|i: int, j: int|
                0 <= i < rows && 0 <= j < cols
                    ==> -(AMP_LIMIT as int) <= #[trigger] out.entry(i, j) <= AMP_LIMIT as int,
        decreases cols - c,
    {
        let ghost sqf = |r: int| s.entry(r, c as int) * s.entry(r, c as int);
        let mut acc: u64 = 0;
        let mut r: usize = 0;
        while r < rows
            invariant
                r <= rows,
                c < cols,
                s.wf(),
                1 <= rows <= DIM_LIMIT,
                s.entries_within(-(AMP_LIMIT as int), AMP_LIMIT as int),
                rows == s.spec_rows(),
                cols == s.spec_cols(),
                sqf == (|r: int| s.entry(r, c as int) * s.entry(r, c as int)),
                acc as int == sum_n(sqf, r as nat),
                acc as int <= (r as int) * ((AMP_LIMIT as int) * (AMP_LIMIT as int)),
            decreases rows - r,
        {
            let v = s.get(r, c);
            let av: u64 = (if v >= 0 {
                v
            } else {
                -v
            }) as u64;
            proof {
                assert(0 <= (av as int) * (av as int) <= (AMP_LIMIT as int) * (AMP_LIMIT
                    as int) && (av as int) * (av as int) == (v as int) * (v as int))
                    by (nonlinear_arith)
                    requires
                        -(AMP_LIMIT as int) <= v as int <= AMP_LIMIT as int,
                        av as int == if v >= 0 {
                            v as int
                        } else {
                            -(v as int)
                        },
                ;
                assert((r as int) * ((AMP_LIMIT as int) * (AMP_LIMIT as int)) + (AMP_LIMIT
                    as int) * (AMP_LIMIT as int) == ((r + 1) as int) * ((AMP_LIMIT as int) * (
                AMP_LIMIT as int))) by (nonlinear_arith);
                assert(((r + 1) as int) * ((AMP_LIMIT as int) * (AMP_LIMIT as int)) <= (DIM_LIMIT
                    as int) * ((AMP_LIMIT as int) * (AMP_LIMIT as int))) by (nonlinear_arith)
                    requires
                        0 <= r + 1 <= DIM_LIMIT as int,
                ;
            }
            acc = acc + av * av;
            r += 1;
        }
        proof {
            assert((rows as int) * ((AMP_LIMIT as int) * (AMP_LIMIT as int))
                <= 0x1000_0000_0000_0000) by (nonlinear_arith)
                requires
                    0 <= rows as int <= DIM_LIMIT as int,
            ;
        }
        let nm64 = isqrt(acc);
        proof {
            assert(nm64 as int <= 0x4000_0000) by (nonlinear_arith)
                requires
                    (nm64 as int) * (nm64 as int) <= acc as int,
                    acc as int <= 0x1000_0000_0000_0000,
                    nm64 as int >= 0,
            ;
        }
        let nm: i64 = nm64 as i64;
        let mut r: usize = 0;
        while r < rows
            invariant
                r <= rows,
                c < cols,
                s.wf(),
                1 <= rows <= DIM_LIMIT,
                1 <= scale <= AMP_LIMIT,
                s.entries_within(-(AMP_LIMIT as int), AMP_LIMIT as int),
                rows == s.spec_rows(),
                cols == s.spec_cols(),
                sqf == (|r: int| s.entry(r, c as int) * s.entry(r, c as int)),
                0 <= nm <= 0x4000_0000,
                nm == isqrt_spec(col_sq_sum(*s, c as int, rows as nat) as nat),
                (nm as int) * (nm as int) <= col_sq_sum(*s, c as int, rows as nat),
                ((nm + 1) as int) * ((nm + 1) as int) > col_sq_sum(*s, c as int, rows as nat),
                out.wf(),
                out.spec_rows() == rows,
                out.spec_cols() == cols,
                forall|i: int, j: int|
                    0 <= i < rows && 0 <= j < c ==> #[trigger] out.entry(i, j)
                        == crate::preprocessing::scale_by_norm(
                        s.entry(i, j),
                        scale as int,
                        isqrt_spec(col_sq_sum(*s, j, rows as nat) as nat) as int,
                    ),
                forall|i: int|
                    0 <= i < r ==> #[trigger] out.entry(i, c as int)
                        == crate::preprocessing::scale_by_norm(
                        s.entry(i, c as int),
                        scale as int,
                        isqrt_spec(col_sq_sum(*s, c as int, rows as nat) as nat) as int,
                    ),
                forall|i: int, j: int|
                    0 <= i < rows && 0 <= j < cols
                        ==> -(AMP_LIMIT as int) <= #[trigger] out.entry(i, j)
                            <= AMP_LIMIT as int,
            decreases rows - r,
        {
            let v = s.get(r, c);
            proof {
                assert forall|i: int| 0 <= i < rows implies #[trigger] sqf(i) >= 0 by {
                    assert(s.entry(i, c as int) * s.entry(i, c as int) >= 0)
                        by (nonlinear_arith);
                }
                crate::sums::lemma_sum_n_nonneg(sqf, rows as nat);
                crate::sums::lemma_sum_n_term_le(sqf, r as nat, rows as nat);
            }
            let nv: i64 = if nm == 0 {
                proof {
                    assert(((nm + 1) as int) * ((nm + 1) as int) == 1) by (nonlinear_arith)
                        requires
                            nm == 0i64,
                    ;
                    assert(v == 0) by (nonlinear_arith)
                        requires
                            (v as int) * (v as int) <= col_sq_sum(*s, c as int, rows as nat),
                            col_sq_sum(*s, c as int, rows as nat) < 1,
                    ;
                }
                v
            } else {
                let av: u64 = (if v >= 0 {
                    v
                } else {
                    -v
                }) as u64;
                proof {
                    assert((av as int) * (av as int) == (v as int) * (v as int))
                        by (nonlinear_arith)
                        requires
                            av as int == if v >= 0 {
                                v as int
                            } else {
                                -(v as int)
                            },
                    ;
                    assert(av as int <= nm as int) by (nonlinear_arith)
                        requires
                            (av as int) * (av as int) <= col_sq_sum(
                                *s,
                                c as int,
                                rows as nat,
                            ),
                            ((nm + 1) as int) * ((nm + 1) as int) > col_sq_sum(
                                *s,
                                c as int,
                                rows as nat,
                            ),
                            av as int >= 0,
                            nm as int >= 0,
                    ;
                    assert((av as int) * (scale as int) <= (nm as int) * (scale as int)
                        && 0 <= (av as int) * (scale as int) <= 0x4000_0000
                        * (AMP_LIMIT as int)) by (nonlinear_arith)
                        requires
                            0 <= av as int <= nm as int <= 0x4000_0000,
                            1 <= scale as int <= AMP_LIMIT as int,
                    ;
                    vstd::arithmetic::div_mod::lemma_div_is_ordered(
                        (av as int) * (scale as int),
                        (nm as int) * (scale as int),
                        nm as int,
                    );
                    vstd::arithmetic::div_mod::lemma_div_multiples_vanish(
                        scale as int,
                        nm as int,
                    );
                    vstd::arithmetic::div_mod::lemma_div_pos_is_pos(
                        (av as int) * (scale as int),
                        nm as int,
                    );
                }
                let q: u64 = (av * (scale as u64)) / (nm as u64);
                if v >= 0 {
                    q as i64
                } else {
                    -(q as i64)
                }
            };
            out.set(r, c, nv);
            r += 1;
        }
        c += 1;
    }
    out
}

/// The scan row whose BPM lies nearest to log bin `j`.
pub open spec fn sel_row(bpms: Seq<i64>, log_axis: Seq<i64>, j: int) -> int {
    nearest_upto(bpms, log_axis[j] as int, bpms.len())
}

/// The last index below `n` whose axis value is under `limit`; `-1` when
/// there is none.
pub open spec fn last_below(ax: Seq<i64>, limit: int, n: nat) -> int
    decreases n,
{
    if n == 0 {
        -1
    } else if ax[n - 1] < limit {
        n - 1
    } else {
        last_below(ax, limit, (n - 1) as nat)
    }
}

proof fn lemma_last_below_props(ax: Seq<i64>, limit: int, n: nat)
    requires
        n <= ax.len(),
    ensures
        -1 <= last_below(ax, limit, n) < n,
        last_below(ax, limit, n) >= 0 ==> ax[last_below(ax, limit, n)] < limit,
        forall|j: int| last_below(ax, limit, n) < j < n ==> !((#[trigger] ax[j]) < limit),
    decreases n,
{
    if n > 0 && !(ax[n - 1] < limit) {
        lemma_last_below_props(ax, limit, (n - 1) as nat);
    }
}

/// How many log rows fold into cyclic bin `i`: the indices
/// `i, i + od, i + 2 od, ...` strictly below `end_pos`.
pub open spec fn fold_count(end_pos: int, od: int, i: int) -> int {
    if i >= end_pos {
        0
    } else {
        (end_pos - i + od - 1) / od
    }
}

/// Sum of the first `n` folded rows of cyclic bin `i` at frame `c`.
pub open spec fn fold_sum(
    mag: Matrix,
    bpms: Seq<i64>,
    log_axis: Seq<i64>,
    od: int,
    i: int,
    c: int,
    n: nat,
) -> int {
    sum_n(|t: int| mag.entry(sel_row(bpms, log_axis, i + t * od), c), n)
}

/// The value of cyclic bin `i` at frame `c`: the average of the log rows
/// a whole number of octaves above `i`, up to the last log bin under the
/// scan maximum; a bin with no contributing rows stays zero.
pub open spec fn fold_entry(
    mag: Matrix,
    bpms: Seq<i64>,
    log_axis: Seq<i64>,
    od: int,
    i: int,
    c: int,
) -> int {
    let ep = last_below(log_axis, bpms.last() as int, log_axis.len());
    let cnt = fold_count(ep, od, i);
    if cnt == 0 {
        0
    } else {
        fold_sum(mag, bpms, log_axis, od, i, c, cnt as nat) / cnt
    }
}

/// Folded averages stay within the magnitude bounds of the tempogram.
pub proof fn lemma_fold_entry_bounded(
    mag: Matrix,
    bpms: Seq<i64>,
    log_axis: Seq<i64>,
    od: int,
    i: int,
    c: int,
    b: int,
)
    requires
        b >= 0,
        od >= 1,
        mag.wf(),
        mag.spec_rows() == bpms.len(),
        bpms.len() >= 1,
        0 <= c < mag.spec_cols(),
        mag.entries_within(0, b),
    ensures
        0 <= fold_entry(mag, bpms, log_axis, od, i, c) <= b,
{
    let ep = last_below(log_axis, bpms.last() as int, log_axis.len());
    let cnt = fold_count(ep, od, i);
    if cnt != 0 {
        let f = |t: int| mag.entry(sel_row(bpms, log_axis, i + t * od), c);
        let g = |t: int| b;
        assert forall|t: int| 0 <= t < cnt implies 0 <= #[trigger] f(t) <= b by {
            crate::preprocessing::lemma_nearest_upto_props(
                bpms,
                log_axis[i + t * od] as int,
                bpms.len(),
            );
            assert(0 <= sel_row(bpms, log_axis, i + t * od) < mag.spec_rows());
        }
        assert(cnt >= 1) by {
            if i < ep {
                vstd::arithmetic::div_mod::lemma_div_pos_is_pos(ep - i + od - 1, od);
            }
        }
        crate::sums::lemma_sum_n_nonneg(f, cnt as nat);
        crate::sums::lemma_sum_n_le(f, g, cnt as nat);
        lemma_sum_n_scale(|t: int| 1, g, b, cnt as nat);
        assert(sum_n(|t: int| 1, cnt as nat) == cnt) by {
            lemma_sum_n_ones(cnt as nat);
        }
        assert(sum_n(g, cnt as nat) == b * cnt);
        vstd::arithmetic::div_mod::lemma_div_pos_is_pos(
            fold_sum(mag, bpms, log_axis, od, i, c, cnt as nat),
            cnt,
        );
        vstd::arithmetic::div_mod::lemma_div_is_ordered(
            fold_sum(mag, bpms, log_axis, od, i, c, cnt as nat),
            b * cnt,
            cnt,
        );
        vstd::arithmetic::div_mod::lemma_div_multiples_vanish(b, cnt);
        assert(b * cnt == cnt * b) by (nonlinear_arith);
    }
}

/// Where the tempogram holds energy in a single scan row, a cyclic bin
/// none of whose folded log rows selects that row stays zero.
pub proof fn lemma_cyclic_fold_silent_bin(
    mag: Matrix,
    bpms: Seq<i64>,
    log_axis: Seq<i64>,
    od: int,
    i: int,
    c: int,
    r: int,
)
    requires
        od >= 1,
        bpms.len() >= 1,
        mag.spec_rows() == bpms.len(),
        forall|r2: int|
            0 <= r2 < mag.spec_rows() && r2 != r ==> #[trigger] mag.entry(r2, c) == 0,
        forall|t: int|
            0 <= t < fold_count(
                last_below(log_axis, bpms.last() as int, log_axis.len()),
                od,
                i,
            ) ==> #[trigger] sel_row(bpms, log_axis, i + t * od) != r,
    ensures
        fold_entry(mag, bpms, log_axis, od, i, c) == 0,
{
    let ep = last_below(log_axis, bpms.last() as int, log_axis.len());
    let cnt = fold_count(ep, od, i);
    if cnt != 0 {
        let f = |t: int| mag.entry(sel_row(bpms, log_axis, i + t * od), c);
        assert forall|t: int| 0 <= t < cnt implies #[trigger] f(t) == 0 by {
            crate::preprocessing::lemma_nearest_upto_props(
                bpms,
                log_axis[i + t * od] as int,
                bpms.len(),
            );
            assert(0 <= sel_row(bpms, log_axis, i + t * od) < mag.spec_rows());
        }
        lemma_sum_n_zero(f, cnt as nat);
        vstd::arithmetic::div_mod::lemma_div_of0(cnt);
    }
}

/// Where the tempogram holds energy in the single scan row `r`, a cyclic
/// bin all of whose folded log rows select `r` averages to exactly the
/// energy of `r`.
pub proof fn lemma_cyclic_fold_peak_bin(
    mag: Matrix,
    bpms: Seq<i64>,
    log_axis: Seq<i64>,
    od: int,
    i: int,
    c: int,
    r: int,
)
    requires
        od >= 1,
        fold_count(last_below(log_axis, bpms.last() as int, log_axis.len()), od, i) > 0,
        forall|t: int|
            0 <= t < fold_count(
                last_below(log_axis, bpms.last() as int, log_axis.len()),
                od,
                i,
            ) ==> #[trigger] sel_row(bpms, log_axis, i + t * od) == r,
    ensures
        fold_entry(mag, bpms, log_axis, od, i, c) == mag.entry(r, c),
{
    let ep = last_below(log_axis, bpms.last() as int, log_axis.len());
    let cnt = fold_count(ep, od, i);
    let f = |t: int| mag.entry(sel_row(bpms, log_axis, i + t * od), c);
    let ones = |t: int| 1;
    lemma_sum_n_scale(ones, f, mag.entry(r, c), cnt as nat);
    lemma_sum_n_ones(cnt as nat);
    assert(fold_sum(mag, bpms, log_axis, od, i, c, cnt as nat) == mag.entry(r, c) * cnt);
    vstd::arithmetic::div_mod::lemma_div_multiples_vanish(mag.entry(r, c), cnt);
    assert(mag.entry(r, c) * cnt == cnt * mag.entry(r, c)) by (nonlinear_arith);
}

/// Folds a magnitude tempogram into `octave_divider` cyclic BPM bins.
///
/// For each log bin the nearest scan row is selected, rows a whole number
/// of octaves apart are averaged up to the last log bin under the scan
/// maximum, and the cyclic axis is the first octave of the log axis
/// rescaled by the lowest scanned BPM.
pub fn tempogram_to_cyclic_tempogram(
    mag: &Matrix,
    bpms: &Vec<i64>,
    log_axis: &Vec<i64>,
    octave_divider: usize,
    scale: i64,
) -> (out: (Matrix, Vec<i64>))
    requires
        mag.wf(),
        mag.spec_rows() == bpms@.len(),
        1 <= bpms@.len(),
        mag.entries_within(0, AMP_LIMIT as int),
        seq_within(bpms@, 1, 0x8000_0000),
        seq_within(log_axis@, 0, 0x8000_0000),
        1 <= octave_divider <= log_axis@.len() <= DIM_LIMIT,
        octave_divider * mag.spec_cols() <= usize::MAX,
        1 <= scale <= AMP_LIMIT,
        log_axis@[0] < bpms@.last(),
    ensures
        out.0.wf(),
        out.0.spec_rows() == octave_divider,
        out.0.spec_cols() == mag.spec_cols(),
        forall|i: int, c: int|
            0 <= i < octave_divider && 0 <= c < mag.spec_cols()
                ==> #[trigger] out.0.entry(i, c) == fold_entry(
                    *mag,
                    bpms@,
                    log_axis@,
                    octave_divider as int,
                    i,
                    c,
                ),
        out.0.entries_within(0, AMP_LIMIT as int),
        out.1@.len() == octave_divider,
        forall|i: int|
            0 <= i < octave_divider ==> #[trigger] out.1@[i] == log_axis@[i] * scale / (bpms@[0] as int),
{
    let rows = mag.rows();
    let cols = mag.cols();
    let n_log = log_axis.len();
    let ghost max_bpm = bpms@.last() as int;

    // Nearest scan row for every log bin.
    let mut sel: Vec<usize> = Vec::new();
    let mut j: usize = 0;
    while j < n_log
        invariant
            j <= n_log,
            n_log == log_axis@.len(),
            1 <= bpms@.len(),
            seq_within(bpms@, 1, 0x8000_0000),
            seq_within(log_axis@, 0, 0x8000_0000),
            sel@.len() == j,
            forall|k: int|
                0 <= k < j ==> #[trigger] sel@[k] as int == sel_row(bpms@, log_axis@, k),
            forall|k: int| 0 <= k < j ==> #[trigger] sel@[k] < bpms@.len(),
        decreases n_log - j,
    {
        let s = crate::preprocessing::find_nearest(bpms, log_axis[j]);
        sel.push(s);
        j += 1;
    }

    // Last log bin whose BPM is under the scan maximum.
    let max_b = bpms[bpms.len() - 1];
    let mut end_pos: usize = 0;
    let mut j: usize = 0;
    while j < n_log
        invariant
            j <= n_log,
            1 <= n_log == log_axis@.len(),
            max_b as int == max_bpm,
            log_axis@[0] < max_bpm,
            j == 0 ==> end_pos == 0,
            j > 0 ==> end_pos as int == last_below(log_axis@, max_bpm, j as nat),
            j > 0 ==> last_below(log_axis@, max_bpm, j as nat) >= 0,
        decreases n_log - j,
    {
        if log_axis[j] < max_b {
            end_pos = j;
            proof {
                assert(last_below(log_axis@, max_bpm, (j + 1) as nat) == j);
            }
        } else {
            proof {
                assert(last_below(log_axis@, max_bpm, (j + 1) as nat) == last_below(
                    log_axis@,
                    max_bpm,
                    j as nat,
                ));
                if j == 0 {
                    assert(false);
                }
            }
        }
        j += 1;
    }
    proof {
        assert(end_pos as int == last_below(log_axis@, max_bpm, n_log as nat));
        lemma_last_below_props(log_axis@, max_bpm, n_log as nat);
    }

    // Fold: average rows a whole number of octaves apart.
    let od = octave_divider;
    let mut cyclic = Matrix::zeros(od, cols);
    let mut i: usize = 0;
    while i < od
        invariant
            i <= od,
            1 <= od <= n_log <= DIM_LIMIT,
            mag.wf(),
            mag.spec_rows() == bpms@.len(),
            1 <= bpms@.len(),
            mag.entries_within(0, AMP_LIMIT as int),
            cols == mag.spec_cols(),
            n_log == log_axis@.len(),
            sel@.len() == n_log,
            forall|k: int|
                0 <= k < n_log ==> #[trigger] sel@[k] as int == sel_row(bpms@, log_axis@, k),
            forall|k: int| 0 <= k < n_log ==> #[trigger] sel@[k] < bpms@.len(),
            end_pos as int == last_below(log_axis@, max_bpm, n_log as nat),
            end_pos < n_log,
            max_bpm == bpms@.last() as int,
            cyclic.wf(),
            cyclic.spec_rows() == od,
            cyclic.spec_cols() == cols,
            forall|a: int, c: int|
                0 <= a < i && 0 <= c < cols ==> #[trigger] cyclic.entry(a, c) == fold_entry(
                    *mag,
                    bpms@,
                    log_axis@,
                    od as int,
                    a,
                    c,
                ),
        decreases od - i,
    {
        proof {
            lemma_last_below_props(log_axis@, max_bpm, n_log as nat);
        }
        let ghost ep = end_pos as int;
        let ghost cntg = fold_count(ep, od as int, i as int);
        let mut c: usize = 0;
        while c < cols
            invariant
                c <= cols,
                i < od,
                1 <= od <= n_log <= DIM_LIMIT,
                mag.wf(),
                mag.spec_rows() == bpms@.len(),
                1 <= bpms@.len(),
                mag.entries_within(0, AMP_LIMIT as int),
                cols == mag.spec_cols(),
                n_log == log_axis@.len(),
                sel@.len() == n_log,
                forall|k: int|
                    0 <= k < n_log ==> #[trigger] sel@[k] as int == sel_row(bpms@, log_axis@, k),
                forall|k: int| 0 <= k < n_log ==> #[trigger] sel@[k] < bpms@.len(),
                ep == end_pos as int,
                end_pos as int == last_below(log_axis@, max_bpm, n_log as nat),
                end_pos < n_log,
                max_bpm == bpms@.last() as int,
                cntg == fold_count(ep, od as int, i as int),
                cyclic.wf(),
                cyclic.spec_rows() == od,
                cyclic.spec_cols() == cols,
                forall|a: int, cc: int|
                    0 <= a < i && 0 <= cc < cols ==> #[trigger] cyclic.entry(a, cc) == fold_entry(
                        *mag,
                        bpms@,
                        log_axis@,
                        od as int,
                        a,
                        cc,
                    ),
                forall|cc: int|
                    0 <= cc < c ==> #[trigger] cyclic.entry(i as int, cc) == fold_entry(
                        *mag,
                        bpms@,
                        log_axis@,
                        od as int,
                        i as int,
                        cc,
                    ),
            decreases cols - c,
        {
            let mut acc: i64 = 0;
            let mut cnt: usize = 0;
            let mut idx: usize = i;
            while idx < end_pos
                invariant
                    i < od,
                    1 <= od <= n_log <= DIM_LIMIT,
                    mag.wf(),
                    mag.spec_rows() == bpms@.len(),
                    mag.entries_within(0, AMP_LIMIT as int),
                    cols == mag.spec_cols(),
                    c < cols,
                    n_log == log_axis@.len(),
                    sel@.len() == n_log,
                    forall|k: int|
                        0 <= k < n_log ==> #[trigger] sel@[k] as int == sel_row(
                            bpms@,
                            log_axis@,
                            k,
                        ),
                    forall|k: int| 0 <= k < n_log ==> #[trigger] sel@[k] < bpms@.len(),
                    end_pos < n_log,
                    idx == i + cnt * od,
                    cnt == 0 ==> idx == i,
                    cnt > 0 ==> i + (cnt - 1) * od < end_pos,
                    acc == fold_sum(
                        *mag,
                        bpms@,
                        log_axis@,
                        od as int,
                        i as int,
                        c as int,
                        cnt as nat,
                    ),
                    0 <= acc <= (cnt as int) * (AMP_LIMIT as int),
                    cnt <= n_log,
                decreases n_log - cnt,
            {
                let row = sel[idx];
                let v = mag.get(row, c);
                proof {
                    assert((cnt as int) * (AMP_LIMIT as int) + (AMP_LIMIT as int) == ((cnt + 1)
                        as int) * (AMP_LIMIT as int)) by (nonlinear_arith);
                    assert(((cnt + 1) as int) * (AMP_LIMIT as int) <= (DIM_LIMIT as int) * (
                    AMP_LIMIT as int)) by (nonlinear_arith)
                        requires
                            0 <= cnt + 1 <= DIM_LIMIT as int,
                    ;
                    assert(sel@[idx as int] as int == sel_row(
                        bpms@,
                        log_axis@,
                        i + (cnt as int) * (od as int),
                    ));
                    assert((cnt + 1) as int * (od as int) == (cnt as int) * (od as int) + od)
                        by (nonlinear_arith);
                    assert(cnt + 1 <= n_log) by {
                        assert(idx >= cnt * od >= cnt * 1) by (nonlinear_arith)
                            requires
                                od >= 1,
                                cnt >= 0,
                                idx == i + cnt * od,
                                i >= 0,
                        ;
                    }
                }
                acc = acc + v;
                cnt += 1;
                idx = idx + od;
            }
            proof {
                if cnt == 0 {
                    assert(i as int >= ep);
                    assert(cntg == 0);
                } else {
                    let d = ep - i as int;
                    let odi = od as int;
                    assert(i + (cnt - 1) * odi < ep && i + (cnt as int) * odi >= ep);
                    let r = d + odi - 1 - odi * (cnt as int);
                    assert(odi * (cnt as int) == (cnt as int) * odi) by (nonlinear_arith);
                    assert((cnt - 1) as int * odi == (cnt as int) * odi - odi)
                        by (nonlinear_arith);
                    assert(0 <= r < odi);
                    assert(d + odi - 1 == odi * (cnt as int) + r);
                    vstd::arithmetic::div_mod::lemma_fundamental_div_mod_converse(
                        d + odi - 1,
                        odi,
                        cnt as int,
                        r,
                    );
                    assert(cntg == cnt);
                }
            }
            let value: i64 = if cnt == 0 {
                0
            } else {
                proof {
                    vstd::arithmetic::div_mod::lemma_div_pos_is_pos(acc as int, cnt as int);
                    vstd::arithmetic::div_mod::lemma_div_is_ordered(
                        acc as int,
                        (cnt as int) * (AMP_LIMIT as int),
                        cnt as int,
                    );
                    vstd::arithmetic::div_mod::lemma_div_multiples_vanish(
                        AMP_LIMIT as int,
                        cnt as int,
                    );
                    assert((cnt as int) * (AMP_LIMIT as int) == (AMP_LIMIT as int) * (cnt as int))
                        by (nonlinear_arith);
                }
                ((acc as u64) / (cnt as u64)) as i64
            };
            cyclic.set(i, c, value);
            c += 1;
        }
        i += 1;
    }

    // Cyclic axis: the first octave of the log axis, rescaled by the
    // lowest scanned BPM.
    let min_bpm = bpms[0];
    let mut axis: Vec<i64> = Vec::new();
    let mut i: usize = 0;
    while i < od
        invariant
            i <= od,
            od <= log_axis@.len(),
            seq_within(log_axis@, 0, 0x8000_0000),
            seq_within(bpms@, 1, 0x8000_0000),
            1 <= bpms@.len(),
            min_bpm == bpms@[0],
            1 <= scale <= AMP_LIMIT,
            axis@.len() == i,
            forall|k: int|
                0 <= k < i ==> #[trigger] axis@[k] == log_axis@[k] * scale / (bpms@[0] as int),
        decreases od - i,
    {
        let la = log_axis[i];
        proof {
            assert(0 <= (la as int) * (scale as int) <= 0x8000_0000 * (AMP_LIMIT as int))
                by (nonlinear_arith)
                requires
                    0 <= la as int <= 0x8000_0000,
                    1 <= scale as int <= AMP_LIMIT as int,
            ;
        }
        let v = (((la as u64) * (scale as u64)) / (min_bpm as u64)) as i64;
        proof {
            vstd::arithmetic::div_mod::lemma_div_is_ordered(
                (la as int) * (scale as int),
                0x8000_0000 * (AMP_LIMIT as int),
                min_bpm as int,
            );
            vstd::arithmetic::div_mod::lemma_div_pos_is_pos(
                (la as int) * (scale as int),
                min_bpm as int,
            );
            vstd::arithmetic::div_mod::lemma_div_is_ordered_by_denominator(
                0x8000_0000 * (AMP_LIMIT as int),
                1,
                min_bpm as int,
            );
        }
        axis.push(v);
        i += 1;
    }
    proof {
        assert forall|i: int, c: int| 0 <= i < od && 0 <= c < cols implies 0 <= #[trigger] cyclic.entry(
            i,
            c,
        ) <= AMP_LIMIT as int by {
            lemma_fold_entry_bounded(
                *mag,
                bpms@,
                log_axis@,
                od as int,
                i,
                c,
                AMP_LIMIT as int,
            );
        }
    }
    (cyclic, axis)
}

} // verus!
