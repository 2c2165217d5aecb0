//! The novelty-curve side of the pipeline: frequency-band bookkeeping,
//! band averaging, the rational resampling ratio, and the final smoothed
//! local-average subtraction that leaves a non-negative onset curve.
//!
//! Frequencies and sample rates are in millihertz; filter lengths in
//! milliseconds. The spectral transform itself is an external collaborator:
//! this module holds the arithmetic around it.

use crate::matrix::Matrix;
use crate::preprocessing::{abs_sum, col_sum, seq_within, AMP_LIMIT, DIM_LIMIT};
use vstd::math::abs;
use crate::sums::{lemma_sum_n_abs_le, lemma_sum_n_le, lemma_sum_n_nonneg, lemma_sum_n_prefix_le, lemma_sum_n_scale, sum_n};
use vstd::prelude::*;

verus! {

/// Configuration for novelty-curve extraction, in fixed units: rates in
/// millihertz, filter lengths in milliseconds, threshold in whole
/// decibels.
#[derive(Clone, Debug)]
pub struct NCSettings {
    /// Constant of the logarithmic compression applied to the spectrum,
    /// when any.
    pub log_compression: Option<i64>,
    /// Target rate the novelty curve is resampled to, when any.
    pub resample_sr_mhz: Option<u64>,
    /// Length of the onset differentiator filter.
    pub diff_filter_length_ms: u64,
    /// Length of the local-energy normalisation filter.
    pub norm_filter_length_ms: u64,
    /// Length of the local-average subtraction filter.
    pub smooth_length_ms: u64,
    /// Noise floor under the spectral maximum.
    pub threshold_db: i64,
    /// Denominator of the rational resampling ratio.
    pub resample_precision: u64,
}

impl Default for NCSettings {
    /// The stock defaults: 1000x compression, 200 Hz novelty
    /// rate, 0.3 s differentiator, 5 s normaliser, 1.5 s smoother, a
    /// -74 dB noise floor, and ratio precision 1000.
    fn default() -> (s: NCSettings)
        ensures
            s == (NCSettings {
                log_compression: Some(1000int as i64),
                resample_sr_mhz: Some(200_000u64),
                diff_filter_length_ms: 300,
                norm_filter_length_ms: 5000,
                smooth_length_ms: 1500,
                threshold_db: 74,
                resample_precision: 1000,
            }),
    {
        NCSettings {
            log_compression: Some(1000),
            resample_sr_mhz: Some(200_000),
            diff_filter_length_ms: 300,
            norm_filter_length_ms: 5000,
            smooth_length_ms: 1500,
            threshold_db: 74,
            resample_precision: 1000,
        }
    }
}

/// The spectral bin a frequency falls in: `round(freq / (sr / len))`,
/// clamped to the spectrum's `[0, len / 2]` range.
pub open spec fn freq_to_bin(freq_mhz: int, sr_mhz: int, window_length: int) -> int {
    let b = (2 * freq_mhz * window_length + sr_mhz) / (2 * sr_mhz);
    if b > window_length / 2 {
        window_length / 2
    } else {
        b
    }
}

/// Maps a band's frequency edges to spectral bin indices.
pub fn band_to_bins(lo_mhz: u64, hi_mhz: u64, sr_mhz: u64, window_length: u64) -> (r: (
    u64,
    u64,
))
    requires
        1 <= sr_mhz <= 0x4000_0000,
        lo_mhz <= 0x4000_0000,
        hi_mhz <= 0x4000_0000,
        1 <= window_length <= 0x10_0000,
    ensures
        r.0 == freq_to_bin(lo_mhz as int, sr_mhz as int, window_length as int),
        r.1 == freq_to_bin(hi_mhz as int, sr_mhz as int, window_length as int),
        r.0 <= window_length / 2,
        r.1 <= window_length / 2,
{
    let half = window_length / 2;
    proof {
        assert(0 <= 2 * (lo_mhz as int) * (window_length as int) <= 0x8_0000_0000_0000)
            by (nonlinear_arith)
            requires
                lo_mhz as int <= 0x4000_0000,
                1 <= window_length as int <= 0x10_0000,
        ;
        assert(0 <= 2 * (hi_mhz as int) * (window_length as int) <= 0x8_0000_0000_0000)
            by (nonlinear_arith)
            requires
                hi_mhz as int <= 0x4000_0000,
                1 <= window_length as int <= 0x10_0000,
        ;
    }
    let lo = (2 * lo_mhz * window_length + sr_mhz) / (2 * sr_mhz);
    let hi = (2 * hi_mhz * window_length + sr_mhz) / (2 * sr_mhz);
    (
        if lo > half {
            half
        } else {
            lo
        },
        if hi > half {
            half
        } else {
            hi
        },
    )
}

/// The standard five analysis bands, edges in millihertz; the last band
/// runs to half the sample rate, floored to a whole hertz.
pub fn default_audio_bands(sr_mhz: u64) -> (bands: Vec<(u64, u64)>)
    ensures
        bands@.len() == 5,
        bands@[0] == (0u64, 500_000u64),
        bands@[1] == (500_000u64, 1_250_000u64),
        bands@[2] == (1_250_000u64, 3_125_000u64),
        bands@[3] == (3_125_000u64, 7_812_500u64),
        bands@[4] == (7_812_500u64, ((sr_mhz / 2000) * 1000) as u64),
{
    let mut bands: Vec<(u64, u64)> = Vec::new();
    bands.push((0, 500_000));
    bands.push((500_000, 1_250_000));
    bands.push((1_250_000, 3_125_000));
    bands.push((3_125_000, 7_812_500));
    bands.push((7_812_500, (sr_mhz / 2000) * 1000));
    bands
}

/// Averages the per-band onset curves into one novelty curve: each frame
/// becomes the mean of its column, rounded down.
pub fn mean_cols(bands: &Matrix) -> (curve: Vec<i64>)
    requires
        bands.wf(),
        1 <= bands.spec_rows() <= DIM_LIMIT,
        bands.entries_within(0, ODF_OUT_LIMIT as int),
    ensures
        curve@.len() == bands.spec_cols(),
        forall|c: int|
            0 <= c < bands.spec_cols() ==> #[trigger] curve@[c] == col_sum(
                *bands,
                c,
                bands.spec_rows() as nat,
            ) / bands.spec_rows(),
        forall|c: int| 0 <= c < bands.spec_cols() ==> 0 <= #[trigger] curve@[c],
{
    let rows = bands.rows();
    let cols = bands.cols();
    let mut curve: Vec<i64> = Vec::new();
    let mut c: usize = 0;
    while c < cols
        invariant
            c <= cols,
            bands.wf(),
            1 <= rows <= DIM_LIMIT,
            bands.entries_within(0, ODF_OUT_LIMIT as int),
            rows == bands.spec_rows(),
            cols == bands.spec_cols(),
            curve@.len() == c,
            forall|j: int|
                0 <= j < c ==> #[trigger] curve@[j] == col_sum(*bands, j, rows as nat) / (rows
                    as int),
            forall|j: int| 0 <= j < c ==> 0 <= #[trigger] curve@[j],
        decreases cols - c,
    {
        let ghost colf = |r: int| bands.entry(r, c as int);
        let mut acc: i64 = 0;
        let mut r: usize = 0;
        while r < rows
            invariant
                r <= rows,
                c < cols,
                bands.wf(),
                1 <= rows <= DIM_LIMIT,
                bands.entries_within(0, ODF_OUT_LIMIT as int),
                rows == bands.spec_rows(),
                cols == bands.spec_cols(),
                colf == (|r: int| bands.entry(r, c as int)),
                acc == sum_n(colf, r as nat),
                0 <= acc <= (r as int) * (ODF_OUT_LIMIT as int),
            decreases rows - r,
        {
            let v = bands.get(r, c);
            proof {
                assert((r as int) * (ODF_OUT_LIMIT as int) + (ODF_OUT_LIMIT as int) == ((r + 1)
                    as int) * (ODF_OUT_LIMIT as int)) by (nonlinear_arith);
                assert(((r + 1) as int) * (ODF_OUT_LIMIT as int) <= (DIM_LIMIT as int) * (
                ODF_OUT_LIMIT as int)) by (nonlinear_arith)
                    requires
                        0 <= r + 1 <= DIM_LIMIT as int,
                ;
            }
            acc = acc + v;
            r += 1;
        }
        proof {
            vstd::arithmetic::div_mod::lemma_div_pos_is_pos(acc as int, rows as int);
        }
        let mean = ((acc as u64) / (rows as u64)) as i64;
        curve.push(mean);
        c += 1;
    }
    curve
}

/// A curve sample, zero outside the curve's range.
pub open spec fn curve_padded(s: Seq<i64>, i: int) -> int {
    if 0 <= i < s.len() {
        s[i] as int
    } else {
        0
    }
}

/// The local weighted sum of the curve around position `c`, under the
/// centred filter `f` with zero padding past either edge.
pub open spec fn curve_local_sum(s: Seq<i64>, f: Seq<i64>, c: int) -> int {
    sum_n(|k: int| (f[k] as int) * curve_padded(s, c - (f.len() / 2) as int + k), f.len())
}

/// Subtracts from each curve sample its local weighted average — the
/// filter's weights sum to about `scale` — and clamps at zero: slow
/// amplitude drift is removed and the curve stays non-negative.
pub fn smooth_filter_subtract(s: &Vec<i64>, filter: &Vec<i64>, scale: i64) -> (out: Vec<i64>)
    requires
        seq_within(s@, 0, AMP_LIMIT as int),
        seq_within(filter@, 0, AMP_LIMIT as int),
        filter@.len() >= 1,
        sum_n(|k: int| filter@[k] as int, filter@.len()) <= AMP_LIMIT as int,
        1 <= scale <= AMP_LIMIT,
        s@.len() + filter@.len() <= usize::MAX,
    ensures
        out@.len() == s@.len(),
        forall|i: int|
            0 <= i < s@.len() ==> #[trigger] out@[i] as int == if s@[i] as int - curve_local_sum(
                s@,
                filter@,
                i,
            ) / (scale as int) >= 0 {
                s@[i] as int - curve_local_sum(s@, filter@, i) / (scale as int)
            } else {
                0
            },
        forall|i: int| 0 <= i < out@.len() ==> #[trigger] out@[i] >= 0,
{
    let n = s.len();
    let flen = filter.len();
    let pad = flen / 2;
    let mut out: Vec<i64> = Vec::new();
    let mut c: usize = 0;
    while c < n
        invariant
            c <= n,
            n == s@.len(),
            flen == filter@.len() >= 1,
            pad == flen / 2,
            seq_within(s@, 0, AMP_LIMIT as int),
            seq_within(filter@, 0, AMP_LIMIT as int),
            sum_n(|k: int| filter@[k] as int, filter@.len()) <= AMP_LIMIT as int,
            1 <= scale <= AMP_LIMIT,
            s@.len() + filter@.len() <= usize::MAX,
            out@.len() == c,
            forall|i: int|
                0 <= i < c ==> #[trigger] out@[i] as int == if s@[i] as int - curve_local_sum(
                    s@,
                    filter@,
                    i,
                ) / (scale as int) >= 0 {
                    s@[i] as int - curve_local_sum(s@, filter@, i) / (scale as int)
                } else {
                    0
                },
            forall|i: int| 0 <= i < c ==> #[trigger] out@[i] >= 0,
        decreases n - c,
    {
        let ghost term = |k: int|
            (filter@[k] as int) * curve_padded(s@, c - (filter@.len() / 2) as int + k);
        let ghost fterm = |k: int| filter@[k] as int;
        let ghost gbound = |k: int| (filter@[k] as int) * (AMP_LIMIT as int);
        proof {
            assert forall|k: int| 0 <= k < flen implies 0 <= #[trigger] term(k) <= gbound(k) by {
                let p = curve_padded(s@, c - (filter@.len() / 2) as int + k);
                assert(0 <= p <= AMP_LIMIT as int);
                assert(0 <= (filter@[k] as int) * p <= (filter@[k] as int) * (AMP_LIMIT as int))
                    by (nonlinear_arith)
                    requires
                        0 <= p <= AMP_LIMIT as int,
                        0 <= filter@[k] as int,
                ;
            }
            lemma_sum_n_scale(fterm, gbound, AMP_LIMIT as int, filter@.len());
            assert(sum_n(gbound, filter@.len()) <= (AMP_LIMIT as int) * (AMP_LIMIT as int))
                by (nonlinear_arith)
                requires
                    sum_n(gbound, filter@.len()) == (AMP_LIMIT as int) * sum_n(
                        fterm,
                        filter@.len(),
                    ),
                    sum_n(fterm, filter@.len()) <= AMP_LIMIT as int,
                    AMP_LIMIT as int > 0,
            ;
            assert forall|k: int| 0 <= k < flen implies #[trigger] gbound(k) >= 0 by {
                assert((filter@[k] as int) * (AMP_LIMIT as int) >= 0) by (nonlinear_arith)
                    requires
                        filter@[k] as int >= 0,
                ;
            }
        }
        let mut acc: i64 = 0;
        let mut k: usize = 0;
        while k < flen
            invariant
                k <= flen,
                c < n,
                n == s@.len(),
                flen == filter@.len() >= 1,
                pad == flen / 2,
                seq_within(s@, 0, AMP_LIMIT as int),
                seq_within(filter@, 0, AMP_LIMIT as int),
                s@.len() + filter@.len() <= usize::MAX,
                term == (|k: int|
                    (filter@[k] as int) * curve_padded(
                        s@,
                        c - (filter@.len() / 2) as int + k,
                    )),
                gbound == (|k: int| (filter@[k] as int) * (AMP_LIMIT as int)),
                forall|j: int| 0 <= j < flen ==> 0 <= #[trigger] term(j) <= gbound(j),
                forall|j: int| 0 <= j < flen ==> #[trigger] gbound(j) >= 0,
                sum_n(gbound, filter@.len()) <= (AMP_LIMIT as int) * (AMP_LIMIT as int),
                acc == sum_n(term, k as nat),
                0 <= acc <= sum_n(gbound, k as nat),
            decreases flen - k,
        {
            let pos = c + k;
            let sval: i64 = if pos >= pad && pos - pad < n {
                s[pos - pad]
            } else {
                0
            };
            proof {
                assert(sval as int == curve_padded(s@, c - (filter@.len() / 2) as int + k));
                assert(0 <= (filter@[k as int] as int) * (sval as int) <= (AMP_LIMIT as int) * (
                AMP_LIMIT as int)) by (nonlinear_arith)
                    requires
                        0 <= filter@[k as int] as int <= AMP_LIMIT as int,
                        0 <= sval as int <= AMP_LIMIT as int,
                ;
                lemma_sum_n_nonneg(term, (k + 1) as nat);
                lemma_sum_n_le(term, gbound, (k + 1) as nat);
                lemma_sum_n_prefix_le(gbound, (k + 1) as nat, filter@.len());
            }
            let t: i64 = filter[k] * sval;
            acc = acc + t;
            k += 1;
        }
        proof {
            assert(acc == curve_local_sum(s@, filter@, c as int));
            vstd::arithmetic::div_mod::lemma_div_pos_is_pos(acc as int, scale as int);
        }
        let avg = ((acc as u64) / (scale as u64)) as i64;
        let v = s[c];
        let nv: i64 = if v >= avg {
            v - avg
        } else {
            0
        };
        out.push(nv);
        c += 1;
    }
    out
}

/// Largest fixed-point unit the band onset detector admits; keeps the
/// flux-over-energy quotients inside `i64`.
pub const ODF_SCALE_LIMIT: i64 = 0x400;

/// Largest spectrum height (bin count) the band onset detector admits.
pub const SPECTRUM_ROWS_LIMIT: usize = 0x1000;

/// Magnitude bound on a summed band energy within the detector's budget.
pub const BAND_SUM_LIMIT: i64 = 0x40_0000;

/// Magnitude bound on a band onset value.
pub const ODF_OUT_LIMIT: i64 = 0x400_0000_0000;

/// A band's spectral bin, clamped to the spectrum's height.
pub open spec fn band_bin(sp: Matrix, freq_mhz: int, sr_mhz: int, window_length: int) -> int {
    let b = freq_to_bin(freq_mhz, sr_mhz, window_length);
    if b > sp.spec_rows() {
        sp.spec_rows()
    } else {
        b
    }
}

/// The band's summed spectral energy at frame `f`, over bins `[lo, hi)`.
pub open spec fn band_energy(sp: Matrix, lo: int, hi: int, f: int) -> int {
    if hi <= lo {
        0
    } else {
        sum_n(|k: int| sp.entry(lo + k, f), (hi - lo) as nat)
    }
}

/// The band's energy curve: one summed value per frame.
pub open spec fn band_energies(sp: Matrix, lo: int, hi: int) -> Seq<i64> {
    Seq::new(sp.spec_cols() as nat, |f: int| band_energy(sp, lo, hi, f) as i64)
}

/// The normalisation weight of frame `f`: near either edge the
/// cumulative boundary weights stand in for the full filter (reversed at
/// the front, forward at the back); interior frames use the whole
/// filter, weight `scale`.
pub open spec fn boundary_weight(tail: Seq<i64>, scale: int, frames: int, f: int) -> int {
    let h = tail.len() as int;
    if f < h {
        tail[h - 1 - f] as int
    } else if f >= frames - h {
        tail[f - (frames - h)] as int
    } else {
        scale
    }
}

/// One band onset value: the rectified differentiated band energy,
/// divided by the boundary-corrected local energy; zero where the local
/// energy vanishes.
pub open spec fn odf_entry(
    bs: Seq<i64>,
    diff: Seq<i64>,
    norm: Seq<i64>,
    tail: Seq<i64>,
    scale: int,
    f: int,
) -> int {
    let dc = curve_local_sum(bs, diff, f);
    let d = if dc >= 0 {
        dc
    } else {
        0
    };
    let n = curve_local_sum(bs, norm, f);
    let t = boundary_weight(tail, scale, bs.len() as int, f);
    if n > 0 {
        d * t / n
    } else {
        0
    }
}

/// Sums a band's spectral bins per frame.
fn band_energy_vec(sp: &Matrix, lo: usize, hi: usize, scale: i64) -> (bs: Vec<i64>)
    requires
        sp.wf(),
        sp.spec_rows() <= SPECTRUM_ROWS_LIMIT,
        sp.entries_within(0, scale as int),
        1 <= scale <= ODF_SCALE_LIMIT,
        lo <= sp.spec_rows(),
        hi <= sp.spec_rows(),
    ensures
        bs@.len() == sp.spec_cols(),
        forall|f: int|
            0 <= f < bs@.len() ==> #[trigger] bs@[f] as int == band_energy(
                *sp,
                lo as int,
                hi as int,
                f,
            ),
        seq_within(bs@, 0, BAND_SUM_LIMIT as int),
{
    let cols = sp.cols();
    let width: usize = if hi > lo {
        hi - lo
    } else {
        0
    };
    let mut bs: Vec<i64> = Vec::new();
    let mut f: usize = 0;
    while f < cols
        invariant
            f <= cols,
            sp.wf(),
            sp.spec_rows() <= SPECTRUM_ROWS_LIMIT,
            sp.entries_within(0, scale as int),
            1 <= scale <= ODF_SCALE_LIMIT,
            lo <= sp.spec_rows(),
            hi <= sp.spec_rows(),
            width == if hi > lo {
                hi - lo
            } else {
                0
            },
            cols == sp.spec_cols(),
            bs@.len() == f,
            forall|j: int|
                0 <= j < f ==> #[trigger] bs@[j] as int == band_energy(*sp, lo as int, hi as int, j),
            seq_within(bs@, 0, BAND_SUM_LIMIT as int),
        decreases cols - f,
    {
        let ghost colf = |k: int| sp.entry(lo + k, f as int);
        let mut acc: i64 = 0;
        let mut k: usize = 0;
        while k < width
            invariant
                k <= width,
                f < cols,
                sp.wf(),
                sp.spec_rows() <= SPECTRUM_ROWS_LIMIT,
                sp.entries_within(0, scale as int),
                1 <= scale <= ODF_SCALE_LIMIT,
                lo + width <= sp.spec_rows(),
                cols == sp.spec_cols(),
                colf == (|k: int| sp.entry(lo + k, f as int)),
                acc == sum_n(colf, k as nat),
                0 <= acc <= (k as int) * (ODF_SCALE_LIMIT as int),
            decreases width - k,
        {
            let v = sp.get(lo + k, f);
            proof {
                assert((k as int) * (ODF_SCALE_LIMIT as int) + (ODF_SCALE_LIMIT as int) == ((k
                    + 1) as int) * (ODF_SCALE_LIMIT as int)) by (nonlinear_arith);
                assert(((k + 1) as int) * (ODF_SCALE_LIMIT as int) <= (SPECTRUM_ROWS_LIMIT
                    as int) * (ODF_SCALE_LIMIT as int)) by (nonlinear_arith)
                    requires
                        0 <= k + 1 <= SPECTRUM_ROWS_LIMIT as int,
                ;
            }
            acc = acc + v;
            k += 1;
        }
        proof {
            assert((width as int) * (ODF_SCALE_LIMIT as int) <= BAND_SUM_LIMIT as int)
                by (nonlinear_arith)
                requires
                    0 <= width as int <= SPECTRUM_ROWS_LIMIT as int,
            ;
            assert(acc as int == band_energy(*sp, lo as int, hi as int, f as int));
        }
        bs.push(acc);
        f += 1;
    }
    bs
}

/// The onset curve of one band from its summed energies.
fn band_odf_row(
    bs: &Vec<i64>,
    diff_filter: &Vec<i64>,
    norm_filter: &Vec<i64>,
    norm_tail: &Vec<i64>,
    scale: i64,
) -> (row: Vec<i64>)
    requires
        seq_within(bs@, 0, BAND_SUM_LIMIT as int),
        diff_filter@.len() >= 1,
        seq_within(diff_filter@, -(ODF_SCALE_LIMIT as int), ODF_SCALE_LIMIT as int),
        abs_sum(diff_filter@, diff_filter@.len()) <= ODF_SCALE_LIMIT as int,
        norm_filter@.len() >= 1,
        seq_within(norm_filter@, 0, ODF_SCALE_LIMIT as int),
        sum_n(|k: int| norm_filter@[k] as int, norm_filter@.len()) <= ODF_SCALE_LIMIT as int,
        seq_within(norm_tail@, 1, scale as int),
        norm_tail@.len() <= bs@.len(),
        1 <= scale <= ODF_SCALE_LIMIT,
        bs@.len() + diff_filter@.len() <= usize::MAX,
        bs@.len() + norm_filter@.len() <= usize::MAX,
    ensures
        row@.len() == bs@.len(),
        forall|f: int|
            0 <= f < bs@.len() ==> #[trigger] row@[f] as int == odf_entry(
                bs@,
                diff_filter@,
                norm_filter@,
                norm_tail@,
                scale as int,
                f,
            ),
        seq_within(row@, 0, ODF_OUT_LIMIT as int),
{
    let frames = bs.len();
    let h = norm_tail.len();
    let dlen = diff_filter.len();
    let dpad = dlen / 2;
    let nlen = norm_filter.len();
    let npad = nlen / 2;
    let mut row: Vec<i64> = Vec::new();
    let mut f: usize = 0;
    while f < frames
        invariant
            f <= frames,
            frames == bs@.len(),
            h == norm_tail@.len() <= frames,
            dlen == diff_filter@.len() >= 1,
            dpad == dlen / 2,
            nlen == norm_filter@.len() >= 1,
            npad == nlen / 2,
            seq_within(bs@, 0, BAND_SUM_LIMIT as int),
            seq_within(diff_filter@, -(ODF_SCALE_LIMIT as int), ODF_SCALE_LIMIT as int),
            abs_sum(diff_filter@, diff_filter@.len()) <= ODF_SCALE_LIMIT as int,
            seq_within(norm_filter@, 0, ODF_SCALE_LIMIT as int),
            sum_n(|k: int| norm_filter@[k] as int, norm_filter@.len()) <= ODF_SCALE_LIMIT as int,
            seq_within(norm_tail@, 1, scale as int),
            1 <= scale <= ODF_SCALE_LIMIT,
            bs@.len() + diff_filter@.len() <= usize::MAX,
            bs@.len() + norm_filter@.len() <= usize::MAX,
            row@.len() == f,
            forall|j: int|
                0 <= j < f ==> #[trigger] row@[j] as int == odf_entry(
                    bs@,
                    diff_filter@,
                    norm_filter@,
                    norm_tail@,
                    scale as int,
                    j,
                ),
            seq_within(row@, 0, ODF_OUT_LIMIT as int),
        decreases frames - f,
    {
        // Differentiated band energy, Hoelder-bounded by the filter's
        // absolute weight.
        let ghost dterm = |k: int|
            (diff_filter@[k] as int) * curve_padded(bs@, f - (diff_filter@.len() / 2) as int + k);
        let ghost dbound = |k: int| (abs(diff_filter@[k] as int) as int) * (BAND_SUM_LIMIT as int);
        proof {
            assert forall|k: int| 0 <= k < dlen implies -(#[trigger] dbound(k)) <= dterm(k)
                <= dbound(k) && dbound(k) >= 0 by {
                let p = curve_padded(bs@, f - (diff_filter@.len() / 2) as int + k);
                assert(0 <= p <= BAND_SUM_LIMIT as int);
                assert(-(abs(diff_filter@[k] as int) * (BAND_SUM_LIMIT as int)) <= (
                diff_filter@[k] as int) * p <= abs(diff_filter@[k] as int) * (BAND_SUM_LIMIT
                    as int)) by (nonlinear_arith)
                    requires
                        0 <= p <= BAND_SUM_LIMIT as int,
                        abs(diff_filter@[k] as int) >= diff_filter@[k] as int >= -abs(
                            diff_filter@[k] as int,
                        ),
                        abs(diff_filter@[k] as int) >= 0,
                ;
            }
            lemma_sum_n_scale(
                |k: int| abs(diff_filter@[k] as int) as int,
                dbound,
                BAND_SUM_LIMIT as int,
                diff_filter@.len(),
            );
            assert(sum_n(dbound, diff_filter@.len()) <= (ODF_SCALE_LIMIT as int) * (
            BAND_SUM_LIMIT as int)) by (nonlinear_arith)
                requires
                    sum_n(dbound, diff_filter@.len()) == (BAND_SUM_LIMIT as int) * abs_sum(
                        diff_filter@,
                        diff_filter@.len(),
                    ),
                    abs_sum(diff_filter@, diff_filter@.len()) <= ODF_SCALE_LIMIT as int,
                    BAND_SUM_LIMIT as int > 0,
            ;
        }
        let mut dc: i64 = 0;
        let mut k: usize = 0;
        while k < dlen
            invariant
                k <= dlen,
                f < frames,
                frames == bs@.len(),
                dlen == diff_filter@.len() >= 1,
                dpad == dlen / 2,
                seq_within(bs@, 0, BAND_SUM_LIMIT as int),
                seq_within(diff_filter@, -(ODF_SCALE_LIMIT as int), ODF_SCALE_LIMIT as int),
                bs@.len() + diff_filter@.len() <= usize::MAX,
                dterm == (|k: int|
                    (diff_filter@[k] as int) * curve_padded(
                        bs@,
                        f - (diff_filter@.len() / 2) as int + k,
                    )),
                dbound == (|k: int|
                    (abs(diff_filter@[k] as int) as int) * (BAND_SUM_LIMIT as int)),
                forall|j: int|
                    0 <= j < dlen ==> -(#[trigger] dbound(j)) <= dterm(j) <= dbound(j) && dbound(
                        j,
                    ) >= 0,
                sum_n(dbound, diff_filter@.len()) <= (ODF_SCALE_LIMIT as int) * (BAND_SUM_LIMIT
                    as int),
                dc == sum_n(dterm, k as nat),
                -sum_n(dbound, k as nat) <= dc <= sum_n(dbound, k as nat),
            decreases dlen - k,
        {
            let pos = f + k;
            let sval: i64 = if pos >= dpad && pos - dpad < frames {
                bs[pos - dpad]
            } else {
                0
            };
            proof {
                assert(sval as int == curve_padded(
                    bs@,
                    f - (diff_filter@.len() / 2) as int + k,
                ));
                assert(-((ODF_SCALE_LIMIT as int) * (BAND_SUM_LIMIT as int)) <= (
                diff_filter@[k as int] as int) * (sval as int) <= (ODF_SCALE_LIMIT as int) * (
                BAND_SUM_LIMIT as int)) by (nonlinear_arith)
                    requires
                        -(ODF_SCALE_LIMIT as int) <= diff_filter@[k as int] as int
                            <= ODF_SCALE_LIMIT as int,
                        0 <= sval as int <= BAND_SUM_LIMIT as int,
                ;
                lemma_sum_n_abs_le(dterm, dbound, (k + 1) as nat);
                lemma_sum_n_prefix_le(dbound, (k + 1) as nat, diff_filter@.len());
            }
            let t: i64 = diff_filter[k] * sval;
            dc = dc + t;
            k += 1;
        }
        proof {
            lemma_sum_n_abs_le(dterm, dbound, diff_filter@.len());
            assert(dc == curve_local_sum(bs@, diff_filter@, f as int));
        }
        let d: i64 = if dc >= 0 {
            dc
        } else {
            0
        };

        // Local band energy under the normalisation filter.
        let ghost nterm = |k: int|
            (norm_filter@[k] as int) * curve_padded(bs@, f - (norm_filter@.len() / 2) as int + k);
        let ghost nbound = |k: int| (norm_filter@[k] as int) * (BAND_SUM_LIMIT as int);
        proof {
            assert forall|k: int| 0 <= k < nlen implies 0 <= #[trigger] nterm(k) <= nbound(k) by {
                let p = curve_padded(bs@, f - (norm_filter@.len() / 2) as int + k);
                assert(0 <= p <= BAND_SUM_LIMIT as int);
                assert(0 <= (norm_filter@[k] as int) * p <= (norm_filter@[k] as int) * (
                BAND_SUM_LIMIT as int)) by (nonlinear_arith)
                    requires
                        0 <= p <= BAND_SUM_LIMIT as int,
                        0 <= norm_filter@[k] as int,
                ;
            }
            assert forall|k: int| 0 <= k < nlen implies #[trigger] nbound(k) >= 0 by {
                assert((norm_filter@[k] as int) * (BAND_SUM_LIMIT as int) >= 0)
                    by (nonlinear_arith)
                    requires
                        norm_filter@[k] as int >= 0,
                ;
            }
            lemma_sum_n_scale(
                |k: int| norm_filter@[k] as int,
                nbound,
                BAND_SUM_LIMIT as int,
                norm_filter@.len(),
            );
            assert(sum_n(nbound, norm_filter@.len()) <= (ODF_SCALE_LIMIT as int) * (
            BAND_SUM_LIMIT as int)) by (nonlinear_arith)
                requires
                    sum_n(nbound, norm_filter@.len()) == (BAND_SUM_LIMIT as int) * sum_n(
                        |k: int| norm_filter@[k] as int,
                        norm_filter@.len(),
                    ),
                    sum_n(|k: int| norm_filter@[k] as int, norm_filter@.len())
                        <= ODF_SCALE_LIMIT as int,
                    BAND_SUM_LIMIT as int > 0,
            ;
        }
        let mut nc: i64 = 0;
        let mut k: usize = 0;
        while k < nlen
            invariant
                k <= nlen,
                f < frames,
                frames == bs@.len(),
                nlen == norm_filter@.len() >= 1,
                npad == nlen / 2,
                seq_within(bs@, 0, BAND_SUM_LIMIT as int),
                seq_within(norm_filter@, 0, ODF_SCALE_LIMIT as int),
                bs@.len() + norm_filter@.len() <= usize::MAX,
                nterm == (|k: int|
                    (norm_filter@[k] as int) * curve_padded(
                        bs@,
                        f - (norm_filter@.len() / 2) as int + k,
                    )),
                nbound == (|k: int| (norm_filter@[k] as int) * (BAND_SUM_LIMIT as int)),
                forall|j: int| 0 <= j < nlen ==> 0 <= #[trigger] nterm(j) <= nbound(j),
                forall|j: int| 0 <= j < nlen ==> #[trigger] nbound(j) >= 0,
                sum_n(nbound, norm_filter@.len()) <= (ODF_SCALE_LIMIT as int) * (BAND_SUM_LIMIT
                    as int),
                nc == sum_n(nterm, k as nat),
                0 <= nc <= sum_n(nbound, k as nat),
            decreases nlen - k,
        {
            let pos = f + k;
            let sval: i64 = if pos >= npad && pos - npad < frames {
                bs[pos - npad]
            } else {
                0
            };
            proof {
                assert(sval as int == curve_padded(
                    bs@,
                    f - (norm_filter@.len() / 2) as int + k,
                ));
                assert(0 <= (norm_filter@[k as int] as int) * (sval as int) <= (ODF_SCALE_LIMIT
                    as int) * (BAND_SUM_LIMIT as int)) by (nonlinear_arith)
                    requires
                        0 <= norm_filter@[k as int] as int <= ODF_SCALE_LIMIT as int,
                        0 <= sval as int <= BAND_SUM_LIMIT as int,
                ;
                crate::sums::lemma_sum_n_nonneg(nterm, (k + 1) as nat);
                lemma_sum_n_le(nterm, nbound, (k + 1) as nat);
                lemma_sum_n_prefix_le(nbound, (k + 1) as nat, norm_filter@.len());
            }
            let t: i64 = norm_filter[k] * sval;
            nc = nc + t;
            k += 1;
        }
        proof {
            assert(nc == curve_local_sum(bs@, norm_filter@, f as int));
        }

        // Boundary weight, then the guarded division.
        let t: i64 = if f < h {
            norm_tail[h - 1 - f]
        } else if f >= frames - h {
            norm_tail[f - (frames - h)]
        } else {
            scale
        };
        proof {
            assert(t as int == boundary_weight(
                norm_tail@,
                scale as int,
                frames as int,
                f as int,
            ));
            assert(1 <= t as int <= ODF_SCALE_LIMIT as int);
            assert(0 <= (d as int) * (t as int) <= ((ODF_SCALE_LIMIT as int) * (BAND_SUM_LIMIT
                as int)) * (ODF_SCALE_LIMIT as int)) by (nonlinear_arith)
                requires
                    0 <= d as int <= (ODF_SCALE_LIMIT as int) * (BAND_SUM_LIMIT as int),
                    1 <= t as int <= ODF_SCALE_LIMIT as int,
            ;
        }
        let val: i64 = if nc > 0 {
            proof {
                vstd::arithmetic::div_mod::lemma_div_pos_is_pos(
                    (d as int) * (t as int),
                    nc as int,
                );
                vstd::arithmetic::div_mod::lemma_div_is_ordered_by_denominator(
                    (d as int) * (t as int),
                    1,
                    nc as int,
                );
                vstd::arithmetic::div_mod::lemma_div_multiples_vanish((d as int) * (t as int), 1);
                assert(1 * ((d as int) * (t as int)) == (d as int) * (t as int))
                    by (nonlinear_arith);
            }
            (((d as u64) * (t as u64)) / (nc as u64)) as i64
        } else {
            0
        };
        row.push(val);
        f += 1;
    }
    row
}

/// The antisymmetric onset differentiator built from a taper: the
/// taper's left half positive, the middle tap zero, the right half
/// negated.
pub fn make_diff_filter(taper: &Vec<i64>) -> (filt: Vec<i64>)
    requires
        taper@.len() >= 1,
        seq_within(taper@, 0, ODF_SCALE_LIMIT as int),
    ensures
        filt@.len() == taper@.len(),
        forall|k: int|
            0 <= k < taper@.len() ==> #[trigger] filt@[k] as int == (if k < taper@.len() / 2 {
                taper@[k] as int
            } else if k == taper@.len() / 2 {
                0int
            } else {
                -(taper@[k] as int)
            }),
        seq_within(filt@, -(ODF_SCALE_LIMIT as int), ODF_SCALE_LIMIT as int),
        abs_sum(filt@, filt@.len()) <= sum_n(|k: int| taper@[k] as int, taper@.len()),
{
    let n = taper.len();
    let half = n / 2;
    let mut filt: Vec<i64> = Vec::new();
    let mut k: usize = 0;
    while k < n
        invariant
            k <= n,
            n == taper@.len(),
            half == n / 2,
            seq_within(taper@, 0, ODF_SCALE_LIMIT as int),
            filt@.len() == k,
            forall|j: int|
                0 <= j < k ==> #[trigger] filt@[j] as int == (if j < taper@.len() / 2 {
                    taper@[j] as int
                } else if j == taper@.len() / 2 {
                    0int
                } else {
                    -(taper@[j] as int)
                }),
        decreases n - k,
    {
        let v = taper[k];
        let t: i64 = if k < half {
            v
        } else if k == half {
            0
        } else {
            -v
        };
        filt.push(t);
        k += 1;
    }
    proof {
        lemma_sum_n_le(
            |k: int| abs(filt@[k] as int) as int,
            |k: int| taper@[k] as int,
            taper@.len(),
        );
    }
    filt
}

/// The local-energy normalisation filter and its boundary weights, built
/// from a taper: the filter is the taper rescaled so its weights sum to
/// at most `scale`, and the boundary weight at position `i` is the
/// taper's remaining mass past position `i`, as a fraction of `scale`.
/// The first half of the weights serves both curve edges (reversed at
/// the front).
pub fn make_norm_filter(taper: &Vec<i64>, scale: i64) -> (r: (Vec<i64>, Vec<i64>))
    requires
        taper@.len() >= 1,
        taper@.len() <= DIM_LIMIT,
        seq_within(taper@, 0, ODF_SCALE_LIMIT as int),
        sum_n(|k: int| taper@[k] as int, taper@.len()) >= 1,
        1 <= scale <= ODF_SCALE_LIMIT,
    ensures
        r.0@.len() == taper@.len(),
        forall|k: int|
            0 <= k < taper@.len() ==> #[trigger] r.0@[k] as int == (taper@[k] as int) * scale
                / sum_n(|j: int| taper@[j] as int, taper@.len()),
        seq_within(r.0@, 0, scale as int),
        sum_n(|k: int| r.0@[k] as int, r.0@.len()) <= scale as int,
        r.1@.len() == taper@.len() / 2,
        forall|i: int|
            0 <= i < taper@.len() / 2 ==> #[trigger] r.1@[i] as int == (sum_n(
                |j: int| taper@[j] as int,
                taper@.len(),
            ) - sum_n(|j: int| taper@[j] as int, (i + 1) as nat)) * scale / sum_n(
                |j: int| taper@[j] as int,
                taper@.len(),
            ),
        seq_within(r.1@, 0, scale as int),
{
    let n = taper.len();
    let ghost tf = |j: int| taper@[j] as int;

    // Total taper mass.
    let mut total: i64 = 0;
    let mut k: usize = 0;
    while k < n
        invariant
            k <= n,
            n == taper@.len() <= DIM_LIMIT,
            seq_within(taper@, 0, ODF_SCALE_LIMIT as int),
            tf == (|j: int| taper@[j] as int),
            total == sum_n(tf, k as nat),
            0 <= total <= (k as int) * (ODF_SCALE_LIMIT as int),
        decreases n - k,
    {
        proof {
            assert((k as int) * (ODF_SCALE_LIMIT as int) + (ODF_SCALE_LIMIT as int) == ((k + 1)
                as int) * (ODF_SCALE_LIMIT as int)) by (nonlinear_arith);
            assert(((k + 1) as int) * (ODF_SCALE_LIMIT as int) <= (DIM_LIMIT as int) * (
            ODF_SCALE_LIMIT as int)) by (nonlinear_arith)
                requires
                    0 <= k + 1 <= DIM_LIMIT as int,
            ;
        }
        total = total + taper[k];
        k += 1;
    }
    proof {
        assert(total >= 1);
        assert((n as int) * (ODF_SCALE_LIMIT as int) <= (DIM_LIMIT as int) * (ODF_SCALE_LIMIT
            as int)) by (nonlinear_arith)
            requires
                0 <= n as int <= DIM_LIMIT as int,
        ;
    }

    // The normalised filter.
    let mut filt: Vec<i64> = Vec::new();
    let mut k: usize = 0;
    while k < n
        invariant
            k <= n,
            n == taper@.len() <= DIM_LIMIT,
            seq_within(taper@, 0, ODF_SCALE_LIMIT as int),
            tf == (|j: int| taper@[j] as int),
            1 <= total,
            total == sum_n(tf, n as nat),
            1 <= scale <= ODF_SCALE_LIMIT,
            filt@.len() == k,
            forall|j: int|
                0 <= j < k ==> #[trigger] filt@[j] as int == (taper@[j] as int) * (scale as int)
                    / (total as int),
            seq_within(filt@, 0, scale as int),
        decreases n - k,
    {
        let v = taper[k];
        proof {
            assert forall|j: int| 0 <= j < n implies #[trigger] tf(j) >= 0 by {}
            crate::sums::lemma_sum_n_term_le(tf, k as nat, n as nat);
            assert(0 <= (v as int) * (scale as int) <= (total as int) * (scale as int)
                && (v as int) * (scale as int) <= (ODF_SCALE_LIMIT as int) * (ODF_SCALE_LIMIT
                as int)) by (nonlinear_arith)
                requires
                    0 <= v as int <= total as int,
                    v as int <= ODF_SCALE_LIMIT as int,
                    1 <= scale as int <= ODF_SCALE_LIMIT as int,
            ;
            vstd::arithmetic::div_mod::lemma_div_pos_is_pos(
                (v as int) * (scale as int),
                total as int,
            );
            vstd::arithmetic::div_mod::lemma_div_is_ordered(
                (v as int) * (scale as int),
                (total as int) * (scale as int),
                total as int,
            );
            vstd::arithmetic::div_mod::lemma_div_multiples_vanish(scale as int, total as int);
        }
        let q: u64 = ((v as u64) * (scale as u64)) / (total as u64);
        filt.push(q as i64);
        k += 1;
    }
    proof {
        let ff = |j: int| filt@[j] as int;
        let scaled = |j: int| (taper@[j] as int) * (scale as int);
        assert forall|j: int| 0 <= j < n implies #[trigger] scaled(j) >= 0 && ff(j) == scaled(j)
            / (total as int) by {
            assert((taper@[j] as int) * (scale as int) >= 0) by (nonlinear_arith)
                requires
                    taper@[j] as int >= 0,
                    scale as int >= 1,
            ;
        }
        crate::sums::lemma_sum_n_div_le(scaled, ff, total as int, n as nat);
        assert forall|j: int| 0 <= j < n implies #[trigger] scaled(j) == (scale as int) * tf(
            j,
        ) by {
            assert((taper@[j] as int) * (scale as int) == (scale as int) * (taper@[j] as int))
                by (nonlinear_arith);
        }
        lemma_sum_n_scale(tf, scaled, scale as int, n as nat);
        assert(sum_n(scaled, n as nat) == (scale as int) * (total as int));
        assert((scale as int) * (total as int) == (total as int) * (scale as int))
            by (nonlinear_arith);
        vstd::arithmetic::div_mod::lemma_div_multiples_vanish(scale as int, total as int);
        assert(sum_n(ff, n as nat) <= scale as int);
    }

    // Boundary weights: the remaining taper mass past each position of
    // the first half, as a fraction of `scale`.
    let half = n / 2;
    let mut tail: Vec<i64> = Vec::new();
    let mut cum: i64 = 0;
    let mut i: usize = 0;
    while i < half
        invariant
            i <= half,
            half == n / 2,
            n == taper@.len() <= DIM_LIMIT,
            seq_within(taper@, 0, ODF_SCALE_LIMIT as int),
            tf == (|j: int| taper@[j] as int),
            1 <= total,
            total == sum_n(tf, n as nat),
            total as int <= (DIM_LIMIT as int) * (ODF_SCALE_LIMIT as int),
            1 <= scale <= ODF_SCALE_LIMIT,
            cum == sum_n(tf, i as nat),
            0 <= cum <= total,
            tail@.len() == i,
            forall|j: int|
                0 <= j < i ==> #[trigger] tail@[j] as int == (total as int - sum_n(
                    tf,
                    (j + 1) as nat,
                )) * (scale as int) / (total as int),
            seq_within(tail@, 0, scale as int),
        decreases half - i,
    {
        proof {
            assert forall|j: int| 0 <= j < n implies #[trigger] tf(j) >= 0 by {}
            crate::sums::lemma_sum_n_prefix_le(tf, (i + 1) as nat, n as nat);
            crate::sums::lemma_sum_n_nonneg(tf, (i + 1) as nat);
        }
        let new_cum = cum + taper[i];
        let rest = total - new_cum;
        proof {
            assert(0 <= (rest as int) * (scale as int) <= (total as int) * (scale as int)
                && (rest as int) * (scale as int) <= (DIM_LIMIT as int) * (ODF_SCALE_LIMIT
                as int) * (ODF_SCALE_LIMIT as int)) by (nonlinear_arith)
                requires
                    0 <= rest as int <= total as int,
                    total as int <= (DIM_LIMIT as int) * (ODF_SCALE_LIMIT as int),
                    1 <= scale as int <= ODF_SCALE_LIMIT as int,
            ;
            vstd::arithmetic::div_mod::lemma_div_pos_is_pos(
                (rest as int) * (scale as int),
                total as int,
            );
            vstd::arithmetic::div_mod::lemma_div_is_ordered(
                (rest as int) * (scale as int),
                (total as int) * (scale as int),
                total as int,
            );
            vstd::arithmetic::div_mod::lemma_div_multiples_vanish(scale as int, total as int);
            assert((total as int) * (scale as int) == (scale as int) * (total as int))
                by (nonlinear_arith);
        }
        let w: u64 = ((rest as u64) * (scale as u64)) / (total as u64);
        tail.push(w as i64);
        cum = new_cum;
        i += 1;
    }
    (filt, tail)
}

/// Per-band onset curves from a preconditioned fixed-point spectrum:
/// per-frame band-bin sums, antisymmetric differentiation, rectification,
/// and division by the locally summed energy, with cumulative-weight
/// correction at both edges. The caller normalises, clamps and
/// log-compresses the spectrum and hands in the fixed-point filters and
/// boundary weights.
pub fn calculate_band_odf(
    spectrum: &Matrix,
    bands: &Vec<(u64, u64)>,
    sr_mhz: u64,
    window_length: u64,
    diff_filter: &Vec<i64>,
    norm_filter: &Vec<i64>,
    norm_tail: &Vec<i64>,
    scale: i64,
) -> (out: Matrix)
    requires
        spectrum.wf(),
        spectrum.spec_rows() <= SPECTRUM_ROWS_LIMIT,
        spectrum.entries_within(0, scale as int),
        1 <= scale <= ODF_SCALE_LIMIT,
        forall|k: int|
            0 <= k < bands@.len()
                ==> (#[trigger] bands@[k]).0 <= 0x4000_0000 && bands@[k].1 <= 0x4000_0000,
        1 <= sr_mhz <= 0x4000_0000,
        1 <= window_length <= 0x10_0000,
        diff_filter@.len() >= 1,
        seq_within(diff_filter@, -(ODF_SCALE_LIMIT as int), ODF_SCALE_LIMIT as int),
        abs_sum(diff_filter@, diff_filter@.len()) <= ODF_SCALE_LIMIT as int,
        norm_filter@.len() >= 1,
        seq_within(norm_filter@, 0, ODF_SCALE_LIMIT as int),
        sum_n(|k: int| norm_filter@[k] as int, norm_filter@.len()) <= ODF_SCALE_LIMIT as int,
        seq_within(norm_tail@, 1, scale as int),
        norm_tail@.len() <= spectrum.spec_cols(),
        spectrum.spec_cols() + diff_filter@.len() <= usize::MAX,
        spectrum.spec_cols() + norm_filter@.len() <= usize::MAX,
        bands@.len() * spectrum.spec_cols() <= usize::MAX,
    ensures
        out.wf(),
        out.spec_rows() == bands@.len(),
        out.spec_cols() == spectrum.spec_cols(),
        forall|b: int, f: int|
            0 <= b < bands@.len() && 0 <= f < spectrum.spec_cols()
                ==> #[trigger] out.entry(b, f) == odf_entry(
                band_energies(
                    *spectrum,
                    band_bin(*spectrum, bands@[b].0 as int, sr_mhz as int, window_length as int),
                    band_bin(*spectrum, bands@[b].1 as int, sr_mhz as int, window_length as int),
                ),
                diff_filter@,
                norm_filter@,
                norm_tail@,
                scale as int,
                f,
            ),
        out.entries_within(0, ODF_OUT_LIMIT as int),
{
    let n_bands = bands.len();
    let rows = spectrum.rows();
    let cols = spectrum.cols();
    let mut out = Matrix::zeros(n_bands, cols);
    let mut b: usize = 0;
    while b < n_bands
        invariant
            b <= n_bands,
            n_bands == bands@.len(),
            spectrum.wf(),
            spectrum.spec_rows() <= SPECTRUM_ROWS_LIMIT,
            spectrum.entries_within(0, scale as int),
            1 <= scale <= ODF_SCALE_LIMIT,
            forall|k: int|
                0 <= k < bands@.len()
                    ==> (#[trigger] bands@[k]).0 <= 0x4000_0000 && bands@[k].1 <= 0x4000_0000,
            1 <= sr_mhz <= 0x4000_0000,
            1 <= window_length <= 0x10_0000,
            diff_filter@.len() >= 1,
            seq_within(diff_filter@, -(ODF_SCALE_LIMIT as int), ODF_SCALE_LIMIT as int),
            abs_sum(diff_filter@, diff_filter@.len()) <= ODF_SCALE_LIMIT as int,
            norm_filter@.len() >= 1,
            seq_within(norm_filter@, 0, ODF_SCALE_LIMIT as int),
            sum_n(|k: int| norm_filter@[k] as int, norm_filter@.len()) <= ODF_SCALE_LIMIT as int,
            seq_within(norm_tail@, 1, scale as int),
            norm_tail@.len() <= spectrum.spec_cols(),
            spectrum.spec_cols() + diff_filter@.len() <= usize::MAX,
            spectrum.spec_cols() + norm_filter@.len() <= usize::MAX,
            rows == spectrum.spec_rows(),
            cols == spectrum.spec_cols(),
            out.wf(),
            out.spec_rows() == n_bands,
            out.spec_cols() == cols,
            forall|a: int, f: int|
                0 <= a < b && 0 <= f < cols ==> #[trigger] out.entry(a, f) == odf_entry(
                    band_energies(
                        *spectrum,
                        band_bin(
                            *spectrum,
                            bands@[a].0 as int,
                            sr_mhz as int,
                            window_length as int,
                        ),
                        band_bin(
                            *spectrum,
                            bands@[a].1 as int,
                            sr_mhz as int,
                            window_length as int,
                        ),
                    ),
                    diff_filter@,
                    norm_filter@,
                    norm_tail@,
                    scale as int,
                    f,
                ),
            forall|a: int, f: int|
                0 <= a < n_bands && 0 <= f < cols ==> 0 <= #[trigger] out.entry(a, f)
                    <= ODF_OUT_LIMIT as int,
        decreases n_bands - b,
    {
        let band = bands[b];
        let (lo_u, hi_u) = band_to_bins(band.0, band.1, sr_mhz, window_length);
        let lo: usize = if (lo_u as usize) > rows {
            rows
        } else {
            lo_u as usize
        };
        let hi: usize = if (hi_u as usize) > rows {
            rows
        } else {
            hi_u as usize
        };
        proof {
            assert(lo as int == band_bin(
                *spectrum,
                bands@[b as int].0 as int,
                sr_mhz as int,
                window_length as int,
            ));
            assert(hi as int == band_bin(
                *spectrum,
                bands@[b as int].1 as int,
                sr_mhz as int,
                window_length as int,
            ));
        }
        let bs = band_energy_vec(spectrum, lo, hi, scale);
        proof {
            assert(bs@ =~= band_energies(*spectrum, lo as int, hi as int));
        }
        let row = band_odf_row(&bs, diff_filter, norm_filter, norm_tail, scale);
        let mut f: usize = 0;
        while f < cols
            invariant
                f <= cols,
                b < n_bands,
                n_bands == bands@.len(),
                cols == spectrum.spec_cols(),
                row@.len() == cols,
                bs@ == band_energies(
                    *spectrum,
                    band_bin(
                        *spectrum,
                        bands@[b as int].0 as int,
                        sr_mhz as int,
                        window_length as int,
                    ),
                    band_bin(
                        *spectrum,
                        bands@[b as int].1 as int,
                        sr_mhz as int,
                        window_length as int,
                    ),
                ),
                forall|j: int|
                    0 <= j < cols ==> #[trigger] row@[j] as int == odf_entry(
                        bs@,
                        diff_filter@,
                        norm_filter@,
                        norm_tail@,
                        scale as int,
                        j,
                    ),
                seq_within(row@, 0, ODF_OUT_LIMIT as int),
                out.wf(),
                out.spec_rows() == n_bands,
                out.spec_cols() == cols,
                forall|a: int, j: int|
                    0 <= a < b && 0 <= j < cols ==> #[trigger] out.entry(a, j) == odf_entry(
                        band_energies(
                            *spectrum,
                            band_bin(
                                *spectrum,
                                bands@[a].0 as int,
                                sr_mhz as int,
                                window_length as int,
                            ),
                            band_bin(
                                *spectrum,
                                bands@[a].1 as int,
                                sr_mhz as int,
                                window_length as int,
                            ),
                        ),
                        diff_filter@,
                        norm_filter@,
                        norm_tail@,
                        scale as int,
                        j,
                    ),
                forall|j: int|
                    0 <= j < f ==> #[trigger] out.entry(b as int, j) == odf_entry(
                        bs@,
                        diff_filter@,
                        norm_filter@,
                        norm_tail@,
                        scale as int,
                        j,
                    ),
                forall|a: int, j: int|
                    0 <= a < n_bands && 0 <= j < cols ==> 0 <= #[trigger] out.entry(a, j)
                        <= ODF_OUT_LIMIT as int,
            decreases cols - f,
        {
            out.set(b, f, row[f]);
            f += 1;
        }
        b += 1;
    }
    out
}

/// The rational resampling ratio `p / q` that takes the curve from
/// `source_mhz` to (approximately) `target_mhz`: `p` is
/// `round(precision * target / source)` and `q` is `precision`. The
/// reachable rate is the rounded one, so the caller must read the ratio
/// back rather than assume the target was hit exactly.
pub open spec fn resample_p(precision: int, target_mhz: int, source_mhz: int) -> int {
    (2 * precision * target_mhz + source_mhz) / (2 * source_mhz)
}

/// Plans a resampling step: `None` when the rounded ratio is the
/// identity, so no resampling is wanted; otherwise the ratio `(p, q)`.
pub fn resample_plan(precision: u64, target_mhz: u64, source_mhz: u64) -> (r: Option<(u64, u64)>)
    requires
        1 <= precision <= 0x10_0000,
        target_mhz <= 0x4000_0000,
        1 <= source_mhz <= 0x4000_0000,
    ensures
        r is None <==> resample_p(precision as int, target_mhz as int, source_mhz as int)
            == precision,
        r is Some ==> r == Some(
            (
                resample_p(precision as int, target_mhz as int, source_mhz as int) as u64,
                precision,
            ),
        ),
{
    proof {
        assert(0 <= 2 * (precision as int) * (target_mhz as int) <= 0x8_0000_0000_0000)
            by (nonlinear_arith)
            requires
                1 <= precision as int <= 0x10_0000,
                target_mhz as int <= 0x4000_0000,
        ;
    }
    let p = (2 * precision * target_mhz + source_mhz) / (2 * source_mhz);
    if p == precision {
        None
    } else {
        Some((p, precision))
    }
}

/// Resampling to the rate the curve already has is the identity: at equal
/// source and target rates the planned ratio collapses to `p == q`, so
/// the pipeline hands the curve back unchanged, with its length and every
/// sample kept.
pub proof fn lemma_resample_same_rate(precision: int, sr: int)
    requires
        precision >= 1,
        sr >= 1,
    ensures
        resample_p(precision, sr, sr) == precision,
{
    assert(2 * precision * sr + sr == sr * (2 * precision + 1)) by (nonlinear_arith);
    assert(sr * (2 * precision + 1) >= 0) by (nonlinear_arith)
        requires
            precision >= 1,
            sr >= 1,
    ;
    vstd::arithmetic::div_mod::lemma_div_denominator(sr * (2 * precision + 1), sr, 2);
    vstd::arithmetic::div_mod::lemma_div_multiples_vanish(2 * precision + 1, sr);
    vstd::arithmetic::div_mod::lemma_fundamental_div_mod_converse(
        2 * precision + 1,
        2,
        precision,
        1,
    );
    assert(sr * 2 == 2 * sr);
    assert(resample_p(precision, sr, sr) == (sr * (2 * precision + 1)) / (sr * 2));
}

} // verus!
