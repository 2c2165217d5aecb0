//! The tempo-structure pipeline: from a cyclic tempogram to an ordered
//! list of constant-tempo sections that partitions the recording.
//!
//! The spectral front end (waveform to novelty curve to tempogram
//! magnitudes) and the log-axis construction are external collaborators;
//! everything from triplet reinforcement to section BPM rounding runs
//! here. Offset refinement is a separate pass over the returned sections
//! (`extract_offset` and `correct_offset`).

use crate::matrix::Matrix;
use crate::preprocessing::{
    abs_sum, centered_abs_sum, centered_entry, col_argmax_upto, extract_tempo_curve,
    include_triplets, lemma_col_argmax_props, rectify, scale_by_norm, seq_within,
    smoothen_tempogram, triplet_row, AMP_LIMIT, DIM_LIMIT,
};
use crate::tempo_curve::{
    correct_curve_by_length, lemma_stabilize_preserves_bounds, runs_of, split_curve, stabilize,
};
use crate::tempo_sections::{
    lemma_is_sections_of_segments, lemma_merge_spec_bpm_lower, lemma_merge_spec_partition,
    lemma_split_spec_props, merge_sections, merge_spec, sections_contiguous, sections_of_segments,
    split_all, split_section, split_spec, tempo_segments_to_sections, TempoSection, SECTION_LIMIT,
};
use vstd::math::abs;
use vstd::prelude::*;

verus! {

/// Configuration of the tempo extraction, in fixed units: lengths in
/// milliseconds, BPM quantities in fixed-point BPM (scale 1000 by
/// default), counts as plain integers.
#[derive(Clone, Debug)]
pub struct TempoExtractionSettings {
    /// Analysis window length used for the tempogram.
    pub tempo_window_ms: u64,
    /// Analysis hop length used for the tempogram.
    pub tempo_hop_ms: u64,
    /// Lowest BPM of the scan axis.
    pub scan_bpm_min: i64,
    /// Step of the scan axis.
    pub scan_bpm_step: i64,
    /// Number of scanned BPM values.
    pub scan_bpm_count: usize,
    /// Reference tempo that partitions BPM into octaves.
    pub ref_tempo: i64,
    /// Cyclic bins per octave.
    pub octave_divider: usize,
    /// Weight of the triplet reinforcement.
    pub triplet_weight: i64,
    /// Length over which the tempogram is stabilised.
    pub smooth_length_ms: u64,
    /// Minimum tempo-section length.
    pub min_section_length_ms: u64,
    /// Maximum tempo-section length before a section is bisected.
    pub max_section_length_ms: u64,
    /// Tempo multiples considered when anchoring the BPM.
    pub tempo_multiples: Vec<i64>,
    /// BPM around which the real BPM is chosen.
    pub preferred_bpm: i64,
    /// Rounding precision of the final BPM.
    pub bpm_rounding_precision: i64,
    /// Width of the BPM window scanned during offset search.
    pub bpm_doubt_window: i64,
    /// Step taken within the doubt window.
    pub bpm_doubt_step: i64,
    /// Threshold under which neighbouring sections merge.
    pub bpm_merge_threshold: i64,
    /// Note subdivision the offset may snap to.
    pub smallest_fraction_shift: u32,
}

impl Default for TempoExtractionSettings {
    /// The stock configuration: 8 s windows with 0.2 s hop, 571 scanned
    /// BPM values from 30 up, reference tempo 60 with 120 cyclic bins,
    /// triplet weight 3, 20 s stabilisation, sections of 10 to 40
    /// seconds, multiples 1/2/4/6 around 120 BPM, half-BPM rounding, a
    /// 2 BPM doubt window in 0.1 steps, and quarter-bar offset snapping
    /// (BPM values fixed point at scale 1000).
    fn default() -> (s: TempoExtractionSettings)
        ensures
            s.tempo_window_ms == 8000,
            s.tempo_hop_ms == 200,
            s.scan_bpm_min == 30_000,
            s.scan_bpm_step == 1000,
            s.scan_bpm_count == 571,
            s.ref_tempo == 60,
            s.octave_divider == 120,
            s.triplet_weight == 3,
            s.smooth_length_ms == 20_000,
            s.min_section_length_ms == 10_000,
            s.max_section_length_ms == 40_000,
            s.tempo_multiples@ == seq![1i64, 2i64, 4i64, 6i64],
            s.preferred_bpm == 120_000,
            s.bpm_rounding_precision == 500,
            s.bpm_doubt_window == 2000,
            s.bpm_doubt_step == 100,
            s.bpm_merge_threshold == 500,
            s.smallest_fraction_shift == 4,
    {
        let mut multiples: Vec<i64> = Vec::new();
        multiples.push(1);
        multiples.push(2);
        multiples.push(4);
        multiples.push(6);
        proof {
            assert(multiples@ =~= seq![1i64, 2i64, 4i64, 6i64]);
        }
        TempoExtractionSettings {
            tempo_window_ms: 8000,
            tempo_hop_ms: 200,
            scan_bpm_min: 30_000,
            scan_bpm_step: 1000,
            scan_bpm_count: 571,
            ref_tempo: 60,
            octave_divider: 120,
            triplet_weight: 3,
            smooth_length_ms: 20_000,
            min_section_length_ms: 10_000,
            max_section_length_ms: 40_000,
            tempo_multiples: multiples,
            preferred_bpm: 120_000,
            bpm_rounding_precision: 500,
            bpm_doubt_window: 2000,
            bpm_doubt_step: 100,
            bpm_merge_threshold: 500,
            smallest_fraction_shift: 4,
        }
    }
}

/// A length in milliseconds expressed in samples at `sr_hz`, rounded to
/// the nearest sample.
pub open spec fn frames_at(ms: int, sr_hz: int) -> int {
    (2 * ms * sr_hz + 1000) / 2000
}

impl TempoExtractionSettings {
    /// Tempogram analysis window length in samples at `sr_hz`.
    pub fn get_tempo_window(&self, sr_hz: u64) -> (n: usize)
        requires
            self.tempo_window_ms <= 0x10_0000,
            1 <= sr_hz <= 0x10_0000,
        ensures
            n == frames_at(self.tempo_window_ms as int, sr_hz as int),
    {
        ms_to_frames(self.tempo_window_ms, sr_hz)
    }

    /// Tempogram hop length in samples at `sr_hz`.
    pub fn get_tempo_hop_size(&self, sr_hz: u64) -> (n: usize)
        requires
            self.tempo_hop_ms <= 0x10_0000,
            1 <= sr_hz <= 0x10_0000,
        ensures
            n == frames_at(self.tempo_hop_ms as int, sr_hz as int),
    {
        ms_to_frames(self.tempo_hop_ms, sr_hz)
    }

    /// Stabilisation length in frames at `sr_hz`.
    pub fn get_smooth_length(&self, sr_hz: u64) -> (n: usize)
        requires
            self.smooth_length_ms <= 0x10_0000,
            1 <= sr_hz <= 0x10_0000,
        ensures
            n == frames_at(self.smooth_length_ms as int, sr_hz as int),
    {
        ms_to_frames(self.smooth_length_ms, sr_hz)
    }

    /// Minimum section length in frames at `sr_hz`.
    pub fn get_min_section_length(&self, sr_hz: u64) -> (n: usize)
        requires
            self.min_section_length_ms <= 0x10_0000,
            1 <= sr_hz <= 0x10_0000,
        ensures
            n == frames_at(self.min_section_length_ms as int, sr_hz as int),
    {
        ms_to_frames(self.min_section_length_ms, sr_hz)
    }
}

/// Rounds a millisecond length to whole samples at `sr_hz`.
fn ms_to_frames(ms: u64, sr_hz: u64) -> (n: usize)
    requires
        ms <= 0x10_0000,
        1 <= sr_hz <= 0x10_0000,
    ensures
        n == frames_at(ms as int, sr_hz as int),
{
    proof {
        assert(0 <= 2 * (ms as int) * (sr_hz as int) <= 0x200_0000_0000) by (nonlinear_arith)
            requires
                ms as int <= 0x10_0000,
                1 <= sr_hz as int <= 0x10_0000,
        ;
        vstd::arithmetic::div_mod::lemma_div_is_ordered(
            2 * (ms as int) * (sr_hz as int) + 1000,
            0x200_0000_0000int + 1000,
            2000,
        );
    }
    ((2 * ms * sr_hz + 1000) / 2000) as usize
}

/// The tempo multiple among the first `n` whose product with `bpm` lies
/// closest to `preferred`; the earliest such multiple wins a tie.
pub open spec fn best_multiple_upto(
    multiples: Seq<i64>,
    bpm: int,
    preferred: int,
    n: nat,
) -> int
    decreases n,
{
    if n <= 1 {
        multiples[0] as int
    } else {
        let p = best_multiple_upto(multiples, bpm, preferred, (n - 1) as nat);
        if abs(preferred - multiples[n - 1] * bpm) < abs(preferred - p * bpm) {
            multiples[n - 1] as int
        } else {
            p
        }
    }
}

/// `b` rounded to the nearest multiple of `p` (halves round up).
pub open spec fn round_to_precision(b: int, p: int) -> int {
    ((2 * b + p) / (2 * p)) * p
}

/// Rescales a section's BPM by the tempo multiple that lands closest to
/// the preferred BPM, then rounds it to the configured precision. The
/// result stays positive: tempo-multiple rescaling never zeroes a BPM.
pub fn rescale_bpm(
    s: &mut TempoSection,
    multiples: &Vec<i64>,
    preferred_bpm: i64,
    precision: i64,
)
    requires
        old(s).wf(),
        old(s).bpm <= SECTION_LIMIT,
        multiples@.len() >= 1,
        forall|k: int| 0 <= k < multiples@.len() ==> 1 <= #[trigger] multiples@[k] <= 64,
        0 <= preferred_bpm <= SECTION_LIMIT,
        1 <= precision,
        precision <= 2 * old(s).bpm,
    ensures
        *final(s) == (TempoSection {
            bpm: round_to_precision(
                best_multiple_upto(
                    multiples@,
                    old(s).bpm as int,
                    preferred_bpm as int,
                    multiples@.len(),
                ) * old(s).bpm,
                precision as int,
            ) as i64,
            ..*old(s)
        }),
        final(s).wf(),
        final(s).bpm as int % precision as int == 0,
        final(s).bpm <= 64 * SECTION_LIMIT + precision,
{
    let bpm = s.bpm();
    let n = multiples.len();
    let mut best: i64 = multiples[0];
    let mut k: usize = 1;
    while k < n
        invariant
            1 <= k <= n,
            n == multiples@.len(),
            forall|j: int| 0 <= j < multiples@.len() ==> 1 <= #[trigger] multiples@[j] <= 64,
            0 < bpm <= SECTION_LIMIT,
            0 <= preferred_bpm <= SECTION_LIMIT,
            best as int == best_multiple_upto(
                multiples@,
                bpm as int,
                preferred_bpm as int,
                k as nat,
            ),
            1 <= best <= 64,
        decreases n - k,
    {
        let m = multiples[k];
        proof {
            assert(0 < (m as int) * (bpm as int) <= 64 * (SECTION_LIMIT as int))
                by (nonlinear_arith)
                requires
                    1 <= m as int <= 64,
                    0 < bpm as int <= SECTION_LIMIT as int,
            ;
            assert(0 < (best as int) * (bpm as int) <= 64 * (SECTION_LIMIT as int))
                by (nonlinear_arith)
                requires
                    1 <= best as int <= 64,
                    0 < bpm as int <= SECTION_LIMIT as int,
            ;
        }
        let cm = m * bpm;
        let cb = best * bpm;
        let dm = if preferred_bpm >= cm {
            preferred_bpm - cm
        } else {
            cm - preferred_bpm
        };
        let db = if preferred_bpm >= cb {
            preferred_bpm - cb
        } else {
            cb - preferred_bpm
        };
        if dm < db {
            best = m;
        }
        k += 1;
    }
    proof {
        assert(0 < (best as int) * (bpm as int) <= 64 * (SECTION_LIMIT as int))
            by (nonlinear_arith)
            requires
                1 <= best as int <= 64,
                0 < bpm as int <= SECTION_LIMIT as int,
        ;
        assert((best as int) * (bpm as int) >= 1 * (bpm as int)) by (nonlinear_arith)
            requires
                1 <= best as int,
                0 < bpm as int,
        ;
    }
    let mb: i64 = best * bpm;
    let num: i64 = 2 * mb + precision;
    let q: u64 = (num as u64) / (2 * (precision as u64));
    proof {
        vstd::arithmetic::div_mod::lemma_fundamental_div_mod(num as int, 2 * (precision as int));
        vstd::arithmetic::div_mod::lemma_div_pos_is_pos(num as int, 2 * (precision as int));
        assert(2 * (precision as int) <= num as int);
        vstd::arithmetic::div_mod::lemma_div_is_ordered(
            2 * (precision as int),
            num as int,
            2 * (precision as int),
        );
        vstd::arithmetic::div_mod::lemma_div_by_self(2 * (precision as int));
        assert(q as int >= 1);
        assert((2 * (precision as int)) * (q as int) == 2 * ((precision as int) * (q as int)))
            by (nonlinear_arith);
        assert(2 * ((precision as int) * (q as int)) <= num as int);
        assert((q as int) * (precision as int) == (precision as int) * (q as int))
            by (nonlinear_arith);
        assert((q as int) * (precision as int) >= 1 * (precision as int)) by (nonlinear_arith)
            requires
                q as int >= 1,
                precision as int >= 1,
        ;
        vstd::arithmetic::div_mod::lemma_mod_multiples_basic(q as int, precision as int);
    }
    let rounded: i64 = (q as i64) * precision;
    s.set_bpm(rounded);
}

/// `curve` is the tempo curve the cyclic tempogram determines: there are
/// intermediate matrices for the triplet reinforcement, the smoothing
/// with mean removal and L1 normalisation, and the rectification, and
/// the curve is the per-frame argmax of the last over the cyclic axis.
pub open spec fn is_tempo_curve_of(
    cyclic: Matrix,
    axis: Seq<i64>,
    w: Seq<i64>,
    scale: int,
    weight: int,
    curve: Seq<i64>,
) -> bool {
    exists|reinforced: Matrix, smoothed: Matrix, rect: Matrix|
        #![trigger reinforced.wf(), smoothed.wf(), rect.wf()]
        {
            &&& reinforced.wf()
            &&& reinforced.spec_rows() == cyclic.spec_rows()
            &&& reinforced.spec_cols() == cyclic.spec_cols()
            &&& (forall|r: int, c: int|
                0 <= r < cyclic.spec_rows() && 0 <= c < cyclic.spec_cols()
                    ==> #[trigger] reinforced.entry(r, c) == cyclic.entry(r, c) + weight * (
                    cyclic.entry(triplet_row(axis, r, scale), c) * cyclic.entry(r, c) / scale))
            &&& smoothed.wf()
            &&& smoothed.spec_rows() == cyclic.spec_rows()
            &&& smoothed.spec_cols() == cyclic.spec_cols()
            &&& (forall|r: int, c: int|
                0 <= r < cyclic.spec_rows() && 0 <= c < cyclic.spec_cols()
                    ==> #[trigger] smoothed.entry(r, c) == scale_by_norm(
                    centered_entry(reinforced, w, r, c),
                    scale,
                    centered_abs_sum(reinforced, w, c, cyclic.spec_rows() as nat),
                ))
            &&& rect.wf()
            &&& rect.spec_rows() == cyclic.spec_rows()
            &&& rect.spec_cols() == cyclic.spec_cols()
            &&& (forall|r: int, c: int|
                0 <= r < cyclic.spec_rows() && 0 <= c < cyclic.spec_cols()
                    ==> #[trigger] rect.entry(r, c) == if smoothed.entry(r, c) >= 0 {
                    smoothed.entry(r, c)
                } else {
                    0
                })
            &&& curve.len() == cyclic.spec_cols()
            &&& (forall|c: int|
                0 <= c < curve.len() ==> #[trigger] curve[c] == axis[col_argmax_upto(
                    rect,
                    c,
                    cyclic.spec_rows() as nat,
                )])
        }
}

/// The merged section list a tempo curve determines: the stabilised
/// curve's canonical runs, mapped to sections in ticks, with near-equal
/// neighbours collapsed into duration-weighted averages.
pub open spec fn merged_sections_spec(
    curve: Seq<i64>,
    min_frames: int,
    tpf: int,
    ref_tempo: int,
    threshold: int,
) -> Seq<TempoSection> {
    let stable = stabilize(curve, min_frames);
    merge_spec(sections_of_segments(stable, runs_of(stable), tpf, ref_tempo), threshold, 0)
}

/// A steady tempo yields exactly one section: a constant tempo curve, at
/// least the minimum section length long and with a span under the split
/// bound, determines a single section covering the whole range whose BPM
/// is the curve's constant value times the reference tempo.
pub proof fn lemma_constant_curve_single_section(
    curve: Seq<i64>,
    min_frames: int,
    tpf: int,
    ref_tempo: int,
    threshold: int,
    max_ticks: u64,
)
    requires
        1 <= curve.len(),
        min_frames <= curve.len(),
        forall|i: int| 0 <= i < curve.len() ==> #[trigger] curve[i] == curve[0],
        0 < curve[0],
        0 < ref_tempo,
        curve[0] * ref_tempo <= SECTION_LIMIT,
        1 <= tpf,
        curve.len() * tpf <= SECTION_LIMIT,
        curve.len() * tpf < max_ticks,
    ensures
        split_all(
            merged_sections_spec(curve, min_frames, tpf, ref_tempo, threshold),
            max_ticks,
            0,
        ) == seq![
            TempoSection {
                start: 0,
                end: (curve.len() * tpf) as u64,
                bpm: (curve[0] * ref_tempo) as i64,
                offset: 0,
            },
        ],
{
    // The whole curve is one full-length run, so stabilisation keeps it.
    crate::tempo_curve::lemma_constant_curve_runs(curve);
    crate::tempo_curve::lemma_stabilize_stable_identity(curve, min_frames);
    assert(stabilize(curve, min_frames) == curve);

    // One segment maps to one section over the whole tick range.
    reveal(sections_of_segments);
    let seg = crate::tempo_curve::Segment { start: 0, end: curve.len() as usize };
    assert(runs_of(curve) == seq![seg]);
    assert(0 < curve.len() * tpf) by (nonlinear_arith)
        requires
            1 <= curve.len(),
            1 <= tpf,
    ;
    assert(0 < curve[0] * ref_tempo) by (nonlinear_arith)
        requires
            0 < curve[0],
            0 < ref_tempo,
    ;
    let one = TempoSection {
        start: 0,
        end: (curve.len() * tpf) as u64,
        bpm: (curve[0] * ref_tempo) as i64,
        offset: 0,
    };
    assert(curve.len() * 1 <= curve.len() * tpf) by (nonlinear_arith)
        requires
            1 <= tpf,
            0 <= curve.len(),
    ;
    assert(curve.len() <= SECTION_LIMIT);
    assert((curve.len() as usize) as int == curve.len());
    assert(seg.start as int * tpf == 0) by (nonlinear_arith)
        requires
            seg.start as int == 0,
    ;
    assert(sections_of_segments(curve, seq![seg], tpf, ref_tempo) =~= seq![one]);

    // A single section merges to itself and is too short to split.
    assert(one.wf() && one.bounded());
    crate::tempo_sections::lemma_merge_spec_singleton(one, threshold);
    assert(split_spec(one, max_ticks) == seq![one]);
    assert(split_all(seq![one], max_ticks, 1) =~= Seq::<TempoSection>::empty());
    assert(split_all(seq![one], max_ticks, 0) =~= seq![one]);
}

/// The per-frame tempo curve of a cyclic tempogram: triplet
/// reinforcement, smoothing with mean removal and L1 normalisation,
/// rectification, and the per-frame argmax. Every curve value is a
/// cyclic-axis entry, so the curve lies in the axis octave.
fn tempo_curve_from_cyclic(
    cyclic: &Matrix,
    axis: &Vec<i64>,
    smooth_window: &Vec<i64>,
    scale: i64,
    triplet_weight: i64,
) -> (curve: Vec<i64>)
    requires
        cyclic.wf(),
        1 <= cyclic.spec_rows() <= DIM_LIMIT,
        axis@.len() == cyclic.spec_rows(),
        cyclic.entries_within(0, scale as int),
        forall|i: int|
            0 <= i < axis@.len() ==> scale as int <= #[trigger] axis@[i] < 2 * (scale as int),
        1 <= scale,
        0 <= triplet_weight,
        scale * (1 + triplet_weight) <= AMP_LIMIT as int,
        smooth_window@.len() >= 1,
        seq_within(smooth_window@, -AMP_LIMIT as int, AMP_LIMIT as int),
        abs_sum(smooth_window@, smooth_window@.len()) <= AMP_LIMIT as int,
        cyclic.spec_cols() + smooth_window@.len() <= usize::MAX,
    ensures
        curve@.len() == cyclic.spec_cols(),
        forall|c: int|
            0 <= c < curve@.len() ==> scale as int <= #[trigger] curve@[c] < 2 * (scale as int),
        is_tempo_curve_of(
            *cyclic,
            axis@,
            smooth_window@,
            scale as int,
            triplet_weight as int,
            curve@,
        ),
{
    let rows = cyclic.rows();
    let cols = cyclic.cols();
    proof {
        assert((scale as int) * 1 <= (scale as int) * (1 + triplet_weight as int))
            by (nonlinear_arith)
            requires
                scale as int >= 1,
                triplet_weight as int >= 0,
        ;
    }
    let reinforced = include_triplets(cyclic, axis, triplet_weight, scale);
    let smoothed = smoothen_tempogram(&reinforced, smooth_window, scale);
    let rect = rectify(&smoothed);
    let curve = extract_tempo_curve(&rect, axis);
    proof {
        assert forall|c: int| 0 <= c < cols implies scale as int <= #[trigger] curve@[c] < 2 * (
        scale as int) by {
            lemma_col_argmax_props(rect, c, rows as nat);
        }
        assert(reinforced.wf() && smoothed.wf() && rect.wf());
        assert(is_tempo_curve_of(
            *cyclic,
            axis@,
            smooth_window@,
            scale as int,
            triplet_weight as int,
            curve@,
        ));
    }
    curve
}

/// Stabilises the tempo curve, cuts it into constant runs, maps the runs
/// to sections in ticks, and merges near-equal neighbours. The result
/// partitions `[0, curve.len() * ticks_per_frame)` and every BPM lies in
/// `[scale * ref_tempo, SECTION_LIMIT]`.
#[verifier::rlimit(60)]
fn curve_to_sections(
    curve: &Vec<i64>,
    min_section_frames: usize,
    ticks_per_frame: u64,
    ref_tempo: i64,
    bpm_merge_threshold: i64,
    scale: i64,
) -> (merged: Vec<TempoSection>)
    requires
        forall|c: int|
            0 <= c < curve@.len() ==> scale as int <= #[trigger] curve@[c] < 2 * (scale as int),
        1 <= scale <= AMP_LIMIT,
        1 <= ref_tempo,
        2 * scale * ref_tempo <= SECTION_LIMIT as int,
        1 <= ticks_per_frame,
        curve@.len() * ticks_per_frame <= SECTION_LIMIT,
    ensures
        sections_contiguous(merged@),
        forall|k: int| 0 <= k < merged@.len() ==> (#[trigger] merged@[k]).wf(),
        forall|k: int| 0 <= k < merged@.len() ==> (#[trigger] merged@[k]).bounded(),
        forall|k: int|
            0 <= k < merged@.len()
                ==> (#[trigger] merged@[k]).bpm >= (scale as int) * (ref_tempo as int),
        curve@.len() == 0 ==> merged@.len() == 0,
        curve@.len() > 0 ==> merged@.len() > 0 && merged@[0].start == 0 && merged@.last().end
            == curve@.len() * ticks_per_frame,
        merged@ == merged_sections_spec(
            curve@,
            min_section_frames as int,
            ticks_per_frame as int,
            ref_tempo as int,
            bpm_merge_threshold as int,
        ),
{
    let ghost low_bpm = (scale as int) * (ref_tempo as int);
    let stable = correct_curve_by_length(curve, min_section_frames);
    proof {
        lemma_stabilize_preserves_bounds(
            curve@,
            min_section_frames as int,
            scale as int,
            2 * (scale as int) - 1,
        );
        assert(stable@.len() == curve@.len());
        assert forall|i: int| 0 <= i < stable@.len() implies scale as int <= #[trigger] stable@[i]
            < 2 * (scale as int) by {
            assert(stable@[i] == stabilize(curve@, min_section_frames as int)[i]);
        }
    }
    let segments = split_curve(&stable);
    proof {
        assert forall|i: int| 0 <= i < stable@.len() implies 0 < #[trigger] stable@[i]
            && stable@[i] * ref_tempo <= i64::MAX by {
            assert(stable@[i] * (ref_tempo as int) < 2 * (scale as int) * (ref_tempo as int)
                && stable@[i] * (ref_tempo as int) >= (scale as int) * (ref_tempo as int))
                by (nonlinear_arith)
                requires
                    scale as int <= stable@[i] < 2 * (scale as int),
                    ref_tempo as int >= 1,
            ;
            assert(2 * (scale as int) * (ref_tempo as int) == 2 * ((scale as int) * (ref_tempo
                as int))) by (nonlinear_arith);
        }
        assert(curve@.len() * ticks_per_frame <= u64::MAX);
    }
    let raw_sections = tempo_segments_to_sections(&stable, &segments, ticks_per_frame, ref_tempo);
    proof {
        assert forall|k: int| 0 <= k < raw_sections@.len() implies (
        #[trigger] raw_sections@[k]).bounded() && raw_sections@[k].bpm >= low_bpm by {
            let seg = segments@[k];
            assert(seg.end <= stable@.len());
            assert(seg.end * ticks_per_frame <= stable@.len() * ticks_per_frame)
                by (nonlinear_arith)
                requires
                    seg.end <= stable@.len(),
                    ticks_per_frame >= 1,
            ;
            assert(scale as int <= stable@[seg.start as int] < 2 * (scale as int));
            assert(stable@[seg.start as int] * (ref_tempo as int) >= (scale as int) * (ref_tempo
                as int) && stable@[seg.start as int] * (ref_tempo as int) <= 2 * (scale as int) * (
            ref_tempo as int)) by (nonlinear_arith)
                requires
                    scale as int <= stable@[seg.start as int] <= 2 * (scale as int),
                    ref_tempo as int >= 1,
            ;
            assert(2 * (scale as int) * (ref_tempo as int) == 2 * ((scale as int) * (ref_tempo
                as int))) by (nonlinear_arith);
        }
        assert forall|k: int| 0 <= k < raw_sections@.len() - 1 implies (
        #[trigger] raw_sections@[k]).end == raw_sections@[k + 1].start by {
            assert(segments@[k].end == segments@[k + 1].start);
        }
    }
    let merged = merge_sections(&raw_sections, bpm_merge_threshold);
    proof {
        lemma_merge_spec_partition(raw_sections@, bpm_merge_threshold as int, 0);
        lemma_merge_spec_bpm_lower(raw_sections@, bpm_merge_threshold as int, 0, low_bpm);
        if curve@.len() > 0 {
            assert(segments@.len() > 0);
            assert(raw_sections@[0].start == segments@[0].start * ticks_per_frame);
            assert(raw_sections@.last() == raw_sections@[raw_sections@.len() - 1]);
            assert(segments@.last().end == stable@.len());
            assert(raw_sections@.last().end == segments@[segments@.len() - 1].end
                * ticks_per_frame);
        }
        lemma_is_sections_of_segments(
            stable@,
            segments@,
            ticks_per_frame as int,
            ref_tempo as int,
            raw_sections@,
        );
        assert(stable@ == stabilize(curve@, min_section_frames as int));
        assert(segments@ == runs_of(stable@));
        assert(merged@ == merged_sections_spec(
            curve@,
            min_section_frames as int,
            ticks_per_frame as int,
            ref_tempo as int,
            bpm_merge_threshold as int,
        ));
    }
    merged
}

/// Bisects every section of `list` until all pieces are shorter than
/// `max_ticks`, keeping the partition, the BPM values and their floor
/// `lb`.
fn split_long_sections(list: &Vec<TempoSection>, max_ticks: u64, lb: Ghost<int>) -> (out: Vec<
    TempoSection,
>)
    requires
        2 <= max_ticks,
        lb@ >= 1,
        sections_contiguous(list@),
        forall|j: int| 0 <= j < list@.len() ==> (#[trigger] list@[j]).wf(),
        forall|j: int| 0 <= j < list@.len() ==> (#[trigger] list@[j]).bounded(),
        forall|j: int| 0 <= j < list@.len() ==> (#[trigger] list@[j]).bpm >= lb@,
    ensures
        list@.len() == 0 ==> out@.len() == 0,
        list@.len() > 0 ==> out@.len() > 0 && out@[0].start == list@[0].start && out@.last().end
            == list@.last().end,
        sections_contiguous(out@),
        forall|j: int| 0 <= j < out@.len() ==> (#[trigger] out@[j]).wf(),
        forall|j: int| 0 <= j < out@.len() ==> (#[trigger] out@[j]).end <= SECTION_LIMIT,
        forall|j: int| 0 <= j < out@.len() ==> (#[trigger] out@[j]).bpm >= lb@,
        forall|j: int| 0 <= j < out@.len() ==> (#[trigger] out@[j]).bpm <= SECTION_LIMIT,
        forall|j: int|
            0 <= j < out@.len() ==> (#[trigger] out@[j]).end - out@[j].start < max_ticks,
        out@ == split_all(list@, max_ticks, 0),
{
    let mut out: Vec<TempoSection> = Vec::new();
    proof {
        assert(out@ + split_all(list@, max_ticks, 0) =~= split_all(list@, max_ticks, 0));
    }
    let mut k: usize = 0;
    while k < list.len()
        invariant
            k <= list@.len(),
            2 <= max_ticks,
            lb@ >= 1,
            sections_contiguous(list@),
            forall|j: int| 0 <= j < list@.len() ==> (#[trigger] list@[j]).wf(),
            forall|j: int| 0 <= j < list@.len() ==> (#[trigger] list@[j]).bounded(),
            forall|j: int| 0 <= j < list@.len() ==> (#[trigger] list@[j]).bpm >= lb@,
            k == 0 ==> out@.len() == 0,
            k > 0 ==> out@.len() > 0 && out@[0].start == list@[0].start && out@.last().end
                == list@[k - 1].end,
            sections_contiguous(out@),
            forall|j: int| 0 <= j < out@.len() ==> (#[trigger] out@[j]).wf(),
            forall|j: int| 0 <= j < out@.len() ==> (#[trigger] out@[j]).end <= SECTION_LIMIT,
            forall|j: int| 0 <= j < out@.len() ==> (#[trigger] out@[j]).bpm >= lb@,
            forall|j: int| 0 <= j < out@.len() ==> (#[trigger] out@[j]).bpm <= SECTION_LIMIT,
            forall|j: int|
                0 <= j < out@.len() ==> (#[trigger] out@[j]).end - out@[j].start < max_ticks,
            out@ + split_all(list@, max_ticks, k as int) == split_all(list@, max_ticks, 0),
        decreases list@.len() - k,
    {
        let s = list[k];
        let ghost old_out = out@;
        split_section(s, &mut out, max_ticks);
        proof {
            lemma_split_spec_props(s, max_ticks);
            let pieces = split_spec(s, max_ticks);
            assert(out@ == old_out + pieces);
            assert(forall|t: int|
                0 <= t < old_out.len() ==> #[trigger] out@[t] == old_out[t]);
            assert(forall|t: int|
                0 <= t < pieces.len() ==> #[trigger] out@[old_out.len() + t] == pieces[t]);
            assert(out@.last() == pieces.last());
            if k > 0 {
                assert(list@[k - 1].end == list@[k as int].start);
                assert(old_out.last() == out@[old_out.len() - 1]);
            }
            assert forall|t: int| 0 <= t < out@.len() - 1 implies (#[trigger] out@[t]).end
                == out@[t + 1].start by {
                if t + 1 < old_out.len() {
                } else if t + 1 == old_out.len() {
                    assert(out@[t] == old_out[t]);
                    assert(out@[t + 1] == pieces[0]);
                } else {
                    assert(out@[t] == pieces[t - old_out.len()]);
                    assert(out@[t + 1] == pieces[t + 1 - old_out.len()]);
                }
            }
            assert forall|t: int| 0 <= t < out@.len() implies (#[trigger] out@[t]).wf()
                && out@[t].end <= SECTION_LIMIT && out@[t].bpm >= lb@ && out@[t].bpm
                <= SECTION_LIMIT && out@[t].end - out@[t].start < max_ticks by {
                if t < old_out.len() {
                } else {
                    assert(out@[t] == pieces[t - old_out.len()]);
                }
            }
            if k == 0 {
                assert(out@[0] == pieces[0]);
            }
            assert(split_all(list@, max_ticks, k as int) == split_spec(s, max_ticks) + split_all(
                list@,
                max_ticks,
                k + 1,
            ));
            assert(out@ + split_all(list@, max_ticks, k + 1) =~= old_out + split_all(
                list@,
                max_ticks,
                k as int,
            ));
        }
        k += 1;
    }
    proof {
        assert(out@ =~= out@ + split_all(list@, max_ticks, list@.len() as int));
    }
    out
}

/// Anchors every section's BPM to the preferred tempo and rounds it,
/// leaving the time structure untouched. This pass follows the offset
/// search: after each section's BPM has been refined against the novelty
/// curve, it is rescaled by the best tempo multiple and rounded.
pub fn rescale_sections(
    sections: &mut Vec<TempoSection>,
    tempo_multiples: &Vec<i64>,
    preferred_bpm: i64,
    bpm_rounding_precision: i64,
)
    requires
        tempo_multiples@.len() >= 1,
        forall|k: int|
            0 <= k < tempo_multiples@.len() ==> 1 <= #[trigger] tempo_multiples@[k] <= 64,
        0 <= preferred_bpm <= SECTION_LIMIT,
        1 <= bpm_rounding_precision,
        forall|j: int| 0 <= j < old(sections)@.len() ==> (#[trigger] old(sections)@[j]).wf(),
        forall|j: int|
            0 <= j < old(sections)@.len() ==> 2 * (#[trigger] old(sections)@[j]).bpm
                >= bpm_rounding_precision,
        forall|j: int|
            0 <= j < old(sections)@.len() ==> (#[trigger] old(sections)@[j]).bpm
                <= SECTION_LIMIT,
    ensures
        final(sections)@.len() == old(sections)@.len(),
        forall|j: int|
            0 <= j < old(sections)@.len() ==> #[trigger] final(sections)@[j] == (TempoSection {
                bpm: round_to_precision(
                    best_multiple_upto(
                        tempo_multiples@,
                        old(sections)@[j].bpm as int,
                        preferred_bpm as int,
                        tempo_multiples@.len(),
                    ) * old(sections)@[j].bpm,
                    bpm_rounding_precision as int,
                ) as i64,
                ..old(sections)@[j]
            }),
        forall|j: int|
            0 <= j < old(sections)@.len() ==> (#[trigger] final(sections)@[j]).wf(),
        forall|j: int|
            0 <= j < old(sections)@.len() ==> (#[trigger] final(sections)@[j]).bpm as int % (
            bpm_rounding_precision as int) == 0,
{
    let n = sections.len();
    let ghost pre = sections@;
    let mut k: usize = 0;
    while k < n
        invariant
            k <= n,
            n == sections@.len(),
            pre.len() == n,
            tempo_multiples@.len() >= 1,
            forall|j: int|
                0 <= j < tempo_multiples@.len() ==> 1 <= #[trigger] tempo_multiples@[j] <= 64,
            0 <= preferred_bpm <= SECTION_LIMIT,
            1 <= bpm_rounding_precision,
            forall|j: int|
                0 <= j < k ==> #[trigger] sections@[j] == (TempoSection {
                    bpm: round_to_precision(
                        best_multiple_upto(
                            tempo_multiples@,
                            pre[j].bpm as int,
                            preferred_bpm as int,
                            tempo_multiples@.len(),
                        ) * pre[j].bpm,
                        bpm_rounding_precision as int,
                    ) as i64,
                    ..pre[j]
                }),
            forall|j: int| 0 <= j < k ==> (#[trigger] sections@[j]).wf(),
            forall|j: int|
                0 <= j < k ==> (#[trigger] sections@[j]).bpm as int % (bpm_rounding_precision
                    as int) == 0,
            forall|j: int| k <= j < n ==> #[trigger] sections@[j] == pre[j],
            forall|j: int| 0 <= j < n ==> (#[trigger] pre[j]).wf(),
            forall|j: int| 0 <= j < n ==> 2 * (#[trigger] pre[j]).bpm >= bpm_rounding_precision,
            forall|j: int| 0 <= j < n ==> (#[trigger] pre[j]).bpm <= SECTION_LIMIT,
        decreases n - k,
    {
        let mut s = sections[k];
        rescale_bpm(&mut s, tempo_multiples, preferred_bpm, bpm_rounding_precision);
        sections.set(k, s);
        k += 1;
    }
}

/// Extracts the tempo sections of a recording from its cyclic tempogram.
///
/// The stages: triplet reinforcement, smoothing with mean removal and L1
/// normalisation, rectification, per-frame argmax into a tempo curve,
/// length stabilisation, run-length segmentation into sections, merging
/// of near-equal neighbours, and bisection of over-long sections. The
/// returned sections partition `[0, frames * ticks_per_frame)` in time
/// order with no gap or overlap, every section is nonempty and shorter
/// than `max_section_ticks`, and every BPM lies between
/// `scale * ref_tempo` and `SECTION_LIMIT`. Offset refinement
/// (`extract_offset`, `correct_offset`) and the final BPM anchoring
/// (`rescale_sections`) follow as separate passes over the result.
pub fn extract_tempo(
    cyclic: &Matrix,
    axis: &Vec<i64>,
    smooth_window: &Vec<i64>,
    scale: i64,
    triplet_weight: i64,
    ticks_per_frame: u64,
    ref_tempo: i64,
    min_section_frames: usize,
    max_section_ticks: u64,
    bpm_merge_threshold: i64,
) -> (sections: Vec<TempoSection>)
    requires
        cyclic.wf(),
        1 <= cyclic.spec_rows() <= DIM_LIMIT,
        axis@.len() == cyclic.spec_rows(),
        cyclic.entries_within(0, scale as int),
        forall|i: int|
            0 <= i < axis@.len() ==> scale as int <= #[trigger] axis@[i] < 2 * (scale as int),
        1 <= scale,
        0 <= triplet_weight,
        scale * (1 + triplet_weight) <= AMP_LIMIT as int,
        smooth_window@.len() >= 1,
        seq_within(smooth_window@, -AMP_LIMIT as int, AMP_LIMIT as int),
        abs_sum(smooth_window@, smooth_window@.len()) <= AMP_LIMIT as int,
        cyclic.spec_cols() + smooth_window@.len() <= usize::MAX,
        1 <= ticks_per_frame,
        cyclic.spec_cols() * ticks_per_frame <= SECTION_LIMIT,
        1 <= ref_tempo,
        2 * scale * ref_tempo <= SECTION_LIMIT as int,
        2 <= max_section_ticks,
    ensures
        forall|k: int| 0 <= k < sections@.len() ==> (#[trigger] sections@[k]).wf(),
        sections_contiguous(sections@),
        cyclic.spec_cols() == 0 ==> sections@.len() == 0,
        cyclic.spec_cols() > 0 ==> sections@.len() > 0 && sections@[0].start == 0
            && sections@.last().end == cyclic.spec_cols() * ticks_per_frame,
        forall|k: int|
            0 <= k < sections@.len()
                ==> (#[trigger] sections@[k]).end - sections@[k].start < max_section_ticks,
        forall|k: int|
            0 <= k < sections@.len() ==> (#[trigger] sections@[k]).bpm >= scale * ref_tempo,
        forall|k: int|
            0 <= k < sections@.len() ==> (#[trigger] sections@[k]).bpm <= SECTION_LIMIT,
        exists|curve: Seq<i64>|
            #[trigger] is_tempo_curve_of(
                *cyclic,
                axis@,
                smooth_window@,
                scale as int,
                triplet_weight as int,
                curve,
            ) && sections@ == split_all(
                merged_sections_spec(
                    curve,
                    min_section_frames as int,
                    ticks_per_frame as int,
                    ref_tempo as int,
                    bpm_merge_threshold as int,
                ),
                max_section_ticks,
                0,
            ),
{
    let ghost low_bpm = (scale as int) * (ref_tempo as int);
    proof {
        assert(low_bpm >= 1) by (nonlinear_arith)
            requires
                scale as int >= 1,
                ref_tempo as int >= 1,
                low_bpm == (scale as int) * (ref_tempo as int),
        ;
        assert((scale as int) * 1 <= (scale as int) * (1 + triplet_weight as int))
            by (nonlinear_arith)
            requires
                scale as int >= 1,
                triplet_weight as int >= 0,
        ;
        assert(2 * (scale as int) * (ref_tempo as int) == 2 * ((scale as int) * (ref_tempo
            as int))) by (nonlinear_arith);
    }
    let curve = tempo_curve_from_cyclic(cyclic, axis, smooth_window, scale, triplet_weight);
    let merged = curve_to_sections(
        &curve,
        min_section_frames,
        ticks_per_frame,
        ref_tempo,
        bpm_merge_threshold,
        scale,
    );
    let sections = split_long_sections(&merged, max_section_ticks, Ghost(low_bpm));
    proof {
        if cyclic.spec_cols() > 0 {
            assert(merged@.last() == merged@[merged@.len() - 1]);
            assert(sections@.last() == sections@[sections@.len() - 1]);
        }
        assert(is_tempo_curve_of(
            *cyclic,
            axis@,
            smooth_window@,
            scale as int,
            triplet_weight as int,
            curve@,
        ) && sections@ == split_all(
            merged_sections_spec(
                curve@,
                min_section_frames as int,
                ticks_per_frame as int,
                ref_tempo as int,
                bpm_merge_threshold as int,
            ),
            max_section_ticks,
            0,
        ));
    }
    sections
}

} // verus!
