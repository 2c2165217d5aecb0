//! Beat-phase estimation: correlating candidate pulse trains against the
//! novelty curve over every shift within a bar, and snapping the winning
//! offset to a rhythmic subdivision.
//!
//! Pulse trains are sampled sinusoids handed in as fixed-point vectors;
//! synthesising them is the caller's (external) business.

use crate::preprocessing::{seq_within, AMP_LIMIT};
use crate::sums::{lemma_sum_n_le, lemma_sum_n_nonneg, lemma_sum_n_prefix_le, mod_euclid, sum_n};
use crate::tempo_sections::{TempoSection, SECTION_LIMIT};
use vstd::prelude::*;

verus! {

/// Half-wave rectification.
pub open spec fn relu(x: int) -> int {
    if x >= 0 {
        x
    } else {
        0
    }
}

/// Correlation of the curve slice with one pulse train at one shift:
/// products are rectified before summing, so only coinciding energy
/// counts.
pub open spec fn pulse_corr(roi: Seq<i64>, pulse: Seq<i64>, shift: int) -> int {
    sum_n(|t: int| relu((roi[t] as int) * (pulse[shift + t] as int)), roi.len())
}

/// Aggregate correlation of one candidate at one shift: the sum over its
/// pulse trains (one per tempo multiple).
pub open spec fn cand_corr(roi: Seq<i64>, pulses: Seq<Seq<i64>>, shift: int) -> int {
    sum_n(|m: int| pulse_corr(roi, pulses[m], shift), pulses.len())
}

/// The best (magnitude, shift) pair over the first `n` shifts, starting
/// from magnitude zero: only strictly positive correlations win, and the
/// earliest best shift is kept.
pub open spec fn best_shift_upto(roi: Seq<i64>, pulses: Seq<Seq<i64>>, n: nat) -> (int, int)
    decreases n,
{
    if n == 0 {
        (0int, 0int)
    } else {
        let prev = best_shift_upto(roi, pulses, (n - 1) as nat);
        if cand_corr(roi, pulses, n - 1) > prev.0 {
            (cand_corr(roi, pulses, n - 1), n - 1)
        } else {
            prev
        }
    }
}

/// A candidate BPM with its synthesised pulse trains and the number of
/// shifts (one bar) to scan.
pub struct OffsetCandidate {
    pub bpm: i64,
    pub pulses: Vec<Vec<i64>>,
    pub samples_per_bar: usize,
}

/// What the correlation search needs of a candidate over a curve slice of
/// `roi_len` samples: positive bounded BPM, bounded pulse samples, pulse
/// trains long enough for every scanned shift, and a work size whose
/// correlation sums stay in range.
pub open spec fn cand_wf(c: OffsetCandidate, roi_len: int) -> bool {
    &&& 0 < c.bpm <= SECTION_LIMIT
    &&& c.samples_per_bar <= SECTION_LIMIT
    &&& forall|m: int|
        0 <= m < c.pulses@.len() ==> seq_within(
            #[trigger] c.pulses@[m]@,
            -AMP_LIMIT as int,
            AMP_LIMIT as int,
        )
    &&& forall|m: int|
        0 <= m < c.pulses@.len() ==> (#[trigger] c.pulses@[m]@.len()) >= c.samples_per_bar
            + roi_len
    &&& c.pulses@.len() * roi_len <= 0x40_0000
}

/// The best (magnitude, shift, BPM) triple over the first `n` candidates;
/// again only strictly positive correlations win, and the earliest best
/// candidate is kept.
pub open spec fn best_cand_upto(
    nc: Seq<i64>,
    start: int,
    end: int,
    cands: Seq<OffsetCandidate>,
    n: nat,
) -> (int, int, int)
    decreases n,
{
    if n == 0 {
        (0int, 0int, 0int)
    } else {
        let prev = best_cand_upto(nc, start, end, cands, (n - 1) as nat);
        let sc = best_shift_upto(
            nc.subrange(start, end),
            cands[n - 1].pulses@.map_values(|v: Vec<i64>| v@),
            cands[n - 1].samples_per_bar as nat,
        );
        if sc.0 > prev.0 {
            (sc.0, sc.1, cands[n - 1].bpm as int)
        } else {
            prev
        }
    }
}

/// Scans every shift in `[0, shifts)`, summing the rectified correlation
/// of the curve slice with each pulse train, and returns the strongest
/// shift; a search where nothing correlates returns magnitude zero and
/// shift zero.
pub fn best_pulse_shift(roi: &Vec<i64>, pulses: &Vec<Vec<i64>>, shifts: usize) -> (r: (
    i64,
    usize,
))
    requires
        seq_within(roi@, 0, AMP_LIMIT as int),
        forall|m: int|
            0 <= m < pulses@.len() ==> seq_within(
                #[trigger] pulses@[m]@,
                -AMP_LIMIT as int,
                AMP_LIMIT as int,
            ),
        forall|m: int|
            0 <= m < pulses@.len() ==> (#[trigger] pulses@[m]@.len()) >= shifts + roi@.len(),
        pulses@.len() * roi@.len() <= 0x40_0000,
    ensures
        (r.0 as int, r.1 as int) == best_shift_upto(
            roi@,
            pulses@.map_values(|v: Vec<i64>| v@),
            shifts as nat,
        ),
        r.0 >= 0,
{
    let ghost pv = pulses@.map_values(|v: Vec<i64>| v@);
    let n = roi.len();
    let np = pulses.len();
    let mut best_mag: i64 = 0;
    let mut best_shift: usize = 0;
    let mut i: usize = 0;
    while i < shifts
        invariant
            i <= shifts,
            n == roi@.len(),
            np == pulses@.len(),
            pv == pulses@.map_values(|v: Vec<i64>| v@),
            seq_within(roi@, 0, AMP_LIMIT as int),
            forall|m: int|
                0 <= m < pulses@.len() ==> seq_within(
                    #[trigger] pulses@[m]@,
                    -AMP_LIMIT as int,
                    AMP_LIMIT as int,
                ),
            forall|m: int|
                0 <= m < pulses@.len() ==> (#[trigger] pulses@[m]@.len()) >= shifts + roi@.len(),
            pulses@.len() * roi@.len() <= 0x40_0000,
            (best_mag as int, best_shift as int) == best_shift_upto(roi@, pv, i as nat),
            best_mag >= 0,
        decreases shifts - i,
    {
        let mut acc: i64 = 0;
        let mut m: usize = 0;
        let ghost outer = |mm: int| pulse_corr(roi@, pv[mm], i as int);
        let ghost outer_b = |mm: int| (n as int) * ((AMP_LIMIT as int) * (AMP_LIMIT as int));
        proof {
            assert forall|mm: int| 0 <= mm < np implies 0 <= #[trigger] outer(mm) <= outer_b(
                mm,
            ) by {
                let term = |t: int| relu((roi@[t] as int) * (pv[mm][i + t] as int));
                assert forall|t: int| 0 <= t < n implies 0 <= #[trigger] term(t) <= (AMP_LIMIT
                    as int) * (AMP_LIMIT as int) by {
                    assert(pv[mm] == pulses@[mm]@);
                    assert(-((AMP_LIMIT as int) * (AMP_LIMIT as int)) <= (roi@[t] as int) * (
                    pv[mm][i + t] as int) <= (AMP_LIMIT as int) * (AMP_LIMIT as int))
                        by (nonlinear_arith)
                        requires
                            0 <= roi@[t] as int <= AMP_LIMIT as int,
                            -(AMP_LIMIT as int) <= pv[mm][i + t] as int <= AMP_LIMIT as int,
                    ;
                }
                lemma_sum_n_nonneg(term, n as nat);
                crate::sums::lemma_sum_n_bound(
                    term,
                    n as nat,
                    (AMP_LIMIT as int) * (AMP_LIMIT as int),
                );
            }
        }
        while m < np
            invariant
                m <= np,
                i < shifts,
                n == roi@.len(),
                np == pulses@.len(),
                pv == pulses@.map_values(|v: Vec<i64>| v@),
                seq_within(roi@, 0, AMP_LIMIT as int),
                forall|mm: int|
                    0 <= mm < pulses@.len() ==> seq_within(
                        #[trigger] pulses@[mm]@,
                        -AMP_LIMIT as int,
                        AMP_LIMIT as int,
                    ),
                forall|mm: int|
                    0 <= mm < pulses@.len() ==> (#[trigger] pulses@[mm]@.len()) >= shifts
                        + roi@.len(),
                pulses@.len() * roi@.len() <= 0x40_0000,
                outer == (|mm: int| pulse_corr(roi@, pv[mm], i as int)),
                forall|mm: int| 0 <= mm < np ==> 0 <= #[trigger] outer(mm) <= outer_b(mm),
                outer_b == (|mm: int|
                    (n as int) * ((AMP_LIMIT as int) * (AMP_LIMIT as int))),
                acc == sum_n(outer, m as nat),
                0 <= acc <= (m as int) * ((n as int) * ((AMP_LIMIT as int) * (AMP_LIMIT
                    as int))),
            decreases np - m,
        {
            let pulse = &pulses[m];
            let _pl = pulse.len();
            let ghost term = |t: int| relu((roi@[t] as int) * (pv[m as int][i + t] as int));
            proof {
                assert((1 as int) * (n as int) <= (np as int) * (n as int)) by (nonlinear_arith)
                    requires
                        np as int >= 1,
                        n as int >= 0,
                ;
            }
            let mut inner: i64 = 0;
            let mut t: usize = 0;
            while t < n
                invariant
                    t <= n,
                    m < np,
                    i < shifts,
                    n == roi@.len(),
                    n <= 0x40_0000,
                    np == pulses@.len(),
                    pv == pulses@.map_values(|v: Vec<i64>| v@),
                    seq_within(roi@, 0, AMP_LIMIT as int),
                    seq_within(pulse@, -AMP_LIMIT as int, AMP_LIMIT as int),
                    pulse@ == pv[m as int],
                    pulse@.len() >= shifts + roi@.len(),
                    pulse@.len() <= usize::MAX,
                    term == (|t: int| relu((roi@[t] as int) * (pv[m as int][i + t] as int))),
                    inner == sum_n(term, t as nat),
                    0 <= inner <= (t as int) * ((AMP_LIMIT as int) * (AMP_LIMIT as int)),
                decreases n - t,
            {
                let a = roi[t];
                let b = pulse[i + t];
                proof {
                    assert(-((AMP_LIMIT as int) * (AMP_LIMIT as int)) <= (a as int) * (b as int)
                        <= (AMP_LIMIT as int) * (AMP_LIMIT as int)) by (nonlinear_arith)
                        requires
                            0 <= a as int <= AMP_LIMIT as int,
                            -(AMP_LIMIT as int) <= b as int <= AMP_LIMIT as int,
                    ;
                    assert((t as int) * ((AMP_LIMIT as int) * (AMP_LIMIT as int)) + (AMP_LIMIT
                        as int) * (AMP_LIMIT as int) == ((t + 1) as int) * ((AMP_LIMIT as int) * (
                    AMP_LIMIT as int))) by (nonlinear_arith);
                    assert(((t + 1) as int) * ((AMP_LIMIT as int) * (AMP_LIMIT as int)) <= (n
                        as int) * ((AMP_LIMIT as int) * (AMP_LIMIT as int))) by (nonlinear_arith)
                        requires
                            0 <= t + 1 <= n as int,
                    ;
                    assert((n as int) * ((AMP_LIMIT as int) * (AMP_LIMIT as int)) <= 0x40_0000 * (
                    (AMP_LIMIT as int) * (AMP_LIMIT as int))) by (nonlinear_arith)
                        requires
                            0 <= n as int <= 0x40_0000,
                    ;
                }
                let p = a * b;
                let rp: i64 = if p >= 0 {
                    p
                } else {
                    0
                };
                inner = inner + rp;
                t += 1;
            }
            proof {
                assert(inner == pulse_corr(roi@, pv[m as int], i as int));
                assert((m as int) * ((n as int) * ((AMP_LIMIT as int) * (AMP_LIMIT as int))) + (n
                    as int) * ((AMP_LIMIT as int) * (AMP_LIMIT as int)) == ((m + 1) as int) * ((n
                    as int) * ((AMP_LIMIT as int) * (AMP_LIMIT as int)))) by (nonlinear_arith);
                assert(((m + 1) as int) * ((n as int) * ((AMP_LIMIT as int) * (AMP_LIMIT
                    as int))) <= ((np as int) * (n as int)) * ((AMP_LIMIT as int) * (AMP_LIMIT
                    as int))) by (nonlinear_arith)
                    requires
                        0 <= m + 1 <= np as int,
                        n as int >= 0,
                ;
                assert(((np as int) * (n as int)) * ((AMP_LIMIT as int) * (AMP_LIMIT as int))
                    <= 0x40_0000 * ((AMP_LIMIT as int) * (AMP_LIMIT as int)))
                    by (nonlinear_arith)
                    requires
                        0 <= (np as int) * (n as int) <= 0x40_0000,
                ;
            }
            acc = acc + inner;
            m += 1;
        }
        proof {
            assert(acc == cand_corr(roi@, pv, i as int));
        }
        if acc > best_mag {
            best_mag = acc;
            best_shift = i;
        }
        i += 1;
    }
    (best_mag, best_shift)
}

/// Searches the candidate BPM/pulse sets for the shift with the greatest
/// aggregate correlation against the section's slice of the novelty
/// curve, and writes the winning BPM and offset back into the section.
/// When the whole search correlates to zero the section is left
/// unchanged.
pub fn extract_offset(
    nc: &Vec<i64>,
    s: &mut TempoSection,
    candidates: &Vec<OffsetCandidate>,
) -> (found: bool)
    requires
        seq_within(nc@, 0, AMP_LIMIT as int),
        old(s).start <= old(s).end,
        old(s).start <= nc@.len(),
        old(s).start <= SECTION_LIMIT,
        forall|k: int|
            0 <= k < candidates@.len() ==> cand_wf(
                #[trigger] candidates@[k],
                (if old(s).end <= nc@.len() {
                    old(s).end as int
                } else {
                    nc@.len() as int
                }) - old(s).start,
            ),
    ensures
        ({
            let endm = if old(s).end <= nc@.len() {
                old(s).end as int
            } else {
                nc@.len() as int
            };
            let b = best_cand_upto(
                nc@,
                old(s).start as int,
                endm,
                candidates@,
                candidates@.len(),
            );
            &&& (found <==> b.0 > 0)
            &&& b.0 > 0 ==> *final(s) == (TempoSection {
                bpm: b.2 as i64,
                offset: (old(s).start - b.1) as i64,
                ..*old(s)
            })
            &&& b.0 <= 0 ==> *final(s) == *old(s)
        }),
{
    let len = nc.len();
    let start = s.start() as usize;
    let endu = s.end();
    let end: usize = if endu <= len as u64 {
        endu as usize
    } else {
        len
    };
    let ghost endm = if old(s).end <= nc@.len() {
        old(s).end as int
    } else {
        nc@.len() as int
    };
    let mut roi: Vec<i64> = Vec::new();
    let mut t: usize = start;
    while t < end
        invariant
            start <= t <= end <= nc@.len(),
            roi@ =~= nc@.subrange(start as int, t as int),
        decreases end - t,
    {
        roi.push(nc[t]);
        proof {
            assert(roi@ =~= nc@.subrange(start as int, t + 1));
        }
        t += 1;
    }
    proof {
        assert(roi@ == nc@.subrange(start as int, endm));
        assert forall|i: int| 0 <= i < roi@.len() implies 0 <= #[trigger] roi@[i]
            <= AMP_LIMIT as int by {
            assert(roi@[i] == nc@[start + i]);
        }
    }
    let mut best_mag: i64 = 0;
    let mut best_shift: usize = 0;
    let mut best_bpm: i64 = 0;
    let mut k: usize = 0;
    while k < candidates.len()
        invariant
            k <= candidates@.len(),
            seq_within(nc@, 0, AMP_LIMIT as int),
            s == old(s),
            endm == (if old(s).end <= nc@.len() {
                old(s).end as int
            } else {
                nc@.len() as int
            }),
            start == old(s).start,
            old(s).start <= SECTION_LIMIT,
            old(s).start as int <= endm <= nc@.len(),
            roi@ == nc@.subrange(start as int, endm),
            seq_within(roi@, 0, AMP_LIMIT as int),
            forall|j: int|
                0 <= j < candidates@.len() ==> cand_wf(
                    #[trigger] candidates@[j],
                    endm - old(s).start,
                ),
            (best_mag as int, best_shift as int, best_bpm as int) == best_cand_upto(
                nc@,
                start as int,
                endm,
                candidates@,
                k as nat,
            ),
            best_mag >= 0,
            best_mag > 0 ==> 0 < best_bpm <= SECTION_LIMIT && best_shift <= SECTION_LIMIT,
        decreases candidates@.len() - k,
    {
        let cand = &candidates[k];
        proof {
            assert(cand_wf(candidates@[k as int], endm - old(s).start));
            assert(roi@.len() == endm - old(s).start);
        }
        let r = best_pulse_shift(&roi, &cand.pulses, cand.samples_per_bar);
        proof {
            assert(cand.pulses@.map_values(|v: Vec<i64>| v@) == candidates@[k as int].pulses@
                .map_values(|v: Vec<i64>| v@));
        }
        if r.0 > best_mag {
            best_mag = r.0;
            best_shift = r.1;
            best_bpm = cand.bpm;
            proof {
                let b = best_shift_upto(
                    roi@,
                    candidates@[k as int].pulses@.map_values(|v: Vec<i64>| v@),
                    candidates@[k as int].samples_per_bar as nat,
                );
                lemma_best_shift_in_range(
                    roi@,
                    candidates@[k as int].pulses@.map_values(|v: Vec<i64>| v@),
                    candidates@[k as int].samples_per_bar as nat,
                );
            }
        }
        k += 1;
    }
    if best_mag > 0 {
        let off: i64 = start as i64 - best_shift as i64;
        s.set_offset(off);
        s.set_bpm(best_bpm);
        true
    } else {
        false
    }
}

/// The best shift lies within the scanned range (or is zero when nothing
/// was scanned or nothing correlated).
proof fn lemma_best_shift_in_range(roi: Seq<i64>, pulses: Seq<Seq<i64>>, n: nat)
    ensures
        0 <= best_shift_upto(roi, pulses, n).1,
        best_shift_upto(roi, pulses, n).1 <= if n == 0 {
            0int
        } else {
            n - 1
        },
    decreases n,
{
    if n > 0 {
        lemma_best_shift_in_range(roi, pulses, (n - 1) as nat);
    }
}

/// The BPM values scanned during the offset search: `window / step`
/// candidates in `step` increments, starting half the doubt window under
/// the section's BPM.
pub fn doubt_bpms(bpm: i64, doubt_window: i64, doubt_step: i64) -> (r: Vec<i64>)
    requires
        1 <= doubt_step <= SECTION_LIMIT,
        0 <= doubt_window <= SECTION_LIMIT,
        -SECTION_LIMIT <= bpm <= SECTION_LIMIT,
    ensures
        r@.len() == doubt_window as int / doubt_step as int,
        forall|k: int|
            0 <= k < r@.len() ==> #[trigger] r@[k] as int == bpm - doubt_window / 2 + k
                * doubt_step,
{
    let count: usize = ((doubt_window as u64) / (doubt_step as u64)) as usize;
    let lo: i64 = bpm - doubt_window / 2;
    proof {
        vstd::arithmetic::div_mod::lemma_fundamental_div_mod(
            doubt_window as int,
            doubt_step as int,
        );
        vstd::arithmetic::div_mod::lemma_mod_bound(doubt_window as int, doubt_step as int);
        assert((doubt_step as int) * (count as int) == (count as int) * (doubt_step as int))
            by (nonlinear_arith);
        assert((count as int) * (doubt_step as int) <= doubt_window as int);
        assert(doubt_window as int / 2 == (doubt_window / 2) as int);
    }
    let mut r: Vec<i64> = Vec::new();
    let mut k: usize = 0;
    while k < count
        invariant
            k <= count,
            1 <= doubt_step <= SECTION_LIMIT,
            0 <= doubt_window <= SECTION_LIMIT,
            -SECTION_LIMIT <= bpm <= SECTION_LIMIT,
            lo as int == bpm - doubt_window / 2,
            count as int == doubt_window as int / doubt_step as int,
            (count as int) * (doubt_step as int) <= doubt_window as int,
            r@.len() == k,
            forall|j: int|
                0 <= j < k ==> #[trigger] r@[j] as int == bpm - doubt_window / 2 + j
                    * doubt_step,
        decreases count - k,
    {
        proof {
            assert(0 <= (k as int) * (doubt_step as int) <= (count as int) * (doubt_step
                as int)) by (nonlinear_arith)
                requires
                    0 <= k as int <= count as int,
                    doubt_step as int >= 1,
            ;
        }
        let v: i64 = lo + (k as i64) * doubt_step;
        r.push(v);
        k += 1;
    }
    r
}

/// One bar of four beats, in ticks, for a fixed-point BPM.
pub open spec fn bar_ticks(bpm: int, tick_rate: int, bpm_scale: int) -> int {
    240 * tick_rate * bpm_scale / bpm
}

/// The offset relative to the section start, wrapped forward by whole
/// bars when negative, then reduced to the nearest earlier multiple of
/// the bar's rhythmic subdivision.
pub open spec fn snapped_offset(off: int, bar: int, frac: int) -> int {
    if off < 0 {
        (off % bar) % frac
    } else {
        off % frac
    }
}

/// Snaps a section's offset to the bar subdivision given by
/// `smallest_fraction_shift`: negative offsets are first wrapped forward
/// by whole bars, and the result lands within one subdivision after the
/// section start.
pub fn correct_offset(
    s: &mut TempoSection,
    smallest_fraction_shift: u32,
    tick_rate: u64,
    bpm_scale: i64,
) -> (snap: i64)
    requires
        old(s).wf(),
        old(s).start <= SECTION_LIMIT,
        old(s).bpm <= SECTION_LIMIT,
        -SECTION_LIMIT <= old(s).offset <= SECTION_LIMIT,
        1 <= tick_rate <= 0x10_0000,
        1 <= bpm_scale <= 0x10_0000,
        1 <= smallest_fraction_shift <= 0x10_0000,
        bar_ticks(old(s).bpm as int, tick_rate as int, bpm_scale as int)
            >= smallest_fraction_shift,
    ensures
        ({
            let bar = bar_ticks(old(s).bpm as int, tick_rate as int, bpm_scale as int);
            let frac = bar / (smallest_fraction_shift as int);
            &&& snap == snapped_offset(old(s).offset - old(s).start, bar, frac)
            &&& 0 <= snap < frac
            &&& *final(s) == (TempoSection {
                offset: (old(s).start + snap) as i64,
                ..*old(s)
            })
        }),
{
    let bpm = s.bpm();
    proof {
        assert(0 < 240 * (tick_rate as int) * (bpm_scale as int) <= 240 * 0x10_0000 * 0x10_0000)
            by (nonlinear_arith)
            requires
                1 <= tick_rate as int <= 0x10_0000,
                1 <= bpm_scale as int <= 0x10_0000,
        ;
    }
    let num: u64 = 240 * tick_rate * (bpm_scale as u64);
    let bar: i64 = (num / (bpm as u64)) as i64;
    let frac: i64 = ((bar as u64) / (smallest_fraction_shift as u64)) as i64;
    proof {
        assert(bar as int == bar_ticks(old(s).bpm as int, tick_rate as int, bpm_scale as int));
        vstd::arithmetic::div_mod::lemma_div_is_ordered(
            smallest_fraction_shift as int,
            bar as int,
            smallest_fraction_shift as int,
        );
        vstd::arithmetic::div_mod::lemma_div_by_self(smallest_fraction_shift as int);
        assert(frac >= 1);
    }
    let off_rel: i64 = s.offset() - s.start() as i64;
    let w: i64 = if off_rel < 0 {
        let wrapped = mod_euclid(off_rel, bar);
        mod_euclid(wrapped, frac)
    } else {
        mod_euclid(off_rel, frac)
    };
    let start = s.start();
    s.set_offset(start as i64 + w);
    w
}

} // verus!
