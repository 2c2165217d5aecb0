//! Constant-tempo sections: building them from curve segments, merging
//! near-equal neighbours, and splitting over-long sections.
//!
//! Times are in ticks; `bpm` is a fixed-point beats-per-minute value.

use crate::sums::{lemma_sum_n_le, lemma_sum_n_lower, lemma_sum_n_nonneg, lemma_sum_n_scale, sum_n};
use crate::tempo_curve::Segment;
use vstd::math::abs;
use vstd::prelude::*;

verus! {

/// Largest tick value and fixed-point BPM the section arithmetic admits;
/// keeps duration-weighted sums inside `i64`.
pub const SECTION_LIMIT: u64 = 0x8000_0000;

/// A maximal time interval assigned one constant tempo: `[start, end)` in
/// ticks, a fixed-point BPM, and the beat-phase anchor `offset` in ticks.
#[derive(Clone, Copy, Debug)]
pub struct TempoSection {
    pub start: u64,
    pub end: u64,
    pub bpm: i64,
    pub offset: i64,
}

impl TempoSection {
    /// A section is well formed when it is nonempty and its tempo positive.
    pub open spec fn wf(self) -> bool {
        self.start < self.end && self.bpm > 0
    }

    /// All fields lie within `SECTION_LIMIT`, so weighted averages fit.
    pub open spec fn bounded(self) -> bool {
        &&& self.end <= SECTION_LIMIT
        &&& self.bpm <= SECTION_LIMIT
        &&& 0 <= self.offset <= SECTION_LIMIT
    }

    pub fn new(start: u64, end: u64, bpm: i64, offset: i64) -> (s: TempoSection)
        ensures
            s == (TempoSection { start, end, bpm, offset }),
    {
        TempoSection { start, end, bpm, offset }
    }

    pub fn start(&self) -> (v: u64)
        ensures
            v == self.start,
    {
        self.start
    }

    pub fn end(&self) -> (v: u64)
        ensures
            v == self.end,
    {
        self.end
    }

    pub fn bpm(&self) -> (v: i64)
        ensures
            v == self.bpm,
    {
        self.bpm
    }

    pub fn set_bpm(&mut self, v: i64)
        ensures
            *final(self) == (TempoSection { bpm: v, ..*old(self) }),
    {
        self.bpm = v;
    }

    pub fn offset(&self) -> (v: i64)
        ensures
            v == self.offset,
    {
        self.offset
    }

    pub fn set_offset(&mut self, v: i64)
        ensures
            *final(self) == (TempoSection { offset: v, ..*old(self) }),
    {
        self.offset = v;
    }

    pub fn duration(&self) -> (d: u64)
        requires
            self.start <= self.end,
        ensures
            d == self.end - self.start,
    {
        self.end - self.start
    }
}

/// The sections tile an interval: each one ends where the next begins.
pub open spec fn sections_contiguous(s: Seq<TempoSection>) -> bool {
    forall|k: int| 0 <= k < s.len() - 1 ==> #[trigger] s[k].end == s[k + 1].start
}

/// The sections a segment list maps to: times scale by `tpf`, the BPM is
/// the segment's curve value times the reference tempo, offsets start at
/// zero.
#[verifier::opaque]
pub open spec fn sections_of_segments(
    curve: Seq<i64>,
    segments: Seq<Segment>,
    tpf: int,
    ref_tempo: int,
) -> Seq<TempoSection> {
    Seq::new(
        segments.len(),
        |k: int|
            TempoSection {
                start: (segments[k].start * tpf) as u64,
                end: (segments[k].end * tpf) as u64,
                bpm: (curve[segments[k].start as int] * ref_tempo) as i64,
                offset: 0,
            },
    )
}

/// Maps each curve segment to a section: times scale by `ticks_per_frame`,
/// and the BPM is the segment's tempo ratio times the reference tempo.
pub fn tempo_segments_to_sections(
    curve: &Vec<i64>,
    segments: &Vec<Segment>,
    ticks_per_frame: u64,
    ref_tempo: i64,
) -> (r: Vec<TempoSection>)
    requires
        forall|k: int|
            0 <= k < segments@.len()
                ==> (#[trigger] segments@[k].start) < segments@[k].end
                    && segments@[k].end <= curve@.len(),
        forall|i: int| 0 <= i < curve@.len() ==> 0 < #[trigger] curve@[i],
        forall|i: int|
            0 <= i < curve@.len() ==> #[trigger] curve@[i] * ref_tempo <= i64::MAX,
        ref_tempo > 0,
        ticks_per_frame >= 1,
        curve@.len() * ticks_per_frame <= u64::MAX,
    ensures
        r@.len() == segments@.len(),
        forall|k: int|
            0 <= k < r@.len()
                ==> #[trigger] r@[k] == (TempoSection {
                start: (segments@[k].start * ticks_per_frame) as u64,
                end: (segments@[k].end * ticks_per_frame) as u64,
                bpm: (curve@[segments@[k].start as int] * ref_tempo) as i64,
                offset: 0,
            }),
        forall|k: int| 0 <= k < r@.len() ==> (#[trigger] r@[k]).wf(),
{
    let n = curve.len();
    let mut r: Vec<TempoSection> = Vec::new();
    let mut k: usize = 0;
    while k < segments.len()
        invariant
            k <= segments@.len(),
            n == curve@.len(),
            forall|j: int|
                0 <= j < segments@.len()
                    ==> (#[trigger] segments@[j].start) < segments@[j].end
                        && segments@[j].end <= curve@.len(),
            forall|i: int| 0 <= i < curve@.len() ==> 0 < #[trigger] curve@[i],
            forall|i: int|
                0 <= i < curve@.len() ==> #[trigger] curve@[i] * ref_tempo <= i64::MAX,
            ref_tempo > 0,
            ticks_per_frame >= 1,
            curve@.len() * ticks_per_frame <= u64::MAX,
            r@.len() == k,
            forall|j: int|
                0 <= j < k
                    ==> #[trigger] r@[j] == (TempoSection {
                    start: (segments@[j].start * ticks_per_frame) as u64,
                    end: (segments@[j].end * ticks_per_frame) as u64,
                    bpm: (curve@[segments@[j].start as int] * ref_tempo) as i64,
                    offset: 0,
                }),
            forall|j: int| 0 <= j < k ==> (#[trigger] r@[j]).wf(),
        decreases segments@.len() - k,
    {
        let seg = segments[k];
        proof {
            assert(seg.start * ticks_per_frame < seg.end * ticks_per_frame
                && seg.end * ticks_per_frame <= curve@.len() * ticks_per_frame)
                by (nonlinear_arith)
                requires
                    0 <= seg.start < seg.end <= curve@.len(),
                    ticks_per_frame >= 1,
            ;
            assert(curve@[seg.start as int] * ref_tempo > 0) by (nonlinear_arith)
                requires
                    curve@[seg.start as int] > 0,
                    ref_tempo > 0,
            ;
        }
        let start = seg.start as u64 * ticks_per_frame;
        let end = seg.end as u64 * ticks_per_frame;
        let bpm = curve[seg.start] * ref_tempo;
        r.push(TempoSection { start, end, bpm, offset: 0 });
        k += 1;
    }
    r
}

/// A section list whose entries match the segment map pointwise is the
/// segment map.
pub proof fn lemma_is_sections_of_segments(
    curve: Seq<i64>,
    segments: Seq<Segment>,
    tpf: int,
    ref_tempo: int,
    r: Seq<TempoSection>,
)
    requires
        r.len() == segments.len(),
        forall|k: int|
            0 <= k < r.len()
                ==> #[trigger] r[k] == (TempoSection {
                start: (segments[k].start * tpf) as u64,
                end: (segments[k].end * tpf) as u64,
                bpm: (curve[segments[k].start as int] * ref_tempo) as i64,
                offset: 0,
            }),
    ensures
        r == sections_of_segments(curve, segments, tpf, ref_tempo),
{
    reveal(sections_of_segments);
    assert(r =~= sections_of_segments(curve, segments, tpf, ref_tempo));
}

/// The pieces a section breaks into: halves are bisected until each piece
/// is shorter than `max`.
pub open spec fn split_spec(s: TempoSection, max: u64) -> Seq<TempoSection>
    decreases s.end - s.start,
{
    let dur = s.end - s.start;
    if dur < max || dur < 2 {
        seq![s]
    } else {
        let mid = (s.start + dur / 2) as u64;
        split_spec(TempoSection { end: mid, ..s }, max) + split_spec(
            TempoSection { start: mid, ..s },
            max,
        )
    }
}

/// The concatenated pieces of every section of `list` from index `k` on.
pub open spec fn split_all(list: Seq<TempoSection>, max: u64, k: int) -> Seq<TempoSection>
    decreases list.len() - k,
{
    if k < 0 || k >= list.len() {
        Seq::empty()
    } else {
        split_spec(list[k], max) + split_all(list, max, k + 1)
    }
}

/// The pieces tile `[s.start, s.end)`, keep `s`'s BPM and offset, and are
/// each shorter than `max`.
pub proof fn lemma_split_spec_props(s: TempoSection, max: u64)
    requires
        s.start < s.end,
        max >= 2,
    ensures
        split_spec(s, max).len() > 0,
        split_spec(s, max)[0].start == s.start,
        split_spec(s, max).last().end == s.end,
        sections_contiguous(split_spec(s, max)),
        forall|k: int|
            0 <= k < split_spec(s, max).len()
                ==> (#[trigger] split_spec(s, max)[k]).bpm == s.bpm
                    && split_spec(s, max)[k].offset == s.offset
                    && split_spec(s, max)[k].start < split_spec(s, max)[k].end
                    && split_spec(s, max)[k].end - split_spec(s, max)[k].start < max
                    && s.start <= split_spec(s, max)[k].start
                    && split_spec(s, max)[k].end <= s.end,
    decreases s.end - s.start,
{
    let dur = s.end - s.start;
    if dur < max {
    } else {
        let mid = (s.start + dur / 2) as u64;
        let s1 = TempoSection { end: mid, ..s };
        let s2 = TempoSection { start: mid, ..s };
        lemma_split_spec_props(s1, max);
        lemma_split_spec_props(s2, max);
        let a = split_spec(s1, max);
        let b = split_spec(s2, max);
        assert(split_spec(s, max) == a + b);
        assert((a + b).last() == b.last());
        assert(forall|k: int| 0 <= k < a.len() ==> #[trigger] (a + b)[k] == a[k]);
        assert(forall|k: int|
            a.len() <= k < a.len() + b.len() ==> #[trigger] (a + b)[k] == b[k - a.len()]);
        assert(a.last().end == mid && b[0].start == mid);
    }
}

/// Duration-weighted BPM total over the first `n` sections of `g`.
pub open spec fn wsum_bpm(g: Seq<TempoSection>, n: nat) -> int {
    sum_n(|k: int| g[k].bpm * (g[k].end - g[k].start), n)
}

/// Duration-weighted offset total over the first `n` sections of `g`.
pub open spec fn wsum_offset(g: Seq<TempoSection>, n: nat) -> int {
    sum_n(|k: int| g[k].offset * (g[k].end - g[k].start), n)
}

/// The duration-weighted average of a contiguous group of sections: it
/// spans the whole group, and its BPM and offset are the averages of the
/// members', weighted by their durations.
pub open spec fn avg_spec(g: Seq<TempoSection>) -> TempoSection {
    let total = g.last().end - g[0].start;
    TempoSection {
        start: g[0].start,
        end: g.last().end,
        bpm: (wsum_bpm(g, g.len()) / total) as i64,
        offset: (wsum_offset(g, g.len()) / total) as i64,
    }
}

/// For a contiguous group, the durations telescope to the overall span.
proof fn lemma_duration_telescope(g: Seq<TempoSection>, n: nat)
    requires
        n <= g.len(),
        sections_contiguous(g),
        forall|k: int| 0 <= k < g.len() ==> (#[trigger] g[k]).start < g[k].end,
    ensures
        sum_n(|k: int| g[k].end - g[k].start, n) == if n == 0 {
            0int
        } else {
            g[n - 1].end - g[0].start
        },
    decreases n,
{
    if n > 0 {
        lemma_duration_telescope(g, (n - 1) as nat);
        if n >= 2 {
            assert(g[n - 2].end == g[n - 1].start);
        }
    }
}

/// What the weighted average preserves: the group's span, well-formedness
/// and the field bounds.
pub proof fn lemma_avg_spec_props(g: Seq<TempoSection>)
    requires
        g.len() > 0,
        sections_contiguous(g),
        forall|k: int| 0 <= k < g.len() ==> (#[trigger] g[k]).wf(),
        forall|k: int| 0 <= k < g.len() ==> (#[trigger] g[k]).bounded(),
    ensures
        avg_spec(g).start == g[0].start,
        avg_spec(g).end == g.last().end,
        avg_spec(g).wf(),
        avg_spec(g).bounded(),
{
    let durs = |k: int| g[k].end - g[k].start;
    let bpms = |k: int| g[k].bpm * (g[k].end - g[k].start);
    let offs = |k: int| g[k].offset * (g[k].end - g[k].start);
    let scaled = |k: int| (SECTION_LIMIT as int) * (g[k].end - g[k].start);
    let n = g.len();
    let total = g.last().end - g[0].start;
    lemma_duration_telescope(g, n);
    assert(g.last() == g[n - 1]);
    assert(sum_n(durs, n) == total);
    assert(total >= 1) by {
        assert forall|k: int| 0 <= k < n implies #[trigger] durs(k) >= 1 by {}
        lemma_sum_n_lower(durs, n, 1);
    }
    assert forall|k: int| 0 <= k < n implies #[trigger] durs(k) <= #[trigger] bpms(k) by {
        assert(g[k].bpm * (g[k].end - g[k].start) >= 1 * (g[k].end - g[k].start))
            by (nonlinear_arith)
            requires
                g[k].bpm >= 1,
                g[k].end - g[k].start >= 0,
        ;
    }
    lemma_sum_n_le(durs, bpms, n);
    assert forall|k: int| 0 <= k < n implies #[trigger] bpms(k) <= #[trigger] scaled(k) by {
        assert(g[k].bpm * (g[k].end - g[k].start) <= (SECTION_LIMIT as int) * (g[k].end
            - g[k].start)) by (nonlinear_arith)
            requires
                g[k].bpm <= SECTION_LIMIT as int,
                g[k].end - g[k].start >= 0,
        ;
    }
    lemma_sum_n_le(bpms, scaled, n);
    lemma_sum_n_scale(durs, scaled, SECTION_LIMIT as int, n);
    assert(total <= wsum_bpm(g, n) <= (SECTION_LIMIT as int) * total);
    vstd::arithmetic::div_mod::lemma_div_is_ordered(total as int, wsum_bpm(g, n), total as int);
    vstd::arithmetic::div_mod::lemma_div_is_ordered(
        wsum_bpm(g, n),
        (SECTION_LIMIT as int) * total,
        total as int,
    );
    vstd::arithmetic::div_mod::lemma_div_by_self(total as int);
    vstd::arithmetic::div_mod::lemma_div_multiples_vanish(SECTION_LIMIT as int, total as int);
    assert(1 <= wsum_bpm(g, n) / total <= SECTION_LIMIT as int);
    assert forall|k: int| 0 <= k < n implies 0 <= #[trigger] offs(k) <= #[trigger] scaled(k) by {
        assert(0 <= g[k].offset * (g[k].end - g[k].start) <= (SECTION_LIMIT as int) * (g[k].end
            - g[k].start)) by (nonlinear_arith)
            requires
                0 <= g[k].offset <= SECTION_LIMIT as int,
                g[k].end - g[k].start >= 0,
        ;
    }
    lemma_sum_n_nonneg(offs, n);
    lemma_sum_n_le(offs, scaled, n);
    vstd::arithmetic::div_mod::lemma_div_pos_is_pos(wsum_offset(g, n), total as int);
    vstd::arithmetic::div_mod::lemma_div_is_ordered(
        wsum_offset(g, n),
        (SECTION_LIMIT as int) * total,
        total as int,
    );
    assert(0 <= wsum_offset(g, n) / total <= SECTION_LIMIT as int);
}

/// The weighted average of a group whose BPM values all reach `lb` also
/// reaches `lb`.
proof fn lemma_avg_spec_bpm_lower(g: Seq<TempoSection>, lb: int)
    requires
        g.len() > 0,
        sections_contiguous(g),
        forall|k: int| 0 <= k < g.len() ==> (#[trigger] g[k]).wf(),
        forall|k: int| 0 <= k < g.len() ==> (#[trigger] g[k]).bounded(),
        0 <= lb,
        forall|k: int| 0 <= k < g.len() ==> (#[trigger] g[k]).bpm >= lb,
    ensures
        avg_spec(g).bpm >= lb,
{
    lemma_avg_spec_props(g);
    let durs = |k: int| g[k].end - g[k].start;
    let bpms = |k: int| g[k].bpm * (g[k].end - g[k].start);
    let scaled = |k: int| lb * (g[k].end - g[k].start);
    let n = g.len();
    let total = g.last().end - g[0].start;
    lemma_duration_telescope(g, n);
    assert(g.last() == g[n - 1]);
    assert(total >= 1) by {
        assert forall|k: int| 0 <= k < n implies #[trigger] durs(k) >= 1 by {}
        lemma_sum_n_lower(durs, n, 1);
    }
    assert forall|k: int| 0 <= k < n implies #[trigger] scaled(k) <= #[trigger] bpms(k) by {
        assert(lb * (g[k].end - g[k].start) <= g[k].bpm * (g[k].end - g[k].start))
            by (nonlinear_arith)
            requires
                lb <= g[k].bpm,
                g[k].end - g[k].start >= 0,
        ;
    }
    lemma_sum_n_le(scaled, bpms, n);
    lemma_sum_n_scale(durs, scaled, lb, n);
    assert(lb * total <= wsum_bpm(g, n));
    vstd::arithmetic::div_mod::lemma_div_is_ordered(lb * total, wsum_bpm(g, n), total as int);
    vstd::arithmetic::div_mod::lemma_div_multiples_vanish(lb, total as int);
    assert(lb * total == total * lb) by (nonlinear_arith);
    let cap = |k: int| (SECTION_LIMIT as int) * (g[k].end - g[k].start);
    assert forall|k: int| 0 <= k < n implies #[trigger] bpms(k) <= #[trigger] cap(k) by {
        assert(g[k].bpm * (g[k].end - g[k].start) <= (SECTION_LIMIT as int) * (g[k].end
            - g[k].start)) by (nonlinear_arith)
            requires
                g[k].bpm <= SECTION_LIMIT as int,
                g[k].end - g[k].start >= 0,
        ;
    }
    lemma_sum_n_le(bpms, cap, n);
    lemma_sum_n_scale(durs, cap, SECTION_LIMIT as int, n);
    vstd::arithmetic::div_mod::lemma_div_is_ordered(
        wsum_bpm(g, n),
        (SECTION_LIMIT as int) * total,
        total as int,
    );
    vstd::arithmetic::div_mod::lemma_div_multiples_vanish(SECTION_LIMIT as int, total as int);
    assert((SECTION_LIMIT as int) * total == total * (SECTION_LIMIT as int)) by (nonlinear_arith);
    assert(lb <= wsum_bpm(g, n) / total <= SECTION_LIMIT as int);
}

/// Merging keeps every group average at or above any common BPM floor.
pub proof fn lemma_merge_spec_bpm_lower(s: Seq<TempoSection>, threshold: int, i: int, lb: int)
    requires
        0 <= i,
        0 <= lb,
        sections_contiguous(s),
        forall|k: int| 0 <= k < s.len() ==> (#[trigger] s[k]).wf(),
        forall|k: int| 0 <= k < s.len() ==> (#[trigger] s[k]).bounded(),
        forall|k: int| 0 <= k < s.len() ==> (#[trigger] s[k]).bpm >= lb,
    ensures
        forall|k: int|
            0 <= k < merge_spec(s, threshold, i).len()
                ==> (#[trigger] merge_spec(s, threshold, i)[k]).bpm >= lb,
    decreases s.len() - i,
{
    if i < s.len() {
        let j = group_end(s, threshold, i);
        lemma_group_end_bounds(s, threshold, i);
        let g = s.subrange(i, j);
        assert forall|k: int| 0 <= k < g.len() - 1 implies #[trigger] g[k].end == g[k + 1].start by {
            assert(g[k] == s[i + k] && g[k + 1] == s[i + k + 1]);
        }
        assert forall|k: int| 0 <= k < g.len() implies (#[trigger] g[k]).start < g[k].end && g[k].bpm
            >= lb by {
            assert(g[k] == s[i + k]);
        }
        lemma_avg_spec_bpm_lower(g, lb);
        lemma_merge_spec_bpm_lower(s, threshold, j, lb);
        let m = merge_spec(s, threshold, i);
        let rest = merge_spec(s, threshold, j);
        assert(m == seq![avg_spec(g)] + rest);
        assert forall|k: int| 0 <= k < m.len() implies (#[trigger] m[k]).bpm >= lb by {
            if k == 0 {
                assert(m[0] == avg_spec(g));
            } else {
                assert(m[k] == rest[k - 1]);
            }
        }
    }
}

/// Collapses a nonempty contiguous group of sections into one section
/// spanning the group, with duration-weighted BPM and offset.
fn average_sections(sections: &Vec<TempoSection>) -> (r: TempoSection)
    requires
        sections@.len() > 0,
        sections_contiguous(sections@),
        forall|k: int| 0 <= k < sections@.len() ==> (#[trigger] sections@[k]).wf(),
        forall|k: int| 0 <= k < sections@.len() ==> (#[trigger] sections@[k]).bounded(),
    ensures
        r == avg_spec(sections@),
        r.wf(),
        r.bounded(),
{
    let g = sections;
    let n = g.len();
    let first = g[0];
    let last = g[n - 1];
    proof {
        assert(g@.last() == g@[n - 1]);
        lemma_avg_spec_props(g@);
        lemma_duration_telescope(g@, n as nat);
    }
    let total = last.end - first.start;
    let mut acc_bpm: i64 = 0;
    let mut acc_off: i64 = 0;
    let mut k: usize = 0;
    while k < n
        invariant
            k <= n,
            n == g@.len(),
            sections_contiguous(g@),
            forall|j: int| 0 <= j < n ==> (#[trigger] g@[j]).wf(),
            forall|j: int| 0 <= j < n ==> (#[trigger] g@[j]).bounded(),
            acc_bpm == wsum_bpm(g@, k as nat),
            acc_off == wsum_offset(g@, k as nat),
            0 <= acc_bpm,
            0 <= acc_off,
            acc_bpm <= (if k == 0 {
                0int
            } else {
                g@[k - 1].end - g@[0].start
            }) * (SECTION_LIMIT as int),
            acc_off <= (if k == 0 {
                0int
            } else {
                g@[k - 1].end - g@[0].start
            }) * (SECTION_LIMIT as int),
        decreases n - k,
    {
        let s = g[k];
        let dur = (s.end - s.start) as i64;
        proof {
            let covered = if k == 0 {
                0int
            } else {
                g@[k - 1].end - g@[0].start
            };
            if k > 0 {
                assert(g@[k - 1].end == g@[k as int].start);
            }
            assert(g@[0].start <= s.start) by {
                if k > 0 {
                    assert(covered >= 0);
                }
            }
            assert(0 <= s.bpm * dur <= (SECTION_LIMIT as int) * dur) by (nonlinear_arith)
                requires
                    1 <= s.bpm <= SECTION_LIMIT as int,
                    dur >= 0,
            ;
            assert(0 <= s.offset * dur <= (SECTION_LIMIT as int) * dur) by (nonlinear_arith)
                requires
                    0 <= s.offset <= SECTION_LIMIT as int,
                    dur >= 0,
            ;
            assert(covered * (SECTION_LIMIT as int) + (SECTION_LIMIT as int) * dur == (s.end
                - g@[0].start) * (SECTION_LIMIT as int)) by (nonlinear_arith)
                requires
                    dur == s.end - s.start,
                    covered == s.start - g@[0].start || (k == 0 && covered == 0 && s.start
                        == g@[0].start),
            ;
            assert((s.end - g@[0].start) * (SECTION_LIMIT as int) <= (SECTION_LIMIT as int) * (
            SECTION_LIMIT as int)) by (nonlinear_arith)
                requires
                    0 <= s.end - g@[0].start <= SECTION_LIMIT as int,
            ;
        }
        acc_bpm = acc_bpm + s.bpm * dur;
        acc_off = acc_off + s.offset * dur;
        k += 1;
    }
    proof {
        assert(g@.last() == g@[n - 1]);
        assert(total as int == g@.last().end - g@[0].start);
        assert(total >= 1);
    }
    let bpm = ((acc_bpm as u64) / total) as i64;
    let offset = ((acc_off as u64) / total) as i64;
    proof {
        assert(bpm == wsum_bpm(g@, n as nat) / (total as int));
        assert(offset == wsum_offset(g@, n as nat) / (total as int));
    }
    TempoSection { start: first.start, end: last.end, bpm, offset }
}

/// One past the last section of the merge group that starts at `i`: the
/// group extends while consecutive BPM values differ by less than
/// `threshold`.
pub open spec fn group_end(s: Seq<TempoSection>, threshold: int, i: int) -> int
    decreases s.len() - i,
{
    if i + 1 >= s.len() {
        s.len() as int
    } else if abs(s[i + 1].bpm - s[i].bpm) >= threshold {
        i + 1
    } else {
        group_end(s, threshold, i + 1)
    }
}

pub proof fn lemma_group_end_bounds(s: Seq<TempoSection>, threshold: int, i: int)
    requires
        0 <= i < s.len(),
    ensures
        i < group_end(s, threshold, i) <= s.len(),
    decreases s.len() - i,
{
    if i + 1 < s.len() && abs(s[i + 1].bpm - s[i].bpm) < threshold {
        lemma_group_end_bounds(s, threshold, i + 1);
    }
}

/// `group_end` is the first boundary after `i`: consecutive BPM values
/// differ by less than the threshold strictly inside `[i, j)`, and `j` is
/// either the end of the list or a jump of at least the threshold.
proof fn lemma_group_end_charact(s: Seq<TempoSection>, threshold: int, i: int, j: int)
    requires
        0 <= i < j <= s.len(),
        forall|k: int| i < k < j ==> abs(#[trigger] s[k].bpm - s[k - 1].bpm) < threshold,
        j == s.len() || abs(s[j].bpm - s[j - 1].bpm) >= threshold,
    ensures
        group_end(s, threshold, i) == j,
    decreases j - i,
{
    if i + 1 == j {
    } else {
        assert(abs(s[i + 1].bpm - s[i].bpm) < threshold);
        lemma_group_end_charact(s, threshold, i + 1, j);
    }
}

/// The merged section list from index `i` on: each group of neighbours
/// whose BPM steps stay under the threshold collapses into its
/// duration-weighted average.
pub open spec fn merge_spec(s: Seq<TempoSection>, threshold: int, i: int) -> Seq<TempoSection>
    decreases s.len() - i,
    when 0 <= i
    via merge_spec_dec
{
    if i >= s.len() {
        Seq::empty()
    } else {
        seq![avg_spec(s.subrange(i, group_end(s, threshold, i)))] + merge_spec(
            s,
            threshold,
            group_end(s, threshold, i),
        )
    }
}

#[via_fn]
proof fn merge_spec_dec(s: Seq<TempoSection>, threshold: int, i: int) {
    if i < s.len() {
        lemma_group_end_bounds(s, threshold, i);
    }
}

/// Merging preserves the span, contiguity, well-formedness and bounds.
pub proof fn lemma_merge_spec_partition(s: Seq<TempoSection>, threshold: int, i: int)
    requires
        0 <= i,
        sections_contiguous(s),
        forall|k: int| 0 <= k < s.len() ==> (#[trigger] s[k]).wf(),
        forall|k: int| 0 <= k < s.len() ==> (#[trigger] s[k]).bounded(),
    ensures
        i >= s.len() ==> merge_spec(s, threshold, i).len() == 0,
        i < s.len() ==> merge_spec(s, threshold, i).len() > 0 && merge_spec(s, threshold, i)[0].start
            == s[i].start && merge_spec(s, threshold, i).last().end == s.last().end,
        sections_contiguous(merge_spec(s, threshold, i)),
        forall|k: int|
            0 <= k < merge_spec(s, threshold, i).len()
                ==> (#[trigger] merge_spec(s, threshold, i)[k]).wf(),
        forall|k: int|
            0 <= k < merge_spec(s, threshold, i).len()
                ==> (#[trigger] merge_spec(s, threshold, i)[k]).bounded(),
    decreases s.len() - i,
{
    if i < s.len() {
        let j = group_end(s, threshold, i);
        lemma_group_end_bounds(s, threshold, i);
        let g = s.subrange(i, j);
        assert(g.len() == j - i > 0);
        assert forall|k: int| 0 <= k < g.len() - 1 implies #[trigger] g[k].end == g[k + 1].start by {
            assert(g[k] == s[i + k] && g[k + 1] == s[i + k + 1]);
        }
        lemma_avg_spec_props(g);
        let m = merge_spec(s, threshold, i);
        let rest = merge_spec(s, threshold, j);
        lemma_merge_spec_partition(s, threshold, j);
        assert(m == seq![avg_spec(g)] + rest);
        assert(m[0] == avg_spec(g));
        assert(g[0] == s[i] && g.last() == s[j - 1]);
        if j >= s.len() {
            assert(rest.len() == 0);
            assert(m.len() == 1);
            assert(m.last() == avg_spec(g));
            assert(j == s.len());
            assert(s.last() == s[j - 1]);
        } else {
            assert(rest.len() > 0);
            assert(m.last() == rest.last());
            assert(forall|k: int| 0 <= k < rest.len() ==> #[trigger] m[k + 1] == rest[k]);
            assert(rest[0].start == s[j as int].start);
            assert(s[j - 1].end == s[j as int].start);
            assert forall|k: int| 0 <= k < m.len() - 1 implies #[trigger] m[k].end == m[k + 1].start by {
                if k == 0 {
                    assert(m[0].end == avg_spec(g).end);
                } else {
                    assert(m[k] == rest[k - 1] && m[k + 1] == rest[k]);
                }
            }
        }
        assert forall|k: int| 0 <= k < m.len() implies (#[trigger] m[k]).wf() && m[k].bounded() by {
            if k == 0 {
            } else {
                assert(m[k] == rest[k - 1]);
            }
        }
    }
}

/// Merging a single well-formed bounded section returns it unchanged:
/// the one group's duration-weighted average is the section itself.
pub proof fn lemma_merge_spec_singleton(s: TempoSection, threshold: int)
    requires
        s.wf(),
        s.bounded(),
    ensures
        merge_spec(seq![s], threshold, 0) == seq![s],
{
    let l: Seq<TempoSection> = seq![s];
    assert(group_end(l, threshold, 0) == 1);
    let g = l.subrange(0, 1);
    assert(g =~= l);
    let dur = s.end - s.start;
    reveal_with_fuel(sum_n, 2);
    assert(wsum_bpm(l, 1) == s.bpm * dur);
    assert(wsum_offset(l, 1) == s.offset * dur);
    assert(l.last() == s);
    vstd::arithmetic::div_mod::lemma_div_multiples_vanish(s.bpm as int, dur as int);
    vstd::arithmetic::div_mod::lemma_div_multiples_vanish(s.offset as int, dur as int);
    assert((s.bpm as int) * (dur as int) == (dur as int) * (s.bpm as int)) by (nonlinear_arith);
    assert((s.offset as int) * (dur as int) == (dur as int) * (s.offset as int))
        by (nonlinear_arith);
    assert(avg_spec(l) == s);
    assert(merge_spec(l, threshold, 1) =~= Seq::<TempoSection>::empty());
    assert(merge_spec(l, threshold, 0) =~= seq![s]);
}

/// Merges adjacent sections greedily from the left while each next
/// section's BPM differs from its predecessor's by less than `threshold`,
/// collapsing every group into its duration-weighted average.
///
/// The merge test is the difference between consecutive section BPM
/// values; comparing a section's absolute BPM against the threshold
/// instead would degenerate to merging everything once the threshold
/// reaches ordinary BPM values.
pub fn merge_sections(sections: &Vec<TempoSection>, threshold: i64) -> (r: Vec<TempoSection>)
    requires
        sections_contiguous(sections@),
        forall|k: int| 0 <= k < sections@.len() ==> (#[trigger] sections@[k]).wf(),
        forall|k: int| 0 <= k < sections@.len() ==> (#[trigger] sections@[k]).bounded(),
    ensures
        r@ == merge_spec(sections@, threshold as int, 0),
{
    let n = sections.len();
    let mut r: Vec<TempoSection> = Vec::new();
    let mut i: usize = 0;
    proof {
        assert(r@ + merge_spec(sections@, threshold as int, 0) =~= merge_spec(
            sections@,
            threshold as int,
            0,
        ));
    }
    while i < n
        invariant
            i <= n,
            n == sections@.len(),
            sections_contiguous(sections@),
            forall|k: int| 0 <= k < sections@.len() ==> (#[trigger] sections@[k]).wf(),
            forall|k: int| 0 <= k < sections@.len() ==> (#[trigger] sections@[k]).bounded(),
            r@ + merge_spec(sections@, threshold as int, i as int) == merge_spec(
                sections@,
                threshold as int,
                0,
            ),
        decreases n - i,
    {
        let mut j = i + 1;
        while j < n
            invariant_except_break
                i < j <= n,
                n == sections@.len(),
                forall|k: int| 0 <= k < sections@.len() ==> (#[trigger] sections@[k]).wf(),
                forall|k: int| 0 <= k < sections@.len() ==> (#[trigger] sections@[k]).bounded(),
                forall|k: int|
                    i < k < j ==> abs(#[trigger] sections@[k].bpm - sections@[k - 1].bpm) < (
                    threshold as int),
            ensures
                i < j <= n,
                forall|k: int|
                    i < k < j ==> abs(#[trigger] sections@[k].bpm - sections@[k - 1].bpm) < (
                    threshold as int),
                j == n || abs(sections@[j as int].bpm - sections@[j - 1].bpm) >= threshold as int,
            decreases n - j,
        {
            let a = sections[j].bpm;
            let b = sections[j - 1].bpm;
            let d = if a >= b {
                a - b
            } else {
                b - a
            };
            if d >= threshold {
                break ;
            }
            j += 1;
        }
        proof {
            lemma_group_end_charact(sections@, threshold as int, i as int, j as int);
        }
        let mut group: Vec<TempoSection> = Vec::new();
        let mut k = i;
        while k < j
            invariant
                i <= k <= j <= n,
                n == sections@.len(),
                group@ =~= sections@.subrange(i as int, k as int),
            decreases j - k,
        {
            group.push(sections[k]);
            proof {
                assert(group@ =~= sections@.subrange(i as int, k + 1));
            }
            k += 1;
        }
        proof {
            let g = sections@.subrange(i as int, j as int);
            assert(group@ == g);
            assert forall|t: int| 0 <= t < g.len() - 1 implies #[trigger] g[t].end == g[t
                + 1].start by {
                assert(g[t] == sections@[i + t] && g[t + 1] == sections@[i + t + 1]);
            }
            assert forall|t: int| 0 <= t < g.len() implies (#[trigger] g[t]).wf() && g[t].bounded() by {
                assert(g[t] == sections@[i + t]);
            }
        }
        let a = average_sections(&group);
        let ghost old_r = r@;
        r.push(a);
        proof {
            assert(merge_spec(sections@, threshold as int, i as int) == seq![a] + merge_spec(
                sections@,
                threshold as int,
                j as int,
            ));
            assert(r@ + merge_spec(sections@, threshold as int, j as int) =~= old_r + merge_spec(
                sections@,
                threshold as int,
                i as int,
            ));
        }
        i = j;
    }
    proof {
        assert(r@ =~= r@ + merge_spec(sections@, threshold as int, i as int));
    }
    r
}

/// Splits `s` in half recursively until every piece is shorter than
/// `max_duration`, appending the pieces to `sections` in time order.
pub fn split_section(s: TempoSection, sections: &mut Vec<TempoSection>, max_duration: u64)
    requires
        s.start < s.end,
        max_duration >= 2,
    ensures
        final(sections)@ == old(sections)@ + split_spec(s, max_duration),
    decreases s.end - s.start,
{
    let duration = s.end - s.start;
    if duration < max_duration {
        sections.push(s);
        proof {
            assert(final(sections)@ =~= old(sections)@ + split_spec(s, max_duration));
        }
        return ;
    }
    let mid = s.start + duration / 2;
    let s1 = TempoSection { end: mid, ..s };
    split_section(s1, sections, max_duration);
    let s2 = TempoSection { start: mid, ..s };
    split_section(s2, sections, max_duration);
    proof {
        assert(final(sections)@ =~= old(sections)@ + split_spec(s, max_duration));
    }
}

} // verus!
