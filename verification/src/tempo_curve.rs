//! Run-length structure of a tempo curve, and the length-based stabiliser.
//!
//! A tempo curve is a vector of fixed-point tempo ratios, one per tempogram
//! frame. The stabiliser removes runs shorter than a minimum length by
//! reassigning them to the numerically closer neighbouring value.

use vstd::math::abs;
use vstd::prelude::*;

verus! {

/// A maximal run of equal curve values: the half-open frame range
/// `[start, end)`.
#[derive(Clone, Copy, PartialEq, Eq, Structural, Debug)]
pub struct Segment {
    pub start: usize,
    pub end: usize,
}

/// `[start, end)` is a nonempty range of equal values in `c`.
pub open spec fn is_run(c: Seq<i64>, start: int, end: int) -> bool {
    &&& 0 <= start < end <= c.len()
    &&& forall|i: int| start <= i < end ==> c[i] == c[start]
}

/// `[start, end)` is a run that cannot be extended on either side.
pub open spec fn is_maximal_run(c: Seq<i64>, start: int, end: int) -> bool {
    &&& is_run(c, start, end)
    &&& start == 0 || c[start - 1] != c[start]
    &&& end == c.len() || c[end] != c[start]
}

/// First index of the maximal run containing position `i`.
pub open spec fn run_start(c: Seq<i64>, i: int) -> int
    decreases i,
{
    if i <= 0 {
        0
    } else if c[i - 1] == c[i] {
        run_start(c, i - 1)
    } else {
        i
    }
}

/// One past the last index of the maximal run containing position `i`.
pub open spec fn run_end(c: Seq<i64>, i: int) -> int
    decreases c.len() - i,
{
    if i + 1 >= c.len() {
        c.len() as int
    } else if c[i + 1] == c[i] {
        run_end(c, i + 1)
    } else {
        i + 1
    }
}

/// Length of the maximal run containing position `i`.
pub open spec fn run_len(c: Seq<i64>, i: int) -> int {
    run_end(c, i) - run_start(c, i)
}

/// Every maximal run of `c` has at least `min_len` frames.
pub open spec fn curve_is_stable(c: Seq<i64>, min_len: int) -> bool {
    forall|i: int| 0 <= i < c.len() ==> #[trigger] run_len(c, i) >= min_len
}

/// The value position `i` takes after stabilisation: a position in a run of
/// at least `min_len` frames keeps its value; a position in a shorter run
/// takes the numerically closer neighbouring run's value, the only available
/// one when the run touches an edge, and keeps its own value on a tie or
/// when the run is the whole curve.
pub open spec fn stabilize_at(c: Seq<i64>, min_len: int, i: int) -> i64 {
    let s = run_start(c, i);
    let e = run_end(c, i);
    if e - s >= min_len {
        c[i]
    } else if s > 0 && e < c.len() {
        if abs(c[i] - c[s - 1]) < abs(c[i] - c[e]) {
            c[s - 1]
        } else if abs(c[i] - c[e]) < abs(c[i] - c[s - 1]) {
            c[e]
        } else {
            c[i]
        }
    } else if s > 0 {
        c[s - 1]
    } else if e < c.len() {
        c[e]
    } else {
        c[i]
    }
}

/// The stabilised curve.
pub open spec fn stabilize(c: Seq<i64>, min_len: int) -> Seq<i64> {
    Seq::new(c.len(), |i: int| stabilize_at(c, min_len, i))
}

proof fn lemma_run_start_props(c: Seq<i64>, i: int)
    requires
        0 <= i < c.len(),
    ensures
        0 <= run_start(c, i) <= i,
        forall|k: int| run_start(c, i) <= k <= i ==> c[k] == c[i],
        run_start(c, i) == 0 || c[run_start(c, i) - 1] != c[i],
    decreases i,
{
    if i > 0 && c[i - 1] == c[i] {
        lemma_run_start_props(c, i - 1);
    }
}

proof fn lemma_run_end_props(c: Seq<i64>, i: int)
    requires
        0 <= i < c.len(),
    ensures
        i < run_end(c, i) <= c.len(),
        forall|k: int| i <= k < run_end(c, i) ==> c[k] == c[i],
        run_end(c, i) == c.len() || c[run_end(c, i)] != c[i],
    decreases c.len() - i,
{
    if i + 1 < c.len() && c[i + 1] == c[i] {
        lemma_run_end_props(c, i + 1);
    }
}

/// Positions inside a maximal run `[s, e)` all have that run's bounds.
proof fn lemma_maximal_run_start(c: Seq<i64>, s: int, e: int, i: int)
    requires
        is_maximal_run(c, s, e),
        s <= i < e,
    ensures
        run_start(c, i) == s,
    decreases i - s,
{
    if i == s {
    } else {
        assert(c[i - 1] == c[s] && c[i] == c[s]);
        lemma_maximal_run_start(c, s, e, i - 1);
    }
}

proof fn lemma_maximal_run_end(c: Seq<i64>, s: int, e: int, i: int)
    requires
        is_maximal_run(c, s, e),
        s <= i < e,
    ensures
        run_end(c, i) == e,
    decreases e - i,
{
    if i == e - 1 {
    } else {
        assert(c[i + 1] == c[s] && c[i] == c[s]);
        lemma_maximal_run_end(c, s, e, i + 1);
    }
}

/// The maximal run around any in-range position is a maximal run.
proof fn lemma_run_is_maximal(c: Seq<i64>, i: int)
    requires
        0 <= i < c.len(),
    ensures
        is_maximal_run(c, run_start(c, i), run_end(c, i)),
        run_start(c, i) <= i < run_end(c, i),
{
    lemma_run_start_props(c, i);
    lemma_run_end_props(c, i);
    let s = run_start(c, i);
    let e = run_end(c, i);
    assert forall|k: int| s <= k < e implies c[k] == c[s] by {
        if k <= i {
        } else {
            assert(c[k] == c[i]);
        }
    }
}

/// The canonical run decomposition of `c` from position `i` on: one
/// segment per maximal run, in order.
pub open spec fn runs_from(c: Seq<i64>, i: int) -> Seq<Segment>
    decreases c.len() - i,
    when 0 <= i
    via runs_from_dec
{
    if i >= c.len() {
        Seq::empty()
    } else {
        seq![Segment { start: i as usize, end: run_end(c, i) as usize }] + runs_from(
            c,
            run_end(c, i),
        )
    }
}

#[via_fn]
proof fn runs_from_dec(c: Seq<i64>, i: int) {
    if 0 <= i < c.len() {
        lemma_run_end_props(c, i);
    }
}

/// The canonical run decomposition of the whole curve.
pub open spec fn runs_of(c: Seq<i64>) -> Seq<Segment> {
    runs_from(c, 0)
}

/// A tiling of `[pos, c.len())` by maximal runs is the canonical one.
proof fn lemma_tiling_is_runs_from(c: Seq<i64>, segs: Seq<Segment>, j: int, pos: int)
    requires
        0 <= j <= segs.len(),
        0 <= pos <= c.len(),
        j == segs.len() ==> pos == c.len(),
        j < segs.len() ==> segs[j].start == pos,
        segs.len() > 0 && j < segs.len() ==> segs.last().end == c.len(),
        forall|k: int| j <= k < segs.len() - 1 ==> #[trigger] segs[k].end == segs[k + 1].start,
        forall|k: int|
            j <= k < segs.len()
                ==> is_maximal_run(c, #[trigger] segs[k].start as int, segs[k].end as int),
    ensures
        segs.subrange(j, segs.len() as int) == runs_from(c, pos),
    decreases segs.len() - j,
{
    if j == segs.len() {
        assert(segs.subrange(j, segs.len() as int) =~= runs_from(c, pos));
    } else {
        let s = segs[j];
        lemma_maximal_run_end(c, s.start as int, s.end as int, s.start as int);
        assert(run_end(c, pos) == s.end);
        if j + 1 == segs.len() {
            assert(segs.last() == s);
            lemma_tiling_is_runs_from(c, segs, j + 1, s.end as int);
        } else {
            assert(segs[j].end == segs[j + 1].start);
            lemma_tiling_is_runs_from(c, segs, j + 1, s.end as int);
        }
        assert(segs.subrange(j, segs.len() as int) =~= seq![s] + segs.subrange(
            j + 1,
            segs.len() as int,
        ));
    }
}

/// A constant curve is one single run: its decomposition is one segment
/// spanning the whole curve, and every position's run has full length.
pub proof fn lemma_constant_curve_runs(c: Seq<i64>)
    requires
        c.len() >= 1,
        forall|i: int| 0 <= i < c.len() ==> #[trigger] c[i] == c[0],
    ensures
        runs_of(c) == seq![Segment { start: 0, end: c.len() as usize }],
        forall|i: int| 0 <= i < c.len() ==> #[trigger] run_len(c, i) == c.len(),
{
    assert(is_maximal_run(c, 0, c.len() as int));
    assert forall|i: int| 0 <= i < c.len() implies #[trigger] run_len(c, i) == c.len() by {
        lemma_maximal_run_start(c, 0, c.len() as int, i);
        lemma_maximal_run_end(c, 0, c.len() as int, i);
    }
    lemma_maximal_run_end(c, 0, c.len() as int, 0);
    assert(runs_from(c, c.len() as int) =~= Seq::<Segment>::empty());
    assert(runs_of(c) =~= seq![Segment { start: 0, end: c.len() as usize }]);
}

/// Splits a curve into its maximal constant-value runs: the returned
/// segments are the canonical run decomposition, tiling
/// `[0, curve.len())` in order, each one a maximal run.
pub fn split_curve(curve: &Vec<i64>) -> (segs: Vec<Segment>)
    ensures
        curve@.len() == 0 ==> segs@.len() == 0,
        curve@.len() > 0 ==> segs@.len() > 0,
        segs@.len() > 0 ==> segs@[0].start == 0,
        segs@.len() > 0 ==> segs@.last().end == curve@.len(),
        forall|k: int|
            0 <= k < segs@.len() - 1 ==> #[trigger] segs@[k].end == segs@[k + 1].start,
        forall|k: int|
            0 <= k < segs@.len()
                ==> is_maximal_run(curve@, #[trigger] segs@[k].start as int, segs@[k].end as int),
        segs@ == runs_of(curve@),
{
    let n = curve.len();
    let mut segs: Vec<Segment> = Vec::new();
    if n == 0 {
        proof {
            assert(segs@ =~= runs_of(curve@));
        }
        return segs;
    }
    let mut start: usize = 0;
    let mut i: usize = 1;
    while i < n
        invariant
            1 <= i <= n,
            n == curve@.len(),
            start < i,
            segs@.len() == 0 ==> start == 0,
            segs@.len() > 0 ==> segs@[0].start == 0,
            segs@.len() > 0 ==> segs@.last().end == start,
            forall|k: int|
                0 <= k < segs@.len() - 1 ==> #[trigger] segs@[k].end == segs@[k + 1].start,
            forall|k: int|
                0 <= k < segs@.len()
                    ==> is_maximal_run(
                    curve@,
                    #[trigger] segs@[k].start as int,
                    segs@[k].end as int,
                ),
            forall|k: int| start <= k < i ==> curve@[k] == curve@[start as int],
            start == 0 || curve@[start - 1] != curve@[start as int],
        decreases n - i,
    {
        if curve[i] != curve[i - 1] {
            let ghost old_segs = segs@;
            segs.push(Segment { start, end: i });
            proof {
                assert(curve@[i - 1] == curve@[start as int]);
                assert(segs@.last() == (Segment { start, end: i }));
                assert(forall|k: int|
                    0 <= k < old_segs.len() ==> #[trigger] segs@[k] == old_segs[k]);
            }
            start = i;
        }
        i += 1;
    }
    let ghost old_segs = segs@;
    segs.push(Segment { start, end: n });
    proof {
        assert(segs@.last() == (Segment { start, end: n }));
        assert(forall|k: int| 0 <= k < old_segs.len() ==> #[trigger] segs@[k] == old_segs[k]);
        lemma_tiling_is_runs_from(curve@, segs@, 0, 0);
        assert(segs@.subrange(0, segs@.len() as int) =~= segs@);
    }
    segs
}

/// Reassigns every run shorter than `min_length` to the numerically closer
/// neighbouring value, as `stabilize` specifies.
pub fn correct_curve_by_length(curve: &Vec<i64>, min_length: usize) -> (r: Vec<i64>)
    requires
        forall|i: int|
            0 <= i < curve@.len()
                ==> -0x2000_0000_0000_0000 <= #[trigger] curve@[i] <= 0x2000_0000_0000_0000,
    ensures
        r@ == stabilize(curve@, min_length as int),
{
    let n = curve.len();
    let segs = split_curve(curve);
    let mut r: Vec<i64> = Vec::new();
    let mut k: usize = 0;
    while k < segs.len()
        invariant
            k <= segs@.len(),
            n == curve@.len(),
            forall|i: int|
                0 <= i < curve@.len()
                    ==> -0x2000_0000_0000_0000 <= #[trigger] curve@[i] <= 0x2000_0000_0000_0000,
            segs@.len() > 0 ==> segs@[0].start == 0,
            segs@.len() > 0 ==> segs@.last().end == curve@.len(),
            segs@.len() == 0 ==> curve@.len() == 0,
            forall|j: int|
                0 <= j < segs@.len() - 1 ==> #[trigger] segs@[j].end == segs@[j + 1].start,
            forall|j: int|
                0 <= j < segs@.len()
                    ==> is_maximal_run(
                    curve@,
                    #[trigger] segs@[j].start as int,
                    segs@[j].end as int,
                ),
            r@.len() == if k == 0 {
                0int
            } else {
                segs@[k - 1].end as int
            },
            forall|i: int|
                0 <= i < r@.len() ==> #[trigger] r@[i] == stabilize_at(
                    curve@,
                    min_length as int,
                    i,
                ),
        decreases segs@.len() - k,
    {
        let seg = segs[k];
        proof {
            if k > 0 {
                assert(segs@[k - 1].end == segs@[k as int].start);
            }
        }
        let s = seg.start;
        let e = seg.end;
        let own = curve[s];
        let len = e - s;
        let target: i64 = if len >= min_length {
            own
        } else if s > 0 && e < n {
            let l = curve[s - 1];
            let rv = curve[e];
            let dl = if own >= l {
                own - l
            } else {
                l - own
            };
            let dr = if own >= rv {
                own - rv
            } else {
                rv - own
            };
            if dl < dr {
                l
            } else if dr < dl {
                rv
            } else {
                own
            }
        } else if s > 0 {
            curve[s - 1]
        } else if e < n {
            curve[e]
        } else {
            own
        };
        let mut i = s;
        while i < e
            invariant
                s <= i <= e,
                n == curve@.len(),
                0 <= s < e <= n,
                is_maximal_run(curve@, s as int, e as int),
                r@.len() == i,
                target == stabilize_target(curve@, min_length as int, s as int, e as int),
                forall|j: int|
                    0 <= j < r@.len() ==> #[trigger] r@[j] == stabilize_at(
                        curve@,
                        min_length as int,
                        j,
                    ),
            decreases e - i,
        {
            r.push(target);
            proof {
                lemma_maximal_run_start(curve@, s as int, e as int, i as int);
                lemma_maximal_run_end(curve@, s as int, e as int, i as int);
                assert(curve@[i as int] == curve@[s as int]);
            }
            i += 1;
        }
        k += 1;
    }
    proof {
        if segs@.len() > 0 {
            assert(r@.len() == curve@.len());
        }
        assert(r@ =~= stabilize(curve@, min_length as int));
    }
    r
}

/// The common stabilised value of the maximal run `[s, e)`.
spec fn stabilize_target(c: Seq<i64>, min_len: int, s: int, e: int) -> i64 {
    if e - s >= min_len {
        c[s]
    } else if s > 0 && e < c.len() {
        if abs(c[s] - c[s - 1]) < abs(c[s] - c[e]) {
            c[s - 1]
        } else if abs(c[s] - c[e]) < abs(c[s] - c[s - 1]) {
            c[e]
        } else {
            c[s]
        }
    } else if s > 0 {
        c[s - 1]
    } else if e < c.len() {
        c[e]
    } else {
        c[s]
    }
}

/// A curve whose runs all reach the minimum length is left unchanged by the
/// stabiliser.
pub proof fn lemma_stabilize_stable_identity(c: Seq<i64>, min_len: int)
    requires
        curve_is_stable(c, min_len),
    ensures
        stabilize(c, min_len) == c,
{
    assert forall|i: int| 0 <= i < c.len() implies stabilize(c, min_len)[i] == c[i] by {
        assert(run_len(c, i) >= min_len);
    }
    assert(stabilize(c, min_len) =~= c);
}

/// Stabilising is idempotent whenever one pass settles: either it removes
/// every short run, or it already changed nothing (a short run with no
/// neighbours, or with ties on both sides, stays put). A second pass with
/// the same minimum length then changes nothing. (One pass does not
/// always settle: neighbouring short runs can keep trading values, so the
/// hypothesis restricts the law to first passes that do.)
pub proof fn lemma_stabilize_idempotent(c: Seq<i64>, min_len: int)
    requires
        curve_is_stable(stabilize(c, min_len), min_len) || stabilize(c, min_len) == c,
    ensures
        stabilize(stabilize(c, min_len), min_len) == stabilize(c, min_len),
{
    if curve_is_stable(stabilize(c, min_len), min_len) {
        lemma_stabilize_stable_identity(stabilize(c, min_len), min_len);
    }
}

/// The stabiliser only moves existing values around: a curve whose values
/// lie within `[lo, hi]` stabilises to one whose values do too.
pub proof fn lemma_stabilize_preserves_bounds(c: Seq<i64>, min_len: int, lo: int, hi: int)
    requires
        forall|i: int| 0 <= i < c.len() ==> lo <= #[trigger] c[i] <= hi,
    ensures
        forall|i: int|
            0 <= i < c.len() ==> lo <= #[trigger] stabilize(c, min_len)[i] <= hi,
{
    assert forall|i: int| 0 <= i < c.len() implies lo <= #[trigger] stabilize(c, min_len)[i]
        <= hi by {
        lemma_run_is_maximal(c, i);
        assert(stabilize(c, min_len)[i] == stabilize_at(c, min_len, i));
    }
}

/// The recursive form of `join_adjacent_segments`: a segment whose start
/// touches the previous segment's end is absorbed into it.
pub open spec fn join_spec(segs: Seq<Segment>) -> Seq<Segment>
    decreases segs.len(),
{
    if segs.len() == 0 {
        Seq::empty()
    } else {
        let prev = join_spec(segs.drop_last());
        let s = segs.last();
        if prev.len() > 0 && prev.last().end == s.start {
            prev.update(prev.len() - 1, Segment { start: prev.last().start, end: s.end })
        } else {
            prev.push(s)
        }
    }
}

/// Concatenates segments that touch: wherever one segment ends exactly where
/// the next begins, the two collapse into one.
pub fn join_adjacent_segments(segments: Vec<Segment>) -> (r: Vec<Segment>)
    ensures
        r@ == join_spec(segments@),
{
    let mut r: Vec<Segment> = Vec::new();
    let mut k: usize = 0;
    while k < segments.len()
        invariant
            k <= segments@.len(),
            r@ == join_spec(segments@.subrange(0, k as int)),
        decreases segments@.len() - k,
    {
        let s = segments[k];
        let m = r.len();
        proof {
            assert(segments@.subrange(0, k + 1).drop_last() =~= segments@.subrange(0, k as int));
            assert(segments@.subrange(0, k + 1).last() == segments@[k as int]);
        }
        if m > 0 {
            let prev = r[m - 1];
            if prev.end == s.start {
                r.set(m - 1, Segment { start: prev.start, end: s.end });
                proof {
                    assert(r@ =~= join_spec(segments@.subrange(0, k + 1)));
                }
            } else {
                r.push(s);
                proof {
                    assert(r@ =~= join_spec(segments@.subrange(0, k + 1)));
                }
            }
        } else {
            r.push(s);
            proof {
                assert(r@ =~= join_spec(segments@.subrange(0, k + 1)));
            }
        }
        k += 1;
    }
    proof {
        assert(segments@.subrange(0, segments@.len() as int) =~= segments@);
    }
    r
}

} // verus!
