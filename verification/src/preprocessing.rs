//! Cleaning a cyclic tempogram before curve extraction: windowed smoothing
//! along time, per-frame mean removal, L1 normalisation, rectification,
//! triplet reinforcement, and the per-frame tempo-curve argmax.

use crate::matrix::Matrix;
use crate::sums::{
    lemma_sum_n_abs_le, lemma_sum_n_eq, lemma_sum_n_nonneg, lemma_sum_n_prefix_le,
    lemma_sum_n_scale, lemma_sum_n_term_le, sum_n, div_floor,
};
use vstd::math::abs;
use vstd::prelude::*;

verus! {

/// Magnitude budget for matrix entries and window weights entering the
/// smoothing pipeline.
pub const AMP_LIMIT: i64 = 0x10_0000;

/// Magnitude bound on a windowed sum of in-budget entries.
pub const WIN_OUT_LIMIT: i64 = 0x100_0000_0000;

/// Magnitude bound on a windowed sum after mean removal.
pub const CENTERED_LIMIT: i64 = 0x200_0000_0000;

/// Largest admitted row count.
pub const DIM_LIMIT: usize = 0x10_0000;

/// Every element of `s` lies within `[lo, hi]`.
pub open spec fn seq_within(s: Seq<i64>, lo: int, hi: int) -> bool {
    forall|i: int| 0 <= i < s.len() ==> lo <= #[trigger] s[i] <= hi
}

/// Entry of `s` with zero padding outside the column range.
pub open spec fn padded_entry(s: Matrix, r: int, c: int) -> int {
    if 0 <= c < s.spec_cols() {
        s.entry(r, c)
    } else {
        0
    }
}

/// The centred moving weighted sum of row `r` at column `c`: the window
/// `w` is laid over the columns, centred at `c`, with zero padding past
/// either edge.
pub open spec fn win_entry(s: Matrix, w: Seq<i64>, r: int, c: int) -> int {
    sum_n(|k: int| (w[k] as int) * padded_entry(s, r, c - (w.len() / 2) as int + k), w.len())
}

/// Sum of the absolute window weights over the first `n` taps.
pub open spec fn abs_sum(w: Seq<i64>, n: nat) -> int {
    sum_n(|k: int| abs(w[k] as int) as int, n)
}

/// Sum of column `c` over the first `n` rows.
pub open spec fn col_sum(s: Matrix, c: int, n: nat) -> int {
    sum_n(|r: int| s.entry(r, c), n)
}

/// Sum of absolute values of column `c` over the first `n` rows.
pub open spec fn col_abs_sum(s: Matrix, c: int, n: nat) -> int {
    sum_n(|r: int| abs(s.entry(r, c)) as int, n)
}

/// `v` rescaled so that a frame of L1 norm `nm` reaches total weight
/// `scale`; magnitudes divide by `nm` with truncation, and a frame with
/// zero norm is left as it stands.
pub open spec fn scale_by_norm(v: int, scale: int, nm: int) -> int {
    if nm == 0 {
        v
    } else if v >= 0 {
        v * scale / nm
    } else {
        -((-v) * scale / nm)
    }
}

/// Applies the window `w` as a centred moving weighted sum along each row,
/// zero-padded at both edges; output columns line up with input columns.
pub fn apply_window_cols(s: &Matrix, w: &Vec<i64>) -> (out: Matrix)
    requires
        s.wf(),
        s.entries_within(-AMP_LIMIT as int, AMP_LIMIT as int),
        w@.len() >= 1,
        seq_within(w@, -AMP_LIMIT as int, AMP_LIMIT as int),
        abs_sum(w@, w@.len()) <= AMP_LIMIT as int,
        s.spec_cols() + w@.len() <= usize::MAX,
    ensures
        out.wf(),
        out.spec_rows() == s.spec_rows(),
        out.spec_cols() == s.spec_cols(),
        forall|r: int, c: int|
            0 <= r < s.spec_rows() && 0 <= c < s.spec_cols()
                ==> #[trigger] out.entry(r, c) == win_entry(*s, w@, r, c),
        out.entries_within(-WIN_OUT_LIMIT as int, WIN_OUT_LIMIT as int),
{
    let rows = s.rows();
    let cols = s.cols();
    let wlen = w.len();
    let pad = wlen / 2;
    let _dlen = s.data.len();
    proof {
        assert(rows * cols <= usize::MAX);
    }
    let mut out = Matrix::zeros(rows, cols);
    proof {
        assert(rows * cols == s.data@.len());
    }
    let mut r: usize = 0;
    while r < rows
        invariant
            r <= rows,
            s.wf(),
            s.entries_within(-AMP_LIMIT as int, AMP_LIMIT as int),
            w@.len() == wlen >= 1,
            seq_within(w@, -AMP_LIMIT as int, AMP_LIMIT as int),
            abs_sum(w@, w@.len()) <= AMP_LIMIT as int,
            s.spec_cols() + w@.len() <= usize::MAX,
            pad == wlen / 2,
            rows == s.spec_rows(),
            cols == s.spec_cols(),
            out.wf(),
            out.spec_rows() == rows,
            out.spec_cols() == cols,
            forall|i: int, j: int|
                0 <= i < r && 0 <= j < cols ==> #[trigger] out.entry(i, j) == win_entry(
                    *s,
                    w@,
                    i,
                    j,
                ),
            forall|i: int, j: int|
                0 <= i < rows && 0 <= j < cols
                    ==> -WIN_OUT_LIMIT as int <= #[trigger] out.entry(i, j)
                        <= WIN_OUT_LIMIT as int,
        decreases rows - r,
    {
        let mut c: usize = 0;
        while c < cols
            invariant
                c <= cols,
                r < rows,
                s.wf(),
                s.entries_within(-AMP_LIMIT as int, AMP_LIMIT as int),
                w@.len() == wlen >= 1,
                seq_within(w@, -AMP_LIMIT as int, AMP_LIMIT as int),
                abs_sum(w@, w@.len()) <= AMP_LIMIT as int,
                s.spec_cols() + w@.len() <= usize::MAX,
                pad == wlen / 2,
                rows == s.spec_rows(),
                cols == s.spec_cols(),
                out.wf(),
                out.spec_rows() == rows,
                out.spec_cols() == cols,
                forall|i: int, j: int|
                    0 <= i < r && 0 <= j < cols ==> #[trigger] out.entry(i, j) == win_entry(
                        *s,
                        w@,
                        i,
                        j,
                    ),
                forall|j: int|
                    0 <= j < c ==> #[trigger] out.entry(r as int, j) == win_entry(
                        *s,
                        w@,
                        r as int,
                        j,
                    ),
                forall|i: int, j: int|
                    0 <= i < rows && 0 <= j < cols
                        ==> -WIN_OUT_LIMIT as int <= #[trigger] out.entry(i, j)
                            <= WIN_OUT_LIMIT as int,
            decreases cols - c,
        {
            let ghost term = |k: int|
                (w@[k] as int) * padded_entry(*s, r as int, c - (w@.len() / 2) as int + k);
            let ghost gbound = |k: int| (abs(w@[k] as int) as int) * (AMP_LIMIT as int);
            proof {
                assert forall|k: int| 0 <= k < wlen implies -(#[trigger] gbound(k)) <= term(k)
                    <= gbound(k) by {
                    let p = padded_entry(*s, r as int, c - (w@.len() / 2) as int + k);
                    assert(-(AMP_LIMIT as int) <= p <= AMP_LIMIT as int);
                    assert(-(abs(w@[k] as int) * (AMP_LIMIT as int)) <= (w@[k] as int) * p <= abs(
                        w@[k] as int,
                    ) * (AMP_LIMIT as int)) by (nonlinear_arith)
                        requires
                            -(AMP_LIMIT as int) <= p <= AMP_LIMIT as int,
                            abs(w@[k] as int) >= w@[k] as int >= -abs(w@[k] as int),
                            abs(w@[k] as int) >= 0,
                    ;
                }
                lemma_sum_n_scale(
                    |k: int| abs(w@[k] as int) as int,
                    gbound,
                    AMP_LIMIT as int,
                    w@.len(),
                );
                assert(sum_n(gbound, w@.len()) <= (AMP_LIMIT as int) * (AMP_LIMIT as int))
                    by (nonlinear_arith)
                    requires
                        sum_n(gbound, w@.len()) == (AMP_LIMIT as int) * abs_sum(w@, w@.len()),
                        abs_sum(w@, w@.len()) <= AMP_LIMIT as int,
                        AMP_LIMIT as int > 0,
                ;
            }
            let mut acc: i64 = 0;
            let mut k: usize = 0;
            while k < wlen
                invariant
                    k <= wlen,
                    c < cols,
                    r < rows,
                    s.wf(),
                    s.entries_within(-AMP_LIMIT as int, AMP_LIMIT as int),
                    w@.len() == wlen >= 1,
                    seq_within(w@, -AMP_LIMIT as int, AMP_LIMIT as int),
                    s.spec_cols() + w@.len() <= usize::MAX,
                    pad == wlen / 2,
                    rows == s.spec_rows(),
                    cols == s.spec_cols(),
                    term == (|k: int|
                        (w@[k] as int) * padded_entry(
                            *s,
                            r as int,
                            c - (w@.len() / 2) as int + k,
                        )),
                    gbound == (|k: int| (abs(w@[k] as int) as int) * (AMP_LIMIT as int)),
                    forall|j: int| 0 <= j < wlen ==> #[trigger] gbound(j) >= 0,
                    forall|j: int|
                        0 <= j < wlen ==> -(#[trigger] gbound(j)) <= term(j) <= gbound(j),
                    sum_n(gbound, w@.len()) <= (AMP_LIMIT as int) * (AMP_LIMIT as int),
                    acc == sum_n(term, k as nat),
                    -sum_n(gbound, k as nat) <= acc <= sum_n(gbound, k as nat),
                decreases wlen - k,
            {
                let pos = c + k;
                let sval: i64 = if pos >= pad && pos - pad < cols {
                    s.get(r, pos - pad)
                } else {
                    0
                };
                proof {
                    assert(sval as int == padded_entry(
                        *s,
                        r as int,
                        c - (w@.len() / 2) as int + k,
                    ));
                    assert(-(AMP_LIMIT as int) <= w@[k as int] <= AMP_LIMIT as int);
                    assert(-(WIN_OUT_LIMIT as int) <= (w@[k as int] as int) * (sval as int)
                        <= WIN_OUT_LIMIT as int) by (nonlinear_arith)
                        requires
                            -(AMP_LIMIT as int) <= w@[k as int] as int <= AMP_LIMIT as int,
                            -(AMP_LIMIT as int) <= sval as int <= AMP_LIMIT as int,
                    ;
                    lemma_sum_n_abs_le(term, gbound, (k + 1) as nat);
                    lemma_sum_n_prefix_le(gbound, (k + 1) as nat, w@.len());
                }
                let t: i64 = w[k] * sval;
                acc = acc + t;
                k += 1;
            }
            proof {
                lemma_sum_n_abs_le(term, gbound, w@.len());
                assert(acc == win_entry(*s, w@, r as int, c as int));
            }
            out.set(r, c, acc);
            c += 1;
        }
        r += 1;
    }
    out
}

/// Subtracts from every entry the mean of its column (its time frame),
/// rounding the mean toward minus infinity.
pub fn subtract_mean(s: &Matrix) -> (out: Matrix)
    requires
        s.wf(),
        1 <= s.spec_rows() <= DIM_LIMIT,
        s.entries_within(-WIN_OUT_LIMIT as int, WIN_OUT_LIMIT as int),
    ensures
        out.wf(),
        out.spec_rows() == s.spec_rows(),
        out.spec_cols() == s.spec_cols(),
        forall|r: int, c: int|
            0 <= r < s.spec_rows() && 0 <= c < s.spec_cols()
                ==> #[trigger] out.entry(r, c) == s.entry(r, c) - col_sum(
                    *s,
                    c,
                    s.spec_rows() as nat,
                ) / s.spec_rows(),
        out.entries_within(-CENTERED_LIMIT as int, CENTERED_LIMIT as int),
{
    let rows = s.rows();
    let cols = s.cols();
    let _dlen = s.data.len();
    proof {
        assert(rows * cols <= usize::MAX);
    }
    let mut out = Matrix::zeros(rows, cols);
    let mut c: usize = 0;
    while c < cols
        invariant
            c <= cols,
            s.wf(),
            1 <= rows <= DIM_LIMIT,
            s.entries_within(-WIN_OUT_LIMIT as int, WIN_OUT_LIMIT as int),
            rows == s.spec_rows(),
            cols == s.spec_cols(),
            out.wf(),
            out.spec_rows() == rows,
            out.spec_cols() == cols,
            forall|i: int, j: int|
                0 <= i < rows && 0 <= j < c ==> #[trigger] out.entry(i, j) == s.entry(i, j)
                    - col_sum(*s, j, rows as nat) / (rows as int),
            forall|i: int, j: int|
                0 <= i < rows && 0 <= j < cols
                    ==> -CENTERED_LIMIT as int <= #[trigger] out.entry(i, j)
                        <= CENTERED_LIMIT as int,
        decreases cols - c,
    {
        let ghost colf = |r: int| s.entry(r, c as int);
        let ghost gb = |r: int| WIN_OUT_LIMIT as int;
        let mut acc: i64 = 0;
        let mut r: usize = 0;
        while r < rows
            invariant
                r <= rows,
                c < cols,
                s.wf(),
                1 <= rows <= DIM_LIMIT,
                s.entries_within(-WIN_OUT_LIMIT as int, WIN_OUT_LIMIT as int),
                rows == s.spec_rows(),
                cols == s.spec_cols(),
                colf == (|r: int| s.entry(r, c as int)),
                acc == sum_n(colf, r as nat),
                -(r as int) * (WIN_OUT_LIMIT as int) <= acc <= (r as int) * (WIN_OUT_LIMIT
                    as int),
            decreases rows - r,
        {
            let v = s.get(r, c);
            proof {
                assert((r as int) * (WIN_OUT_LIMIT as int) + (WIN_OUT_LIMIT as int) == ((r + 1)
                    as int) * (WIN_OUT_LIMIT as int)) by (nonlinear_arith);
                assert(((r + 1) as int) * (WIN_OUT_LIMIT as int) <= (DIM_LIMIT as int) * (
                WIN_OUT_LIMIT as int)) by (nonlinear_arith)
                    requires
                        0 <= r + 1 <= DIM_LIMIT as int,
                ;
            }
            acc = acc + v;
            r += 1;
        }
        proof {
            assert((rows as int) * (WIN_OUT_LIMIT as int) <= (DIM_LIMIT as int) * (WIN_OUT_LIMIT
                as int)) by (nonlinear_arith)
                requires
                    0 <= rows as int <= DIM_LIMIT as int,
            ;
        }
        let mean = div_floor(acc, rows as i64);
        proof {
            assert((rows as int) * (-(WIN_OUT_LIMIT as int)) == -((rows as int) * (WIN_OUT_LIMIT
                as int))) by (nonlinear_arith);
            vstd::arithmetic::div_mod::lemma_div_multiples_vanish(
                WIN_OUT_LIMIT as int,
                rows as int,
            );
            vstd::arithmetic::div_mod::lemma_div_multiples_vanish(
                -(WIN_OUT_LIMIT as int),
                rows as int,
            );
            vstd::arithmetic::div_mod::lemma_div_is_ordered(
                acc as int,
                (rows as int) * (WIN_OUT_LIMIT as int),
                rows as int,
            );
            vstd::arithmetic::div_mod::lemma_div_is_ordered(
                (rows as int) * (-(WIN_OUT_LIMIT as int)),
                acc as int,
                rows as int,
            );
            assert((rows as int) * (WIN_OUT_LIMIT as int) == (WIN_OUT_LIMIT as int) * (rows
                as int)) by (nonlinear_arith);
            assert((rows as int) * (-(WIN_OUT_LIMIT as int)) == (-(WIN_OUT_LIMIT as int)) * (rows
                as int)) by (nonlinear_arith);
            assert(-(WIN_OUT_LIMIT as int) <= mean as int <= WIN_OUT_LIMIT as int);
        }
        let mut r: usize = 0;
        while r < rows
            invariant
                r <= rows,
                c < cols,
                s.wf(),
                1 <= rows <= DIM_LIMIT,
                s.entries_within(-WIN_OUT_LIMIT as int, WIN_OUT_LIMIT as int),
                rows == s.spec_rows(),
                cols == s.spec_cols(),
                -(WIN_OUT_LIMIT as int) <= mean as int <= WIN_OUT_LIMIT as int,
                mean as int == col_sum(*s, c as int, rows as nat) / (rows as int),
                out.wf(),
                out.spec_rows() == rows,
                out.spec_cols() == cols,
                forall|i: int, j: int|
                    0 <= i < rows && 0 <= j < c ==> #[trigger] out.entry(i, j) == s.entry(i, j)
                        - col_sum(*s, j, rows as nat) / (rows as int),
                forall|i: int|
                    0 <= i < r ==> #[trigger] out.entry(i, c as int) == s.entry(i, c as int)
                        - col_sum(*s, c as int, rows as nat) / (rows as int),
                forall|i: int, j: int|
                    0 <= i < rows && 0 <= j < cols
                        ==> -CENTERED_LIMIT as int <= #[trigger] out.entry(i, j)
                            <= CENTERED_LIMIT as int,
            decreases rows - r,
        {
            let v = s.get(r, c);
            out.set(r, c, v - mean);
            r += 1;
        }
        c += 1;
    }
    out
}

/// Rescales each column (time frame) so its L1 mass becomes `scale`;
/// frames with zero mass are left unchanged.
pub fn normalize_cols_p1(s: &Matrix, scale: i64) -> (out: Matrix)
    requires
        s.wf(),
        1 <= s.spec_rows() <= DIM_LIMIT,
        1 <= scale <= AMP_LIMIT,
        s.entries_within(-CENTERED_LIMIT as int, CENTERED_LIMIT as int),
    ensures
        out.wf(),
        out.spec_rows() == s.spec_rows(),
        out.spec_cols() == s.spec_cols(),
        forall|r: int, c: int|
            0 <= r < s.spec_rows() && 0 <= c < s.spec_cols()
                ==> #[trigger] out.entry(r, c) == scale_by_norm(
                    s.entry(r, c),
                    scale as int,
                    col_abs_sum(*s, c, s.spec_rows() as nat),
                ),
        out.entries_within(-CENTERED_LIMIT as int, CENTERED_LIMIT as int),
        out.entries_within(-AMP_LIMIT as int * AMP_LIMIT as int, AMP_LIMIT as int * AMP_LIMIT as int),
{
    let rows = s.rows();
    let cols = s.cols();
    let _dlen = s.data.len();
    proof {
        assert(rows * cols <= usize::MAX);
    }
    let mut out = Matrix::zeros(rows, cols);
    let mut c: usize = 0;
    while c < cols
        invariant
            c <= cols,
            s.wf(),
            1 <= rows <= DIM_LIMIT,
            1 <= scale <= AMP_LIMIT,
            s.entries_within(-CENTERED_LIMIT as int, CENTERED_LIMIT as int),
            rows == s.spec_rows(),
            cols == s.spec_cols(),
            out.wf(),
            out.spec_rows() == rows,
            out.spec_cols() == cols,
            forall|i: int, j: int|
                0 <= i < rows && 0 <= j < c ==> #[trigger] out.entry(i, j) == scale_by_norm(
                    s.entry(i, j),
                    scale as int,
                    col_abs_sum(*s, j, rows as nat),
                ),
            forall|i: int, j: int|
                0 <= i < rows && 0 <= j < cols
                    ==> -CENTERED_LIMIT as int <= #[trigger] out.entry(i, j)
                        <= CENTERED_LIMIT as int,
            forall|i: int, j: int|
                0 <= i < rows && 0 <= j < cols
                    ==> -(AMP_LIMIT as int * AMP_LIMIT as int) <= #[trigger] out.entry(i, j)
                        <= AMP_LIMIT as int * AMP_LIMIT as int,
        decreases cols - c,
    {
        let ghost absf = |r: int| abs(s.entry(r, c as int)) as int;
        let mut nm: i64 = 0;
        let mut r: usize = 0;
        while r < rows
            invariant
                r <= rows,
                c < cols,
                s.wf(),
                1 <= rows <= DIM_LIMIT,
                s.entries_within(-CENTERED_LIMIT as int, CENTERED_LIMIT as int),
                rows == s.spec_rows(),
                cols == s.spec_cols(),
                absf == (|r: int| abs(s.entry(r, c as int)) as int),
                nm == sum_n(absf, r as nat),
                0 <= nm <= (r as int) * (CENTERED_LIMIT as int),
            decreases rows - r,
        {
            let v = s.get(r, c);
            let av = if v >= 0 {
                v
            } else {
                -v
            };
            proof {
                assert((r as int) * (CENTERED_LIMIT as int) + (CENTERED_LIMIT as int) == ((r + 1)
                    as int) * (CENTERED_LIMIT as int)) by (nonlinear_arith);
                assert(((r + 1) as int) * (CENTERED_LIMIT as int) <= (DIM_LIMIT as int) * (
                CENTERED_LIMIT as int)) by (nonlinear_arith)
                    requires
                        0 <= r + 1 <= DIM_LIMIT as int,
                ;
            }
            nm = nm + av;
            r += 1;
        }
        let mut r: usize = 0;
        while r < rows
            invariant
                r <= rows,
                c < cols,
                s.wf(),
                1 <= rows <= DIM_LIMIT,
                1 <= scale <= AMP_LIMIT,
                s.entries_within(-CENTERED_LIMIT as int, CENTERED_LIMIT as int),
                rows == s.spec_rows(),
                cols == s.spec_cols(),
                absf == (|r: int| abs(s.entry(r, c as int)) as int),
                nm == sum_n(absf, rows as nat),
                nm >= 0,
                out.wf(),
                out.spec_rows() == rows,
                out.spec_cols() == cols,
                forall|i: int, j: int|
                    0 <= i < rows && 0 <= j < c ==> #[trigger] out.entry(i, j) == scale_by_norm(
                        s.entry(i, j),
                        scale as int,
                        col_abs_sum(*s, j, rows as nat),
                    ),
                forall|i: int|
                    0 <= i < r ==> #[trigger] out.entry(i, c as int) == scale_by_norm(
                        s.entry(i, c as int),
                        scale as int,
                        col_abs_sum(*s, c as int, rows as nat),
                    ),
                forall|i: int, j: int|
                    0 <= i < rows && 0 <= j < cols
                        ==> -CENTERED_LIMIT as int <= #[trigger] out.entry(i, j)
                            <= CENTERED_LIMIT as int,
                forall|i: int, j: int|
                    0 <= i < rows && 0 <= j < cols
                        ==> -(AMP_LIMIT as int * AMP_LIMIT as int) <= #[trigger] out.entry(i, j)
                            <= AMP_LIMIT as int * AMP_LIMIT as int,
            decreases rows - r,
        {
            let v = s.get(r, c);
            proof {
                lemma_sum_n_eq(
                    absf,
                    |rr: int| abs(s.entry(rr, c as int)) as int,
                    rows as nat,
                );
                assert(nm as int == col_abs_sum(*s, c as int, rows as nat));
            }
            let nv: i64 = if nm == 0 {
                proof {
                    lemma_sum_n_nonneg(absf, r as nat);
                    lemma_sum_n_term_le(absf, r as nat, rows as nat);
                    assert(abs(s.entry(r as int, c as int)) as int <= 0);
                    assert(v == 0);
                }
                v
            } else {
                let av: u64 = if v >= 0 {
                    v as u64
                } else {
                    (-v) as u64
                };
                proof {
                    lemma_sum_n_term_le(absf, r as nat, rows as nat);
                    assert(av as int <= nm as int);
                    assert((av as int) * (scale as int) <= (nm as int) * (scale as int))
                        by (nonlinear_arith)
                        requires
                            0 <= av as int <= nm as int,
                            scale as int >= 0,
                    ;
                    assert((av as int) * (scale as int) <= (CENTERED_LIMIT as int) * (AMP_LIMIT
                        as int)) by (nonlinear_arith)
                        requires
                            0 <= av as int <= CENTERED_LIMIT as int,
                            0 <= scale as int <= AMP_LIMIT as int,
                    ;
                    vstd::arithmetic::div_mod::lemma_div_is_ordered(
                        (av as int) * (scale as int),
                        (nm as int) * (scale as int),
                        nm as int,
                    );
                    vstd::arithmetic::div_mod::lemma_div_multiples_vanish(
                        scale as int,
                        nm as int,
                    );
                    assert((nm as int) * (scale as int) == (nm as int) * (scale as int));
                    assert(((nm as int) * (scale as int)) / (nm as int) == scale as int);
                }
                let q: u64 = (av * (scale as u64)) / (nm as u64);
                if v >= 0 {
                    q as i64
                } else {
                    -(q as i64)
                }
            };
            out.set(r, c, nv);
            r += 1;
        }
        c += 1;
    }
    out
}

/// Column sum of windowed values over the first `n` rows.
pub open spec fn win_col_sum(s: Matrix, w: Seq<i64>, c: int, n: nat) -> int {
    sum_n(|r: int| win_entry(s, w, r, c), n)
}

/// A windowed value with its frame's mean removed.
pub open spec fn centered_entry(s: Matrix, w: Seq<i64>, r: int, c: int) -> int {
    win_entry(s, w, r, c) - win_col_sum(s, w, c, s.spec_rows() as nat) / s.spec_rows()
}

/// L1 mass of a frame of centred windowed values, over the first `n` rows.
pub open spec fn centered_abs_sum(s: Matrix, w: Seq<i64>, c: int, n: nat) -> int {
    sum_n(|r: int| abs(centered_entry(s, w, r, c)) as int, n)
}

/// Smooths the tempogram along time with the window `w`, removes each
/// frame's mean, and L1-normalises each frame to total weight `scale`.
pub fn smoothen_tempogram(s: &Matrix, w: &Vec<i64>, scale: i64) -> (out: Matrix)
    requires
        s.wf(),
        1 <= s.spec_rows() <= DIM_LIMIT,
        s.entries_within(-AMP_LIMIT as int, AMP_LIMIT as int),
        w@.len() >= 1,
        seq_within(w@, -AMP_LIMIT as int, AMP_LIMIT as int),
        abs_sum(w@, w@.len()) <= AMP_LIMIT as int,
        s.spec_cols() + w@.len() <= usize::MAX,
        1 <= scale <= AMP_LIMIT,
    ensures
        out.wf(),
        out.spec_rows() == s.spec_rows(),
        out.spec_cols() == s.spec_cols(),
        forall|r: int, c: int|
            0 <= r < s.spec_rows() && 0 <= c < s.spec_cols()
                ==> #[trigger] out.entry(r, c) == scale_by_norm(
                    centered_entry(*s, w@, r, c),
                    scale as int,
                    centered_abs_sum(*s, w@, c, s.spec_rows() as nat),
                ),
        out.entries_within(
            -(AMP_LIMIT as int * AMP_LIMIT as int),
            AMP_LIMIT as int * AMP_LIMIT as int,
        ),
{
    let a = apply_window_cols(s, w);
    let b = subtract_mean(&a);
    let out = normalize_cols_p1(&b, scale);
    proof {
        let rows = s.spec_rows();
        let cols = s.spec_cols();
        assert forall|c: int| 0 <= c < cols implies #[trigger] col_sum(a, c, rows as nat)
            == win_col_sum(*s, w@, c, rows as nat) by {
            lemma_sum_n_eq(
                |r: int| a.entry(r, c),
                |r: int| win_entry(*s, w@, r, c),
                rows as nat,
            );
        }
        assert forall|r: int, c: int| 0 <= r < rows && 0 <= c < cols implies #[trigger] b.entry(
            r,
            c,
        ) == centered_entry(*s, w@, r, c) by {}
        assert forall|c: int| 0 <= c < cols implies #[trigger] col_abs_sum(b, c, rows as nat)
            == centered_abs_sum(*s, w@, c, rows as nat) by {
            lemma_sum_n_eq(
                |r: int| abs(b.entry(r, c)) as int,
                |r: int| abs(centered_entry(*s, w@, r, c)) as int,
                rows as nat,
            );
        }
    }
    out
}

/// Index of the first element of `axis` (among the first `n`) nearest to
/// `v`.
pub open spec fn nearest_upto(axis: Seq<i64>, v: int, n: nat) -> int
    decreases n,
{
    if n <= 1 {
        0
    } else {
        let p = nearest_upto(axis, v, (n - 1) as nat);
        if (abs(axis[n - 1] - v) as int) < abs(axis[p] - v) as int {
            n - 1
        } else {
            p
        }
    }
}

/// The nearest index is in range, touches the minimum distance, and is the
/// first index to do so.
pub proof fn lemma_nearest_upto_props(axis: Seq<i64>, v: int, n: nat)
    requires
        1 <= n <= axis.len(),
    ensures
        0 <= nearest_upto(axis, v, n) < n,
        forall|k: int|
            0 <= k < n ==> abs(axis[nearest_upto(axis, v, n)] - v) <= abs(#[trigger] axis[k] - v),
        forall|k: int|
            0 <= k < nearest_upto(axis, v, n) ==> abs(axis[nearest_upto(axis, v, n)] - v) < abs(
                #[trigger] axis[k] - v,
            ),
    decreases n,
{
    if n > 1 {
        lemma_nearest_upto_props(axis, v, (n - 1) as nat);
    }
}

/// Finds the first axis bin whose value is nearest to `v`.
pub fn find_nearest(axis: &Vec<i64>, v: i64) -> (idx: usize)
    requires
        axis@.len() >= 1,
        seq_within(axis@, -0x2000_0000_0000_0000, 0x2000_0000_0000_0000),
        -0x2000_0000_0000_0000 <= v <= 0x2000_0000_0000_0000,
    ensures
        idx == nearest_upto(axis@, v as int, axis@.len()),
        idx < axis@.len(),
{
    let n = axis.len();
    let mut best: usize = 0;
    let mut k: usize = 1;
    while k < n
        invariant
            1 <= k <= n,
            n == axis@.len(),
            seq_within(axis@, -0x2000_0000_0000_0000, 0x2000_0000_0000_0000),
            -0x2000_0000_0000_0000 <= v <= 0x2000_0000_0000_0000,
            best == nearest_upto(axis@, v as int, k as nat),
            best < k,
        decreases n - k,
    {
        let ak = axis[k];
        let ab = axis[best];
        let dk = if ak >= v {
            ak - v
        } else {
            v - ak
        };
        let db = if ab >= v {
            ab - v
        } else {
            v - ab
        };
        if dk < db {
            best = k;
        }
        k += 1;
    }
    best
}

/// The BPM value whose 3:2 triplet relates to `a`, folded back into the
/// `[scale, 2 * scale)` octave that the cyclic axis spans.
pub open spec fn triplet_value(a: int, scale: int) -> int {
    ((3 * a / 2 - scale) % (2 * scale)) + scale
}

/// The axis row nearest to the triplet value of row `i`.
pub open spec fn triplet_row(axis: Seq<i64>, i: int, scale: int) -> int {
    nearest_upto(axis, triplet_value(axis[i] as int, scale), axis.len())
}

/// Reinforces each tempo row with `weight` times its product with the
/// 3:2-related (triplet) row, boosting candidates whose triplet
/// subdivision also carries energy.
pub fn include_triplets(s: &Matrix, axis: &Vec<i64>, weight: i64, scale: i64) -> (out: Matrix)
    requires
        s.wf(),
        axis@.len() == s.spec_rows(),
        s.spec_rows() >= 1,
        1 <= scale,
        0 <= weight,
        scale * (1 + weight) <= AMP_LIMIT as int,
        s.entries_within(0, scale as int),
        forall|i: int|
            0 <= i < axis@.len() ==> scale as int <= #[trigger] axis@[i] < 2 * (scale as int),
    ensures
        out.wf(),
        out.spec_rows() == s.spec_rows(),
        out.spec_cols() == s.spec_cols(),
        forall|r: int, c: int|
            0 <= r < s.spec_rows() && 0 <= c < s.spec_cols()
                ==> #[trigger] out.entry(r, c) == s.entry(r, c) + weight * (s.entry(
                    triplet_row(axis@, r, scale as int),
                    c,
                ) * s.entry(r, c) / (scale as int)),
        out.entries_within(0, AMP_LIMIT as int),
{
    let rows = s.rows();
    let cols = s.cols();
    let _dlen = s.data.len();
    proof {
        assert(rows * cols <= usize::MAX);
    }
    let mut out = Matrix::zeros(rows, cols);
    let mut r: usize = 0;
    while r < rows
        invariant
            r <= rows,
            s.wf(),
            axis@.len() == rows,
            rows == s.spec_rows() >= 1,
            cols == s.spec_cols(),
            1 <= scale,
            0 <= weight,
            scale * (1 + weight) <= AMP_LIMIT as int,
            s.entries_within(0, scale as int),
            forall|i: int|
                0 <= i < axis@.len() ==> scale as int <= #[trigger] axis@[i] < 2 * (scale as int),
            out.wf(),
            out.spec_rows() == rows,
            out.spec_cols() == cols,
            forall|i: int, j: int|
                0 <= i < r && 0 <= j < cols ==> #[trigger] out.entry(i, j) == s.entry(i, j)
                    + weight * (s.entry(triplet_row(axis@, i, scale as int), j) * s.entry(i, j) / (
                scale as int)),
            forall|i: int, j: int|
                0 <= i < rows && 0 <= j < cols ==> 0 <= #[trigger] out.entry(i, j)
                    <= AMP_LIMIT as int,
        decreases rows - r,
    {
        let a = axis[r];
        proof {
            assert((scale as int) * 1 <= (scale as int) * (1 + weight as int))
                by (nonlinear_arith)
                requires
                    scale as int >= 1,
                    weight as int >= 0,
            ;
            assert((1 + weight as int) * 1 <= (scale as int) * (1 + weight as int))
                by (nonlinear_arith)
                requires
                    scale as int >= 1,
                    weight as int >= 0,
            ;
            vstd::arithmetic::div_mod::lemma_div_multiples_vanish(scale as int, 2);
            vstd::arithmetic::div_mod::lemma_div_is_ordered(
                2 * (scale as int),
                3 * (a as int),
                2,
            );
        }
        let au = a as u64;
        let su = scale as u64;
        let xh = (3 * au) / 2;
        let m = (xh - su) % (2 * su);
        let tv = (m + su) as i64;
        proof {
            assert(tv as int == triplet_value(a as int, scale as int));
        }
        let t = find_nearest(axis, tv);
        proof {
            assert(t == triplet_row(axis@, r as int, scale as int));
        }
        let mut c: usize = 0;
        while c < cols
            invariant
                c <= cols,
                r < rows,
                t < rows,
                s.wf(),
                axis@.len() == rows,
                rows == s.spec_rows() >= 1,
                cols == s.spec_cols(),
                1 <= scale,
                0 <= weight,
                scale * (1 + weight) <= AMP_LIMIT as int,
                scale as int <= AMP_LIMIT as int,
                1 + weight as int <= AMP_LIMIT as int,
                s.entries_within(0, scale as int),
                t == triplet_row(axis@, r as int, scale as int),
                out.wf(),
                out.spec_rows() == rows,
                out.spec_cols() == cols,
                forall|i: int, j: int|
                    0 <= i < r && 0 <= j < cols ==> #[trigger] out.entry(i, j) == s.entry(i, j)
                        + weight * (s.entry(triplet_row(axis@, i, scale as int), j) * s.entry(
                        i,
                        j,
                    ) / (scale as int)),
                forall|j: int|
                    0 <= j < c ==> #[trigger] out.entry(r as int, j) == s.entry(r as int, j)
                        + weight * (s.entry(triplet_row(axis@, r as int, scale as int), j)
                        * s.entry(r as int, j) / (scale as int)),
                forall|i: int, j: int|
                    0 <= i < rows && 0 <= j < cols ==> 0 <= #[trigger] out.entry(i, j)
                        <= AMP_LIMIT as int,
            decreases cols - c,
        {
            let sv = s.get(r, c);
            let tvv = s.get(t, c);
            proof {
                assert(0 <= (tvv as int) * (sv as int) <= (scale as int) * (scale as int))
                    by (nonlinear_arith)
                    requires
                        0 <= tvv as int <= scale as int,
                        0 <= sv as int <= scale as int,
                ;
                vstd::arithmetic::div_mod::lemma_div_is_ordered(
                    (tvv as int) * (sv as int),
                    (scale as int) * (scale as int),
                    scale as int,
                );
                vstd::arithmetic::div_mod::lemma_div_multiples_vanish(scale as int, scale as int);
                vstd::arithmetic::div_mod::lemma_div_pos_is_pos(
                    (tvv as int) * (sv as int),
                    scale as int,
                );
                assert(0 <= ((tvv as int) * (sv as int)) / (scale as int) <= scale as int);
                assert(0 <= (weight as int) * (((tvv as int) * (sv as int)) / (scale as int)) <= (
                weight as int) * (scale as int)) by (nonlinear_arith)
                    requires
                        0 <= ((tvv as int) * (sv as int)) / (scale as int) <= scale as int,
                        weight as int >= 0,
                ;
                assert((scale as int) + (weight as int) * (scale as int) == (scale as int) * (1
                    + weight as int)) by (nonlinear_arith);
            }
            proof {
                assert((scale as int) * (scale as int) <= 0x100_0000_0000) by (nonlinear_arith)
                    requires
                        0 <= scale as int <= AMP_LIMIT as int,
                ;
            }
            let q: u64 = ((tvv as u64) * (sv as u64)) / (scale as u64);
            proof {
                assert(q as int == ((tvv as int) * (sv as int)) / (scale as int));
                assert(0 <= (weight as int) * (q as int) <= (weight as int) * (scale as int))
                    by (nonlinear_arith)
                    requires
                        0 <= q as int <= scale as int,
                        weight as int >= 0,
                ;
            }
            let term: i64 = weight * (q as i64);
            out.set(r, c, sv + term);
            c += 1;
        }
        r += 1;
    }
    out
}

/// Index of the row with the greatest value in column `c` among the first
/// `n` rows; ties keep the earliest row.
pub open spec fn col_argmax_upto(s: Matrix, c: int, n: nat) -> int
    decreases n,
{
    if n <= 1 {
        0
    } else {
        let p = col_argmax_upto(s, c, (n - 1) as nat);
        if s.entry(n - 1, c) > s.entry(p, c) {
            n - 1
        } else {
            p
        }
    }
}

/// The argmax row is in range, dominates its column, and is the first row
/// to reach the maximum.
pub proof fn lemma_col_argmax_props(s: Matrix, c: int, n: nat)
    requires
        1 <= n,
    ensures
        0 <= col_argmax_upto(s, c, n) < n,
        forall|r: int|
            0 <= r < n ==> #[trigger] s.entry(r, c) <= s.entry(col_argmax_upto(s, c, n), c),
        forall|r: int|
            0 <= r < col_argmax_upto(s, c, n) ==> #[trigger] s.entry(r, c) < s.entry(
                col_argmax_upto(s, c, n),
                c,
            ),
    decreases n,
{
    if n > 1 {
        lemma_col_argmax_props(s, c, (n - 1) as nat);
    }
}

/// Per time frame, picks the axis entry of the strongest tempo row: the
/// tempo curve. Ties go to the first (lowest) tempo row.
pub fn extract_tempo_curve(s: &Matrix, axis: &Vec<i64>) -> (curve: Vec<i64>)
    requires
        s.wf(),
        s.spec_rows() >= 1,
        axis@.len() == s.spec_rows(),
    ensures
        curve@.len() == s.spec_cols(),
        forall|c: int|
            0 <= c < s.spec_cols() ==> #[trigger] curve@[c] == axis@[col_argmax_upto(
                *s,
                c,
                s.spec_rows() as nat,
            )],
{
    let rows = s.rows();
    let cols = s.cols();
    let mut curve: Vec<i64> = Vec::new();
    let mut c: usize = 0;
    while c < cols
        invariant
            c <= cols,
            s.wf(),
            rows == s.spec_rows() >= 1,
            cols == s.spec_cols(),
            axis@.len() == rows,
            curve@.len() == c,
            forall|j: int|
                0 <= j < c ==> #[trigger] curve@[j] == axis@[col_argmax_upto(
                    *s,
                    j,
                    rows as nat,
                )],
        decreases cols - c,
    {
        let mut best: usize = 0;
        let mut bv: i64 = s.get(0, c);
        let mut r: usize = 1;
        while r < rows
            invariant
                1 <= r <= rows,
                c < cols,
                s.wf(),
                rows == s.spec_rows() >= 1,
                cols == s.spec_cols(),
                best == col_argmax_upto(*s, c as int, r as nat),
                best < r,
                bv == s.entry(best as int, c as int),
            decreases rows - r,
        {
            let v = s.get(r, c);
            if v > bv {
                best = r;
                bv = v;
            }
            r += 1;
        }
        curve.push(axis[best]);
        c += 1;
    }
    curve
}

/// Clamps negative entries to zero, in place of half-wave rectification.
pub fn rectify(s: &Matrix) -> (out: Matrix)
    requires
        s.wf(),
    ensures
        out.wf(),
        out.spec_rows() == s.spec_rows(),
        out.spec_cols() == s.spec_cols(),
        forall|r: int, c: int|
            0 <= r < s.spec_rows() && 0 <= c < s.spec_cols()
                ==> #[trigger] out.entry(r, c) == if s.entry(r, c) >= 0 {
                    s.entry(r, c)
                } else {
                    0
                },
{
    let rows = s.rows();
    let cols = s.cols();
    let _dlen = s.data.len();
    proof {
        assert(rows * cols <= usize::MAX);
    }
    let mut out = Matrix::zeros(rows, cols);
    proof {
        assert(rows * cols == s.data@.len());
    }
    let mut r: usize = 0;
    while r < rows
        invariant
            r <= rows,
            s.wf(),
            rows == s.spec_rows(),
            cols == s.spec_cols(),
            out.wf(),
            out.spec_rows() == rows,
            out.spec_cols() == cols,
            forall|i: int, j: int|
                0 <= i < r && 0 <= j < cols ==> #[trigger] out.entry(i, j) == if s.entry(i, j)
                    >= 0 {
                    s.entry(i, j)
                } else {
                    0
                },
        decreases rows - r,
    {
        let mut c: usize = 0;
        while c < cols
            invariant
                c <= cols,
                r < rows,
                s.wf(),
                rows == s.spec_rows(),
                cols == s.spec_cols(),
                out.wf(),
                out.spec_rows() == rows,
                out.spec_cols() == cols,
                forall|i: int, j: int|
                    0 <= i < r && 0 <= j < cols ==> #[trigger] out.entry(i, j) == if s.entry(i, j)
                        >= 0 {
                        s.entry(i, j)
                    } else {
                        0
                    },
                forall|j: int|
                    0 <= j < c ==> #[trigger] out.entry(r as int, j) == if s.entry(r as int, j)
                        >= 0 {
                        s.entry(r as int, j)
                    } else {
                        0
                    },
            decreases cols - c,
        {
            let v = s.get(r, c);
            out.set(r, c, if v >= 0 {
                v
            } else {
                0
            });
            c += 1;
        }
        r += 1;
    }
    out
}

} // verus!
