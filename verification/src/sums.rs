//! Finite summation over integer index ranges, with the bounds lemmas the
//! signal-processing contracts need.

use vstd::prelude::*;

verus! {

/// Sum of `f(0) + f(1) + ... + f(n - 1)`.
pub open spec fn sum_n(f: spec_fn(int) -> int, n: nat) -> int
    decreases n,
{
    if n == 0 {
        0
    } else {
        sum_n(f, (n - 1) as nat) + f(n - 1)
    }
}

/// Two term functions that agree below `n` have the same sum.
pub proof fn lemma_sum_n_eq(f: spec_fn(int) -> int, g: spec_fn(int) -> int, n: nat)
    requires
        forall|k: int| 0 <= k < n ==> #[trigger] f(k) == g(k),
    ensures
        sum_n(f, n) == sum_n(g, n),
    decreases n,
{
    if n > 0 {
        lemma_sum_n_eq(f, g, (n - 1) as nat);
    }
}

/// A sum of `n` terms, each within `[-b, b]`, lies within `[-n * b, n * b]`.
pub proof fn lemma_sum_n_bound(f: spec_fn(int) -> int, n: nat, b: int)
    requires
        b >= 0,
        forall|k: int| 0 <= k < n ==> -b <= #[trigger] f(k) <= b,
    ensures
        -(n * b) <= sum_n(f, n) <= n * b,
    decreases n,
{
    if n == 0 {
        assert(n * b == 0);
    } else {
        lemma_sum_n_bound(f, (n - 1) as nat, b);
        assert((n - 1) * b + b == n * b) by (nonlinear_arith);
    }
}

/// Summation is monotone in the terms.
pub proof fn lemma_sum_n_le(f: spec_fn(int) -> int, g: spec_fn(int) -> int, n: nat)
    requires
        forall|k: int| 0 <= k < n ==> #[trigger] f(k) <= #[trigger] g(k),
    ensures
        sum_n(f, n) <= sum_n(g, n),
    decreases n,
{
    if n > 0 {
        lemma_sum_n_le(f, g, (n - 1) as nat);
    }
}

/// A common factor moves out of a sum.
pub proof fn lemma_sum_n_scale(f: spec_fn(int) -> int, g: spec_fn(int) -> int, c: int, n: nat)
    requires
        forall|k: int| 0 <= k < n ==> #[trigger] g(k) == c * f(k),
    ensures
        sum_n(g, n) == c * sum_n(f, n),
    decreases n,
{
    if n == 0 {
        assert(c * 0 == 0) by (nonlinear_arith);
    } else {
        lemma_sum_n_scale(f, g, c, (n - 1) as nat);
        assert(c * sum_n(f, (n - 1) as nat) + c * f(n - 1) == c * (sum_n(f, (n - 1) as nat) + f(
            n - 1,
        ))) by (nonlinear_arith);
    }
}

/// A sum of nonnegative terms is nonnegative.
pub proof fn lemma_sum_n_nonneg(f: spec_fn(int) -> int, n: nat)
    requires
        forall|k: int| 0 <= k < n ==> #[trigger] f(k) >= 0,
    ensures
        sum_n(f, n) >= 0,
    decreases n,
{
    if n > 0 {
        lemma_sum_n_nonneg(f, (n - 1) as nat);
    }
}

/// A sum of `n` terms, each at least `b >= 0`, is at least `n * b`.
pub proof fn lemma_sum_n_lower(f: spec_fn(int) -> int, n: nat, b: int)
    requires
        b >= 0,
        forall|k: int| 0 <= k < n ==> #[trigger] f(k) >= b,
    ensures
        sum_n(f, n) >= n * b,
    decreases n,
{
    if n == 0 {
        assert(n * b == 0);
    } else {
        lemma_sum_n_lower(f, (n - 1) as nat, b);
        assert((n - 1) * b + b == n * b) by (nonlinear_arith);
    }
}

/// For nonnegative terms, a prefix sum is at most the full sum.
pub proof fn lemma_sum_n_prefix_le(f: spec_fn(int) -> int, k: nat, n: nat)
    requires
        k <= n,
        forall|j: int| 0 <= j < n ==> #[trigger] f(j) >= 0,
    ensures
        sum_n(f, k) <= sum_n(f, n),
    decreases n,
{
    if k < n {
        lemma_sum_n_prefix_le(f, k, (n - 1) as nat);
    }
}

/// For nonnegative terms, each term is at most the sum.
pub proof fn lemma_sum_n_term_le(f: spec_fn(int) -> int, k: nat, n: nat)
    requires
        k < n,
        forall|j: int| 0 <= j < n ==> #[trigger] f(j) >= 0,
    ensures
        f(k as int) <= sum_n(f, n),
    decreases n,
{
    if k + 1 == n {
        lemma_sum_n_nonneg(f, k);
    } else {
        lemma_sum_n_term_le(f, k, (n - 1) as nat);
    }
}

/// Triangle inequality for sums: termwise absolute bounds carry over.
pub proof fn lemma_sum_n_abs_le(f: spec_fn(int) -> int, g: spec_fn(int) -> int, n: nat)
    requires
        forall|k: int| 0 <= k < n ==> -(#[trigger] g(k)) <= #[trigger] f(k) <= g(k),
    ensures
        -sum_n(g, n) <= sum_n(f, n) <= sum_n(g, n),
    decreases n,
{
    if n > 0 {
        lemma_sum_n_abs_le(f, g, (n - 1) as nat);
    }
}

/// Floor division of a possibly negative numerator by a positive
/// denominator; agrees with mathematical (Euclidean) division.
pub fn div_floor(a: i64, b: i64) -> (q: i64)
    requires
        b > 0,
        a > i64::MIN,
    ensures
        q == a as int / b as int,
{
    if a >= 0 {
        let q0 = (a as u64) / (b as u64);
        q0 as i64
    } else {
        let na = (-a) as u64;
        let bu = b as u64;
        let q0 = na / bu;
        let r0 = na % bu;
        proof {
            vstd::arithmetic::div_mod::lemma_fundamental_div_mod(na as int, bu as int);
            if r0 == 0 {
                assert(a as int == (b as int) * (-(q0 as int)) + 0) by (nonlinear_arith)
                    requires
                        -(a as int) == (bu as int) * (q0 as int) + r0,
                        r0 == 0,
                        b == bu,
                ;
                vstd::arithmetic::div_mod::lemma_fundamental_div_mod_converse(
                    a as int,
                    b as int,
                    -(q0 as int),
                    0,
                );
            } else {
                assert(a as int == (b as int) * (-(q0 as int) - 1) + (b - r0)) by (nonlinear_arith)
                    requires
                        -(a as int) == (bu as int) * (q0 as int) + r0,
                        b == bu,
                ;
                vstd::arithmetic::div_mod::lemma_fundamental_div_mod_converse(
                    a as int,
                    b as int,
                    -(q0 as int) - 1,
                    b - r0,
                );
            }
        }
        if r0 == 0 {
            -(q0 as i64)
        } else {
            -(q0 as i64) - 1
        }
    }
}

/// Remainder of Euclidean division by a positive denominator: always in
/// `[0, b)`, also for negative numerators.
pub fn mod_euclid(a: i64, b: i64) -> (r: i64)
    requires
        0 < b <= 0x2000_0000_0000_0000,
        -0x2000_0000_0000_0000 <= a <= 0x2000_0000_0000_0000,
    ensures
        r == a as int % b as int,
        0 <= r < b,
{
    let q = div_floor(a, b);
    proof {
        vstd::arithmetic::div_mod::lemma_fundamental_div_mod(a as int, b as int);
        assert((b as int) * (q as int) == (q as int) * (b as int)) by (nonlinear_arith);
        assert(0 <= (a as int) % (b as int) < (b as int)) by {
            vstd::arithmetic::div_mod::lemma_mod_bound(a as int, b as int);
        }
        assert((q as int) * (b as int) == a as int - (a as int) % (b as int));
    }
    a - q * b
}

/// Division with the sign carried separately: `sign(a) * (|a| / b)`,
/// truncation toward zero.
pub open spec fn div_trunc_spec(a: int, b: int) -> int {
    if a >= 0 {
        a / b
    } else {
        -((-a) / b)
    }
}

/// Division of a magnitude with the sign carried separately: the result is
/// `sign(a) * (|a| / b)`, truncation toward zero.
pub fn div_trunc(a: i64, b: i64) -> (q: i64)
    requires
        b > 0,
        a > i64::MIN,
    ensures
        q == div_trunc_spec(a as int, b as int),
{
    if a >= 0 {
        ((a as u64) / (b as u64)) as i64
    } else {
        -((((-a) as u64) / (b as u64)) as i64)
    }
}

/// Summing floor quotients never exceeds the floor quotient of the sum.
pub proof fn lemma_sum_n_div_le(f: spec_fn(int) -> int, g: spec_fn(int) -> int, d: int, n: nat)
    requires
        d >= 1,
        forall|k: int| 0 <= k < n ==> #[trigger] f(k) >= 0,
        forall|k: int| 0 <= k < n ==> #[trigger] g(k) == f(k) / d,
    ensures
        sum_n(g, n) <= sum_n(f, n) / d,
        sum_n(g, n) >= 0,
    decreases n,
{
    if n == 0 {
        vstd::arithmetic::div_mod::lemma_div_of0(d);
    } else {
        lemma_sum_n_div_le(f, g, d, (n - 1) as nat);
        let a = sum_n(f, (n - 1) as nat);
        let b = f(n - 1);
        lemma_sum_n_nonneg(f, (n - 1) as nat);
        vstd::arithmetic::div_mod::lemma_fundamental_div_mod(a, d);
        vstd::arithmetic::div_mod::lemma_fundamental_div_mod(b, d);
        vstd::arithmetic::div_mod::lemma_mod_bound(a, d);
        vstd::arithmetic::div_mod::lemma_mod_bound(b, d);
        assert(d * (a / d) + d * (b / d) == d * (a / d + b / d)) by (nonlinear_arith);
        assert(d * (a / d + b / d) <= a + b);
        vstd::arithmetic::div_mod::lemma_div_multiples_vanish(a / d + b / d, d);
        vstd::arithmetic::div_mod::lemma_div_is_ordered(d * (a / d + b / d), a + b, d);
        vstd::arithmetic::div_mod::lemma_div_pos_is_pos(b, d);
    }
}

/// A sum of `n` ones is `n`.
pub proof fn lemma_sum_n_ones(n: nat)
    ensures
        sum_n(|t: int| 1, n) == n,
    decreases n,
{
    if n > 0 {
        lemma_sum_n_ones((n - 1) as nat);
    }
}

/// A sum all of whose terms are zero is zero.
pub proof fn lemma_sum_n_zero(f: spec_fn(int) -> int, n: nat)
    requires
        forall|k: int| 0 <= k < n ==> #[trigger] f(k) == 0,
    ensures
        sum_n(f, n) == 0,
    decreases n,
{
    if n > 0 {
        lemma_sum_n_zero(f, (n - 1) as nat);
    }
}

} // verus!
