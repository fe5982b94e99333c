//! Cosine similarity between two emission profiles, in fixed point:
//! the result is scaled by `SCALE`, so identical directions give
//! `SCALE` and orthogonal ones give zero.

use vstd::prelude::*;
use vstd::arithmetic::div_mod::lemma_div_multiples_vanish;
use vstd::arithmetic::mul::lemma_mul_inequality;
use crate::country::{CountryData, SCALE};
use crate::num::{div_trunc, div_i128_trunc, lemma_div_trunc_bounds};

verus! {

/// Largest profile entry magnitude the metric accepts; keeps every
/// square sum inside an `i64` range and their product inside a `u128`.
pub const PROFILE_LIMIT: i64 = 2_000_000;

/// Largest profile length the metric accepts.
pub const DIM_LIMIT: usize = 1_000_000;

/// Dot product of the first `n` entries of two sequences.
pub open spec fn dot(a: Seq<int>, b: Seq<int>, n: int) -> int
    recommends
        n <= a.len(),
        n <= b.len(),
    decreases n,
{
    if n <= 0 {
        0
    } else {
        dot(a, b, n - 1) + a[n - 1] * b[n - 1]
    }
}

/// The shorter of the two lengths: the metric walks the zipped prefix.
pub open spec fn zip_len(a: Seq<int>, b: Seq<int>) -> int {
    if a.len() <= b.len() {
        a.len() as int
    } else {
        b.len() as int
    }
}

/// Floor of the square root of a nonnegative integer.
pub open spec fn sqrt_floor(n: int) -> int
    recommends
        n >= 0,
    decreases n,
{
    if n <= 0 {
        0
    } else if (sqrt_floor(n - 1) + 1) * (sqrt_floor(n - 1) + 1) <= n {
        sqrt_floor(n - 1) + 1
    } else {
        sqrt_floor(n - 1)
    }
}

/// Cosine similarity scaled by `SCALE`, truncated toward zero; zero by
/// definition whenever either zipped prefix has norm zero.
pub open spec fn sim_spec(a: Seq<int>, b: Seq<int>) -> int {
    let m = zip_len(a, b);
    let d = dot(a, b, m);
    let na = dot(a, a, m);
    let nb = dot(b, b, m);
    if na == 0 || nb == 0 {
        0
    } else {
        div_trunc(d * (SCALE as int), sqrt_floor(na * nb))
    }
}

// ---------------------------------------------------------------------
// Facts about dot products and square roots.
// ---------------------------------------------------------------------

/// The dot product does not depend on the order of its two arguments.
pub proof fn lemma_dot_comm(a: Seq<int>, b: Seq<int>, n: int)
    ensures
        dot(a, b, n) == dot(b, a, n),
    decreases n,
{
    if n > 0 {
        lemma_dot_comm(a, b, n - 1);
        assert(a[n - 1] * b[n - 1] == b[n - 1] * a[n - 1]) by (nonlinear_arith);
    }
}

/// A dot product of a sequence with itself is a sum of squares.
pub proof fn lemma_dot_self_nonneg(a: Seq<int>, n: int)
    ensures
        dot(a, a, n) >= 0,
    decreases n,
{
    if n > 0 {
        lemma_dot_self_nonneg(a, n - 1);
        assert(a[n - 1] * a[n - 1] >= 0) by (nonlinear_arith);
    }
}

/// Against a zero-norm prefix every dot product vanishes.
proof fn lemma_dot_zero(a: Seq<int>, b: Seq<int>, n: int)
    requires
        dot(a, a, n) == 0,
    ensures
        dot(a, b, n) == 0,
    decreases n,
{
    if n > 0 {
        lemma_dot_self_nonneg(a, n - 1);
        assert(a[n - 1] * a[n - 1] >= 0) by (nonlinear_arith);
        assert(dot(a, a, n - 1) == 0);
        assert(a[n - 1] == 0) by (nonlinear_arith)
            requires
                a[n - 1] * a[n - 1] == 0,
        ;
        lemma_dot_zero(a, b, n - 1);
        assert(a[n - 1] * b[n - 1] == 0) by (nonlinear_arith)
            requires
                a[n - 1] == 0,
        ;
    }
}

/// The Cauchy–Schwarz inequality on integer prefixes: the squared dot
/// product never exceeds the product of the squared norms.
pub proof fn lemma_cauchy_schwarz(a: Seq<int>, b: Seq<int>, n: int)
    ensures
        dot(a, b, n) * dot(a, b, n) <= dot(a, a, n) * dot(b, b, n),
    decreases n,
{
    if n <= 0 {
    } else {
        lemma_cauchy_schwarz(a, b, n - 1);
        lemma_dot_self_nonneg(a, n - 1);
        lemma_dot_self_nonneg(b, n - 1);
        let d = dot(a, b, n - 1);
        let na = dot(a, a, n - 1);
        let nb = dot(b, b, n - 1);
        let x = a[n - 1];
        let y = b[n - 1];
        if na == 0 {
            lemma_dot_zero(a, b, n - 1);
            assert((0 + x * y) * (0 + x * y) <= (0 + x * x) * (nb + y * y)) by (nonlinear_arith)
                requires
                    nb >= 0,
            ;
        } else {
            lemma_cs_step(d, na, nb, x, y);
        }
    }
}

/// A square is never negative.
proof fn lemma_sq_nonneg(u: int)
    ensures
        u * u >= 0,
{
    assert(u * u >= 0) by (nonlinear_arith);
}

/// `(u + v)^2`, written out.
proof fn lemma_sq_of_sum(u: int, v: int)
    ensures
        (u + v) * (u + v) == u * u + 2 * (u * v) + v * v,
{
    assert((u + v) * (u + v) == u * u + 2 * (u * v) + v * v) by (nonlinear_arith);
}

/// `(a + b)(c + e)`, written out.
proof fn lemma_prod_of_sums(a: int, b: int, c: int, e: int)
    ensures
        (a + b) * (c + e) == a * c + a * e + b * c + b * e,
{
    assert((a + b) * (c + e) == a * c + a * e + b * c + b * e) by (nonlinear_arith);
}

/// Multiplication distributes over a three-part sum.
proof fn lemma_dist3(n: int, p: int, q: int, r: int)
    ensures
        n * (p + q + r) == n * p + n * q + n * r,
{
    assert(n * (p + q + r) == n * p + n * q + n * r) by (nonlinear_arith);
}

/// Multiplication distributes over a four-part sum.
proof fn lemma_dist4(n: int, p: int, q: int, r: int, s: int)
    ensures
        n * (p + q + r + s) == n * p + n * q + n * r + n * s,
{
    assert(n * (p + q + r + s) == n * p + n * q + n * r + n * s) by (nonlinear_arith);
}

/// A positive common factor can be cancelled from an inequality.
proof fn lemma_cancel_pos(n: int, p: int, q: int)
    requires
        n > 0,
        n * p <= n * q,
    ensures
        p <= q,
{
    assert(p <= q) by (nonlinear_arith)
        requires
            n > 0,
            n * p <= n * q,
    ;
}

/// One induction step of Cauchy–Schwarz: multiply the target inequality
/// by `na`, expand both sides into monomials, and bound the mixed term
/// with the square `(na*y - d*x)^2 >= 0`.
proof fn lemma_cs_step(d: int, na: int, nb: int, x: int, y: int)
    requires
        na > 0,
        nb >= 0,
        d * d <= na * nb,
    ensures
        (d + x * y) * (d + x * y) <= (na + x * x) * (nb + y * y),
{
    // the bound on the mixed term
    lemma_sq_nonneg(na * y - d * x);
    assert((na * y - d * x) * (na * y - d * x) == (na * y) * (na * y) - 2 * ((na * y) * (d * x)) + (
    d * x) * (d * x)) by (nonlinear_arith);
    assert(2 * ((na * y) * (d * x)) <= (na * y) * (na * y) + (d * x) * (d * x));
    // regroup each monomial into the `na * _` shape
    assert((na * y) * (na * y) == na * (na * (y * y))) by (nonlinear_arith);
    assert((d * x) * (d * x) == (d * d) * (x * x)) by (nonlinear_arith);
    lemma_sq_nonneg(x);
    lemma_mul_inequality(d * d, na * nb, x * x);
    assert((na * nb) * (x * x) == na * ((x * x) * nb)) by (nonlinear_arith);
    lemma_mul_inequality(d * d, na * nb, na);
    assert((d * d) * na == na * (d * d)) by (nonlinear_arith);
    assert((na * nb) * na == na * (na * nb)) by (nonlinear_arith);
    assert(na * ((x * y) * (x * y)) == na * ((x * x) * (y * y))) by (nonlinear_arith);
    // expand the left side of the target, scaled by na
    lemma_sq_of_sum(d, x * y);
    lemma_dist3(na, d * d, 2 * (d * (x * y)), (x * y) * (x * y));
    assert(na * (2 * (d * (x * y))) == 2 * ((na * y) * (d * x))) by (nonlinear_arith);
    // expand the right side of the target, scaled by na
    lemma_prod_of_sums(na, x * x, nb, y * y);
    lemma_dist4(na, na * nb, na * (y * y), (x * x) * nb, (x * x) * (y * y));
    // chain the pieces and cancel na
    assert(na * ((d + x * y) * (d + x * y)) <= na * ((na + x * x) * (nb + y * y)));
    lemma_cancel_pos(na, (d + x * y) * (d + x * y), (na + x * x) * (nb + y * y));
}

/// `sqrt_floor` is exactly the integer square root.
pub proof fn lemma_sqrt_floor_bounds(n: int)
    requires
        n >= 0,
    ensures
        sqrt_floor(n) >= 0,
        sqrt_floor(n) * sqrt_floor(n) <= n,
        n < (sqrt_floor(n) + 1) * (sqrt_floor(n) + 1),
    decreases n,
{
    if n == 0 {
    } else {
        lemma_sqrt_floor_bounds(n - 1);
        let r = sqrt_floor(n - 1);
        if (r + 1) * (r + 1) <= n {
            assert(n - 1 < (r + 1) * (r + 1));
            assert(n < (r + 2) * (r + 2)) by (nonlinear_arith)
                requires
                    r >= 0,
                    n <= (r + 1) * (r + 1),
            ;
        }
    }
}

/// No other value satisfies the square-root bracketing.
pub proof fn lemma_sqrt_floor_unique(n: int, r: int)
    requires
        n >= 0,
        r >= 0,
        r * r <= n,
        n < (r + 1) * (r + 1),
    ensures
        sqrt_floor(n) == r,
{
    lemma_sqrt_floor_bounds(n);
    let s = sqrt_floor(n);
    if s < r {
        assert((s + 1) * (s + 1) <= r * r) by (nonlinear_arith)
            requires
                0 <= s + 1 <= r,
        ;
    } else if r < s {
        assert((r + 1) * (r + 1) <= s * s) by (nonlinear_arith)
            requires
                0 <= r + 1 <= s,
        ;
    }
}

/// Floor of the square root, by bisection.
fn isqrt(x: u128) -> (r: u128)
    requires
        x < 0x4000_0000_0000_0000_0000_0000_0000_0000u128,
    ensures
        r as int == sqrt_floor(x as int),
        (r as int) * (r as int) <= x as int,
        (x as int) < (r as int + 1) * (r as int + 1),
{
    let mut lo: u128 = 0;
    let mut hi: u128 = 0x8000_0000_0000_0000u128;
    proof {
        assert((hi as int) * (hi as int) > x as int) by (nonlinear_arith)
            requires
                hi == 0x8000_0000_0000_0000u128,
                x < 0x4000_0000_0000_0000_0000_0000_0000_0000u128,
        ;
    }
    while hi - lo > 1
        invariant
            0 <= lo < hi <= 0x8000_0000_0000_0000u128,
            (lo as int) * (lo as int) <= x as int,
            (x as int) < (hi as int) * (hi as int),
        decreases hi - lo,
    {
        let mid = lo + (hi - lo) / 2;
        proof {
            assert((mid as int) * (mid as int) <= 0x4000_0000_0000_0000_0000_0000_0000_0000int)
                by (nonlinear_arith)
                requires
                    0 <= mid as int <= 0x8000_0000_0000_0000int,
            ;
        }
        if mid <= x / mid {
            proof {
                let m = mid as int;
                let q = (x as int) / m;
                assert(m * q <= x as int && m >= 1) by {
                    vstd::arithmetic::div_mod::lemma_fundamental_div_mod(x as int, m);
                    assert((x as int) % m >= 0) by {
                        vstd::arithmetic::div_mod::lemma_mod_bound(x as int, m);
                    }
                }
                assert(m * m <= m * q) by (nonlinear_arith)
                    requires
                        m >= 1,
                        m <= q,
                ;
            }
            lo = mid;
        } else {
            proof {
                let m = mid as int;
                let q = (x as int) / m;
                assert((x as int) < m * (q + 1)) by {
                    vstd::arithmetic::div_mod::lemma_fundamental_div_mod(x as int, m);
                    assert((x as int) % m < m) by {
                        vstd::arithmetic::div_mod::lemma_mod_bound(x as int, m);
                    }
                    assert(m * (q + 1) == m * q + m) by (nonlinear_arith);
                }
                assert(m * (q + 1) <= m * m) by (nonlinear_arith)
                    requires
                        m >= 1,
                        q + 1 <= m,
                ;
            }
            hi = mid;
        }
    }
    proof {
        lemma_sqrt_floor_unique(x as int, lo as int);
    }
    lo
}

// ---------------------------------------------------------------------
// The executable metric and its laws.
// ---------------------------------------------------------------------

/// Computes cosine similarity between two countries' emission profiles,
/// scaled by `SCALE`, walking the zipped common prefix left to right.
/// Returns zero whenever either prefix has norm zero.
pub fn cosine_similarity(a: &CountryData, b: &CountryData) -> (r: i64)
    requires
        a@.len() <= DIM_LIMIT,
        b@.len() <= DIM_LIMIT,
        forall|i: int| 0 <= i < a@.len() ==> -PROFILE_LIMIT <= #[trigger] a@[i] <= PROFILE_LIMIT,
        forall|i: int| 0 <= i < b@.len() ==> -PROFILE_LIMIT <= #[trigger] b@[i] <= PROFILE_LIMIT,
    ensures
        r as int == sim_spec(a@, b@),
        -SCALE <= r <= SCALE,
{
    let la = a.values.len();
    let lb = b.values.len();
    let m = if la <= lb {
        la
    } else {
        lb
    };
    assert(m == zip_len(a@, b@));
    let mut d: i128 = 0;
    let mut na: i128 = 0;
    let mut nb: i128 = 0;
    let mut i: usize = 0;
    let lim: i128 = 4_000_000_000_000;
    while i < m
        invariant
            0 <= i <= m <= DIM_LIMIT,
            m <= a.values@.len(),
            m <= b.values@.len(),
            a@.len() == a.values@.len(),
            b@.len() == b.values@.len(),
            lim == 4_000_000_000_000i128,
            forall|k: int| 0 <= k < a@.len()
                ==> -PROFILE_LIMIT <= #[trigger] a@[k] <= PROFILE_LIMIT,
            forall|k: int| 0 <= k < b@.len()
                ==> -PROFILE_LIMIT <= #[trigger] b@[k] <= PROFILE_LIMIT,
            d == dot(a@, b@, i as int),
            na == dot(a@, a@, i as int),
            nb == dot(b@, b@, i as int),
            -(i as i128) * lim <= d <= (i as i128) * lim,
            0 <= na <= (i as i128) * lim,
            0 <= nb <= (i as i128) * lim,
        decreases m - i,
    {
        let x = a.values[i];
        let y = b.values[i];
        proof {
            assert(a@[i as int] == x as int && b@[i as int] == y as int);
            let l = lim as int;
            assert(-l <= (x as int) * (y as int) <= l && 0 <= (x as int) * (x as int) <= l && 0
                <= (y as int) * (y as int) <= l) by (nonlinear_arith)
                requires
                    -PROFILE_LIMIT <= x as int <= PROFILE_LIMIT,
                    -PROFILE_LIMIT <= y as int <= PROFILE_LIMIT,
                    l == 4_000_000_000_000,
                    PROFILE_LIMIT == 2_000_000i64,
            ;
            assert((i as int + 1) * l == (i as int) * l + l) by (nonlinear_arith);
            assert((i as int) * l <= DIM_LIMIT as int * l) by (nonlinear_arith)
                requires
                    0 <= i as int <= DIM_LIMIT as int,
                    l > 0,
            ;
        }
        d = d + (x as i128) * (y as i128);
        na = na + (x as i128) * (x as i128);
        nb = nb + (y as i128) * (y as i128);
        i = i + 1;
    }
    proof {
        assert((m as i128) * lim <= 4_000_000_000_000_000_000i128) by (nonlinear_arith)
            requires
                0 <= m as int <= 1_000_000,
                lim == 4_000_000_000_000i128,
        ;
        lemma_dot_self_nonneg(a@, m as int);
        lemma_dot_self_nonneg(b@, m as int);
    }
    if na == 0 || nb == 0 {
        return 0;
    }
    proof {
        assert(1 <= (na as int) * (nb as int)
            < 0x4000_0000_0000_0000_0000_0000_0000_0000int) by (nonlinear_arith)
            requires
                0 < na as int <= 4_000_000_000_000_000_000,
                0 < nb as int <= 4_000_000_000_000_000_000,
        ;
    }
    let prod: u128 = (na as u128) * (nb as u128);
    let den: u128 = isqrt(prod);
    proof {
        assert(den >= 1) by (nonlinear_arith)
            requires
                prod as int >= 1,
                (den as int + 1) * (den as int + 1) > prod as int,
                den as int >= 0,
        ;
        assert(den as int <= 4_000_000_000_000_000_000) by (nonlinear_arith)
            requires
                (den as int) * (den as int) <= prod as int,
                prod as int == (na as int) * (nb as int),
                0 < na as int <= 4_000_000_000_000_000_000,
                0 < nb as int <= 4_000_000_000_000_000_000,
                den as int >= 0,
        ;
        lemma_cauchy_schwarz(a@, b@, m as int);
        // |d| <= den, since d * d <= na * nb < (den + 1)^2
        assert(-(den as int) <= d as int <= den as int) by (nonlinear_arith)
            requires
                (d as int) * (d as int) <= (na as int) * (nb as int),
                (na as int) * (nb as int) < (den as int + 1) * (den as int + 1),
                den as int >= 0,
        ;
        assert(-(SCALE as int) * (den as int) <= (d as int) * (SCALE as int) <= (SCALE as int) * (
        den as int)) by (nonlinear_arith)
            requires
                -(den as int) <= d as int <= den as int,
                SCALE == 1_000_000i64,
        ;
    }
    let num: i128 = d * (SCALE as i128);
    let q = div_i128_trunc(num, den as i128);
    proof {
        lemma_div_trunc_bounds(num as int, den as int, -(SCALE as int), SCALE as int);
    }
    q as i64
}

/// A profile with nonzero norm has similarity exactly `SCALE` — one
/// whole unit — with itself.
pub proof fn lemma_sim_self(a: Seq<int>)
    requires
        dot(a, a, a.len() as int) != 0,
    ensures
        sim_spec(a, a) == SCALE,
{
    let n = a.len() as int;
    let na = dot(a, a, n);
    lemma_dot_self_nonneg(a, n);
    assert(na * na >= na && na * na < (na + 1) * (na + 1)) by (nonlinear_arith)
        requires
            na >= 1,
    ;
    lemma_sqrt_floor_unique(na * na, na);
    lemma_div_multiples_vanish(SCALE as int, na);
    assert(na * (SCALE as int) == (SCALE as int) * na) by (nonlinear_arith);
}

/// Two profiles with zero dot product and nonzero norms have similarity
/// exactly zero.
pub proof fn lemma_sim_orthogonal(a: Seq<int>, b: Seq<int>)
    requires
        dot(a, b, zip_len(a, b)) == 0,
        dot(a, a, zip_len(a, b)) != 0,
        dot(b, b, zip_len(a, b)) != 0,
    ensures
        sim_spec(a, b) == 0,
{
    let m = zip_len(a, b);
    let na = dot(a, a, m);
    let nb = dot(b, b, m);
    lemma_dot_self_nonneg(a, m);
    lemma_dot_self_nonneg(b, m);
    assert(na * nb >= 1) by (nonlinear_arith)
        requires
            na >= 1,
            nb >= 1,
    ;
    lemma_sqrt_floor_bounds(na * nb);
    let den = sqrt_floor(na * nb);
    assert(den >= 1) by (nonlinear_arith)
        requires
            den >= 0,
            (den + 1) * (den + 1) > na * nb,
            na * nb >= 1,
    ;
    vstd::arithmetic::div_mod::lemma_div_of0(den);
    assert(div_trunc(0 * (SCALE as int), den) == 0);
}

/// The metric is symmetric in its two arguments.
pub proof fn lemma_sim_symmetric(a: Seq<int>, b: Seq<int>)
    ensures
        sim_spec(a, b) == sim_spec(b, a),
{
    let m = zip_len(a, b);
    assert(m == zip_len(b, a));
    lemma_dot_comm(a, b, m);
    let na = dot(a, a, m);
    let nb = dot(b, b, m);
    assert(na * nb == nb * na) by (nonlinear_arith);
}

} // verus!
