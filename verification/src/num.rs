//! Shared integer helpers: sequence views, sums, and the truncating
//! division the pipeline uses for means and scaling.

use vstd::prelude::*;
use vstd::arithmetic::div_mod::{lemma_div_is_ordered, lemma_div_multiples_vanish};

verus! {

/// The samples of an `i64` vector as mathematical integers.
pub open spec fn as_ints(s: Seq<i64>) -> Seq<int> {
    s.map(|_i: int, v: i64| v as int)
}

/// Sum of a sequence of integers.
pub open spec fn seq_sum(s: Seq<int>) -> int
    decreases s.len(),
{
    if s.len() == 0 {
        0
    } else {
        seq_sum(s.drop_last()) + s.last()
    }
}

/// Integer division rounding toward zero, the rule the executable code
/// follows when it divides a possibly negative sum by a positive count.
pub open spec fn div_trunc(a: int, b: int) -> int
    recommends
        b > 0,
{
    if a >= 0 {
        a / b
    } else {
        -((-a) / b)
    }
}

/// Appending one element adds its value to the sum.
pub proof fn lemma_seq_sum_push(s: Seq<int>, v: int)
    ensures
        seq_sum(s.push(v)) == seq_sum(s) + v,
{
    assert(s.push(v).drop_last() =~= s);
    assert(s.push(v).last() == v);
}

/// A sequence whose entries all lie in `[lo, hi]` has its sum in
/// `[lo * len, hi * len]`.
pub proof fn lemma_seq_sum_bounds(s: Seq<int>, lo: int, hi: int)
    requires
        forall|i: int| 0 <= i < s.len() ==> lo <= #[trigger] s[i] <= hi,
    ensures
        lo * s.len() <= seq_sum(s) <= hi * s.len(),
    decreases s.len(),
{
    if s.len() == 0 {
    } else {
        lemma_seq_sum_bounds(s.drop_last(), lo, hi);
        assert(lo * (s.len() as int) == lo * (s.len() - 1) + lo) by (nonlinear_arith);
        assert(hi * (s.len() as int) == hi * (s.len() - 1) + hi) by (nonlinear_arith);
    }
}

/// Dividing a sum of values in `[lo, hi]` by their count lands back in
/// `[lo, hi]`, provided the interval contains zero.
pub proof fn lemma_div_trunc_bounds(a: int, b: int, lo: int, hi: int)
    requires
        b > 0,
        lo <= 0 <= hi,
        lo * b <= a <= hi * b,
    ensures
        lo <= div_trunc(a, b) <= hi,
{
    if a >= 0 {
        lemma_div_is_ordered(a, hi * b, b);
        lemma_div_multiples_vanish(hi, b);
        assert(hi * b == b * hi) by (nonlinear_arith);
        assert(a / b >= 0) by (nonlinear_arith)
            requires
                a >= 0,
                b > 0,
        ;
    } else {
        lemma_div_is_ordered(-a, -(lo * b), b);
        lemma_div_multiples_vanish(-lo, b);
        assert(-(lo * b) == b * (-lo)) by (nonlinear_arith);
        assert((-a) / b >= 0) by (nonlinear_arith)
            requires
                -a >= 0,
                b > 0,
        ;
    }
}

/// Truncating division of an `i128` by a positive divisor, carried out
/// on magnitudes so the rounding direction is pinned down.
pub fn div_i128_trunc(a: i128, b: i128) -> (r: i128)
    requires
        b > 0,
        a > i128::MIN,
    ensures
        r as int == div_trunc(a as int, b as int),
        (a >= 0 ==> 0 <= r <= a),
        (a < 0 ==> a <= r <= 0),
{
    if a >= 0 {
        let q: u128 = (a as u128) / (b as u128);
        proof {
            lemma_div_is_ordered(a as int, a as int, b as int);
            assert((a as int) / (b as int) <= a as int) by {
                lemma_div_nonincreasing_local(a as int, b as int);
            }
        }
        q as i128
    } else {
        let m: u128 = (-a) as u128;
        let q: u128 = m / (b as u128);
        proof {
            lemma_div_nonincreasing_local(m as int, b as int);
        }
        -(q as i128)
    }
}

/// Dividing a nonnegative value by a positive divisor does not increase it.
proof fn lemma_div_nonincreasing_local(a: int, b: int)
    requires
        a >= 0,
        b > 0,
    ensures
        0 <= a / b <= a,
{
    assert(0 <= a / b <= a) by (nonlinear_arith)
        requires
            a >= 0,
            b > 0,
    ;
}

} // verus!
