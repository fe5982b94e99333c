//! Cleaning of per-country emission series: aligning samples onto the
//! union of observed years, filling gaps with the country mean,
//! smoothing with a centered moving average, and scaling onto
//! `[0, SCALE]`.

use vstd::prelude::*;
use vstd::arithmetic::div_mod::{lemma_div_is_ordered, lemma_div_multiples_vanish};
use crate::country::{CountryData, SCALE, VAL_LIMIT};
use crate::num::{as_ints, seq_sum, div_trunc, div_i128_trunc, lemma_seq_sum_push,
    lemma_seq_sum_bounds, lemma_div_trunc_bounds};

verus! {

/// Largest length (and half-window) the cleaning passes accept; keeps
/// every index computation inside `usize` and every sum inside `i128`.
pub const LEN_LIMIT: usize = 1_000_000_000;

// ---------------------------------------------------------------------
// The mathematical model of the three cleaning steps.
// ---------------------------------------------------------------------

/// The values of the slots that actually hold a sample, in order.
pub open spec fn present_values(s: Seq<Option<i64>>) -> Seq<int>
    decreases s.len(),
{
    if s.len() == 0 {
        Seq::empty()
    } else {
        present_values(s.drop_last()) + match s.last() {
            Some(v) => seq![v as int],
            None => Seq::<int>::empty(),
        }
    }
}

/// What a missing slot is replaced with: the truncated mean of the
/// present samples, or zero when there is none.
pub open spec fn fill_value(s: Seq<Option<i64>>) -> int {
    if present_values(s).len() == 0 {
        0
    } else {
        div_trunc(seq_sum(present_values(s)), present_values(s).len() as int)
    }
}

/// Step 1, gap fill: every missing slot becomes `fill_value`.
pub open spec fn filled_spec(s: Seq<Option<i64>>) -> Seq<int> {
    Seq::new(s.len(), |i: int| match s[i] {
        Some(v) => v as int,
        None => fill_value(s),
    })
}

/// Start of the centered window of half-width `w` at position `i`.
pub open spec fn window_lo(i: int, w: int) -> int {
    if i - w >= 0 {
        i - w
    } else {
        0
    }
}

/// End (exclusive) of the centered window at position `i`.
pub open spec fn window_hi(i: int, w: int, len: int) -> int {
    if i + w + 1 <= len {
        i + w + 1
    } else {
        len
    }
}

/// Value at position `i` after one moving-average pass: the truncated
/// mean of the pre-pass values whose index falls in the window, which
/// shrinks at the boundaries.
pub open spec fn smoothed_at(s: Seq<int>, w: int, i: int) -> int
    recommends
        0 <= i < s.len(),
        w >= 0,
{
    div_trunc(
        seq_sum(s.subrange(window_lo(i, w), window_hi(i, w, s.len() as int))),
        window_hi(i, w, s.len() as int) - window_lo(i, w),
    )
}

/// Step 2, smoothing: a single non-cascading pass over the gap-filled
/// values.
pub open spec fn smoothed_spec(s: Seq<int>, w: int) -> Seq<int> {
    Seq::new(s.len(), |i: int| smoothed_at(s, w, i))
}

/// Largest entry of a nonempty sequence.
pub open spec fn seq_max(s: Seq<int>) -> int
    recommends
        s.len() > 0,
    decreases s.len(),
{
    if s.len() <= 1 {
        s[0]
    } else if s.last() > seq_max(s.drop_last()) {
        s.last()
    } else {
        seq_max(s.drop_last())
    }
}

/// Step 3, normalization: scale so the maximum becomes `SCALE`; left
/// untouched when the maximum is not positive (or the series is empty).
pub open spec fn normalized_spec(s: Seq<int>) -> Seq<int> {
    if s.len() == 0 || seq_max(s) <= 0 {
        s
    } else {
        Seq::new(s.len(), |i: int| div_trunc(s[i] * (SCALE as int), seq_max(s)))
    }
}

/// All three cleaning steps in order, on one aligned slot sequence.
pub open spec fn clean_steps(slots: Seq<Option<i64>>, w: int) -> Seq<int> {
    normalized_spec(smoothed_spec(filled_spec(slots), w))
}

// ---------------------------------------------------------------------
// Facts about the model.
// ---------------------------------------------------------------------

/// Every entry of a nonempty sequence is at most its maximum.
pub proof fn lemma_seq_max_ge(s: Seq<int>, i: int)
    requires
        0 <= i < s.len(),
    ensures
        s[i] <= seq_max(s),
    decreases s.len(),
{
    if s.len() > 1 && i < s.len() - 1 {
        lemma_seq_max_ge(s.drop_last(), i);
    }
}

/// Scaling an entry that is at most the (positive) maximum lands at or
/// below `SCALE`, and never far below `-VAL_LIMIT * SCALE`.
proof fn lemma_scale_bound(v: int, mx: int)
    requires
        0 < mx,
        v <= mx,
        -VAL_LIMIT <= v,
    ensures
        div_trunc(v * (SCALE as int), mx) <= SCALE,
        -(VAL_LIMIT as int) * (SCALE as int) <= div_trunc(v * (SCALE as int), mx),
        v >= 0 ==> div_trunc(v * (SCALE as int), mx) >= 0,
{
    let s = SCALE as int;
    if v >= 0 {
        assert(v * s <= mx * s) by (nonlinear_arith)
            requires
                0 <= v <= mx,
                s > 0,
        ;
        lemma_div_is_ordered(v * s, mx * s, mx);
        lemma_div_multiples_vanish(s, mx);
        assert((mx * s) / mx == s);
    } else {
        // magnitude of the quotient is at most the magnitude of v * s
        assert(-(v * s) <= VAL_LIMIT * s) by (nonlinear_arith)
            requires
                -VAL_LIMIT <= v < 0,
                s > 0,
        ;
        assert((-(v * s)) / mx <= VAL_LIMIT * s) by (nonlinear_arith)
            requires
                0 <= -(v * s) <= VAL_LIMIT * s,
                mx > 0,
        ;
    }
}

/// A moving-average pass keeps every value inside any interval around
/// zero that contains all the inputs.
pub proof fn lemma_smoothed_bound(s: Seq<int>, w: int, i: int, lo: int, hi: int)
    requires
        0 <= i < s.len(),
        w >= 0,
        lo <= 0 <= hi,
        forall|j: int| 0 <= j < s.len() ==> lo <= #[trigger] s[j] <= hi,
    ensures
        lo <= smoothed_at(s, w, i) <= hi,
{
    let a = window_lo(i, w);
    let b = window_hi(i, w, s.len() as int);
    let win = s.subrange(a, b);
    assert(forall|j: int| 0 <= j < win.len() ==> lo <= #[trigger] win[j] <= hi);
    lemma_seq_sum_bounds(win, lo, hi);
    lemma_div_trunc_bounds(seq_sum(win), b - a, lo, hi);
}

// ---------------------------------------------------------------------
// The executable passes.
// ---------------------------------------------------------------------

/// Smooths a vector in place with a centered moving average of
/// half-window `window`; the window shrinks at the boundaries, and the
/// pass reads only the pre-pass values. The length never changes.
pub fn smooth(values: &mut Vec<i64>, window: usize)
    requires
        old(values)@.len() <= LEN_LIMIT,
        window <= LEN_LIMIT,
    ensures
        final(values)@.len() == old(values)@.len(),
        as_ints(final(values)@) == smoothed_spec(as_ints(old(values)@), window as int),
{
    let ghost orig = as_ints(values@);
    let n = values.len();
    let mut out: Vec<i64> = Vec::new();
    let mut i: usize = 0;
    while i < n
        invariant
            n == orig.len() <= LEN_LIMIT,
            window <= LEN_LIMIT,
            orig == as_ints(values@),
            0 <= i <= n,
            out@.len() == i,
            forall|k: int| 0 <= k < i ==> out@[k] as int == smoothed_at(orig, window as int, k),
        decreases n - i,
    {
        let start: usize = if i >= window {
            i - window
        } else {
            0
        };
        let end: usize = if i < n - 1 && n - 1 - i > window {
            i + window + 1
        } else {
            n
        };
        assert(start == window_lo(i as int, window as int));
        assert(end == window_hi(i as int, window as int, n as int));
        let mut acc: i128 = 0;
        let mut j: usize = start;
        while j < end
            invariant
                0 <= start <= j <= end <= n,
                n == orig.len() <= LEN_LIMIT,
                orig == as_ints(values@),
                acc == seq_sum(orig.subrange(start as int, j as int)),
                -(LEN_LIMIT as i128) * (i64::MIN as i128) >= 0,
                (start as int - j as int) * (i64::MIN as int) >= 0,
                (j as int - start as int) * (i64::MIN as int) <= acc,
                acc <= (j as int - start as int) * (i64::MAX as int),
            decreases end - j,
        {
            let ghost pre = orig.subrange(start as int, j as int);
            proof {
                assert(orig.subrange(start as int, j as int + 1).drop_last() =~= pre);
                lemma_seq_sum_push(pre, orig[j as int]);
                assert(orig.subrange(start as int, j as int + 1)
                    =~= pre.push(orig[j as int]));
                assert((j as int + 1 - start) * (i64::MIN as int)
                    == (j as int - start) * (i64::MIN as int) + i64::MIN) by (nonlinear_arith);
                assert((j as int + 1 - start) * (i64::MAX as int)
                    == (j as int - start) * (i64::MAX as int) + i64::MAX) by (nonlinear_arith);
                assert((j as int - start as int) * (i64::MIN as int)
                    >= (LEN_LIMIT as int) * (i64::MIN as int)) by (nonlinear_arith)
                    requires
                        0 <= j as int - start as int <= LEN_LIMIT as int,
                ;
                assert((j as int - start as int) * (i64::MAX as int)
                    <= (LEN_LIMIT as int) * (i64::MAX as int)) by (nonlinear_arith)
                    requires
                        0 <= j as int - start as int <= LEN_LIMIT as int,
                ;
            }
            acc = acc + (values[j] as i128);
            j = j + 1;
            proof {
                assert((start as int - j as int) * (i64::MIN as int) >= 0) by (nonlinear_arith)
                    requires
                        start as int - j as int <= 0,
                ;
            }
        }
        let cnt: i128 = (end - start) as i128;
        let ghost win = orig.subrange(start as int, end as int);
        proof {
            assert(forall|k: int| 0 <= k < win.len()
                ==> i64::MIN as int <= #[trigger] win[k] <= i64::MAX as int);
            lemma_seq_sum_bounds(win, i64::MIN as int, i64::MAX as int);
            lemma_div_trunc_bounds(seq_sum(win), cnt as int, i64::MIN as int, i64::MAX as int);
            assert(acc > i128::MIN) by (nonlinear_arith)
                requires
                    acc >= (cnt as int) * (i64::MIN as int),
                    0 < cnt <= LEN_LIMIT as int,
            ;
        }
        let m = div_i128_trunc(acc, cnt);
        out.push(m as i64);
        i = i + 1;
    }
    *values = out;
    proof {
        assert(as_ints(values@) =~= smoothed_spec(orig, window as int));
    }
}

/// Step 1 on its own: resolves every missing slot to the truncated mean
/// of the present samples (zero when every slot is missing).
pub fn fill_gaps(slots: &Vec<Option<i64>>) -> (r: Vec<i64>)
    requires
        slots@.len() <= LEN_LIMIT,
    ensures
        r@.len() == slots@.len(),
        as_ints(r@) == filled_spec(slots@),
{
    let n = slots.len();
    let mut acc: i128 = 0;
    let mut cnt: usize = 0;
    let mut j: usize = 0;
    while j < n
        invariant
            0 <= j <= n == slots@.len() <= LEN_LIMIT,
            cnt == present_values(slots@.subrange(0, j as int)).len(),
            acc == seq_sum(present_values(slots@.subrange(0, j as int))),
            cnt <= j,
            (cnt as int) * (i64::MIN as int) <= acc <= (cnt as int) * (i64::MAX as int),
            forall|k: int| 0 <= k < present_values(slots@.subrange(0, j as int)).len()
                ==> i64::MIN as int
                    <= #[trigger] present_values(slots@.subrange(0, j as int))[k]
                    <= i64::MAX as int,
        decreases n - j,
    {
        let ghost pre = slots@.subrange(0, j as int);
        let ghost post = slots@.subrange(0, j as int + 1);
        proof {
            assert(post.drop_last() =~= pre);
            assert(post.last() == slots@[j as int]);
        }
        match slots[j] {
            Some(v) => {
                proof {
                    assert(present_values(post) =~= present_values(pre).push(v as int));
                    lemma_seq_sum_push(present_values(pre), v as int);
                    assert((cnt as int + 1) * (i64::MIN as int)
                        == (cnt as int) * (i64::MIN as int) + i64::MIN) by (nonlinear_arith);
                    assert((cnt as int + 1) * (i64::MAX as int)
                        == (cnt as int) * (i64::MAX as int) + i64::MAX) by (nonlinear_arith);
                }
                acc = acc + (v as i128);
                cnt = cnt + 1;
            },
            None => {
                proof {
                    assert(present_values(post) =~= present_values(pre));
                }
            },
        }
        j = j + 1;
    }
    proof {
        assert(slots@.subrange(0, n as int) =~= slots@);
    }
    let fill: i64 = if cnt == 0 {
        0
    } else {
        proof {
            lemma_div_trunc_bounds(acc as int, cnt as int, i64::MIN as int, i64::MAX as int);
            assert(acc > i128::MIN) by (nonlinear_arith)
                requires
                    acc >= (cnt as int) * (i64::MIN as int),
                    0 < cnt <= LEN_LIMIT as int,
            ;
        }
        div_i128_trunc(acc, cnt as i128) as i64
    };
    assert(fill as int == fill_value(slots@));
    let mut out: Vec<i64> = Vec::new();
    let mut i: usize = 0;
    while i < n
        invariant
            0 <= i <= n == slots@.len(),
            fill as int == fill_value(slots@),
            out@.len() == i,
            forall|k: int| 0 <= k < i ==> out@[k] as int == filled_spec(slots@)[k],
        decreases n - i,
    {
        match slots[i] {
            Some(v) => out.push(v),
            None => out.push(fill),
        }
        i = i + 1;
    }
    proof {
        assert(as_ints(out@) =~= filled_spec(slots@));
    }
    out
}

/// Step 3 on its own: scales the series so its maximum becomes `SCALE`,
/// unless the maximum is not positive, in which case nothing changes.
pub fn normalize(values: &mut Vec<i64>)
    requires
        forall|i: int| 0 <= i < old(values)@.len()
            ==> -VAL_LIMIT <= #[trigger] old(values)@[i] <= VAL_LIMIT,
    ensures
        final(values)@.len() == old(values)@.len(),
        as_ints(final(values)@) == normalized_spec(as_ints(old(values)@)),
        old(values)@.len() > 0 && seq_max(as_ints(old(values)@)) > 0
            ==> forall|i: int| 0 <= i < final(values)@.len()
                ==> #[trigger] final(values)@[i] <= SCALE,
        (forall|i: int| 0 <= i < old(values)@.len() ==> #[trigger] old(values)@[i] >= 0)
            ==> forall|i: int| 0 <= i < final(values)@.len() ==> #[trigger] final(values)@[i] >= 0,
{
    let ghost orig = as_ints(values@);
    let n = values.len();
    if n == 0 {
        return ;
    }
    let mut mx: i64 = values[0];
    let mut j: usize = 1;
    while j < n
        invariant
            1 <= j <= n == orig.len(),
            orig == as_ints(values@),
            mx as int == seq_max(orig.subrange(0, j as int)),
        decreases n - j,
    {
        let ghost pre = orig.subrange(0, j as int);
        proof {
            assert(orig.subrange(0, j as int + 1).drop_last() =~= pre);
        }
        if values[j] > mx {
            mx = values[j];
        }
        j = j + 1;
    }
    proof {
        assert(orig.subrange(0, n as int) =~= orig);
    }
    if mx <= 0 {
        return ;
    }
    let mut out: Vec<i64> = Vec::new();
    let mut i: usize = 0;
    while i < n
        invariant
            0 <= i <= n == orig.len(),
            orig == as_ints(values@),
            values@.len() == n,
            mx as int == seq_max(orig),
            mx > 0,
            forall|k: int| 0 <= k < n ==> -VAL_LIMIT <= #[trigger] values@[k] <= VAL_LIMIT,
            out@.len() == i,
            forall|k: int| 0 <= k < i
                ==> out@[k] as int == div_trunc(orig[k] * (SCALE as int), mx as int),
            forall|k: int| 0 <= k < i ==> #[trigger] out@[k] <= SCALE,
            forall|k: int| 0 <= k < i ==> (orig[k] >= 0 ==> #[trigger] out@[k] >= 0),
        decreases n - i,
    {
        let v = values[i];
        proof {
            lemma_seq_max_ge(orig, i as int);
            lemma_scale_bound(v as int, mx as int);
            assert((v as i128) * (SCALE as i128) > i128::MIN) by (nonlinear_arith)
                requires
                    -VAL_LIMIT <= v as int <= VAL_LIMIT,
            ;
        }
        let scaled: i128 = (v as i128) * (SCALE as i128);
        let q = div_i128_trunc(scaled, mx as i128);
        out.push(q as i64);
        i = i + 1;
    }
    *values = out;
    proof {
        assert(as_ints(values@) =~= normalized_spec(orig));
    }
}

// ---------------------------------------------------------------------
// Aligning raw samples onto the union of observed years.
// ---------------------------------------------------------------------

/// The first sample with the given year, if any.
pub open spec fn lookup_year(samples: Seq<(i32, i64)>, y: i32) -> Option<i64>
    decreases samples.len(),
{
    if samples.len() == 0 {
        None
    } else if samples[0].0 == y {
        Some(samples[0].1)
    } else {
        lookup_year(samples.drop_first(), y)
    }
}

/// One aligned slot per requested year: the country's sample for that
/// year, or nothing.
pub open spec fn aligned_spec(samples: Seq<(i32, i64)>, years: Seq<i32>) -> Seq<Option<i64>> {
    Seq::new(years.len(), |i: int| lookup_year(samples, years[i]))
}

/// The whole cleaning pipeline for one country, over the given year axis.
pub open spec fn cleaned_series(samples: Seq<(i32, i64)>, years: Seq<i32>) -> Seq<int> {
    clean_steps(aligned_spec(samples, years), 1)
}

pub open spec fn ascending(s: Seq<i32>) -> bool {
    forall|i: int, j: int| 0 <= i < j < s.len() ==> s[i] < s[j]
}

/// Some country has a sample for year `y`.
pub open spec fn has_year(raw: Seq<(String, Vec<(i32, i64)>)>, y: i32) -> bool {
    exists|c: int, k: int|
        0 <= c < raw.len() && 0 <= k < raw[c].1@.len() && (#[trigger] raw[c].1@[k]).0 == y
}

/// Total number of samples over all countries.
pub open spec fn total_samples(raw: Seq<(String, Vec<(i32, i64)>)>) -> int
    decreases raw.len(),
{
    if raw.len() == 0 {
        0
    } else {
        total_samples(raw.drop_last()) + raw.last().1@.len()
    }
}

/// Skipping a prefix of samples none of which carries year `y` does not
/// change the lookup.
proof fn lemma_lookup_skip(s: Seq<(i32, i64)>, y: i32, j: int)
    requires
        0 <= j <= s.len(),
        forall|k: int| 0 <= k < j ==> (#[trigger] s[k]).0 != y,
    ensures
        lookup_year(s, y) == lookup_year(s.subrange(j, s.len() as int), y),
    decreases j,
{
    if j > 0 {
        assert((s[0]).0 != y);
        assert(s.drop_first() =~= s.subrange(1, s.len() as int));
        assert(forall|k: int| 0 <= k < j - 1 ==> (#[trigger] s.drop_first()[k]) == s[k + 1]);
        lemma_lookup_skip(s.drop_first(), y, j - 1);
        assert(s.drop_first().subrange(j - 1, s.drop_first().len() as int)
            =~= s.subrange(j, s.len() as int));
    } else {
        assert(s.subrange(0, s.len() as int) =~= s);
    }
}

/// A successful lookup hands back one of the sample values.
pub proof fn lemma_lookup_in_samples(s: Seq<(i32, i64)>, y: i32)
    ensures
        lookup_year(s, y) is Some ==> exists|k: int|
            0 <= k < s.len() && (#[trigger] s[k]).1 == lookup_year(s, y)->Some_0,
    decreases s.len(),
{
    if s.len() > 0 && s[0].0 != y {
        lemma_lookup_in_samples(s.drop_first(), y);
        if lookup_year(s, y) is Some {
            let k = choose|k: int|
                0 <= k < s.drop_first().len() && (#[trigger] s.drop_first()[k]).1
                    == lookup_year(s.drop_first(), y)->Some_0;
            assert(s[k + 1].1 == lookup_year(s, y)->Some_0);
        }
    }
}

/// Reshapes one country's samples into one slot per entry of `years`,
/// using the marker `None` for years the country has no sample for.
pub fn align_series(samples: &Vec<(i32, i64)>, years: &Vec<i32>) -> (r: Vec<Option<i64>>)
    ensures
        r@.len() == years@.len(),
        r@ == aligned_spec(samples@, years@),
{
    let n = years.len();
    let m = samples.len();
    let mut out: Vec<Option<i64>> = Vec::new();
    let mut i: usize = 0;
    while i < n
        invariant
            0 <= i <= n == years@.len(),
            m == samples@.len(),
            out@.len() == i,
            forall|k: int| 0 <= k < i ==> out@[k] == lookup_year(samples@, years@[k]),
        decreases n - i,
    {
        let y = years[i];
        let mut j: usize = 0;
        while j < m && samples[j].0 != y
            invariant
                0 <= j <= m == samples@.len(),
                forall|k: int| 0 <= k < j ==> (#[trigger] samples@[k]).0 != y,
            decreases m - j,
        {
            j = j + 1;
        }
        proof {
            lemma_lookup_skip(samples@, y, j as int);
        }
        if j < m {
            let v = samples[j].1;
            assert(samples@.subrange(j as int, m as int)[0] == samples@[j as int]);
            out.push(Some(v));
        } else {
            assert(samples@.subrange(j as int, m as int).len() == 0);
            out.push(None);
        }
        i = i + 1;
    }
    proof {
        assert(out@ =~= aligned_spec(samples@, years@));
    }
    out
}

/// Inserts a year into a strictly ascending list, keeping it ascending
/// and duplicate-free.
fn insert_year(years: &mut Vec<i32>, y: i32)
    requires
        ascending(old(years)@),
        old(years)@.len() < usize::MAX,
    ensures
        ascending(final(years)@),
        forall|x: i32| final(years)@.contains(x) <==> (old(years)@.contains(x) || x == y),
        old(years)@.len() <= final(years)@.len() <= old(years)@.len() + 1,
{
    let ghost orig = years@;
    let n = years.len();
    let mut p: usize = 0;
    while p < n && years[p] < y
        invariant
            0 <= p <= n == years@.len(),
            years@ == orig,
            forall|k: int| 0 <= k < p ==> (#[trigger] years@[k]) < y,
        decreases n - p,
    {
        p = p + 1;
    }
    if p < n && years[p] == y {
        proof {
            assert(years@.contains(y));
        }
        return ;
    }
    years.insert(p, y);
    proof {
        let post = years@;
        assert(post == orig.insert(p as int, y));
        assert forall|i: int, j: int| 0 <= i < j < post.len() implies post[i] < post[j] by {
            if i < p && j > p {
                assert(post[i] == orig[i] && post[j] == orig[j - 1]);
            } else if i == p && j > p {
                assert(post[j] == orig[j - 1]);
                assert(orig[p as int] <= orig[j - 1] || p as int == j - 1);
            } else if i < p && j == p {
                assert(post[i] == orig[i]);
            }
        }
        assert forall|x: i32| post.contains(x) implies (orig.contains(x) || x == y) by {
            let idx = choose|idx: int| 0 <= idx < post.len() && post[idx] == x;
            if idx < p {
                assert(orig[idx] == x);
            } else if idx > p {
                assert(orig[idx - 1] == x);
            }
        }
        assert forall|x: i32| orig.contains(x) implies post.contains(x) by {
            let idx = choose|idx: int| 0 <= idx < orig.len() && orig[idx] == x;
            if idx < p {
                assert(post[idx] == x);
            } else {
                assert(post[idx + 1] == x);
            }
        }
        assert(post[p as int] == y);
    }
}

/// The ascending union of every year that appears in any country's
/// samples.
pub fn collect_years(raw: &Vec<(String, Vec<(i32, i64)>)>) -> (r: Vec<i32>)
    requires
        total_samples(raw@) < usize::MAX,
    ensures
        ascending(r@),
        forall|y: i32| r@.contains(y) <==> has_year(raw@, y),
        r@.len() <= total_samples(raw@),
{
    let mut years: Vec<i32> = Vec::new();
    let nc = raw.len();
    let mut c: usize = 0;
    proof {
        lemma_total_samples_prefix_le(raw@, 0);
    }
    while c < nc
        invariant
            0 <= c <= nc == raw@.len(),
            ascending(years@),
            years@.len() <= total_samples(raw@.subrange(0, c as int)),
            total_samples(raw@.subrange(0, c as int)) <= total_samples(raw@) < usize::MAX,
            forall|y: i32| years@.contains(y) ==> has_year(raw@, y),
            forall|cc: int, kk: int|
                0 <= cc < c && 0 <= kk < raw@[cc].1@.len()
                    ==> years@.contains((#[trigger] raw@[cc].1@[kk]).0),
        decreases nc - c,
    {
        let samples = &raw[c].1;
        let m = samples.len();
        let ghost base = total_samples(raw@.subrange(0, c as int));
        proof {
            lemma_total_samples_prefix_le(raw@, c as int + 1);
            assert(raw@.subrange(0, c as int + 1).drop_last() =~= raw@.subrange(0, c as int));
            assert(raw@.subrange(0, c as int + 1).last() == raw@[c as int]);
        }
        let mut k: usize = 0;
        while k < m
            invariant
                0 <= k <= m == raw@[c as int].1@.len(),
                0 <= c < nc == raw@.len(),
                samples@ == raw@[c as int].1@,
                ascending(years@),
                years@.len() <= base + k,
                base + m <= total_samples(raw@) < usize::MAX,
                forall|y: i32| years@.contains(y) ==> has_year(raw@, y),
                forall|cc: int, kk: int|
                    0 <= cc < c && 0 <= kk < raw@[cc].1@.len()
                        ==> years@.contains((#[trigger] raw@[cc].1@[kk]).0),
                forall|kk: int| 0 <= kk < k ==> years@.contains((#[trigger] raw@[c as int].1@[kk]).0),
            decreases m - k,
        {
            let y = samples[k].0;
            insert_year(&mut years, y);
            proof {
                assert(raw@[c as int].1@[k as int].0 == y);
                assert(has_year(raw@, y));
            }
            k = k + 1;
        }
        c = c + 1;
        proof {
            assert(raw@.subrange(0, c as int).drop_last() =~= raw@.subrange(0, c as int - 1));
            lemma_total_samples_prefix_le(raw@, c as int);
        }
    }
    proof {
        assert(raw@.subrange(0, nc as int) =~= raw@);
        assert forall|y: i32| has_year(raw@, y) implies years@.contains(y) by {
            let (cc, kk) = choose|cc: int, kk: int|
                0 <= cc < raw@.len() && 0 <= kk < raw@[cc].1@.len()
                    && (#[trigger] raw@[cc].1@[kk]).0 == y;
        }
    }
    years
}

/// The present samples inherit any interval bound on the slots.
proof fn lemma_present_values_bounded(s: Seq<Option<i64>>, lo: int, hi: int)
    requires
        forall|i: int| 0 <= i < s.len() && (#[trigger] s[i]) is Some
            ==> lo <= s[i]->Some_0 <= hi,
    ensures
        forall|k: int| 0 <= k < present_values(s).len()
            ==> lo <= #[trigger] present_values(s)[k] <= hi,
        present_values(s).len() <= s.len(),
    decreases s.len(),
{
    if s.len() > 0 {
        assert(forall|i: int| 0 <= i < s.drop_last().len() && (#[trigger] s.drop_last()[i]) is Some
            ==> lo <= s.drop_last()[i]->Some_0 <= hi);
        lemma_present_values_bounded(s.drop_last(), lo, hi);
    }
}

/// Gap filling keeps every value inside any interval around zero that
/// contains all the present samples.
pub proof fn lemma_filled_bounded(s: Seq<Option<i64>>, lo: int, hi: int)
    requires
        lo <= 0 <= hi,
        forall|i: int| 0 <= i < s.len() && (#[trigger] s[i]) is Some
            ==> lo <= s[i]->Some_0 <= hi,
    ensures
        forall|i: int| 0 <= i < s.len() ==> lo <= #[trigger] filled_spec(s)[i] <= hi,
{
    lemma_present_values_bounded(s, lo, hi);
    let pv = present_values(s);
    if pv.len() > 0 {
        lemma_seq_sum_bounds(pv, lo, hi);
        lemma_div_trunc_bounds(seq_sum(pv), pv.len() as int, lo, hi);
    }
}

/// The cleaning pipeline for one country, run on the given year axis:
/// align, fill gaps, smooth with half-window 1, normalize.
pub fn clean_series(samples: &Vec<(i32, i64)>, years: &Vec<i32>) -> (r: CountryData)
    requires
        years@.len() <= LEN_LIMIT,
        forall|k: int| 0 <= k < samples@.len()
            ==> -VAL_LIMIT <= (#[trigger] samples@[k]).1 <= VAL_LIMIT,
    ensures
        r@.len() == years@.len(),
        r@ == cleaned_series(samples@, years@),
        (forall|k: int| 0 <= k < samples@.len() ==> (#[trigger] samples@[k]).1 >= 0)
            ==> forall|i: int| 0 <= i < r@.len() ==> 0 <= #[trigger] r@[i] <= SCALE as int,
{
    let slots = align_series(samples, years);
    proof {
        assert forall|i: int| 0 <= i < slots@.len() && (#[trigger] slots@[i]) is Some
            implies -VAL_LIMIT <= slots@[i]->Some_0 <= VAL_LIMIT by {
            lemma_lookup_in_samples(samples@, years@[i]);
        }
        lemma_filled_bounded(slots@, -VAL_LIMIT as int, VAL_LIMIT as int);
    }
    let mut vals = fill_gaps(&slots);
    let ghost filled = as_ints(vals@);
    smooth(&mut vals, 1);
    proof {
        assert forall|i: int| 0 <= i < vals@.len()
            implies -VAL_LIMIT <= #[trigger] vals@[i] <= VAL_LIMIT by {
            lemma_smoothed_bound(filled, 1, i, -VAL_LIMIT as int, VAL_LIMIT as int);
            assert(vals@[i] as int == as_ints(vals@)[i]);
        }
    }
    let ghost smoothed = as_ints(vals@);
    normalize(&mut vals);
    let ghost nonneg_in = forall|k: int| 0 <= k < samples@.len()
        ==> (#[trigger] samples@[k]).1 >= 0;
    proof {
        if nonneg_in {
            assert forall|i: int| 0 <= i < slots@.len() && (#[trigger] slots@[i]) is Some
                implies 0 <= slots@[i]->Some_0 <= VAL_LIMIT by {
                lemma_lookup_in_samples(samples@, years@[i]);
            }
            lemma_filled_bounded(slots@, 0, VAL_LIMIT as int);
            assert forall|i: int| 0 <= i < smoothed.len()
                implies 0 <= #[trigger] smoothed[i] <= VAL_LIMIT by {
                lemma_smoothed_bound(filled, 1, i, 0, VAL_LIMIT as int);
            }
            if smoothed.len() > 0 && seq_max(smoothed) <= 0 {
                assert forall|i: int| 0 <= i < vals@.len()
                    implies 0 <= #[trigger] as_ints(vals@)[i] <= SCALE as int by {
                    lemma_seq_max_ge(smoothed, i);
                }
            }
        }
    }
    let r = CountryData { values: vals };
    proof {
        assert(r@ =~= as_ints(r.values@));
        assert(slots@ == aligned_spec(samples@, years@));
        assert(r@ == cleaned_series(samples@, years@));
    }
    r
}

/// Cleans the whole dataset: one shared ascending year axis, then one
/// cleaned profile per country, in the input's order and under the
/// input's names.
pub fn clean_data(raw: &Vec<(String, Vec<(i32, i64)>)>) -> (r: Vec<(String, CountryData)>)
    requires
        total_samples(raw@) <= LEN_LIMIT,
        forall|c: int, k: int|
            0 <= c < raw@.len() && 0 <= k < raw@[c].1@.len()
                ==> -VAL_LIMIT <= (#[trigger] raw@[c].1@[k]).1 <= VAL_LIMIT,
    ensures
        r@.len() == raw@.len(),
        forall|c: int| 0 <= c < r@.len() ==> (#[trigger] r@[c]).0@ == raw@[c].0@,
        exists|ys: Seq<i32>|
            {
                &&& ascending(ys)
                &&& (forall|y: i32| #[trigger] ys.contains(y) <==> has_year(raw@, y))
                &&& forall|c: int| 0 <= c < r@.len()
                    ==> (#[trigger] r@[c]).1@ == cleaned_series(raw@[c].1@, ys)
                        && r@[c].1@.len() == ys.len()
            },
        forall|c1: int, c2: int| 0 <= c1 < r@.len() && 0 <= c2 < r@.len()
            ==> (#[trigger] r@[c1]).1@.len() == (#[trigger] r@[c2]).1@.len(),
        (forall|c: int, k: int|
            0 <= c < raw@.len() && 0 <= k < raw@[c].1@.len()
                ==> (#[trigger] raw@[c].1@[k]).1 >= 0) ==> forall|c: int, i: int|
            0 <= c < r@.len() && 0 <= i < r@[c].1@.len()
                ==> 0 <= #[trigger] r@[c].1@[i] <= SCALE as int,
{
    let years = collect_years(raw);
    let nc = raw.len();
    let mut out: Vec<(String, CountryData)> = Vec::new();
    let mut c: usize = 0;
    while c < nc
        invariant
            0 <= c <= nc == raw@.len(),
            years@.len() <= total_samples(raw@) <= LEN_LIMIT,
            forall|cc: int, k: int|
                0 <= cc < raw@.len() && 0 <= k < raw@[cc].1@.len()
                    ==> -VAL_LIMIT <= (#[trigger] raw@[cc].1@[k]).1 <= VAL_LIMIT,
            out@.len() == c,
            forall|cc: int| 0 <= cc < c ==> (#[trigger] out@[cc]).0@ == raw@[cc].0@,
            forall|cc: int| 0 <= cc < c
                ==> (#[trigger] out@[cc]).1@ == cleaned_series(raw@[cc].1@, years@)
                    && out@[cc].1@.len() == years@.len(),
            forall|cc: int| #![trigger out@[cc]] 0 <= cc < c
                ==> ((forall|k: int| 0 <= k < raw@[cc].1@.len()
                    ==> (#[trigger] raw@[cc].1@[k]).1 >= 0) ==> forall|i: int|
                    0 <= i < out@[cc].1@.len()
                        ==> 0 <= #[trigger] out@[cc].1@[i] <= SCALE as int),
        decreases nc - c,
    {
        let name = raw[c].0.clone();
        let cd = clean_series(&raw[c].1, &years);
        out.push((name, cd));
        c = c + 1;
    }
    proof {
        let ys = years@;
        assert((forall|y: i32| #[trigger] ys.contains(y) <==> has_year(raw@, y)));
    }
    out
}

/// Cleaning is idempotent on an already cleaned profile: with no
/// missing slot left, gap fill changes nothing; with the profile
/// already equal to its own smoothing pass, that pass changes nothing;
/// and with the maximum already at `SCALE`, normalization divides by
/// one unit and changes nothing.
pub proof fn lemma_clean_idempotent(slots: Seq<Option<i64>>, vals: Seq<int>)
    requires
        slots.len() == vals.len(),
        vals.len() > 0,
        forall|i: int| 0 <= i < slots.len()
            ==> (#[trigger] slots[i]) is Some && (slots[i]->Some_0) as int == vals[i],
        smoothed_spec(vals, 1) == vals,
        seq_max(vals) == SCALE as int,
    ensures
        clean_steps(slots, 1) == vals,
{
    assert(filled_spec(slots) =~= vals);
    let s = SCALE as int;
    assert forall|i: int| 0 <= i < vals.len()
        implies div_trunc(vals[i] * s, s) == vals[i] by {
        let v = vals[i];
        if v >= 0 {
            lemma_div_multiples_vanish(v, s);
            assert(v * s == s * v) by (nonlinear_arith);
        } else {
            lemma_div_multiples_vanish(-v, s);
            assert(-(v * s) == s * (-v)) by (nonlinear_arith);
        }
    }
    assert(normalized_spec(vals) =~= vals);
}

/// A prefix never holds more samples than the whole.
proof fn lemma_total_samples_prefix_le(raw: Seq<(String, Vec<(i32, i64)>)>, c: int)
    requires
        0 <= c <= raw.len(),
    ensures
        total_samples(raw.subrange(0, c)) <= total_samples(raw),
        total_samples(raw.subrange(0, c)) >= 0,
    decreases raw.len() - c,
{
    lemma_total_samples_nonneg(raw.subrange(0, c));
    if c < raw.len() {
        lemma_total_samples_prefix_le(raw, c + 1);
        assert(raw.subrange(0, c + 1).drop_last() =~= raw.subrange(0, c));
    } else {
        assert(raw.subrange(0, c) =~= raw);
    }
}

proof fn lemma_total_samples_nonneg(raw: Seq<(String, Vec<(i32, i64)>)>)
    ensures
        total_samples(raw) >= 0,
    decreases raw.len(),
{
    if raw.len() > 0 {
        lemma_total_samples_nonneg(raw.drop_last());
    }
}

} // verus!
