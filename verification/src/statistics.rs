//! Exact descriptive statistics over integer samples: the sorted order,
//! the extremes, the nearest-rank percentiles, and the mean and median
//! as unreduced quotients. The host boundary, which deals in floating
//! point, reuses the percentile index formula proved here.

use vstd::prelude::*;
use vstd::string::*;
use vstd::arithmetic::div_mod::*;
use crate::Ratio;

verus! {

broadcast use vstd::seq_lib::group_to_multiset_ensures;

/// The sum of a sequence of samples.
pub open spec fn sum_seq(s: Seq<i64>) -> int
    decreases s.len(),
{
    if s.len() == 0 {
        0
    } else {
        sum_seq(s.drop_last()) + s.last()
    }
}

pub open spec fn sorted_asc(s: Seq<i64>) -> bool {
    forall|i: int, j: int| 0 <= i < j < s.len() ==> s[i] <= s[j]
}

/// `x` placed into an ascending sequence, after every element it equals.
pub open spec fn sort_insert(t: Seq<i64>, x: i64) -> Seq<i64>
    decreases t.len(),
{
    if t.len() > 0 && t.last() > x {
        sort_insert(t.drop_last(), x).push(t.last())
    } else {
        t.push(x)
    }
}

/// The ascending rearrangement of `s`: what sorting a private copy yields.
pub open spec fn sort_seq(s: Seq<i64>) -> Seq<i64>
    decreases s.len(),
{
    if s.len() == 0 {
        Seq::<i64>::empty()
    } else {
        sort_insert(sort_seq(s.drop_last()), s.last())
    }
}

pub proof fn lemma_sort_insert_props(t: Seq<i64>, x: i64)
    requires
        sorted_asc(t),
    ensures
        sorted_asc(sort_insert(t, x)),
        sort_insert(t, x).to_multiset() == t.to_multiset().insert(x),
        sort_insert(t, x).len() == t.len() + 1,
    decreases t.len(),
{
    if t.len() > 0 && t.last() > x {
        let dl = t.drop_last();
        assert(sorted_asc(dl));
        lemma_sort_insert_props(dl, x);
        let r0 = sort_insert(dl, x);
        assert forall|i: int| 0 <= i < r0.len() implies r0[i] <= t.last() by {
            assert(r0.to_multiset().count(r0[i]) > 0);
            if r0[i] != x {
                assert(dl.to_multiset().count(r0[i]) > 0);
                assert(dl.contains(r0[i]));
            }
        }
        assert(t =~= dl.push(t.last()));
        assert(sort_insert(t, x).to_multiset() =~= t.to_multiset().insert(x));
    } else {
        assert forall|i: int| 0 <= i < t.len() implies t[i] <= x by {
            if i < t.len() - 1 {
                assert(t[i] <= t.last());
            }
        }
    }
}

/// Sorting yields an ascending permutation of the input.
pub proof fn lemma_sort_seq_props(s: Seq<i64>)
    ensures
        sorted_asc(sort_seq(s)),
        sort_seq(s).to_multiset() == s.to_multiset(),
        sort_seq(s).len() == s.len(),
    decreases s.len(),
{
    if s.len() > 0 {
        lemma_sort_seq_props(s.drop_last());
        lemma_sort_insert_props(sort_seq(s.drop_last()), s.last());
        assert(s =~= s.drop_last().push(s.last()));
        assert(sort_seq(s).to_multiset() =~= s.to_multiset());
    }
}

/// Where a scan from the back stops is where `sort_insert` places `x`.
proof fn lemma_sort_insert_at(t: Seq<i64>, x: i64, k: int)
    requires
        0 <= k <= t.len(),
        forall|j: int| k <= j < t.len() ==> t[j] > x,
        k > 0 ==> t[k - 1] <= x,
    ensures
        sort_insert(t, x) == t.take(k) + seq![x] + t.skip(k),
    decreases t.len() - k,
{
    if k == t.len() {
        assert(sort_insert(t, x) == t.push(x));
        assert(t.push(x) =~= t.take(k) + seq![x] + t.skip(k));
    } else {
        assert(t.last() > x);
        let dl = t.drop_last();
        lemma_sort_insert_at(dl, x, k);
        assert(dl.take(k) =~= t.take(k));
        assert((t.take(k) + seq![x] + dl.skip(k)).push(t.last()) =~= t.take(k) + seq![x] + t.skip(
            k,
        ));
    }
}

fn insert_sorted(out: &mut Vec<i64>, x: i64)
    ensures
        final(out)@ == sort_insert(old(out)@, x),
{
    let mut k = out.len();
    while k > 0 && out[k - 1] > x
        invariant
            k <= out@.len(),
            out@ == old(out)@,
            forall|j: int| k <= j < out@.len() ==> out@[j] > x,
        decreases k,
    {
        k = k - 1;
    }
    proof {
        lemma_sort_insert_at(out@, x, k as int);
    }
    out.insert(k, x);
    proof {
        assert(out@ =~= old(out)@.take(k as int) + seq![x] + old(out)@.skip(k as int));
    }
}

/// Sorts a copy of the samples ascending.
pub fn sort_i64(v: &Vec<i64>) -> (r: Vec<i64>)
    ensures
        r@ == sort_seq(v@),
{
    let mut out: Vec<i64> = Vec::new();
    let mut i: usize = 0;
    proof {
        assert(v@.take(0) =~= Seq::<i64>::empty());
    }
    while i < v.len()
        invariant
            i <= v@.len(),
            out@ == sort_seq(v@.take(i as int)),
        decreases v@.len() - i,
    {
        proof {
            assert(v@.take(i + 1).drop_last() =~= v@.take(i as int));
        }
        insert_sorted(&mut out, v[i]);
        i = i + 1;
    }
    proof {
        assert(v@.take(v@.len() as int) =~= v@);
    }
    out
}

/// The nearest-rank index of percentile `p` among `n` sorted samples:
/// `round(p/100 * (n-1))`, clamped to the last index.
pub open spec fn spec_percentile_index(p: int, n: int) -> int {
    let i = (p * (n - 1) + 50) / 100;
    if i <= n - 1 {
        i
    } else {
        n - 1
    }
}

pub fn percentile_index(p: usize, n: usize) -> (idx: usize)
    requires
        1 <= n,
        p <= 100,
    ensures
        idx == spec_percentile_index(p as int, n as int),
        idx < n,
{
    proof {
        assert((p as int) * ((n - 1) as int) <= 100 * 0xffff_ffff_ffff_ffffint) by (nonlinear_arith)
            requires
                0 <= p <= 100,
                0 <= n - 1 <= 0xffff_ffff_ffff_ffffint,
        ;
    }
    let raw: u128 = ((p as u128) * ((n - 1) as u128) + 50) / 100;
    proof {
        lemma_div_is_ordered_by_denominator((p * (n - 1) + 50) as int, 1, 100);
    }
    if raw <= (n - 1) as u128 {
        raw as usize
    } else {
        n - 1
    }
}

/// The labels of the fixed percentiles, in their fixed order.
pub open spec fn spec_plabels() -> Seq<Seq<char>> {
    seq!["p10"@, "p25"@, "p50"@, "p75"@, "p90"@, "p95"@, "p99"@]
}

/// The fixed percentiles themselves.
pub open spec fn spec_pvals() -> Seq<int> {
    seq![10int, 25int, 50int, 75int, 90int, 95int, 99int]
}

fn pct_label(i: usize) -> (r: &'static str)
    requires
        i < 7,
    ensures
        r@ == spec_plabels()[i as int],
{
    match i {
        0 => "p10",
        1 => "p25",
        2 => "p50",
        3 => "p75",
        4 => "p90",
        5 => "p95",
        _ => "p99",
    }
}

fn pct_value(i: usize) -> (r: usize)
    requires
        i < 7,
    ensures
        r == spec_pvals()[i as int],
{
    match i {
        0 => 10,
        1 => 25,
        2 => 50,
        3 => 75,
        4 => 90,
        5 => 95,
        _ => 99,
    }
}

/// Any sum of `i64` samples stays well inside `i128`.
pub proof fn lemma_sum_bounds(s: Seq<i64>)
    ensures
        -0x8000_0000_0000_0000int * s.len() <= sum_seq(s) <= 0x7fff_ffff_ffff_ffffint * s.len(),
    decreases s.len(),
{
    if s.len() > 0 {
        lemma_sum_bounds(s.drop_last());
        assert(-0x8000_0000_0000_0000int * (s.len() - 1) - 0x8000_0000_0000_0000int
            == -0x8000_0000_0000_0000int * s.len()) by (nonlinear_arith);
        assert(0x7fff_ffff_ffff_ffffint * (s.len() - 1) + 0x7fff_ffff_ffff_ffffint
            == 0x7fff_ffff_ffff_ffffint * s.len()) by (nonlinear_arith);
    }
}

/// Percentile indices grow with the percentile and stay inside the range.
proof fn lemma_pidx_mono(p1: int, p2: int, n: int)
    requires
        0 <= p1 <= p2,
        n >= 1,
    ensures
        0 <= spec_percentile_index(p1, n) <= spec_percentile_index(p2, n) <= n - 1,
{
    assert(0 <= p1 * (n - 1) <= p2 * (n - 1)) by (nonlinear_arith)
        requires
            0 <= p1 <= p2,
            n >= 1,
    ;
    lemma_div_pos_is_pos(p1 * (n - 1) + 50, 100);
    lemma_div_is_ordered(p1 * (n - 1) + 50, p2 * (n - 1) + 50, 100);
}

/// For the fixed percentiles below the median, the nearest-rank index never
/// passes the lower median position; above it, never falls before the upper.
proof fn lemma_pidx_median(n: int)
    requires
        n >= 1,
    ensures
        n % 2 == 0 ==> spec_percentile_index(25, n) <= n / 2 - 1,
        n % 2 == 0 ==> n / 2 <= spec_percentile_index(75, n),
        n % 2 == 1 ==> spec_percentile_index(25, n) <= n / 2,
        n % 2 == 1 ==> n / 2 <= spec_percentile_index(75, n),
{
    let m = n / 2;
    if n % 2 == 0 {
        lemma_fundamental_div_mod_converse(100 * (m - 1) + 99, 100, m - 1, 99);
        lemma_div_is_ordered(25 * (n - 1) + 50, 100 * (m - 1) + 99, 100);
        lemma_fundamental_div_mod_converse(100 * m, 100, m, 0);
        lemma_div_is_ordered(100 * m, 75 * (n - 1) + 50, 100);
    } else {
        lemma_fundamental_div_mod_converse(100 * m + 99, 100, m, 99);
        lemma_div_is_ordered(25 * (n - 1) + 50, 100 * m + 99, 100);
        lemma_fundamental_div_mod_converse(100 * m, 100, m, 0);
        lemma_div_is_ordered(100 * m, 75 * (n - 1) + 50, 100);
    }
}

/// Every sample lies between the given bounds, so the sum lies between
/// `lo * n` and `hi * n`.
pub proof fn lemma_sum_range(s: Seq<i64>, lo: int, hi: int)
    requires
        forall|i: int| 0 <= i < s.len() ==> lo <= #[trigger] s[i] <= hi,
    ensures
        lo * s.len() <= sum_seq(s) <= hi * s.len(),
    decreases s.len(),
{
    if s.len() > 0 {
        lemma_sum_range(s.drop_last(), lo, hi);
        assert(lo * (s.len() - 1) + lo == lo * s.len()) by (nonlinear_arith);
        assert(hi * (s.len() - 1) + hi == hi * s.len()) by (nonlinear_arith);
    }
}

/// The order of a non-empty sample list's summary values: the minimum, the
/// fixed percentiles in their order, the median between the quarter marks,
/// and the mean, all bounded by the extremes. Together with the contract of
/// `compute_statistics` this orders every field of its result.
pub proof fn lemma_statistics_ordered(s: Seq<i64>)
    requires
        s.len() > 0,
    ensures
        sorted_asc(sort_seq(s)),
        sort_seq(s).len() == s.len(),
        sort_seq(s)[0] <= sort_seq(s)[spec_percentile_index(10, s.len() as int)],
        sort_seq(s)[spec_percentile_index(10, s.len() as int)] <= sort_seq(s)[
            spec_percentile_index(25, s.len() as int)],
        sort_seq(s)[spec_percentile_index(75, s.len() as int)] <= sort_seq(s)[
            spec_percentile_index(90, s.len() as int)],
        sort_seq(s)[spec_percentile_index(90, s.len() as int)] <= sort_seq(s)[
            spec_percentile_index(95, s.len() as int)],
        sort_seq(s)[spec_percentile_index(95, s.len() as int)] <= sort_seq(s)[
            spec_percentile_index(99, s.len() as int)],
        sort_seq(s)[spec_percentile_index(99, s.len() as int)] <= sort_seq(s)[s.len() - 1],
        s.len() % 2 == 0 ==> 2 * sort_seq(s)[spec_percentile_index(25, s.len() as int)]
            <= sort_seq(s)[s.len() as int / 2 - 1] + sort_seq(s)[s.len() as int / 2],
        s.len() % 2 == 0 ==> sort_seq(s)[s.len() as int / 2 - 1] + sort_seq(s)[s.len() as int / 2]
            <= 2 * sort_seq(s)[spec_percentile_index(75, s.len() as int)],
        s.len() % 2 == 1 ==> sort_seq(s)[spec_percentile_index(25, s.len() as int)] <= sort_seq(
            s,
        )[s.len() as int / 2],
        s.len() % 2 == 1 ==> sort_seq(s)[s.len() as int / 2] <= sort_seq(s)[
            spec_percentile_index(75, s.len() as int)],
        sort_seq(s)[0] * s.len() <= sum_seq(s) <= sort_seq(s)[s.len() - 1] * s.len(),
{
    lemma_sort_seq_props(s);
    let t = sort_seq(s);
    let n = s.len() as int;
    lemma_pidx_mono(0, 10, n);
    lemma_pidx_mono(10, 25, n);
    lemma_pidx_mono(25, 75, n);
    lemma_pidx_mono(75, 90, n);
    lemma_pidx_mono(90, 95, n);
    lemma_pidx_mono(95, 99, n);
    lemma_pidx_median(n);
    assert forall|i: int| 0 <= i < s.len() implies t[0] <= #[trigger] s[i] <= t[n - 1] by {
        assert(s.to_multiset().count(s[i]) > 0);
        assert(t.contains(s[i]));
        let j = choose|j: int| 0 <= j < t.len() && t[j] == s[i];
        if j > 0 {
            assert(t[0] <= t[j]);
        }
        if j < n - 1 {
            assert(t[j] <= t[n - 1]);
        }
    }
    lemma_sum_range(s, t[0] as int, t[n - 1] as int);
}

/// Descriptive statistics over a sample list, as exact values: the mean and
/// median are unreduced quotients, the percentile table maps each fixed
/// label to the sorted sample at its nearest-rank index.
#[derive(Clone, Debug)]
pub struct StatisticsResult {
    pub mean: Ratio,
    pub median: Ratio,
    pub min: i64,
    pub max: i64,
    pub percentiles: Vec<(String, i64)>,
}

/// Mean, median, extremes and fixed percentiles of `values`. An empty input
/// yields the hollow all-zero result with no percentile entries.
pub fn compute_statistics(values: &Vec<i64>) -> (r: StatisticsResult)
    ensures
        values@.len() == 0 ==> r.mean == (Ratio { num: 0, den: 1 }) && r.median == (Ratio {
            num: 0,
            den: 1,
        }) && r.min == 0 && r.max == 0 && r.percentiles@.len() == 0,
        values@.len() > 0 ==> {
            let t = sort_seq(values@);
            let n = values@.len() as int;
            &&& r.mean.num == sum_seq(values@)
            &&& r.mean.den == n
            &&& r.median == (if n % 2 == 0 {
                Ratio { num: (t[n / 2 - 1] + t[n / 2]) as i128, den: 2 }
            } else {
                Ratio { num: t[n / 2] as i128, den: 1 }
            })
            &&& r.min == t[0]
            &&& r.max == t[n - 1]
            &&& r.percentiles@.len() == 7
            &&& forall|i: int|
                0 <= i < 7 ==> (#[trigger] r.percentiles@[i]).0@ == spec_plabels()[i]
                    && r.percentiles@[i].1 == t[spec_percentile_index(spec_pvals()[i], n)]
        },
{
    if values.len() == 0 {
        return StatisticsResult {
            mean: Ratio { num: 0, den: 1 },
            median: Ratio { num: 0, den: 1 },
            min: 0,
            max: 0,
            percentiles: Vec::new(),
        };
    }
    let n = values.len();
    let mut sum: i128 = 0;
    let mut i: usize = 0;
    proof {
        assert(values@.take(0) =~= Seq::<i64>::empty());
    }
    while i < n
        invariant
            i <= n,
            n == values@.len(),
            sum == sum_seq(values@.take(i as int)),
        decreases n - i,
    {
        proof {
            lemma_sum_bounds(values@.take(i as int));
            assert(values@.take(i + 1).drop_last() =~= values@.take(i as int));
        }
        sum = sum + (values[i] as i128);
        i = i + 1;
    }
    proof {
        assert(values@.take(n as int) =~= values@);
        lemma_sort_seq_props(values@);
    }
    let sorted = sort_i64(values);
    let min = sorted[0];
    let max = sorted[n - 1];
    let median = if n % 2 == 0 {
        Ratio { num: (sorted[n / 2 - 1] as i128) + (sorted[n / 2] as i128), den: 2 }
    } else {
        Ratio { num: sorted[n / 2] as i128, den: 1 }
    };
    let mut percentiles: Vec<(String, i64)> = Vec::new();
    let mut k: usize = 0;
    while k < 7
        invariant
            k <= 7,
            n == values@.len(),
            n >= 1,
            sorted@ == sort_seq(values@),
            sorted@.len() == n,
            percentiles@.len() == k,
            forall|j: int|
                0 <= j < k ==> (#[trigger] percentiles@[j]).0@ == spec_plabels()[j]
                    && percentiles@[j].1 == sort_seq(values@)[spec_percentile_index(
                    spec_pvals()[j],
                    n as int,
                )],
        decreases 7 - k,
    {
        let p = pct_value(k);
        let idx = percentile_index(p, n);
        let label = pct_label(k).to_owned();
        percentiles.push((label, sorted[idx]));
        k = k + 1;
    }
    StatisticsResult { mean: Ratio { num: sum, den: n }, median, min, max, percentiles }
}

} // verus!
