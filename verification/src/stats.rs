//! Timer statistics: sorting and the summary formulas.
//!
//! Statistics are computed over the sorted sample sequence: `min` and `max`
//! are its ends, `count` is the sample count in micro-units, `average` is the
//! truncated mean, `std_dev` the integer square root of the population
//! variance, and `median` / `upper_95` follow the percentile rule
//! `index = floor(count * percent / 100)`, averaging two neighbours when the
//! sample count is even. Accumulations that would leave the machine range
//! saturate there.

use vstd::prelude::*;
use vstd::arithmetic::div_mod::lemma_multiply_divide_le;
use vstd::pervasive::VecAdditionalExecFns;
use vstd::seq_lib::lemma_sorted_unique;

use crate::num::{clamp_i64, clamp_u128, div_trunc, div_trunc_i64, isqrt_spec, isqrt_u128,
    MAX_UNITS};

verus! {

/// The sequence of mathematical values a sequence of machine integers holds.
pub open spec fn int_seq(s: Seq<i64>) -> Seq<int> {
    s.map_values(|x: i64| x as int)
}

/// The sum of a sequence.
pub open spec fn seq_sum(s: Seq<int>) -> int
    decreases s.len(),
{
    if s.len() == 0 {
        0
    } else {
        seq_sum(s.drop_last()) + s.last()
    }
}

/// The sum of squared deviations from `avg`.
pub open spec fn sq_dev_sum(s: Seq<int>, avg: int) -> int
    decreases s.len(),
{
    if s.len() == 0 {
        0
    } else {
        sq_dev_sum(s.drop_last(), avg) + (s.last() - avg) * (s.last() - avg)
    }
}

/// The percentile value of a sorted sequence, by the rule
/// `index = floor(len * percent / 100)`; with an even number of samples the
/// values at `index - 1` and `index` are averaged.
pub open spec fn pct_of(s: Seq<int>, percent: int) -> int
    recommends
        s.len() >= 1,
        50 <= percent < 100,
{
    let idx = s.len() * percent / 100;
    if s.len() % 2 == 0 {
        div_trunc(s[idx - 1] + s[idx], 2)
    } else {
        s[idx]
    }
}

/// The summary statistics of one timer bucket, in micro-units.
pub ghost struct StatsModel {
    pub min: int,
    pub max: int,
    pub count: int,
    pub average: int,
    pub std_dev: int,
    pub median: int,
    pub upper_95: int,
}

/// The statistics a non-empty sample sequence denotes.
pub open spec fn stats_of(samples: Seq<int>) -> StatsModel
    recommends
        samples.len() >= 1,
{
    let s = samples.sort();
    let n = samples.len() as int;
    let avg = div_trunc(seq_sum(s), n);
    StatsModel {
        min: s[0],
        max: s[n - 1],
        count: clamp_i64(n * 1_000_000),
        average: avg,
        std_dev: clamp_i64(isqrt_spec((clamp_u128(sq_dev_sum(s, avg)) / n) as nat) as int),
        median: pct_of(s, 50),
        upper_95: pct_of(s, 95),
    }
}

/// The computed statistics of one timer bucket, held in micro-units.
#[derive(Clone, Copy, Debug, PartialEq, Eq, Structural)]
pub struct TimerData {
    pub min: i64,
    pub max: i64,
    pub count: i64,
    pub average: i64,
    pub std_dev: i64,
    pub median: i64,
    pub upper_95: i64,
}

impl View for TimerData {
    type V = StatsModel;

    open spec fn view(&self) -> StatsModel {
        StatsModel {
            min: self.min as int,
            max: self.max as int,
            count: self.count as int,
            average: self.average as int,
            std_dev: self.std_dev as int,
            median: self.median as int,
            upper_95: self.upper_95 as int,
        }
    }
}

/// Sums are bounded by the length times a bound on the elements.
pub proof fn lemma_seq_sum_bound(s: Seq<int>, b: int)
    requires
        b >= 0,
        forall|i: int| 0 <= i < s.len() ==> -b <= #[trigger] s[i] <= b,
    ensures
        -(s.len() * b) <= seq_sum(s) <= s.len() * b,
    decreases s.len(),
{
    if s.len() > 0 {
        assert forall|i: int|
            0 <= i < s.drop_last().len() implies -b <= #[trigger] s.drop_last()[i] <= b by {
            assert(s.drop_last()[i] == s[i]);
        }
        lemma_seq_sum_bound(s.drop_last(), b);
        assert(-b <= s[s.len() - 1] <= b);
        assert((s.len() - 1) * b + b == s.len() * b) by (nonlinear_arith);
    }
}

/// A sum of squared deviations is never negative.
pub proof fn lemma_sq_dev_sum_nonneg(s: Seq<int>, avg: int)
    ensures
        sq_dev_sum(s, avg) >= 0,
    decreases s.len(),
{
    if s.len() > 0 {
        lemma_sq_dev_sum_nonneg(s.drop_last(), avg);
        let d = s.last() - avg;
        assert(d * d >= 0) by (nonlinear_arith);
    }
}

/// A non-negative quotient is bounded when the dividend is.
pub proof fn lemma_div_bound(m: int, n: int, b: int)
    requires
        n >= 1,
        0 <= m,
        m <= n * b,
    ensures
        m / n <= b,
{
    lemma_multiply_divide_le(m, n, b);
}

/// Sorting keeps every element, so element bounds carry over.
pub proof fn lemma_sort_elems_bounded(samples: Seq<int>, b: int)
    requires
        forall|i: int| 0 <= i < samples.len() ==> -b <= #[trigger] samples[i] <= b,
    ensures
        forall|i: int|
            0 <= i < samples.sort().len() ==> -b <= #[trigger] samples.sort()[i] <= b,
{
    broadcast use vstd::seq_lib::group_to_multiset_ensures;

    samples.lemma_sort_ensures();
    let s = samples.sort();
    assert(s.to_multiset() == samples.to_multiset());
    assert forall|i: int| 0 <= i < s.len() implies -b <= #[trigger] s[i] <= b by {
        assert(s.to_multiset().count(s[i]) > 0);
        assert(samples.to_multiset().count(s[i]) > 0);
        assert(samples.contains(s[i]));
        let j = choose|j: int| 0 <= j < samples.len() && samples[j] == s[i];
        assert(-b <= samples[j] <= b);
    }
}

/// Sort a vector of machine integers ascending, in place.
pub fn sort_i64(v: &mut Vec<i64>)
    ensures
        final(v)@.len() == old(v)@.len(),
        int_seq(final(v)@) == int_seq(old(v)@).sort(),
{
    broadcast use vstd::seq_lib::to_multiset_update;
    broadcast use vstd::seq_lib::group_to_multiset_ensures;
    broadcast use vstd::multiset::group_multiset_axioms;

    let ghost s0: Seq<int> = int_seq(v@);
    let n = v.len();
    let mut i: usize = 1;
    while i < n
        invariant
            1 <= i <= n || (n == 0 && i == 1),
            n == v@.len(),
            int_seq(v@).to_multiset() == s0.to_multiset(),
            forall|a: int, b: int| 0 <= a < b < i ==> #[trigger] v@[a] <= #[trigger] v@[b],
        decreases n - i,
    {
        let mut j: usize = i;
        while j > 0 && v[j - 1] > v[j]
            invariant
                0 <= j <= i < n,
                n == v@.len(),
                int_seq(v@).to_multiset() == s0.to_multiset(),
                forall|a: int, b: int|
                    0 <= a < b <= i && b != j ==> #[trigger] v@[a] <= #[trigger] v@[b],
            decreases j,
        {
            let x = v[j - 1];
            let y = v[j];
            let ghost before = v@;
            v.set(j - 1, y);
            v.set(j, x);
            proof {
                let bi = int_seq(before);
                assert(int_seq(v@) =~= bi.update(j - 1, y as int).update(j as int, x as int));
                assert(bi[j - 1] == x as int && bi[j as int] == y as int);
                assert(bi.contains(x as int)) by {
                    assert(bi[j - 1] == x as int);
                }
                assert(bi.contains(y as int)) by {
                    assert(bi[j as int] == y as int);
                }
                vstd::seq_lib::to_multiset_update(bi, j - 1, y as int);
                vstd::seq_lib::to_multiset_update(bi.update(j - 1, y as int), j as int, x as int);
                assert(bi.update(j - 1, y as int).to_multiset() == bi.to_multiset().insert(
                    y as int,
                ).remove(x as int));
                assert(bi.update(j - 1, y as int)[j as int] == y as int);
                assert(bi.update(j - 1, y as int).update(j as int, x as int).to_multiset()
                    == bi.update(j - 1, y as int).to_multiset().insert(x as int).remove(y as int));
                assert forall|e: int|
                    #[trigger] bi.update(j - 1, y as int).update(
                        j as int,
                        x as int,
                    ).to_multiset().count(e) == bi.to_multiset().count(e) by {
                    bi.to_multiset_ensures();
                    assert(bi.to_multiset().count(x as int) >= 1);
                    assert(bi.to_multiset().count(y as int) >= 1);
                }
                assert(bi.update(j - 1, y as int).update(j as int, x as int).to_multiset()
                    =~= bi.to_multiset());
            }
            j -= 1;
        }
        i += 1;
    }
    proof {
        let si = int_seq(v@);
        s0.lemma_sort_ensures();
        assert(vstd::relations::sorted_by(si, |x: int, y: int| x <= y)) by {
            assert forall|a: int, b: int| 0 <= a < b < si.len() implies si[a] <= si[b] by {
                assert(v@[a] <= v@[b]);
            }
        }
        assert(vstd::relations::total_ordering(|x: int, y: int| x <= y));
        assert(si.to_multiset() == s0.sort().to_multiset());
        lemma_sorted_unique(si, s0.sort(), |x: int, y: int| x <= y);
        assert(int_seq(v@) =~= s0.sort());
    }
}

/// The percentile of a sorted, bounded sample vector, with `percent` given
/// in whole percents.
pub fn get_percentile(values: &Vec<i64>, percent: u64) -> (r: i64)
    requires
        values@.len() >= 1,
        50 <= percent < 100,
        forall|i: int|
            0 <= i < values@.len() ==> -MAX_UNITS <= #[trigger] values@[i] <= MAX_UNITS,
    ensures
        r as int == pct_of(int_seq(values@), percent as int),
{
    let n = values.len();
    proof {
        assert((n as u128) * (percent as u128) <= 0xffff_ffff_ffff_ffffu128 * 100) by (
        nonlinear_arith)
            requires
                n as u128 <= 0xffff_ffff_ffff_ffffu128,
                percent as u128 <= 100,
        ;
    }
    let prod: u128 = (n as u128) * (percent as u128);
    let idx_u: u128 = prod / 100;
    proof {
        vstd::arithmetic::div_mod::lemma_fundamental_div_mod(prod as int, 100);
        assert(prod as int == 100 * (prod as int / 100) + (prod as int) % 100);
        assert(prod < n as u128 * 100) by (nonlinear_arith)
            requires
                prod == n as u128 * percent as u128,
                percent < 100,
                n as u128 >= 1,
        ;
        assert(idx_u < n as u128);
        if n % 2 == 0 {
            assert(prod >= 100) by (nonlinear_arith)
                requires
                    prod == n as u128 * percent as u128,
                    percent >= 50,
                    n as u128 >= 2,
            ;
            assert(idx_u >= 1);
        }
    }
    let idx: usize = idx_u as usize;
    proof {
        assert(idx as int == int_seq(values@).len() * (percent as int) / 100);
    }
    if n % 2 == 0 {
        let a = values[idx - 1];
        let b = values[idx];
        div_trunc_i64(a + b, 2)
    } else {
        values[idx]
    }
}

/// The population standard deviation of a bounded sample vector, as the
/// integer square root of the mean squared deviation; the accumulated sum
/// saturates at the machine range.
pub fn get_std_dev(values: &Vec<i64>, average: i64, count: usize) -> (r: i64)
    requires
        count == values@.len(),
        count >= 1,
        -MAX_UNITS <= average <= MAX_UNITS,
        forall|i: int|
            0 <= i < values@.len() ==> -MAX_UNITS <= #[trigger] values@[i] <= MAX_UNITS,
    ensures
        r as int == clamp_i64(
            isqrt_spec(
                (clamp_u128(sq_dev_sum(int_seq(values@), average as int)) / (count as int)) as nat,
            ) as int,
        ),
{
    let n = values.len();
    let mut acc: u128 = 0;
    let mut i: usize = 0;
    while i < n
        invariant
            0 <= i <= n,
            n == values@.len(),
            n == count,
            -MAX_UNITS <= average <= MAX_UNITS,
            forall|j: int|
                0 <= j < values@.len() ==> -MAX_UNITS <= #[trigger] values@[j] <= MAX_UNITS,
            acc as int == clamp_u128(
                sq_dev_sum(int_seq(values@).subrange(0, i as int), average as int),
            ),
        decreases n - i,
    {
        let x = values[i];
        let d: i64 = x - average;
        let mag: u64 = if d >= 0 {
            d as u64
        } else {
            (-d) as u64
        };
        proof {
            assert((mag as u128) * (mag as u128) <= 0xffff_ffff_ffff_ffff_ffff_ffff_ffff_ffffu128)
                by (nonlinear_arith)
                requires
                    mag <= 0xffff_ffff_ffff_ffffu64,
            ;
        }
        let sq: u128 = (mag as u128) * (mag as u128);
        proof {
            assert((d as int) * (d as int) == (mag as int) * (mag as int)) by (nonlinear_arith)
                requires
                    mag as int == if d >= 0 {
                        d as int
                    } else {
                        -(d as int)
                    },
            ;
            let pre = int_seq(values@).subrange(0, i as int);
            let cur = int_seq(values@).subrange(0, i as int + 1);
            assert(cur.drop_last() =~= pre);
            assert(cur.last() == values@[i as int] as int);
            lemma_sq_dev_sum_nonneg(pre, average as int);
            assert(sq as int >= 0) by (nonlinear_arith);
        }
        if acc > u128::MAX - sq {
            acc = u128::MAX;
        } else {
            acc = acc + sq;
        }
        i += 1;
    }
    proof {
        assert(int_seq(values@).subrange(0, n as int) =~= int_seq(values@));
    }
    let var: u128 = acc / (n as u128);
    let root: u64 = isqrt_u128(var);
    proof {
        assert(var as int == clamp_u128(sq_dev_sum(int_seq(values@), average as int)) / (
        count as int));
        lemma_sq_dev_sum_nonneg(int_seq(values@), average as int);
    }
    if root > i64::MAX as u64 {
        i64::MAX
    } else {
        root as i64
    }
}

} // verus!
