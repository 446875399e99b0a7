//! Latency figures: minimum, maximum, median and sum of the samples.

use vstd::prelude::*;
use vstd::relations::{sorted_by, total_ordering};
use vstd::seq_lib::lemma_sorted_unique;

verus! {

/// The order of latencies.
pub open spec fn ms_leq() -> spec_fn(u64, u64) -> bool {
    |a: u64, b: u64| a <= b
}

/// The latencies in ascending order.
pub open spec fn sorted_ms(s: Seq<u64>) -> Seq<u64> {
    s.sort_by(ms_leq())
}

/// The smallest latency of a non-empty sequence.
pub open spec fn min_of(s: Seq<u64>) -> u64
    decreases s.len(),
{
    if s.len() <= 1 {
        s[0]
    } else {
        let m = min_of(s.drop_last());
        if s.last() < m {
            s.last()
        } else {
            m
        }
    }
}

/// The largest latency of a non-empty sequence.
pub open spec fn max_of(s: Seq<u64>) -> u64
    decreases s.len(),
{
    if s.len() <= 1 {
        s[0]
    } else {
        let m = max_of(s.drop_last());
        if s.last() > m {
            s.last()
        } else {
            m
        }
    }
}

/// The sum of the latencies.
pub open spec fn sum_of(s: Seq<u64>) -> int
    decreases s.len(),
{
    if s.len() == 0 {
        0
    } else {
        sum_of(s.drop_last()) + s.last()
    }
}

/// Twice the median: the two middle values of the sorted latencies added
/// for an even count, the middle value doubled for an odd one.
pub open spec fn median_doubled(s: Seq<u64>) -> int {
    let t = sorted_ms(s);
    let mid = t.len() as int / 2;
    if t.len() % 2 == 0 {
        t[mid - 1] + t[mid]
    } else {
        2 * t[mid]
    }
}

/// The latency figures of a non-empty sample, in milliseconds. The median
/// is kept doubled and the mean as a sum and a count, so that both are exact.
pub struct TimeSummary {
    pub min_ms: u64,
    pub max_ms: u64,
    pub median_doubled_ms: u128,
    pub total_ms: u128,
    pub count: usize,
}

proof fn lemma_ms_leq_total()
    ensures
        total_ordering(ms_leq()),
{
}

/// The latencies sorted ascending.
fn sort_times(s: &Vec<u64>) -> (r: Vec<u64>)
    ensures
        r@ == sorted_ms(s@),
{
    let mut out: Vec<u64> = Vec::new();
    let mut i: usize = 0;
    proof {
        broadcast use vstd::seq_lib::group_to_multiset_ensures;
        assert(s@.take(0) =~= Seq::<u64>::empty());
        assert(out@ =~= Seq::<u64>::empty());
    }
    while i < s.len()
        invariant
            i <= s@.len(),
            sorted_by(out@, ms_leq()),
            out@.to_multiset() == s@.take(i as int).to_multiset(),
        decreases s@.len() - i,
    {
        let x = s[i];
        let mut p: usize = 0;
        while p < out.len() && out[p] <= x
            invariant
                p <= out@.len(),
                forall|k: int| 0 <= k < p ==> out@[k] <= x,
            decreases out@.len() - p,
        {
            p = p + 1;
        }
        let ghost before = out@;
        out.insert(p, x);
        proof {
            assert(out@ == before.insert(p as int, x));
            assert forall|a: int, b: int| 0 <= a < b < out@.len() implies (ms_leq())(out@[a], out@[b]) by {
                if b < p {
                    assert((ms_leq())(before[a], before[b]));
                } else if b == p {
                    assert(before[a] <= x);
                } else if a < p {
                    assert((ms_leq())(before[a], before[b - 1]));
                } else if a == p {
                    assert(!(before[p as int] <= x));
                    assert((ms_leq())(before[p as int], before[b - 1]));
                } else {
                    assert((ms_leq())(before[a - 1], before[b - 1]));
                }
            }
            vstd::seq_lib::to_multiset_insert(before, p as int, x);
            assert(s@.take(i + 1) =~= s@.take(i as int).push(x));
            vstd::seq_lib::to_multiset_build(s@.take(i as int), x);
        }
        i = i + 1;
    }
    proof {
        assert(s@.take(s@.len() as int) =~= s@);
        lemma_ms_leq_total();
        s@.lemma_sort_by_ensures(ms_leq());
        lemma_sorted_unique(out@, sorted_ms(s@), ms_leq());
    }
    out
}

proof fn lemma_sum_bound(s: Seq<u64>)
    ensures
        0 <= sum_of(s) <= s.len() * 0xFFFF_FFFF_FFFF_FFFFint,
    decreases s.len(),
{
    if s.len() > 0 {
        lemma_sum_bound(s.drop_last());
        assert(sum_of(s) <= s.len() * 0xFFFF_FFFF_FFFF_FFFFint) by (nonlinear_arith)
            requires
                sum_of(s) == sum_of(s.drop_last()) + s.last(),
                sum_of(s.drop_last()) <= (s.len() - 1) * 0xFFFF_FFFF_FFFF_FFFFint,
                s.last() <= 0xFFFF_FFFF_FFFF_FFFFint,
        ;
    }
}

/// Minimum, maximum, doubled median and sum of the latencies; none for an
/// empty sample, whose figures are undefined.
pub fn summarize_times(times: &Vec<u64>) -> (r: Option<TimeSummary>)
    ensures
        match r {
            None => times@.len() == 0,
            Some(t) => times@.len() > 0
                && t.min_ms == min_of(times@)
                && t.max_ms == max_of(times@)
                && t.median_doubled_ms == median_doubled(times@)
                && t.total_ms == sum_of(times@)
                && t.count == times@.len(),
        },
{
    if times.len() == 0 {
        return None;
    }
    let mut lo = times[0];
    let mut hi = times[0];
    let mut total: u128 = times[0] as u128;
    let mut i: usize = 1;
    proof {
        assert(times@.take(1).drop_last() =~= Seq::<u64>::empty());
        assert(times@.take(1)[0] == times@[0]);
        assert(sum_of(times@.take(1).drop_last()) == 0);
        assert(sum_of(times@.take(1)) == times@[0]);
    }
    while i < times.len()
        invariant
            1 <= i <= times@.len(),
            lo == min_of(times@.take(i as int)),
            hi == max_of(times@.take(i as int)),
            total == sum_of(times@.take(i as int)),
            total <= i * 0xFFFF_FFFF_FFFF_FFFFint,
        decreases times@.len() - i,
    {
        let x = times[i];
        proof {
            assert(times@.take(i + 1).drop_last() =~= times@.take(i as int));
            assert(times@.take(i + 1).last() == x);
            assert((i + 1) * 0xFFFF_FFFF_FFFF_FFFFint == i * 0xFFFF_FFFF_FFFF_FFFFint + 0xFFFF_FFFF_FFFF_FFFFint) by (nonlinear_arith);
            assert((i + 1) * 0xFFFF_FFFF_FFFF_FFFFint < 0x1_0000_0000_0000_0000 * 0xFFFF_FFFF_FFFF_FFFFint) by (nonlinear_arith)
                requires
                    i < times@.len(),
                    times@.len() <= usize::MAX,
            ;
        }
        if x < lo {
            lo = x;
        }
        if x > hi {
            hi = x;
        }
        total = total + x as u128;
        i = i + 1;
    }
    proof {
        assert(times@.take(times@.len() as int) =~= times@);
    }
    let sorted = sort_times(times);
    proof {
        lemma_ms_leq_total();
        times@.lemma_sort_by_ensures(ms_leq());
        vstd::seq_lib::to_multiset_len(sorted@);
        vstd::seq_lib::to_multiset_len(times@);
    }
    let n = sorted.len();
    let mid = n / 2;
    let median_doubled_ms = if n % 2 == 0 {
        sorted[mid - 1] as u128 + sorted[mid] as u128
    } else {
        2 * (sorted[mid] as u128)
    };
    Some(TimeSummary { min_ms: lo, max_ms: hi, median_doubled_ms, total_ms: total, count: times.len() })
}

} // verus!
