//! The latency recorder: accumulates duration samples for one metric
//! channel and aggregates them into a percentile summary on export.

use vstd::prelude::*;
use vstd::arithmetic::div_mod::{lemma_div_is_ordered, lemma_fundamental_div_mod};
use vstd::relations::{sorted_by, total_ordering};
use vstd::seq_lib::lemma_sorted_unique;

verus! {

/// The order samples are ranked by.
pub open spec fn le_u64() -> spec_fn(u64, u64) -> bool {
    |x: u64, y: u64| x <= y
}

/// The recorded samples in ascending order.
pub open spec fn sorted_samples(s: Seq<u64>) -> Seq<u64> {
    s.sort_by(le_u64())
}

/// The rank a per-mille percentile selects among `n` ranked samples.
pub open spec fn pct_index(permille: int, n: int) -> int {
    permille * n / 1000
}

/// Aggregated statistics over the samples of one reporting window: the
/// sample count, the extremes, and the p50/p90/p95/p99/p99.9 percentiles.
#[derive(Clone, Copy, Debug, PartialEq, Eq, Structural)]
pub struct Summary {
    pub count: usize,
    pub min: u64,
    pub max: u64,
    pub p50: u64,
    pub p90: u64,
    pub p95: u64,
    pub p99: u64,
    pub p999: u64,
}

/// The summary of a non-empty sample set: each statistic is the sample at
/// its percentile's rank in ascending order.
pub open spec fn spec_summary(s: Seq<u64>) -> Summary {
    let sorted = sorted_samples(s);
    let n = s.len() as int;
    Summary {
        count: s.len() as usize,
        min: sorted[0],
        max: sorted[n - 1],
        p50: sorted[pct_index(500, n)],
        p90: sorted[pct_index(900, n)],
        p95: sorted[pct_index(950, n)],
        p99: sorted[pct_index(990, n)],
        p999: sorted[pct_index(999, n)],
    }
}

proof fn lemma_le_total()
    ensures
        total_ordering(le_u64()),
{
    let r = le_u64();
    assert forall|x: u64, y: u64| !r(x, y) implies #[trigger] r(y, x) by {}
}

proof fn lemma_sorted_samples_props(s: Seq<u64>)
    ensures
        sorted_samples(s).len() == s.len(),
        sorted_by(sorted_samples(s), le_u64()),
        sorted_samples(s).to_multiset() == s.to_multiset(),
{
    broadcast use vstd::seq_lib::group_to_multiset_ensures;

    lemma_le_total();
    s.lemma_sort_by_ensures(le_u64());
    assert(s.to_multiset().len() == s.len());
    assert(sorted_samples(s).to_multiset().len() == sorted_samples(s).len());
}

proof fn lemma_pct_index_bounds(permille: int, n: int)
    requires
        0 <= permille <= 999,
        1 <= n,
    ensures
        0 <= pct_index(permille, n) < n,
{
    assert(0 <= permille * n <= 999 * n) by (nonlinear_arith)
        requires
            0 <= permille <= 999,
            1 <= n,
    ;
    lemma_fundamental_div_mod(permille * n, 1000);
    lemma_div_is_ordered(0, permille * n, 1000);
    let q = permille * n / 1000;
    let m = (permille * n) % 1000;
    assert(permille * n == 1000 * q + m);
    assert(0 <= m < 1000);
    assert(1000 * q <= 999 * n);
    assert(q < n) by (nonlinear_arith)
        requires
            1000 * q <= 999 * n,
            1 <= n,
    ;
}

fn percentile_index(permille: u64, n: usize) -> (i: usize)
    requires
        1 <= n,
        permille <= 999,
    ensures
        i as int == pct_index(permille as int, n as int),
        i < n,
{
    proof {
        assert((permille as int) * (n as int) <= 999 * (usize::MAX as int)) by (nonlinear_arith)
            requires
                permille as int <= 999,
                0 <= n as int <= usize::MAX as int,
        ;
    }
    let prod: u128 = (permille as u128) * (n as u128);
    let q: u128 = prod / 1000;
    proof {
        lemma_pct_index_bounds(permille as int, n as int);
    }
    q as usize
}

fn sort_samples(v: &Vec<u64>) -> (r: Vec<u64>)
    ensures
        r@ == sorted_samples(v@),
{
    broadcast use vstd::seq_lib::group_to_multiset_ensures;
    broadcast use vstd::seq_lib::to_multiset_insert;

    let mut out: Vec<u64> = Vec::new();
    let n = v.len();
    let mut i: usize = 0;
    while i < n
        invariant
            i <= n,
            n == v@.len(),
            sorted_by(out@, le_u64()),
            out@.to_multiset() == v@.subrange(0, i as int).to_multiset(),
        decreases n - i,
    {
        let x = v[i];
        let ghost before = out@;
        let mut j: usize = 0;
        while j < out.len() && out[j] <= x
            invariant
                j <= out@.len(),
                out@ == before,
                forall|k: int| 0 <= k < j ==> out@[k] <= x,
            decreases out@.len() - j,
        {
            j = j + 1;
        }
        out.insert(j, x);
        proof {
            assert forall|p: int, q: int| 0 <= p < q < out@.len() implies le_u64()(
                out@[p],
                out@[q],
            ) by {
                if q < j {
                    assert(out@[p] == before[p] && out@[q] == before[q]);
                } else if p > j {
                    assert(out@[p] == before[p - 1] && out@[q] == before[q - 1]);
                } else if q == j {
                    assert(out@[p] == before[p] && out@[q] == x);
                } else if p == j {
                    assert(out@[p] == x && out@[q] == before[q - 1]);
                    assert(j < before.len() && !(before[j as int] <= x));
                    if q - 1 > j {
                        assert(le_u64()(before[j as int], before[q - 1]));
                    }
                } else {
                    assert(p < j && q > j);
                    assert(out@[p] == before[p] && out@[q] == before[q - 1]);
                    if q - 1 > j {
                        assert(j < before.len() && !(before[j as int] <= x));
                        assert(le_u64()(before[j as int], before[q - 1]));
                    }
                }
            }
            assert(out@ == before.insert(j as int, x));
            vstd::seq_lib::to_multiset_insert(before, j as int, x);
            let sub = v@.subrange(0, i as int);
            assert(v@.subrange(0, i + 1) =~= sub.push(v@[i as int]));
            vstd::seq_lib::to_multiset_build(sub, v@[i as int]);
            assert(out@.to_multiset() == v@.subrange(0, i + 1).to_multiset());
        }
        i = i + 1;
    }
    proof {
        assert(v@.subrange(0, n as int) =~= v@);
        lemma_le_total();
        lemma_sorted_samples_props(v@);
        lemma_sorted_unique(out@, sorted_samples(v@), le_u64());
        assert(out@ == sorted_samples(v@));
    }
    out
}

/// Records elapsed-time samples for one named metric channel and computes
/// their percentile statistics on demand.
pub struct Recorder {
    channel: String,
    samples: Vec<u64>,
}

impl View for Recorder {
    type V = Seq<u64>;

    closed spec fn view(&self) -> Seq<u64> {
        self.samples@
    }
}

impl Recorder {
    /// The metric channel the samples are tagged with.
    pub closed spec fn channel_name(&self) -> Seq<char> {
        self.channel@
    }

    /// A recorder for one metric channel, with no samples yet.
    pub fn new(channel: String) -> (r: Self)
        ensures
            r@ == Seq::<u64>::empty(),
            r.channel_name() == channel@,
    {
        Recorder { channel, samples: Vec::new() }
    }

    /// Record one elapsed-time sample: an amortized O(1) append that never
    /// blocks the caller's critical path.
    pub fn record(&mut self, sample: u64)
        ensures
            final(self)@ == old(self)@.push(sample),
            final(self).channel_name() == old(self).channel_name(),
    {
        self.samples.push(sample);
    }

    /// How many samples have been recorded.
    pub fn count(&self) -> (n: usize)
        ensures
            n == self@.len(),
    {
        self.samples.len()
    }

    /// The channel name, for tagging the exported summary.
    pub fn channel(&self) -> (c: &String)
        ensures
            c@ == self.channel_name(),
    {
        &self.channel
    }

    /// Aggregate everything recorded so far into a percentile summary;
    /// `None` exactly when nothing has been recorded yet.
    pub fn export(&self) -> (r: Option<Summary>)
        ensures
            self@.len() == 0 ==> r == None::<Summary>,
            self@.len() > 0 ==> r == Some(spec_summary(self@)),
    {
        let n = self.samples.len();
        if n == 0 {
            return None;
        }
        let sorted = sort_samples(&self.samples);
        proof {
            lemma_sorted_samples_props(self@);
        }
        let min = sorted[0];
        let max = sorted[n - 1];
        let p50 = sorted[percentile_index(500, n)];
        let p90 = sorted[percentile_index(900, n)];
        let p95 = sorted[percentile_index(950, n)];
        let p99 = sorted[percentile_index(990, n)];
        let p999 = sorted[percentile_index(999, n)];
        Some(Summary { count: n, min, max, p50, p90, p95, p99, p999 })
    }
}

/// Percentile ordering law: for any non-empty sample set the exported
/// summary is internally ordered:
/// `min <= p50 <= p90 <= p95 <= p99 <= p999 <= max`.
pub proof fn lemma_summary_ordered(s: Seq<u64>)
    requires
        s.len() > 0,
    ensures
        ({
            let su = spec_summary(s);
            su.min <= su.p50 && su.p50 <= su.p90 && su.p90 <= su.p95 && su.p95 <= su.p99 && su.p99
                <= su.p999 && su.p999 <= su.max
        }),
{
    lemma_sorted_samples_props(s);
    let n = s.len() as int;
    let sorted = sorted_samples(s);
    lemma_pct_index_bounds(500, n);
    lemma_pct_index_bounds(900, n);
    lemma_pct_index_bounds(950, n);
    lemma_pct_index_bounds(990, n);
    lemma_pct_index_bounds(999, n);
    assert(500 * n <= 900 * n && 900 * n <= 950 * n && 950 * n <= 990 * n && 990 * n <= 999 * n)
        by (nonlinear_arith)
        requires
            n >= 1,
    ;
    lemma_div_is_ordered(500 * n, 900 * n, 1000);
    lemma_div_is_ordered(900 * n, 950 * n, 1000);
    lemma_div_is_ordered(950 * n, 990 * n, 1000);
    lemma_div_is_ordered(990 * n, 999 * n, 1000);
    assert forall|i: int, j: int| 0 <= i <= j < n implies sorted[i] <= sorted[j] by {
        if i < j {
            assert(le_u64()(sorted[i], sorted[j]));
        }
    }
}

} // verus!
