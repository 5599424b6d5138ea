//! Execution metrics and market data bookkeeping of the order execution
//! system.

use vstd::prelude::*;
use vstd::string::StringExecFns;
use crate::benchmark::{latency_sum, lemma_sum_bounds};

verus! {

/// Running statistics over executed orders, latencies in nanoseconds:
/// counts, the sum of the recorded latencies, their running mean, and
/// their extremes. A minimum of zero means that no latency has been
/// recorded yet.
#[derive(Clone, Copy, Debug)]
pub struct PerformanceMetrics {
    pub total_orders: u64,
    pub avg_latency_ns: u64,
    pub min_latency_ns: u64,
    pub max_latency_ns: u64,
    pub successful_orders: u64,
    pub total_latency_ns: u128,
}

/// The metrics before any order was executed.
pub open spec fn empty_metrics() -> PerformanceMetrics {
    PerformanceMetrics {
        total_orders: 0,
        avg_latency_ns: 0,
        min_latency_ns: 0,
        max_latency_ns: 0,
        successful_orders: 0,
        total_latency_ns: 0,
    }
}

impl Default for PerformanceMetrics {
    fn default() -> (m: Self)
        ensures
            m == empty_metrics(),
    {
        PerformanceMetrics {
            total_orders: 0,
            avg_latency_ns: 0,
            min_latency_ns: 0,
            max_latency_ns: 0,
            successful_orders: 0,
            total_latency_ns: 0,
        }
    }
}

/// The metrics after one more executed order with latency `latency_ns`:
/// both counters advance, the latency is added to the sum, the minimum is
/// replaced when it is unset (zero) or larger, the maximum when it is
/// smaller, and the average becomes the running mean, floored: the sum
/// over the count.
pub open spec fn spec_update(m: PerformanceMetrics, latency_ns: u64) -> PerformanceMetrics {
    let total = m.total_orders + 1;
    let sum = m.total_latency_ns + latency_ns;
    PerformanceMetrics {
        total_orders: total as u64,
        successful_orders: (m.successful_orders + 1) as u64,
        min_latency_ns: if m.min_latency_ns == 0 || latency_ns < m.min_latency_ns {
            latency_ns
        } else {
            m.min_latency_ns
        },
        max_latency_ns: if latency_ns > m.max_latency_ns {
            latency_ns
        } else {
            m.max_latency_ns
        },
        total_latency_ns: sum as u128,
        avg_latency_ns: (sum / total) as u64,
    }
}

/// The latency sum is one of as many 64-bit latencies as orders were
/// counted, as every state reached by updates is.
pub open spec fn metrics_well_formed(m: PerformanceMetrics) -> bool {
    m.total_latency_ns <= m.total_orders * 0xFFFF_FFFF_FFFF_FFFFint
}

/// The update's counters stay within 64 bits.
pub open spec fn update_fits(m: PerformanceMetrics) -> bool {
    &&& m.total_orders < u64::MAX
    &&& m.successful_orders < u64::MAX
}

impl PerformanceMetrics {
    /// Whether `update_performance_metrics` may record one more order.
    pub fn can_update(&self) -> (ok: bool)
        ensures
            ok == (metrics_well_formed(*self) && update_fits(*self)),
    {
        self.total_orders < u64::MAX && self.successful_orders < u64::MAX
            && self.total_latency_ns <= (self.total_orders as u128) * 0xFFFF_FFFF_FFFF_FFFFu128
    }

    /// Records one executed order.
    pub fn update_performance_metrics(&mut self, latency_ns: u64)
        requires
            metrics_well_formed(*old(self)),
            update_fits(*old(self)),
        ensures
            *final(self) == spec_update(*old(self), latency_ns),
            metrics_well_formed(*final(self)),
    {
        let ghost prev = *self;
        let total = self.total_orders + 1;
        self.total_orders = total;
        self.successful_orders = self.successful_orders + 1;
        if self.min_latency_ns == 0 || latency_ns < self.min_latency_ns {
            self.min_latency_ns = latency_ns;
        }
        if latency_ns > self.max_latency_ns {
            self.max_latency_ns = latency_ns;
        }
        let sum: u128 = self.total_latency_ns + latency_ns as u128;
        assert(sum <= total * 0xFFFF_FFFF_FFFF_FFFFint);
        assert((sum as int) / (total as int) <= 0xFFFF_FFFF_FFFF_FFFFint) by (nonlinear_arith)
            requires
                sum <= total * 0xFFFF_FFFF_FFFF_FFFFint,
                total >= 1,
        ;
        self.total_latency_ns = sum;
        self.avg_latency_ns = (sum / (total as u128)) as u64;
    }
}

/// Metrics that are empty, or whose counters agree, whose latency sum lies
/// between count times a positive minimum and count times the maximum,
/// and whose average is the sum over the count.
pub open spec fn metrics_consistent(m: PerformanceMetrics) -> bool {
    &&& m.successful_orders == m.total_orders
    &&& m.total_orders == 0 ==> m == empty_metrics()
    &&& m.total_orders > 0 ==> {
        &&& 0 < m.min_latency_ns <= m.max_latency_ns
        &&& m.total_orders * m.min_latency_ns <= m.total_latency_ns
        &&& m.total_latency_ns <= m.total_orders * m.max_latency_ns
        &&& m.avg_latency_ns == (m.total_latency_ns as int) / (m.total_orders as int)
        &&& m.min_latency_ns <= m.avg_latency_ns <= m.max_latency_ns
    }
}

/// Every update with a positive latency keeps the metrics consistent,
/// and afterwards the new latency lies between the minimum and the
/// maximum.
pub proof fn lemma_update_keeps_consistent(m: PerformanceMetrics, latency_ns: u64)
    requires
        metrics_consistent(m),
        update_fits(m),
        latency_ns > 0,
    ensures
        metrics_consistent(spec_update(m, latency_ns)),
        spec_update(m, latency_ns).min_latency_ns <= latency_ns,
        latency_ns <= spec_update(m, latency_ns).max_latency_ns,
{
    let r = spec_update(m, latency_ns);
    let k = m.total_orders as int;
    let s = m.total_latency_ns as int;
    let l = latency_ns as int;
    let lo = r.min_latency_ns as int;
    let hi = r.max_latency_ns as int;
    if k == 0 {
        assert(s == 0);
        assert(lo == l && hi == l);
    } else {
        assert(k * lo <= k * (m.min_latency_ns as int)) by (nonlinear_arith)
            requires lo <= m.min_latency_ns, k >= 0;
        assert(k * (m.max_latency_ns as int) <= k * hi) by (nonlinear_arith)
            requires m.max_latency_ns <= hi, k >= 0;
    }
    assert((k + 1) * lo <= s + l <= (k + 1) * hi) by (nonlinear_arith)
        requires
            k * lo <= s <= k * hi,
            lo <= l <= hi,
            k >= 0,
    ;
    assert(lo <= (s + l) / (k + 1) <= hi) by (nonlinear_arith)
        requires
            (k + 1) * lo <= s + l <= (k + 1) * hi,
            k >= 0,
    ;
    assert((s + l) <= (k + 1) * hi);
    assert(r.total_latency_ns as int == s + l) by {
        assert(s + l <= (k + 1) * 0xFFFF_FFFF_FFFF_FFFFint) by (nonlinear_arith)
            requires s + l <= (k + 1) * hi, hi <= 0xFFFF_FFFF_FFFF_FFFFint, k >= 0;
        assert((k + 1) * 0xFFFF_FFFF_FFFF_FFFFint <= 0xFFFF_FFFF_FFFF_FFFFint * 0xFFFF_FFFF_FFFF_FFFFint) by (nonlinear_arith)
            requires k + 1 <= 0xFFFF_FFFF_FFFF_FFFFint, k >= 0;
    }
    assert(r.avg_latency_ns as int == (s + l) / (k + 1));
}

/// The metrics after recording each latency of `ls` in turn, from empty.
pub open spec fn metrics_after(ls: Seq<u64>) -> PerformanceMetrics
    decreases ls.len(),
{
    if ls.len() == 0 {
        empty_metrics()
    } else {
        spec_update(metrics_after(ls.drop_last()), ls.last())
    }
}

/// Whether every latency after a zero latency is zero too: no positive
/// latency follows a recorded zero, which would otherwise take over the
/// minimum that the zero left unset.
pub open spec fn zeros_trail(ls: Seq<u64>) -> bool {
    forall|i: int, j: int| 0 <= i < j < ls.len() && ls[i] == 0 ==> ls[j] == 0
}

/// After any run of `n >= 1` updates from empty metrics: both counters
/// are `n`, the latency sum is the sum of the latencies, the average is
/// that sum over `n` (floored), the maximum is the largest latency and
/// bounds the average. When no positive latency follows a zero latency
/// (zero marks an unset minimum), the minimum is the smallest latency and
/// `min <= avg <= max`.
pub proof fn lemma_metrics_after_run(ls: Seq<u64>)
    requires
        0 < ls.len() < u64::MAX,
    ensures
        ({
            let m = metrics_after(ls);
            &&& m.total_orders == ls.len()
            &&& m.successful_orders == ls.len()
            &&& m.total_latency_ns == latency_sum(ls)
            &&& m.avg_latency_ns == latency_sum(ls) / (ls.len() as int)
            &&& ls.contains(m.max_latency_ns)
            &&& forall|i: int| 0 <= i < ls.len() ==> #[trigger] ls[i] <= m.max_latency_ns
            &&& m.avg_latency_ns <= m.max_latency_ns
            &&& zeros_trail(ls) ==> {
                &&& ls.contains(m.min_latency_ns)
                &&& forall|i: int| 0 <= i < ls.len() ==> m.min_latency_ns <= #[trigger] ls[i]
                &&& m.min_latency_ns <= m.avg_latency_ns <= m.max_latency_ns
            }
        }),
{
    lemma_metrics_after_facts(ls);
    let m = metrics_after(ls);
    let n = ls.len() as int;
    let sum = latency_sum(ls);
    lemma_sum_bounds(ls, 0, m.max_latency_ns as int);
    assert(sum / n <= m.max_latency_ns) by (nonlinear_arith)
        requires sum <= n * m.max_latency_ns, n >= 1;
    if zeros_trail(ls) {
        lemma_sum_bounds(ls, m.min_latency_ns as int, m.max_latency_ns as int);
        assert(m.min_latency_ns <= sum / n) by (nonlinear_arith)
            requires n * m.min_latency_ns <= sum, n >= 1;
    }
}

proof fn lemma_metrics_after_facts(ls: Seq<u64>)
    requires
        ls.len() < u64::MAX,
    ensures
        ({
            let m = metrics_after(ls);
            &&& m.total_orders == ls.len()
            &&& m.successful_orders == ls.len()
            &&& m.total_latency_ns == latency_sum(ls)
            &&& latency_sum(ls) <= ls.len() * 0xFFFF_FFFF_FFFF_FFFFint
            &&& ls.len() > 0 ==> m.avg_latency_ns == latency_sum(ls) / (ls.len() as int)
            &&& ls.len() > 0 ==> ls.contains(m.max_latency_ns)
            &&& forall|i: int| 0 <= i < ls.len() ==> #[trigger] ls[i] <= m.max_latency_ns
            &&& ls.len() == 0 ==> m == empty_metrics()
            &&& (forall|i: int| 0 <= i < ls.len() ==> #[trigger] ls[i] > 0) ==> metrics_consistent(m)
            &&& zeros_trail(ls) ==> {
                &&& ls.len() > 0 ==> ls.contains(m.min_latency_ns)
                &&& forall|i: int| 0 <= i < ls.len() ==> m.min_latency_ns <= #[trigger] ls[i]
            }
        }),
    decreases ls.len(),
{
    if ls.len() > 0 {
        let p = ls.drop_last();
        let l = ls.last();
        lemma_metrics_after_facts(p);
        let pm = metrics_after(p);
        let m = metrics_after(ls);
        let k = p.len() as int;
        let sp = latency_sum(p);
        assert(sp + l <= (k + 1) * 0xFFFF_FFFF_FFFF_FFFFint) by (nonlinear_arith)
            requires sp <= k * 0xFFFF_FFFF_FFFF_FFFFint, l <= 0xFFFF_FFFF_FFFF_FFFFint;
        assert((k + 1) * 0xFFFF_FFFF_FFFF_FFFFint <= 0xFFFF_FFFF_FFFF_FFFFint * 0xFFFF_FFFF_FFFF_FFFFint) by (nonlinear_arith)
            requires k + 1 <= 0xFFFF_FFFF_FFFF_FFFFint, k >= 0;
        assert(m.total_latency_ns == sp + l);
        assert((sp + l) / (k + 1) <= 0xFFFF_FFFF_FFFF_FFFFint) by (nonlinear_arith)
            requires sp + l <= (k + 1) * 0xFFFF_FFFF_FFFF_FFFFint, k >= 0;
        assert forall|i: int| 0 <= i < ls.len() implies #[trigger] ls[i] <= m.max_latency_ns by {
            if i < p.len() {
                assert(p[i] == ls[i]);
            }
        }
        if p.len() > 0 {
            let j = choose|j: int| 0 <= j < p.len() && p[j] == pm.max_latency_ns;
            assert(ls[j] == p[j]);
        }
        assert(ls[ls.len() - 1] == l);
        if forall|i: int| 0 <= i < ls.len() ==> #[trigger] ls[i] > 0 {
            assert forall|i: int| 0 <= i < p.len() implies #[trigger] p[i] > 0 by {
                assert(ls[i] == p[i]);
            }
            lemma_update_keeps_consistent(pm, l);
        }
        if zeros_trail(ls) {
            assert(zeros_trail(p)) by {
                assert forall|i: int, j: int| 0 <= i < j < p.len() && p[i] == 0 implies p[j] == 0 by {
                    assert(ls[i] == p[i] && ls[j] == p[j]);
                }
            }
            assert forall|i: int| 0 <= i < ls.len() implies m.min_latency_ns <= #[trigger] ls[i] by {
                if i < p.len() {
                    assert(p[i] == ls[i]);
                    if pm.min_latency_ns == 0 {
                        if p[i] == 0 {
                            assert(ls[ls.len() - 1] == 0);
                        }
                    }
                }
            }
            if p.len() > 0 && !(pm.min_latency_ns == 0 || l < pm.min_latency_ns) {
                let j = choose|j: int| 0 <= j < p.len() && p[j] == pm.min_latency_ns;
                assert(ls[j] == p[j]);
            }
        }
    }
}

/// The key under which market data is stored: `exchange:symbol`.
pub fn market_data_key(exchange: &str, symbol: &str) -> (key: String)
    ensures
        key@ == exchange@ + ":"@ + symbol@,
{
    let mut key = String::from_str(exchange);
    key.append(":");
    key.append(symbol);
    key
}

} // verus!
