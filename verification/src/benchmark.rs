//! Latency samples of a benchmark run and their summary statistics.

use vstd::prelude::*;
use vstd::relations::{sorted_by, total_ordering};
use vstd::seq_lib::{to_multiset_build, to_multiset_insert, to_multiset_remove, to_multiset_contains, to_multiset_len};

verus! {

/// The order on latencies.
pub open spec fn latency_le() -> spec_fn(u64, u64) -> bool {
    |a: u64, b: u64| a <= b
}

/// Latencies in ascending order, with multiplicities.
pub open spec fn sorted_latencies(s: Seq<u64>) -> Seq<u64> {
    s.sort_by(latency_le())
}

pub open spec fn is_ascending(s: Seq<u64>) -> bool {
    forall|i: int, j: int| 0 <= i < j < s.len() ==> s[i] <= s[j]
}

proof fn lemma_latency_le_total()
    ensures
        total_ordering(latency_le()),
{
}

/// Two ascending sequences with the same elements are equal.
proof fn lemma_ascending_unique(a: Seq<u64>, b: Seq<u64>)
    requires
        is_ascending(a),
        is_ascending(b),
        a.to_multiset() == b.to_multiset(),
    ensures
        a == b,
    decreases a.len(),
{
    to_multiset_len(a);
    to_multiset_len(b);
    if a.len() > 0 {
        to_multiset_contains(a, a[0]);
        to_multiset_contains(b, a[0]);
        to_multiset_contains(a, b[0]);
        to_multiset_contains(b, b[0]);
        assert(a.contains(a[0]));
        assert(b.contains(b[0]));
        let ia = choose|i: int| 0 <= i < a.len() && a[i] == b[0];
        let ib = choose|i: int| 0 <= i < b.len() && b[i] == a[0];
        assert(a[0] <= a[ia]);
        assert(b[0] <= b[ib]);
        assert(a[0] == b[0]);
        to_multiset_remove(a, 0);
        to_multiset_remove(b, 0);
        assert(a.remove(0) =~= a.drop_first());
        assert(b.remove(0) =~= b.drop_first());
        lemma_ascending_unique(a.drop_first(), b.drop_first());
        assert forall|i: int| 0 <= i < a.len() implies a[i] == b[i] by {
            if i > 0 {
                assert(a[i] == a.drop_first()[i - 1]);
                assert(b[i] == b.drop_first()[i - 1]);
            }
        }
        assert(a =~= b);
    }
}

/// The ascending sort of `s` is `sorted_latencies(s)`.
proof fn lemma_sorted_latencies(s: Seq<u64>, t: Seq<u64>)
    requires
        is_ascending(t),
        t.to_multiset() == s.to_multiset(),
    ensures
        t == sorted_latencies(s),
{
    lemma_latency_le_total();
    s.lemma_sort_by_ensures(latency_le());
    let u = sorted_latencies(s);
    assert(sorted_by(u, latency_le()));
    assert forall|i: int, j: int| 0 <= i < j < u.len() implies u[i] <= u[j] by {
        assert((latency_le())(u[i], u[j]));
    }
    lemma_ascending_unique(t, u);
}

/// Sorts latencies in ascending order.
fn sort_latencies(s: &Vec<u64>) -> (t: Vec<u64>)
    ensures
        t@ == sorted_latencies(s@),
{
    let mut out: Vec<u64> = Vec::new();
    let n = s.len();
    let mut i: usize = 0;
    assert(out@ =~= s@.subrange(0, 0));
    while i < n
        invariant
            n == s@.len(),
            0 <= i <= n,
            out@.len() == i,
            is_ascending(out@),
            out@.to_multiset() == s@.subrange(0, i as int).to_multiset(),
        decreases n - i,
    {
        let x = s[i];
        let mut k: usize = 0;
        while k < out.len() && out[k] <= x
            invariant
                0 <= k <= out@.len(),
                forall|m: int| 0 <= m < k ==> out@[m] <= x,
            decreases out@.len() - k,
        {
            k = k + 1;
        }
        proof {
            to_multiset_insert(out@, k as int, x);
            to_multiset_build(s@.subrange(0, i as int), x);
            assert(s@.subrange(0, i + 1) =~= s@.subrange(0, i as int).push(x));
        }
        let ghost prev = out@;
        out.insert(k, x);
        assert(out@ =~= prev.insert(k as int, x));
        assert forall|p: int, q: int| 0 <= p < q < out@.len() implies out@[p] <= out@[q] by {
            if p < k && q < k {
            } else if p < k && q == k {
            } else if p < k && q > k {
                assert(prev[p] <= x);
            } else if p == k {
                assert(out@[q] == prev[q - 1]);
                assert(k < prev.len());
                assert(prev[k as int] > x);
                assert(prev[k as int] <= prev[q - 1]);
            } else {
            }
        }
        i = i + 1;
    }
    proof {
        assert(s@.subrange(0, n as int) =~= s@);
        lemma_sorted_latencies(s@, out@);
    }
    out
}


/// Latencies below this many nanoseconds count as sub-millisecond.
pub const SUB_MILLISECOND_NS: u64 = 1_000_000;

/// Room reserved for samples when a benchmark is created.
pub const SAMPLE_CAPACITY: usize = 10000;

/// Every this many iterations the benchmark pauses briefly.
pub const PAUSE_INTERVAL: usize = 100;

/// Nanoseconds in one second.
pub const NANOS_PER_SEC: u128 = 1_000_000_000;

/// Whether a latency is below one millisecond.
pub fn is_sub_millisecond(latency_ns: u64) -> (fast: bool)
    ensures
        fast == (latency_ns < SUB_MILLISECOND_NS),
{
    latency_ns < SUB_MILLISECOND_NS
}

/// Sum of the latencies.
pub open spec fn latency_sum(s: Seq<u64>) -> int
    decreases s.len(),
{
    if s.len() == 0 {
        0
    } else {
        latency_sum(s.drop_last()) + s.last()
    }
}

/// Number of latencies strictly below `bound`.
pub open spec fn count_below(s: Seq<u64>, bound: u64) -> nat
    decreases s.len(),
{
    if s.len() == 0 {
        0
    } else {
        count_below(s.drop_last(), bound) + if s.last() < bound { 1nat } else { 0nat }
    }
}

/// The divisor of the average: the sample count truncated to 32 bits, as
/// dividing a duration by `len as u32` does.
pub open spec fn average_divisor(n: nat) -> nat {
    n % 0x1_0000_0000
}

/// Summary of a non-empty set of latency samples, in nanoseconds.
pub struct LatencyStatistics {
    pub samples: usize,
    pub min: u64,
    pub max: u64,
    pub avg: u128,
    pub median: u64,
    pub p99: u64,
    pub p999: u64,
    pub under_1ms: usize,
}

/// The statistics of a non-empty sample sequence: order statistics of the
/// ascending sort at ranks 0, n/2, n*99/100, n*999/1000 and n-1, the
/// floored average, and the count below one millisecond.
pub open spec fn spec_statistics(s: Seq<u64>) -> LatencyStatistics {
    let t = sorted_latencies(s);
    let n = s.len();
    LatencyStatistics {
        samples: n as usize,
        min: t[0],
        max: t[n - 1],
        avg: (latency_sum(s) / average_divisor(n) as int) as u128,
        median: t[(n / 2) as int],
        p99: t[(n * 99 / 100) as int],
        p999: t[(n * 999 / 1000) as int],
        under_1ms: count_below(s, SUB_MILLISECOND_NS) as usize,
    }
}

/// What `statistics` needs of the samples: a sample count whose
/// percentile ranks are computable, which a 32-bit truncation does not
/// turn into zero, and a total that a duration can hold.
pub open spec fn statistics_defined(s: Seq<u64>) -> bool {
    &&& s.len() * 999 <= usize::MAX
    &&& average_divisor(s.len()) != 0
    &&& latency_sum(s) < 0x1_0000_0000_0000_0000 * NANOS_PER_SEC
}

impl LatencyStatistics {
    /// Whether the fastest sample was below one millisecond.
    pub fn target_met(&self) -> (met: bool)
        ensures
            met == (self.min < SUB_MILLISECOND_NS),
    {
        self.min < SUB_MILLISECOND_NS
    }
}

/// The sum of the latencies, which a `u128` always holds.
fn sum_latencies(v: &Vec<u64>) -> (sum: u128)
    ensures
        sum == latency_sum(v@),
{
    let n = v.len();
    let ghost s = v@;
    let mut sum: u128 = 0;
    let mut i: usize = 0;
    while i < n
        invariant
            n == s.len(),
            s == v@,
            0 <= i <= n,
            sum == latency_sum(s.subrange(0, i as int)),
            sum <= i * 0xFFFF_FFFF_FFFF_FFFFint,
        decreases n - i,
    {
        assert(s.subrange(0, i + 1).drop_last() =~= s.subrange(0, i as int));
        sum = sum + v[i] as u128;
        i = i + 1;
    }
    assert(s.subrange(0, n as int) =~= s);
    sum
}

/// Latency samples of a benchmark run, in nanoseconds.
pub struct LatencyBenchmark {
    samples: Vec<u64>,
}

impl View for LatencyBenchmark {
    type V = Seq<u64>;

    closed spec fn view(&self) -> Seq<u64> {
        self.samples@
    }
}

impl LatencyBenchmark {
    /// A benchmark with no samples.
    pub fn new() -> (b: LatencyBenchmark)
        ensures
            b@ == Seq::<u64>::empty(),
    {
        LatencyBenchmark { samples: Vec::with_capacity(SAMPLE_CAPACITY) }
    }

    /// The recorded samples, in recording order.
    pub fn samples(&self) -> (s: &Vec<u64>)
        ensures
            s@ == self@,
    {
        &self.samples
    }

    /// Accounts for one benchmark iteration: records the latency of a
    /// successful send (nothing for a failed one) and says whether to
    /// pause after this iteration.
    pub fn record_iteration(&mut self, iteration: usize, latency_ns: Option<u64>) -> (pause: bool)
        ensures
            final(self)@ == match latency_ns {
                Some(l) => old(self)@.push(l),
                None => old(self)@,
            },
            pause == (iteration % PAUSE_INTERVAL == 0),
    {
        match latency_ns {
            Some(l) => self.samples.push(l),
            None => {},
        }
        iteration % PAUSE_INTERVAL == 0
    }

    /// Whether `statistics` may be asked for: no samples, or samples
    /// meeting `statistics_defined`.
    pub fn summary_in_range(&self) -> (ok: bool)
        ensures
            ok == (self@.len() == 0 || statistics_defined(self@)),
    {
        let n = self.samples.len();
        if n == 0 {
            return true;
        }
        if n > usize::MAX / 999 {
            return false;
        }
        let divisor: u32 = (n as u64) as u32;
        assert(divisor as int == (n as u64) as int % 0x1_0000_0000) by {
            let m: u64 = n as u64;
            assert((m as u32) as u64 == m % 0x1_0000_0000u64) by (bit_vector);
        }
        if divisor == 0 {
            return false;
        }
        let sum = sum_latencies(&self.samples);
        sum < 0x1_0000_0000_0000_0000u128 * NANOS_PER_SEC
    }

    /// The summary of the samples, or `None` when there are none.
    pub fn statistics(&self) -> (st: Option<LatencyStatistics>)
        requires
            self@.len() > 0 ==> statistics_defined(self@),
        ensures
            st is None <==> self@.len() == 0,
            st matches Some(x) ==> x == spec_statistics(self@),
            st matches Some(x) ==> {
                let t = sorted_latencies(self@);
                let n = self@.len();
                &&& x.samples == n
                &&& x.min == t[0]
                &&& x.max == t[n - 1]
                &&& x.median == t[(n / 2) as int]
                &&& x.p99 == t[(n * 99 / 100) as int]
                &&& x.p999 == t[(n * 999 / 1000) as int]
                &&& x.avg == latency_sum(self@) / ((n % 0x1_0000_0000) as int)
                &&& x.under_1ms == count_below(self@, SUB_MILLISECOND_NS)
                &&& has_rank(self@, 0, x.min)
                &&& has_rank(self@, (n / 2) as int, x.median)
                &&& has_rank(self@, (n * 99 / 100) as int, x.p99)
                &&& has_rank(self@, (n * 999 / 1000) as int, x.p999)
                &&& has_rank(self@, n - 1, x.max)
            },
    {
        let n = self.samples.len();
        if n == 0 {
            return None;
        }
        let sorted = sort_latencies(&self.samples);
        let ghost s = self@;
        proof {
            lemma_latency_le_total();
            s.lemma_sort_by_ensures(latency_le());
            to_multiset_len(s);
            to_multiset_len(sorted@);
        }
        let sum = sum_latencies(&self.samples);
        let mut under: usize = 0;
        let mut i: usize = 0;
        while i < n
            invariant
                n == s.len(),
                s == self.samples@,
                0 <= i <= n,
                under == count_below(s.subrange(0, i as int), SUB_MILLISECOND_NS),
                under <= i,
            decreases n - i,
        {
            let x = self.samples[i];
            assert(s.subrange(0, i + 1).drop_last() =~= s.subrange(0, i as int));
            if is_sub_millisecond(x) {
                under = under + 1;
            }
            i = i + 1;
        }
        assert(s.subrange(0, n as int) =~= s);
        let divisor: u32 = (n as u64) as u32;
        assert(divisor as int == (n as u64) as int % 0x1_0000_0000) by {
            let m: u64 = n as u64;
            assert((m as u32) as u64 == m % 0x1_0000_0000u64) by (bit_vector);
        }
        let avg: u128 = sum / (divisor as u128);
        let median_idx = n / 2;
        let p99_idx = n * 99 / 100;
        let p999_idx = n * 999 / 1000;
        assert(n * 999 / 1000 < n) by (nonlinear_arith)
            requires n >= 1;
        assert(n * 99 / 100 < n) by (nonlinear_arith)
            requires n >= 1;
        proof {
            lemma_statistics_ranks(s);
        }
        Some(LatencyStatistics {
            samples: n,
            min: sorted[0],
            max: sorted[n - 1],
            avg,
            median: sorted[median_idx],
            p99: sorted[p99_idx],
            p999: sorted[p999_idx],
            under_1ms: under,
        })
    }
}


pub(crate) proof fn lemma_sum_bounds(s: Seq<u64>, lo: int, hi: int)
    requires
        forall|i: int| 0 <= i < s.len() ==> lo <= #[trigger] s[i] <= hi,
    ensures
        s.len() * lo <= latency_sum(s) <= s.len() * hi,
    decreases s.len(),
{
    if s.len() > 0 {
        let p = s.drop_last();
        assert forall|i: int| 0 <= i < p.len() implies lo <= #[trigger] p[i] <= hi by {
            assert(p[i] == s[i]);
        }
        lemma_sum_bounds(p, lo, hi);
        assert(s.len() * lo == p.len() * lo + lo) by (nonlinear_arith)
            requires s.len() == p.len() + 1;
        assert(s.len() * hi == p.len() * hi + hi) by (nonlinear_arith)
            requires s.len() == p.len() + 1;
    }
}

proof fn lemma_count_below_positive(s: Seq<u64>, bound: u64)
    ensures
        count_below(s, bound) <= s.len(),
        count_below(s, bound) > 0 <==> exists|i: int| 0 <= i < s.len() && s[i] < bound,
    decreases s.len(),
{
    if s.len() > 0 {
        let p = s.drop_last();
        lemma_count_below_positive(p, bound);
        if count_below(p, bound) > 0 {
            let i = choose|i: int| 0 <= i < p.len() && p[i] < bound;
            assert(s[i] == p[i]);
        }
        if exists|i: int| 0 <= i < s.len() && s[i] < bound {
            let i = choose|i: int| 0 <= i < s.len() && s[i] < bound;
            if i < p.len() {
                assert(p[i] == s[i]);
            }
        }
    }
}

/// Every sample lies between the first and the last of the ascending
/// sort, and both of those are samples.
proof fn lemma_sorted_extremes(s: Seq<u64>)
    requires
        s.len() > 0,
    ensures
        sorted_latencies(s).len() == s.len(),
        is_ascending(sorted_latencies(s)),
        s.contains(sorted_latencies(s)[0]),
        s.contains(sorted_latencies(s)[s.len() - 1]),
        forall|i: int| 0 <= i < s.len() ==>
            sorted_latencies(s)[0] <= #[trigger] s[i] <= sorted_latencies(s)[s.len() - 1],
{
    let t = sorted_latencies(s);
    lemma_latency_le_total();
    s.lemma_sort_by_ensures(latency_le());
    to_multiset_len(s);
    to_multiset_len(t);
    assert forall|i: int, j: int| 0 <= i < j < t.len() implies t[i] <= t[j] by {
        assert((latency_le())(t[i], t[j]));
    }
    assert(t.contains(t[0]));
    assert(t.contains(t[t.len() - 1]));
    to_multiset_contains(t, t[0]);
    to_multiset_contains(s, t[0]);
    to_multiset_contains(t, t[t.len() - 1]);
    to_multiset_contains(s, t[t.len() - 1]);
    assert forall|i: int| 0 <= i < s.len() implies t[0] <= #[trigger] s[i] <= t[s.len() - 1] by {
        assert(s.contains(s[i]));
        to_multiset_contains(s, s[i]);
        to_multiset_contains(t, s[i]);
        let k = choose|k: int| 0 <= k < t.len() && t[k] == s[i];
    }
}

/// The statistics of non-empty samples are consistent: the minimum and
/// maximum are samples bounding every sample, the percentiles are ordered
/// `min <= median <= p99 <= p999 <= max`, the sub-millisecond count is at
/// most the sample count and positive exactly when the minimum is below
/// one millisecond, and, for fewer than 2^32 samples, the average lies
/// between the minimum and the maximum.
pub proof fn lemma_statistics_consistent(s: Seq<u64>)
    requires
        0 < s.len() <= usize::MAX,
    ensures
        ({
            let st = spec_statistics(s);
            &&& s.contains(st.min)
            &&& s.contains(st.max)
            &&& forall|i: int| 0 <= i < s.len() ==> st.min <= #[trigger] s[i] <= st.max
            &&& st.min <= st.median <= st.p99 <= st.p999 <= st.max
            &&& st.under_1ms <= s.len()
            &&& (st.under_1ms > 0 <==> st.min < SUB_MILLISECOND_NS)
            &&& (s.len() < 0x1_0000_0000 ==> st.min <= st.avg <= st.max)
        }),
{
    let n = s.len();
    let t = sorted_latencies(s);
    lemma_sorted_extremes(s);
    assert(n / 2 <= n * 99 / 100) by (nonlinear_arith)
        requires n >= 1;
    assert(n * 99 / 100 <= n * 999 / 1000) by (nonlinear_arith)
        requires n >= 1;
    assert(n * 999 / 1000 < n) by (nonlinear_arith)
        requires n >= 1;
    assert(t[(n / 2) as int] <= t[(n * 99 / 100) as int]);
    assert(t[(n * 99 / 100) as int] <= t[(n * 999 / 1000) as int]);
    assert(t[(n * 999 / 1000) as int] <= t[n - 1]);
    lemma_count_below_positive(s, SUB_MILLISECOND_NS);
    if count_below(s, SUB_MILLISECOND_NS) > 0 {
        let i = choose|i: int| 0 <= i < s.len() && s[i] < SUB_MILLISECOND_NS;
        assert(t[0] <= s[i]);
    }
    if t[0] < SUB_MILLISECOND_NS {
        let k = choose|k: int| 0 <= k < s.len() && s[k] == t[0];
    }
    if n < 0x1_0000_0000 {
        let lo = t[0] as int;
        let hi = t[n - 1] as int;
        lemma_sum_bounds(s, lo, hi);
        let sum = latency_sum(s);
        assert(average_divisor(n) == n);
        assert(lo <= sum / (n as int) <= hi) by (nonlinear_arith)
            requires n * lo <= sum <= n * hi, n >= 1;
        assert(spec_statistics(s).avg == sum / (n as int));
    }
    let st = spec_statistics(s);
    assert(s.contains(st.min));
    assert(s.contains(st.max));
    assert(st.min <= st.median <= st.p99 <= st.p999 <= st.max);
    assert(st.under_1ms <= s.len());
    assert(st.under_1ms > 0 <==> st.min < SUB_MILLISECOND_NS);
}


/// Number of latencies at most `bound`.
pub open spec fn count_not_above(s: Seq<u64>, bound: u64) -> nat
    decreases s.len(),
{
    if s.len() == 0 {
        0
    } else {
        count_not_above(s.drop_last(), bound) + if s.last() <= bound { 1nat } else { 0nat }
    }
}

/// Whether `v` is the latency of rank `k` (counting from 0) in `s`: a
/// sample, with at most `k` samples strictly below it and more than `k`
/// samples at most it.
pub open spec fn has_rank(s: Seq<u64>, k: int, v: u64) -> bool {
    &&& s.contains(v)
    &&& count_below(s, v) <= k
    &&& k < count_not_above(s, v)
}

proof fn lemma_counts_remove(b: Seq<u64>, j: int, v: u64)
    requires
        0 <= j < b.len(),
    ensures
        count_below(b, v) == count_below(b.remove(j), v) + if b[j] < v { 1nat } else { 0nat },
        count_not_above(b, v) == count_not_above(b.remove(j), v) + if b[j] <= v { 1nat } else { 0nat },
    decreases b.len(),
{
    if j == b.len() - 1 {
        assert(b.remove(j) =~= b.drop_last());
    } else {
        lemma_counts_remove(b.drop_last(), j, v);
        assert(b.remove(j).drop_last() =~= b.drop_last().remove(j));
        assert(b.remove(j).last() == b.last());
    }
}

/// The counts depend only on which latencies occur, not on their order.
proof fn lemma_counts_permutation(a: Seq<u64>, b: Seq<u64>, v: u64)
    requires
        a.to_multiset() == b.to_multiset(),
    ensures
        count_below(a, v) == count_below(b, v),
        count_not_above(a, v) == count_not_above(b, v),
    decreases a.len(),
{
    to_multiset_len(a);
    to_multiset_len(b);
    if a.len() > 0 {
        let x = a.last();
        let p = a.drop_last();
        assert(a =~= p.push(x));
        to_multiset_build(p, x);
        to_multiset_contains(a, x);
        to_multiset_contains(b, x);
        assert(a.contains(x)) by {
            assert(a[a.len() - 1] == x);
        }
        let j = choose|j: int| 0 <= j < b.len() && b[j] == x;
        to_multiset_remove(b, j);
        let q = b.remove(j);
        assert(p.to_multiset() =~= q.to_multiset()) by {
            broadcast use vstd::multiset::group_multiset_axioms;
        }
        lemma_counts_permutation(p, q, v);
        lemma_counts_remove(b, j, v);
    }
}

proof fn lemma_count_below_tail(t: Seq<u64>, k: int, v: u64)
    requires
        0 <= k,
        forall|i: int| k <= i < t.len() ==> v <= #[trigger] t[i],
    ensures
        count_below(t, v) <= k,
    decreases t.len(),
{
    lemma_count_below_positive(t, v);
    if t.len() > k {
        let p = t.drop_last();
        assert forall|i: int| k <= i < p.len() implies v <= #[trigger] p[i] by {
            assert(p[i] == t[i]);
        }
        lemma_count_below_tail(p, k, v);
    }
}

proof fn lemma_count_not_above_head(t: Seq<u64>, m: int, v: u64)
    requires
        0 <= m,
        forall|i: int| 0 <= i < m && i < t.len() ==> #[trigger] t[i] <= v,
    ensures
        count_not_above(t, v) >= if t.len() < m { t.len() as int } else { m },
    decreases t.len(),
{
    if t.len() > 0 {
        let p = t.drop_last();
        assert forall|i: int| 0 <= i < m && i < p.len() implies #[trigger] p[i] <= v by {
            assert(p[i] == t[i]);
        }
        lemma_count_not_above_head(p, m, v);
    }
}

/// The element at index `k` of the ascending sort is the latency of rank
/// `k`: a sample with at most `k` samples below it and more than `k`
/// samples at most it. This determines it among all values.
pub proof fn lemma_sorted_index_is_rank(s: Seq<u64>, k: int)
    requires
        0 <= k < s.len(),
    ensures
        has_rank(s, k, sorted_latencies(s)[k]),
{
    let t = sorted_latencies(s);
    lemma_latency_le_total();
    s.lemma_sort_by_ensures(latency_le());
    to_multiset_len(s);
    to_multiset_len(t);
    assert forall|i: int, j: int| 0 <= i < j < t.len() implies t[i] <= t[j] by {
        assert((latency_le())(t[i], t[j]));
    }
    let v = t[k];
    lemma_counts_permutation(s, t, v);
    lemma_count_below_tail(t, k, v);
    lemma_count_not_above_head(t, k + 1, v);
    assert(t.contains(v));
    to_multiset_contains(t, v);
    to_multiset_contains(s, v);
}

/// At most one value has a given rank.
pub proof fn lemma_rank_unique(s: Seq<u64>, k: int, v: u64, w: u64)
    requires
        has_rank(s, k, v),
        has_rank(s, k, w),
    ensures
        v == w,
{
    if v < w {
        lemma_count_le_below(s, v, w);
    } else if w < v {
        lemma_count_le_below(s, w, v);
    }
}

proof fn lemma_count_le_below(s: Seq<u64>, v: u64, w: u64)
    requires
        v < w,
    ensures
        count_not_above(s, v) <= count_below(s, w),
    decreases s.len(),
{
    if s.len() > 0 {
        lemma_count_le_below(s.drop_last(), v, w);
    }
}

/// The reported percentiles are ranks of the samples: with `n` samples,
/// the minimum has rank 0, the median rank `n / 2`, P99 rank
/// `n * 99 / 100`, P99.9 rank `n * 999 / 1000`, and the maximum rank
/// `n - 1`; each is the only value of that rank.
pub proof fn lemma_statistics_ranks(s: Seq<u64>)
    requires
        0 < s.len() <= usize::MAX,
    ensures
        ({
            let st = spec_statistics(s);
            let n = s.len() as int;
            &&& has_rank(s, 0, st.min)
            &&& has_rank(s, n / 2, st.median)
            &&& has_rank(s, n * 99 / 100, st.p99)
            &&& has_rank(s, n * 999 / 1000, st.p999)
            &&& has_rank(s, n - 1, st.max)
        }),
{
    let n = s.len() as int;
    assert(n * 999 / 1000 < n) by (nonlinear_arith)
        requires n >= 1;
    assert(n * 99 / 100 < n) by (nonlinear_arith)
        requires n >= 1;
    assert(0 <= n * 99 / 100 && 0 <= n * 999 / 1000) by (nonlinear_arith)
        requires n >= 1;
    lemma_sorted_index_is_rank(s, 0);
    lemma_sorted_index_is_rank(s, n / 2);
    lemma_sorted_index_is_rank(s, n * 99 / 100);
    lemma_sorted_index_is_rank(s, n * 999 / 1000);
    lemma_sorted_index_is_rank(s, n - 1);
}

} // verus!
