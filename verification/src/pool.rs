//! Round-robin selection over a pool of exchange connections.

use vstd::prelude::*;
use crate::order::counter_after;
use vstd::arithmetic::div_mod::{lemma_add_mod_noop, lemma_add_mod_noop_right, lemma_fundamental_div_mod, lemma_fundamental_div_mod_converse, lemma_mod_equivalence, lemma_mod_mod, lemma_small_mod};

verus! {

/// The connection index that counter value `counter` selects in a pool of
/// `len` connections: the counter, as a `usize`, modulo `len`.
pub open spec fn spec_select(counter: u64, len: nat) -> int {
    (counter as usize) as int % len as int
}

/// A pool of connections served in round-robin order.
pub struct UltraLowLatencyConnectionPool<C> {
    connections: Vec<C>,
    round_robin: u64,
}

impl<C> UltraLowLatencyConnectionPool<C> {
    /// The pooled connections, in order.
    pub closed spec fn connections(&self) -> Seq<C> {
        self.connections@
    }

    /// The round-robin counter: how many selections were made, wrapping.
    pub closed spec fn round_robin(&self) -> u64 {
        self.round_robin
    }

    /// A pool over `connections` whose first selection is connection 0.
    pub fn new(connections: Vec<C>) -> (pool: Self)
        ensures
            pool.connections() == connections@,
            pool.round_robin() == 0,
    {
        UltraLowLatencyConnectionPool { connections, round_robin: 0 }
    }

    /// Number of pooled connections.
    pub fn len(&self) -> (n: usize)
        ensures
            n == self.connections().len(),
    {
        self.connections.len()
    }

    /// Picks the next connection in round-robin order and advances the
    /// counter, wrapping on overflow.
    pub fn select_connection(&mut self) -> (idx: usize)
        requires
            old(self).connections().len() > 0,
        ensures
            idx == spec_select(old(self).round_robin(), old(self).connections().len()),
            idx < old(self).connections().len(),
            final(self).round_robin() == counter_after(old(self).round_robin(), 1),
            final(self).connections() == old(self).connections(),
    {
        let counter = self.round_robin;
        self.round_robin = counter.wrapping_add(1);
        let idx = counter as usize;
        idx % self.connections.len()
    }

    /// The connection at `idx`, to write to.
    pub fn connection_mut(&mut self, idx: usize) -> (conn: &mut C)
        requires
            idx < old(self).connections().len(),
        ensures
            *conn == old(self).connections()[idx as int],
            final(self).connections() == old(self).connections().update(idx as int, *final(conn)),
            final(self).round_robin() == old(self).round_robin(),
    {
        &mut self.connections[idx]
    }
}


proof fn lemma_select_unwrapped(c: u64, n: nat, j: nat, k: nat)
    requires
        0 < n,
        j < k,
        c + k <= usize::MAX,
    ensures
        spec_select(counter_after(c, j), n) == (c + j) % (n as int),
{
    lemma_small_mod((c + j) as nat, 0x1_0000_0000_0000_0000nat);
}

/// Whether one of the `n` selections made from counter value `c` on
/// picks connection `i` of a pool of `n`.
pub open spec fn selected_within(c: u64, n: nat, i: int) -> bool {
    exists|j: nat| j < n && #[trigger] spec_select(counter_after(c, j), n) == i
}

/// Round robin is fair: while the counter neither wraps nor exceeds the
/// `usize` range, any `n` consecutive selections in a pool of `n`
/// connections pick every connection exactly once.
pub proof fn lemma_round_robin_fair(c: u64, n: nat)
    requires
        0 < n,
        c + n <= usize::MAX,
    ensures
        forall|i: int| 0 <= i < n ==> #[trigger] selected_within(c, n, i),
        forall|j1: nat, j2: nat| j1 < n && j2 < n && j1 != j2
            ==> #[trigger] spec_select(counter_after(c, j1), n)
                != #[trigger] spec_select(counter_after(c, j2), n),
{
    let m = n as int;
    assert forall|i: int| 0 <= i < n implies #[trigger] selected_within(c, n, i) by {
        let j = ((i - c) % m) as nat;
        lemma_select_unwrapped(c, n, j, n);
        lemma_add_mod_noop_right(c as int, i - c, m);
        lemma_small_mod(i as nat, n);
        assert(spec_select(counter_after(c, j), n) == i);
    }
    assert forall|j1: nat, j2: nat| j1 < n && j2 < n && j1 != j2
        implies #[trigger] spec_select(counter_after(c, j1), n)
            != #[trigger] spec_select(counter_after(c, j2), n) by {
        lemma_select_unwrapped(c, n, j1, n);
        lemma_select_unwrapped(c, n, j2, n);
        if j1 > j2 {
            lemma_mod_equivalence(c + j1, c + j2, m);
            lemma_small_mod((j1 - j2) as nat, n);
        } else {
            lemma_mod_equivalence(c + j2, c + j1, m);
            lemma_small_mod((j2 - j1) as nat, n);
        }
    }
}


/// How many of the first `k` selections from counter value `r` pick
/// connection `i` of a pool of `n`.
pub open spec fn selection_count(r: u64, n: nat, k: nat, i: int) -> nat
    decreases k,
{
    if k == 0 {
        0
    } else {
        selection_count(r, n, (k - 1) as nat, i) + if spec_select(counter_after(r, (k - 1) as nat), n) == i {
            1nat
        } else {
            0nat
        }
    }
}

/// The `j`-th of a run of selections from counter value `r`: the counter
/// then stands at `r + j` (wrapping), the selection picks that value as a
/// `usize` modulo `n`, and the next selection finds the counter at
/// `r + j + 1`.
pub proof fn lemma_round_robin_sequence(r: u64, n: nat, j: nat)
    requires
        0 < n,
    ensures
        counter_after(counter_after(r, j), 1) == counter_after(r, j + 1),
        counter_after(r, j) as int == (r + j) % 0x1_0000_0000_0000_0000,
        spec_select(counter_after(r, j), n)
            == (((r + j) % 0x1_0000_0000_0000_0000) as u64 as usize) as int % (n as int),
{
    let m: int = 0x1_0000_0000_0000_0000;
    lemma_add_mod_noop(r + j, 1, m);
    lemma_small_mod(1, m as nat);
    lemma_mod_mod(r + j + 1, m, 1);
}

proof fn lemma_div_step(m: int, n: int)
    requires
        m >= 0,
        n > 0,
    ensures
        (m + 1) / n == m / n + (if (m + 1) % n == 0 { 1int } else { 0int }),
{
    lemma_fundamental_div_mod(m, n);
    let q = m / n;
    let r0 = m % n;
    assert(0 <= r0 < n);
    assert(m + 1 == q * n + (r0 + 1)) by (nonlinear_arith)
        requires m == n * q + r0;
    assert(r0 == n - 1 ==> m + 1 == (q + 1) * n + 0) by (nonlinear_arith)
        requires m == n * q + r0;
    if r0 == n - 1 {
        lemma_fundamental_div_mod_converse(m + 1, n, q + 1, 0);
    } else {
        lemma_fundamental_div_mod_converse(m + 1, n, q, r0 + 1);
    }
}

proof fn lemma_selection_count_closed(r: u64, n: nat, k: nat, i: int)
    requires
        0 < n,
        0 <= i < n,
        r + k <= usize::MAX,
    ensures
        ({
            let t = (i - r) % (n as int);
            selection_count(r, n, k, i) == if k <= t { 0int } else { (k - t - 1) / (n as int) + 1 }
        }),
    decreases k,
{
    let m = n as int;
    let t = (i - r) % m;
    if k > 0 {
        let j = (k - 1) as nat;
        lemma_selection_count_closed(r, n, j, i);
        lemma_select_unwrapped(r, n, j, k);
        // (r + j) % n == i  <==>  j % n == t
        lemma_mod_equivalence(r + j, i, m);
        lemma_mod_equivalence(j as int, i - r, m);
        lemma_small_mod(i as nat, n);
        lemma_mod_mod(i - r, m, 1);
        assert(((r + j) - i) == (j - (i - r)));
        assert((spec_select(counter_after(r, j), n) == i) <==> (j as int % m == t));
        if j < t {
            lemma_small_mod(j, n);
        } else if j == t {
            lemma_small_mod(j, n);
        } else {
            lemma_div_step(j - t - 1, m);
            lemma_mod_equivalence(j as int, t, m);
            lemma_small_mod(t as nat, n);
            assert((j - t) % m == 0 <==> j as int % m == t);
        }
    }
}

/// Round robin spreads `k` consecutive selections evenly: while the
/// counter neither wraps nor exceeds the `usize` range, each of the `n`
/// connections is picked `k / n` or `k / n + 1` times.
pub proof fn lemma_round_robin_balanced(r: u64, n: nat, k: nat, i: int)
    requires
        0 < n,
        0 <= i < n,
        r + k <= usize::MAX,
    ensures
        k / n <= selection_count(r, n, k, i) <= k / n + 1,
{
    let m = n as int;
    let t = (i - r) % m;
    lemma_selection_count_closed(r, n, k, i);
    if k <= t {
        lemma_small_mod(k, n);
        lemma_fundamental_div_mod(k as int, m);
        let ki = k as int;
        assert(ki / m == 0) by (nonlinear_arith)
            requires ki <= t, t < m, ki >= 0;
    } else {
        let q = k - t - 1;
        let ki = k as int;
        assert(q / m <= ki / m) by (nonlinear_arith)
            requires q <= ki, q >= 0, m > 0;
        assert(ki / m <= q / m + 1) by (nonlinear_arith)
            requires ki == q + t + 1, 0 <= t < m, q >= 0, m > 0;
    }
}

} // verus!
