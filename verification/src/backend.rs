//! The SOCKS backend registry: tri-state health per backend, bounded RTT and
//! TTL histories, byte attribution, and round-robin selection over the green
//! subset.
use vstd::prelude::*;
use vstd::relations::sorted_by;

use crate::addr::SockAddrV;
use crate::bytesutil::ascii_chars;
use crate::stats::now_ts;

verus! {

/// Tri-state backend health: fully usable, reachable but without Internet,
/// or unreachable.
#[derive(Clone, Copy, Debug, PartialEq, Eq, Structural)]
pub enum BackendState {
    Green,
    Yellow,
    Red,
}

/// Observable state of one backend.  Round-trip times are in milliseconds.
pub struct BackendStatus {
    pub addr: String,
    pub state: BackendState,
    pub healthy: bool,
    pub last_check: u64,
    pub last_error: Option<String>,
    pub socks_ping_ms: Option<u64>,
    pub internet_ping_ms: Option<u64>,
    pub rtt_integrity: Option<u64>,
    pub ttl_min: Option<u32>,
    pub ttl_max: Option<u32>,
    pub total_bytes: u64,
}

impl BackendStatus {
    /// A field-for-field copy.
    pub fn duplicate(&self) -> (r: BackendStatus)
        ensures
            r == *self,
    {
        BackendStatus {
            addr: self.addr.clone(),
            state: self.state,
            healthy: self.healthy,
            last_check: self.last_check,
            last_error: match &self.last_error {
                Some(e) => Some(e.clone()),
                None => None,
            },
            socks_ping_ms: self.socks_ping_ms,
            internet_ping_ms: self.internet_ping_ms,
            rtt_integrity: self.rtt_integrity,
            ttl_min: self.ttl_min,
            ttl_max: self.ttl_max,
            total_bytes: self.total_bytes,
        }
    }
}

/// The tri-state derivation from the two probes: no SOCKS answer is Red, a
/// SOCKS answer with Internet reach is Green, a SOCKS answer alone Yellow.
pub open spec fn spec_derive_state(socks_ping: Option<u64>, internet_ping: Option<u64>)
    -> BackendState {
    if socks_ping is None {
        BackendState::Red
    } else if internet_ping is Some {
        BackendState::Green
    } else {
        BackendState::Yellow
    }
}

/// Derive the tri-state health from the two probe outcomes.
pub fn derive_state(socks_ping: Option<u64>, internet_ping: Option<u64>) -> (r: BackendState)
    ensures
        r == spec_derive_state(socks_ping, internet_ping),
{
    if socks_ping.is_none() {
        BackendState::Red
    } else if internet_ping.is_some() {
        BackendState::Green
    } else {
        BackendState::Yellow
    }
}

pub struct SocksBackends {
    pub addrs: Vec<SockAddrV>,
    pub status: Vec<BackendStatus>,
    pub ttl_hist: Vec<Vec<u32>>,
    pub rtt_hist: Vec<Vec<u64>>,
    pub rr: usize,
}

/// Shape invariant: the four parallel vectors have one slot per backend,
/// histories are bounded at 30 samples, and `healthy` mirrors Green.
pub open spec fn backends_wf(b: SocksBackends) -> bool {
    &&& b.status@.len() == b.addrs@.len()
    &&& b.ttl_hist@.len() == b.addrs@.len()
    &&& b.rtt_hist@.len() == b.addrs@.len()
    &&& forall|i: int| 0 <= i < b.addrs@.len() ==> (#[trigger] b.ttl_hist@[i])@.len() <= 30
    &&& forall|i: int| 0 <= i < b.addrs@.len() ==> (#[trigger] b.rtt_hist@[i])@.len() <= 30
    &&& forall|i: int|
        0 <= i < b.addrs@.len() ==> ((#[trigger] b.status@[i]).healthy <==> b.status@[i].state
            == BackendState::Green)
}

/// Indices of the green backends, in order.
pub open spec fn green_indices(status: Seq<BackendStatus>) -> Seq<int>
    decreases status.len(),
{
    if status.len() == 0 {
        Seq::empty()
    } else if status.last().healthy {
        green_indices(status.drop_last()).push(status.len() - 1)
    } else {
        green_indices(status.drop_last())
    }
}

pub proof fn lemma_green_indices(status: Seq<BackendStatus>)
    ensures
        forall|j: int|
            0 <= j < green_indices(status).len() ==> 0 <= #[trigger] green_indices(status)[j]
                < status.len() && status[green_indices(status)[j]].healthy,
        (green_indices(status).len() == 0) <==> (forall|i: int|
            0 <= i < status.len() ==> !(#[trigger] status[i]).healthy),
    decreases status.len(),
{
    if status.len() > 0 {
        lemma_green_indices(status.drop_last());
        let g = green_indices(status);
        let gp = green_indices(status.drop_last());
        assert forall|j: int| 0 <= j < g.len() implies 0 <= g[j] < status.len()
            && status[g[j]].healthy by {
            if status.last().healthy {
                if j < g.len() - 1 {
                    assert(g[j] == gp[j]);
                    assert(status.drop_last()[gp[j]] == status[gp[j]]);
                }
            } else {
                assert(g[j] == gp[j]);
                assert(status.drop_last()[gp[j]] == status[gp[j]]);
            }
        }
        if g.len() == 0 {
            assert forall|i: int| 0 <= i < status.len() implies !(#[trigger] status[i]).healthy by {
                if i < status.len() - 1 {
                    assert(status.drop_last()[i] == status[i]);
                }
            }
        }
    }
}

/// The green slot picked by the `i`-th round-robin selection after starting
/// cursor `rr0`, over `k` green backends.
pub open spec fn pick_slot(rr0: int, k: int, i: int) -> int {
    (rr0 + 1 + i) % k
}

/// How many of the first `n` selections land on green slot `t`.
pub open spec fn count_picks(rr0: int, k: int, n: int, t: int) -> int
    decreases n,
{
    if n <= 0 {
        0
    } else {
        count_picks(rr0, k, n - 1, t) + (if pick_slot(rr0, k, n - 1) == t {
            1int
        } else {
            0int
        })
    }
}

proof fn lemma_count_picks_monotone(rr0: int, k: int, m: int, n: int, t: int)
    requires
        m <= n,
    ensures
        count_picks(rr0, k, m, t) <= count_picks(rr0, k, n, t),
    decreases n - m,
{
    if m < n {
        lemma_count_picks_monotone(rr0, k, m, n - 1, t);
    }
}

proof fn lemma_count_picks_window(rr0: int, k: int, n: int, t: int)
    requires
        k >= 1,
        n >= k,
        0 <= t < k,
    ensures
        count_picks(rr0, k, n, t) >= count_picks(rr0, k, n - k, t) + 1,
{
    let base = rr0 + 1 + n - k;
    let d = (t - base) % k;
    assert(0 <= d < k);
    let j = n - k + d;
    assert(pick_slot(rr0, k, j) == t) by {
        let q = (t - base) / k;
        vstd::arithmetic::div_mod::lemma_fundamental_div_mod(t - base, k);
        assert(base + d == t - k * q);
        vstd::arithmetic::div_mod::lemma_mod_multiples_vanish(-q, t, k);
        assert((k * -q + t) % k == t % k);
        assert(k * -q + t == t - k * q) by (nonlinear_arith);
        assert(base + d == k * -q + t);
        assert(t % k == t) by (nonlinear_arith)
            requires
                k >= 1 && 0 <= t < k,
        ;
    }
    assert(count_picks(rr0, k, j + 1, t) == count_picks(rr0, k, j, t) + 1);
    lemma_count_picks_monotone(rr0, k, n - k, j, t);
    lemma_count_picks_monotone(rr0, k, j + 1, n, t);
}

/// Round-robin fairness: over `n` consecutive selections across a fixed set
/// of `k` green backends, each green slot is picked at least `n / k - 1`
/// times (indeed at least `n / k`).  Together with `select_rr`'s contract —
/// selection `i` returns the green slot `pick_slot(rr0, k, i)` while the
/// green set stays fixed — this is the fairness guarantee of the selector.
pub proof fn lemma_round_robin_fairness(rr0: int, k: int, n: int, t: int)
    requires
        k >= 1,
        n >= 0,
        0 <= t < k,
    ensures
        count_picks(rr0, k, n, t) >= n / k - 1,
        count_picks(rr0, k, n, t) >= n / k,
    decreases n,
{
    if n < k {
        assert(n / k == 0) by (nonlinear_arith)
            requires
                k >= 1 && 0 <= n < k,
        ;
        lemma_count_picks_monotone(rr0, k, 0, n, t);
    } else {
        lemma_round_robin_fairness(rr0, k, n - k, t);
        lemma_count_picks_window(rr0, k, n, t);
        assert(n / k == (n - k) / k + 1) by (nonlinear_arith)
            requires
                k >= 1 && n >= k,
        ;
    }
}

/// Number of samples within ten percent of `m` (exact rational comparison).
pub open spec fn count_stable(s: Seq<u64>, m: u64) -> int
    decreases s.len(),
{
    if s.len() == 0 {
        0
    } else {
        count_stable(s.drop_last(), m) + (if 9 * m <= 10 * s.last() && 10 * s.last() <= 11 * m {
            1int
        } else {
            0int
        })
    }
}

pub open spec fn u64_leq() -> spec_fn(u64, u64) -> bool {
    |a: u64, b: u64| a <= b
}

/// The history's median sample: the middle element of the sorted history.
pub open spec fn spec_median(s: Seq<u64>) -> u64 {
    s.sort_by(u64_leq())[s.len() as int / 2]
}

/// Integrity percentage of an RTT history: the share of samples within ten
/// percent of the median (the median floored at one millisecond).
pub open spec fn spec_rtt_integrity(s: Seq<u64>) -> int {
    let m0 = spec_median(s);
    let m = if m0 < 1 {
        1u64
    } else {
        m0
    };
    count_stable(s, m) * 100 / s.len() as int
}

proof fn lemma_count_stable_bound(s: Seq<u64>, m: u64)
    ensures
        0 <= count_stable(s, m) <= s.len(),
    decreases s.len(),
{
    if s.len() > 0 {
        lemma_count_stable_bound(s.drop_last(), m);
    }
}

fn sort_u64(v: &Vec<u64>) -> (r: Vec<u64>)
    ensures
        r@ == v@.sort_by(u64_leq()),
{
    let mut out: Vec<u64> = Vec::new();
    let mut i: usize = 0;
    proof {
        assert(out@ =~= v@.take(0));
    }
    while i < v.len()
        invariant
            0 <= i <= v@.len(),
            out@.to_multiset() == v@.take(i as int).to_multiset(),
            sorted_by(out@, u64_leq()),
        decreases v.len() - i,
    {
        let x = v[i];
        let mut j: usize = out.len();
        while j > 0 && out[j - 1] > x
            invariant
                0 <= j <= out@.len(),
                forall|t: int| j <= t < out@.len() ==> out@[t] > x,
            decreases j,
        {
            j = j - 1;
        }
        let ghost pre = out@;
        out.insert(j, x);
        proof {
            broadcast use vstd::seq_lib::to_multiset_insert;
            broadcast use vstd::seq_lib::group_to_multiset_ensures;

            assert(v@.take(i as int + 1).drop_last() =~= v@.take(i as int));
            assert(v@.take(i as int + 1).to_multiset() =~= v@.take(
                i as int + 1,
            ).drop_last().to_multiset().insert(v@[i as int])) by {
                let t = v@.take(i as int + 1);
                assert(t =~= t.drop_last().push(t.last()));
            }
            assert(out@.to_multiset() == v@.take(i as int + 1).to_multiset());
            assert forall|a: int, b: int| 0 <= a < b < out@.len() implies u64_leq()(
                out@[a],
                out@[b],
            ) by {
                if b < j {
                    assert(out@[a] == pre[a] && out@[b] == pre[b]);
                } else if a > j {
                    assert(out@[a] == pre[a - 1] && out@[b] == pre[b - 1]);
                } else if a == j {
                    assert(out@[b] == pre[b - 1]);
                    assert(pre[b - 1] > x);
                } else if b == j {
                    assert(out@[a] == pre[a]);
                    if j > 0 {
                        assert(pre[j - 1] <= x);
                        if a < j - 1 {
                            assert(u64_leq()(pre[a], pre[j - 1]));
                        }
                    }
                } else {
                    assert(a < j && b > j);
                    assert(out@[a] == pre[a] && out@[b] == pre[b - 1]);
                    if j > 0 && a < j - 1 {
                        assert(u64_leq()(pre[a], pre[j - 1]));
                    }
                    if j > 0 {
                        assert(pre[j - 1] <= x);
                    }
                    assert(pre[b - 1] > x);
                }
            }
        }
        i = i + 1;
    }
    proof {
        assert(v@.take(v@.len() as int) =~= v@);
        v@.lemma_sort_by_ensures(u64_leq());
        vstd::seq_lib::lemma_sorted_unique(out@, v@.sort_by(u64_leq()), u64_leq());
    }
    out
}

/// The integrity percentage of a non-empty RTT history.
pub fn rtt_integrity_percent(hist: &Vec<u64>) -> (r: u64)
    requires
        0 < hist@.len() <= 30,
    ensures
        r == spec_rtt_integrity(hist@),
        0 <= r <= 100,
{
    let sorted = sort_u64(hist);
    proof {
        broadcast use vstd::seq_lib::group_to_multiset_ensures;

        hist@.lemma_sort_by_ensures(u64_leq());
        assert(sorted@.to_multiset().len() == hist@.to_multiset().len());
        assert(sorted@.len() == hist@.len());
    }
    let m0 = sorted[hist.len() / 2];
    let m: u64 = if m0 < 1 {
        1
    } else {
        m0
    };
    let mut stable: u64 = 0;
    let mut i: usize = 0;
    while i < hist.len()
        invariant
            0 <= i <= hist@.len(),
            m >= 1,
            stable == count_stable(hist@.take(i as int), m),
            stable <= i,
        decreases hist.len() - i,
    {
        let x = hist[i];
        let lo_ok = (9 as u128) * (m as u128) <= (10 as u128) * (x as u128);
        let hi_ok = (10 as u128) * (x as u128) <= (11 as u128) * (m as u128);
        proof {
            lemma_count_stable_bound(hist@.take(i as int), m);
            let t = hist@.take(i as int + 1);
            assert(t.drop_last() =~= hist@.take(i as int));
            assert(t.last() == hist@[i as int]);
        }
        if lo_ok && hi_ok {
            stable = stable + 1;
        }
        i = i + 1;
    }
    proof {
        assert(hist@.take(hist@.len() as int) =~= hist@);
        lemma_count_stable_bound(hist@, m);
        assert(stable * 100 / (hist@.len() as int) <= 100) by (nonlinear_arith)
            requires
                0 <= stable <= hist@.len() && hist@.len() > 0,
        ;
    }
    (stable * 100) / (hist.len() as u64)
}

impl SocksBackends {
    /// A registry over the given backend addresses; `None` when the list is
    /// empty.  Every backend starts Red and unchecked.
    pub fn new(addrs: Vec<SockAddrV>) -> (r: Option<SocksBackends>)
        ensures
            (r is Some) <==> addrs@.len() > 0,
            r matches Some(b) ==> {
                &&& backends_wf(b)
                &&& b.addrs@ == addrs@
                &&& b.rr == 0
                &&& forall|i: int|
                    0 <= i < b.status@.len() ==> {
                        let st = #[trigger] b.status@[i];
                        st.state == BackendState::Red && !st.healthy && st.socks_ping_ms is None
                            && st.internet_ping_ms is None && st.total_bytes == 0
                            && st.addr@ == ascii_chars(crate::addr::addr_repr(addrs@[i]))
                    }
            },
    {
        if addrs.len() == 0 {
            return None;
        }
        let mut status: Vec<BackendStatus> = Vec::new();
        let mut ttl_hist: Vec<Vec<u32>> = Vec::new();
        let mut rtt_hist: Vec<Vec<u64>> = Vec::new();
        let now = now_ts();
        let mut i: usize = 0;
        while i < addrs.len()
            invariant
                0 <= i <= addrs@.len(),
                status@.len() == i,
                ttl_hist@.len() == i,
                rtt_hist@.len() == i,
                forall|j: int| 0 <= j < i ==> (#[trigger] ttl_hist@[j])@.len() == 0,
                forall|j: int| 0 <= j < i ==> (#[trigger] rtt_hist@[j])@.len() == 0,
                forall|j: int|
                    0 <= j < i ==> {
                        let st = #[trigger] status@[j];
                        st.state == BackendState::Red && !st.healthy && st.socks_ping_ms is None
                            && st.internet_ping_ms is None && st.total_bytes == 0
                            && st.addr@ == ascii_chars(crate::addr::addr_repr(addrs@[j]))
                    },
            decreases addrs.len() - i,
        {
            status.push(
                BackendStatus {
                    addr: addrs[i].to_display(),
                    state: BackendState::Red,
                    healthy: false,
                    last_check: now,
                    last_error: Some("not checked yet".to_owned()),
                    socks_ping_ms: None,
                    internet_ping_ms: None,
                    rtt_integrity: None,
                    ttl_min: None,
                    ttl_max: None,
                    total_bytes: 0,
                },
            );
            ttl_hist.push(Vec::new());
            rtt_hist.push(Vec::new());
            i = i + 1;
        }
        Some(SocksBackends { addrs, status, ttl_hist, rtt_hist, rr: 0 })
    }

    /// Number of backends.
    pub fn len(&self) -> (r: usize)
        ensures
            r == self.addrs@.len(),
    {
        self.addrs.len()
    }

    /// The backend address at an index, when in range.
    pub fn addr_at(&self, idx: usize) -> (r: Option<SockAddrV>)
        ensures
            idx < self.addrs@.len() ==> r == Some(self.addrs@[idx as int]),
            idx >= self.addrs@.len() ==> r is None,
    {
        if idx < self.addrs.len() {
            Some(self.addrs[idx])
        } else {
            None
        }
    }

    /// Whether any backend is healthy (Green).
    pub fn any_healthy(&self) -> (r: bool)
        ensures
            r == exists|i: int| 0 <= i < self.status@.len() && (#[trigger] self.status@[i]).healthy,
    {
        let mut i: usize = 0;
        while i < self.status.len()
            invariant
                0 <= i <= self.status@.len(),
                forall|j: int| 0 <= j < i ==> !(#[trigger] self.status@[j]).healthy,
            decreases self.status.len() - i,
        {
            if self.status[i].healthy {
                return true;
            }
            i = i + 1;
        }
        false
    }

    /// Whether any backend is Green: the same as `any_healthy`.
    pub fn any_green(&self) -> (r: bool)
        ensures
            r == exists|i: int| 0 <= i < self.status@.len() && (#[trigger] self.status@[i]).healthy,
    {
        self.any_healthy()
    }

    /// Whether any backend responds at all (Green or Yellow).
    pub fn any_reachable(&self) -> (r: bool)
        ensures
            r == exists|i: int|
                0 <= i < self.status@.len() && (#[trigger] self.status@[i]).state
                    != BackendState::Red,
    {
        let mut i: usize = 0;
        while i < self.status.len()
            invariant
                0 <= i <= self.status@.len(),
                forall|j: int|
                    0 <= j < i ==> (#[trigger] self.status@[j]).state == BackendState::Red,
            decreases self.status.len() - i,
        {
            let red = match self.status[i].state {
                BackendState::Red => true,
                _ => false,
            };
            if !red {
                return true;
            }
            i = i + 1;
        }
        false
    }

    /// A copy of every backend's status.
    pub fn snapshot(&self) -> (r: Vec<BackendStatus>)
        ensures
            r@.len() == self.status@.len(),
            forall|i: int| 0 <= i < r@.len() ==> r@[i] == self.status@[i],
    {
        let mut out: Vec<BackendStatus> = Vec::new();
        let mut i: usize = 0;
        while i < self.status.len()
            invariant
                0 <= i <= self.status@.len(),
                out@.len() == i,
                forall|j: int| 0 <= j < i ==> out@[j] == self.status@[j],
            decreases self.status.len() - i,
        {
            out.push(self.status[i].duplicate());
            i = i + 1;
        }
        out
    }

    fn position_of(&self, addr: SockAddrV) -> (r: Option<usize>)
        ensures
            match r {
                Some(i) => i < self.addrs@.len() && self.addrs@[i as int] == addr && forall|j: int|
                    0 <= j < i ==> self.addrs@[j] != addr,
                None => forall|j: int| 0 <= j < self.addrs@.len() ==> self.addrs@[j] != addr,
            },
    {
        let mut i: usize = 0;
        while i < self.addrs.len()
            invariant
                0 <= i <= self.addrs@.len(),
                forall|j: int| 0 <= j < i ==> self.addrs@[j] != addr,
            decreases self.addrs.len() - i,
        {
            if self.addrs[i] == addr {
                return Some(i);
            }
            i = i + 1;
        }
        None
    }

    /// Mark the backend with this address Red after a connect failure,
    /// clearing its probe readings and recording the error.
    pub fn mark_backend_failed(&mut self, addr: SockAddrV, err: String)
        requires
            backends_wf(*old(self)),
        ensures
            backends_wf(*final(self)),
            final(self).addrs@ == old(self).addrs@,
            final(self).rr == old(self).rr,
            final(self).ttl_hist@ == old(self).ttl_hist@,
            final(self).rtt_hist@ == old(self).rtt_hist@,
            final(self).status@.len() == old(self).status@.len(),
            forall|j: int|
                0 <= j < old(self).status@.len() && old(self).addrs@[j] != addr ==> final(self).status@[j] == old(self).status@[j],
            (exists|j: int| 0 <= j < old(self).addrs@.len() && old(self).addrs@[j] == addr) ==> {
                let i = choose|i: int|
                    0 <= i < old(self).addrs@.len() && old(self).addrs@[i] == addr && forall|j: int|
                        0 <= j < i ==> old(self).addrs@[j] != addr;
                let st = final(self).status@[i];
                let o = old(self).status@[i];
                st.state == BackendState::Red && !st.healthy && st.socks_ping_ms is None
                    && st.internet_ping_ms is None && (st.last_error matches Some(e) && e@ == err@)
                    && st.addr == o.addr && st.total_bytes == o.total_bytes && st.rtt_integrity
                    == o.rtt_integrity && st.ttl_min == o.ttl_min && st.ttl_max == o.ttl_max
            },
    {
        let idx = match self.position_of(addr) {
            Some(i) => i,
            None => {
                return ;
            },
        };
        let ghost pre = self.status@;
        let mut st = self.status.remove(idx);
        st.state = BackendState::Red;
        st.healthy = false;
        st.last_check = now_ts();
        st.last_error = Some(err);
        st.socks_ping_ms = None;
        st.internet_ping_ms = None;
        self.status.insert(idx, st);
        proof {
            assert(self.status@ =~= pre.update(idx as int, self.status@[idx as int]));
            let i = choose|i: int|
                0 <= i < self.addrs@.len() && self.addrs@[i] == addr && forall|j: int|
                    0 <= j < i ==> self.addrs@[j] != addr;
            assert(i == idx as int);
        }
    }

    /// Add a backend address; adding an address already present changes
    /// nothing.
    pub fn add(&mut self, addr: SockAddrV)
        requires
            backends_wf(*old(self)),
        ensures
            backends_wf(*final(self)),
            (exists|j: int| 0 <= j < old(self).addrs@.len() && old(self).addrs@[j] == addr)
                ==> *final(self) == *old(self),
            !(exists|j: int| 0 <= j < old(self).addrs@.len() && old(self).addrs@[j] == addr) ==> {
                &&& final(self).addrs@ == old(self).addrs@.push(addr)
                &&& final(self).status@.len() == old(self).status@.len() + 1
                &&& (forall|j: int|
                    0 <= j < old(self).status@.len() ==> final(self).status@[j] == old(self).status@[j])
                &&& final(self).status@.last().state == BackendState::Red
                &&& !final(self).status@.last().healthy
                &&& final(self).status@.last().total_bytes == 0
                &&& final(self).rr == old(self).rr
            },
    {
        match self.position_of(addr) {
            Some(_) => {},
            None => {
                self.addrs.push(addr);
                self.status.push(
                    BackendStatus {
                        addr: addr.to_display(),
                        state: BackendState::Red,
                        healthy: false,
                        last_check: now_ts(),
                        last_error: Some("added (not checked yet)".to_owned()),
                        socks_ping_ms: None,
                        internet_ping_ms: None,
                        rtt_integrity: None,
                        ttl_min: None,
                        ttl_max: None,
                        total_bytes: 0,
                    },
                );
                self.ttl_hist.push(Vec::new());
                self.rtt_hist.push(Vec::new());
            },
        }
    }

    /// Remove a backend address and its histories; the round-robin cursor is
    /// reset when it would fall outside the shrunk list.
    pub fn remove(&mut self, addr: SockAddrV)
        requires
            backends_wf(*old(self)),
        ensures
            backends_wf(*final(self)),
            !(exists|j: int| 0 <= j < old(self).addrs@.len() && old(self).addrs@[j] == addr)
                ==> *final(self) == *old(self),
            (exists|j: int| 0 <= j < old(self).addrs@.len() && old(self).addrs@[j] == addr) ==> {
                let i = choose|i: int|
                    0 <= i < old(self).addrs@.len() && old(self).addrs@[i] == addr && forall|j: int|
                        0 <= j < i ==> old(self).addrs@[j] != addr;
                &&& final(self).addrs@ == old(self).addrs@.remove(i)
                &&& final(self).status@ == old(self).status@.remove(i)
                &&& final(self).ttl_hist@ == old(self).ttl_hist@.remove(i)
                &&& final(self).rtt_hist@ == old(self).rtt_hist@.remove(i)
                &&& final(self).rr == (if old(self).rr >= final(self).addrs@.len() {
                    0int
                } else {
                    old(self).rr as int
                })
            },
    {
        let idx = match self.position_of(addr) {
            Some(i) => i,
            None => {
                return ;
            },
        };
        self.addrs.remove(idx);
        self.status.remove(idx);
        self.ttl_hist.remove(idx);
        self.rtt_hist.remove(idx);
        if self.rr >= self.addrs.len() {
            self.rr = 0;
        }
        proof {
            let i = choose|i: int|
                0 <= i < old(self).addrs@.len() && old(self).addrs@[i] == addr && forall|j: int|
                    0 <= j < i ==> old(self).addrs@[j] != addr;
            assert(i == idx as int);
        }
    }

    /// Round-robin selection over the green backends: the cursor advances by
    /// one position in the green list and that backend is returned; `None`
    /// exactly when no backend is green.
    pub fn select_rr(&mut self) -> (r: Option<SockAddrV>)
        requires
            backends_wf(*old(self)),
        ensures
            backends_wf(*final(self)),
            final(self).addrs@ == old(self).addrs@,
            final(self).status@ == old(self).status@,
            final(self).ttl_hist@ == old(self).ttl_hist@,
            final(self).rtt_hist@ == old(self).rtt_hist@,
            ({
                let g = green_indices(old(self).status@);
                if g.len() == 0 {
                    r is None && final(self).rr == old(self).rr
                } else {
                    let slot = pick_slot(old(self).rr as int, g.len() as int, 0);
                    r == Some(old(self).addrs@[g[slot]]) && final(self).rr == slot
                }
            }),
    {
        let ghost g = green_indices(self.status@);
        proof {
            lemma_green_indices(self.status@);
        }
        let mut greens: Vec<usize> = Vec::new();
        let mut i: usize = 0;
        while i < self.status.len()
            invariant
                0 <= i <= self.status@.len(),
                greens@.map_values(|x: usize| x as int) == green_indices(self.status@.take(i as int)),
                forall|j: int| 0 <= j < greens@.len() ==> #[trigger] greens@[j] < i,
            decreases self.status.len() - i,
        {
            let ghost pre = greens@;
            if self.status[i].healthy {
                greens.push(i);
            }
            i = i + 1;
            proof {
                let t = self.status@.take(i as int);
                assert(t.drop_last() =~= self.status@.take(i as int - 1));
                assert(t.last() == self.status@[i as int - 1]);
                if self.status@[i as int - 1].healthy {
                    assert(greens@.map_values(|x: usize| x as int) =~= pre.map_values(
                        |x: usize| x as int,
                    ).push(i as int - 1));
                } else {
                    assert(greens@.map_values(|x: usize| x as int) == pre.map_values(
                        |x: usize| x as int,
                    ));
                }
            }
        }
        proof {
            assert(self.status@.take(self.status@.len() as int) =~= self.status@);
        }
        if greens.len() == 0 {
            return None;
        }
        let k = greens.len();
        let slot = (self.rr % k + 1) % k;
        proof {
            assert(greens@.map_values(|x: usize| x as int).len() == greens@.len());
            assert((self.rr as int % k as int + 1) % k as int == (self.rr as int + 1) % k as int)
                by (nonlinear_arith)
                requires
                    k as int >= 1,
            ;
            assert(greens@.map_values(|x: usize| x as int)[slot as int] == greens@[slot as int] as int);
        }
        self.rr = slot;
        let gi = greens[slot];
        Some(self.addrs[gi])
    }

    /// Record a probe round for backend `idx`: derive the tri-state health,
    /// store the readings, push the samples into the bounded histories, and
    /// refresh the integrity percentage and TTL bounds.
    pub fn update(
        &mut self,
        idx: usize,
        err: Option<String>,
        socks_ping_ms: Option<u64>,
        internet_ping_ms: Option<u64>,
        internet_ttl: Option<u32>,
    )
        requires
            backends_wf(*old(self)),
        ensures
            backends_wf(*final(self)),
            final(self).addrs@ == old(self).addrs@,
            final(self).rr == old(self).rr,
            idx >= old(self).status@.len() ==> *final(self) == *old(self),
            idx < old(self).status@.len() ==> {
                let st = final(self).status@[idx as int];
                let o = old(self).status@[idx as int];
                &&& (forall|j: int|
                    0 <= j < old(self).status@.len() && j != idx ==> final(self).status@[j] == old(self).status@[j] && final(self).rtt_hist@[j] == old(self).rtt_hist@[j] && final(self).ttl_hist@[j] == old(self).ttl_hist@[j])
                &&& st.state == spec_derive_state(socks_ping_ms, internet_ping_ms)
                &&& st.healthy == (st.state == BackendState::Green)
                &&& st.socks_ping_ms == socks_ping_ms
                &&& st.internet_ping_ms == internet_ping_ms
                &&& st.addr == o.addr
                &&& st.total_bytes == o.total_bytes
                &&& (match internet_ping_ms {
                    Some(rtt) => {
                        let h = final(self).rtt_hist@[idx as int]@;
                        h.len() <= 30 && h.len() > 0 && h.last() == rtt && st.rtt_integrity
                            == Some(spec_rtt_integrity(h) as u64)
                    },
                    None => final(self).rtt_hist@[idx as int] == old(self).rtt_hist@[idx as int]
                        && st.rtt_integrity == o.rtt_integrity,
                })
                &&& (match internet_ttl {
                    Some(t) => {
                        let h = final(self).ttl_hist@[idx as int]@;
                        h.len() <= 30 && h.len() > 0 && h.last() == t && (st.ttl_min matches Some(
                            mn,
                        ) && (forall|q: int| 0 <= q < h.len() ==> mn <= #[trigger] h[q]))
                            && (st.ttl_max matches Some(mx) && (forall|q: int|
                            0 <= q < h.len() ==> mx >= #[trigger] h[q]))
                    },
                    None => final(self).ttl_hist@[idx as int] == old(self).ttl_hist@[idx as int]
                        && st.ttl_min == o.ttl_min && st.ttl_max == o.ttl_max,
                })
            },
    {
        if idx >= self.status.len() {
            return ;
        }
        let state = derive_state(socks_ping_ms, internet_ping_ms);
        let ghost pre_status = self.status@;
        let mut st = self.status.remove(idx);
        st.state = state;
        st.healthy = match state {
            BackendState::Green => true,
            _ => false,
        };
        st.last_check = now_ts();
        st.last_error = err;
        st.socks_ping_ms = socks_ping_ms;
        st.internet_ping_ms = internet_ping_ms;
        if let Some(rtt) = internet_ping_ms {
            let ghost pre_rh = self.rtt_hist@;
            let mut h = self.rtt_hist.remove(idx);
            h.push(rtt);
            while h.len() > 30
                invariant
                    h@.len() > 0,
                    h@.last() == rtt,
                decreases h.len(),
            {
                h.remove(0);
                proof {
                    assert(h@.last() == rtt);
                }
            }
            let pct = rtt_integrity_percent(&h);
            st.rtt_integrity = Some(pct);
            self.rtt_hist.insert(idx, h);
            proof {
                assert(self.rtt_hist@ =~= pre_rh.update(idx as int, self.rtt_hist@[idx as int]));
            }
        }
        if let Some(t) = internet_ttl {
            let ghost pre_th = self.ttl_hist@;
            let mut h = self.ttl_hist.remove(idx);
            h.push(t);
            while h.len() > 30
                invariant
                    h@.len() > 0,
                    h@.last() == t,
                decreases h.len(),
            {
                h.remove(0);
                proof {
                    assert(h@.last() == t);
                }
            }
            let mut min_t: u32 = t;
            let mut max_t: u32 = t;
            let mut q: usize = 0;
            while q < h.len()
                invariant
                    0 <= q <= h@.len(),
                    forall|p: int| 0 <= p < q ==> min_t <= #[trigger] h@[p],
                    forall|p: int| 0 <= p < q ==> max_t >= #[trigger] h@[p],
                    min_t <= t && max_t >= t,
                decreases h.len() - q,
            {
                let v = h[q];
                if v < min_t {
                    min_t = v;
                }
                if v > max_t {
                    max_t = v;
                }
                q = q + 1;
            }
            st.ttl_min = Some(min_t);
            st.ttl_max = Some(max_t);
            self.ttl_hist.insert(idx, h);
            proof {
                assert(self.ttl_hist@ =~= pre_th.update(idx as int, self.ttl_hist@[idx as int]));
            }
        }
        self.status.insert(idx, st);
        proof {
            assert(self.status@ =~= pre_status.update(idx as int, self.status@[idx as int]));
        }
    }

    /// Attribute `n` proxied bytes to the backend with this address
    /// (saturating).
    pub fn add_bytes(&mut self, addr: SockAddrV, n: u64)
        requires
            backends_wf(*old(self)),
        ensures
            backends_wf(*final(self)),
            final(self).addrs@ == old(self).addrs@,
            final(self).rr == old(self).rr,
            final(self).ttl_hist@ == old(self).ttl_hist@,
            final(self).rtt_hist@ == old(self).rtt_hist@,
            final(self).status@.len() == old(self).status@.len(),
            forall|j: int|
                0 <= j < old(self).status@.len() && old(self).addrs@[j] != addr ==> final(self).status@[j] == old(self).status@[j],
            (exists|j: int| 0 <= j < old(self).addrs@.len() && old(self).addrs@[j] == addr) ==> {
                let i = choose|i: int|
                    0 <= i < old(self).addrs@.len() && old(self).addrs@[i] == addr && forall|j: int|
                        0 <= j < i ==> old(self).addrs@[j] != addr;
                let st = final(self).status@[i];
                let o = old(self).status@[i];
                &&& (o.total_bytes + n <= u64::MAX ==> st.total_bytes == o.total_bytes + n)
                &&& (o.total_bytes + n > u64::MAX ==> st.total_bytes == u64::MAX)
                &&& st.addr == o.addr && st.state == o.state && st.healthy == o.healthy
                &&& st.last_check == o.last_check && st.last_error == o.last_error
                &&& st.socks_ping_ms == o.socks_ping_ms && st.internet_ping_ms
                    == o.internet_ping_ms
                &&& st.rtt_integrity == o.rtt_integrity && st.ttl_min == o.ttl_min && st.ttl_max
                    == o.ttl_max
            },
    {
        let idx = match self.position_of(addr) {
            Some(i) => i,
            None => {
                return ;
            },
        };
        let ghost pre = self.status@;
        let mut st = self.status.remove(idx);
        st.total_bytes = st.total_bytes.saturating_add(n);
        self.status.insert(idx, st);
        proof {
            assert(self.status@ =~= pre.update(idx as int, self.status@[idx as int]));
            let i = choose|i: int|
                0 <= i < self.addrs@.len() && self.addrs@[i] == addr && forall|j: int|
                    0 <= j < i ==> self.addrs@[j] != addr;
            assert(i == idx as int);
        }
    }
}

} // verus!
