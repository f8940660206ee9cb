//! The connection registry: every accepted connection's live metadata and
//! its cancellation handle, from accept until both copy halves finish.
//!
//! The real cancellation signal is a `tokio_util` token; the registry keeps
//! beside it a `cancelled` flag that records, visibly to the verifier, that
//! cancellation was requested on that token.
use vstd::prelude::*;
use vstd::string::StringSliceAdditionalSpecFns;

use crate::stats::Ingress;

verus! {

#[verifier::external_type_specification]
#[verifier::external_body]
pub struct ExCancellationToken(tokio_util::sync::CancellationToken);

/// Relies on `tokio_util::sync::CancellationToken::new`: a fresh,
/// uncancelled token.
#[verifier::external_body]
fn token_new() -> tokio_util::sync::CancellationToken {
    tokio_util::sync::CancellationToken::new()
}

/// Relies on `CancellationToken::clone`: the clone observes and delivers the
/// same cancellation as the original.
#[verifier::external_body]
fn token_clone(t: &tokio_util::sync::CancellationToken) -> tokio_util::sync::CancellationToken {
    t.clone()
}

/// Relies on `CancellationToken::cancel`: wakes every holder of this token.
#[verifier::external_body]
fn token_cancel(t: &tokio_util::sync::CancellationToken) {
    t.cancel()
}

pub assume_specification<T>[ rand::random::<T> ]() -> (r: T)
    where
        rand::distributions::Standard: rand::distributions::Distribution<T>,
;

/// Transport mode of an established connection.
#[derive(Clone, Copy, Debug, PartialEq, Eq, Structural)]
pub enum ConnMode {
    Socks,
    Direct,
}

impl ConnMode {
    /// The wire-format label of the mode.
    pub fn as_str(self) -> (r: &'static str)
        ensures
            self is Socks ==> r@ == "socks"@,
            self is Direct ==> r@ == "direct"@,
    {
        match self {
            ConnMode::Socks => "socks",
            ConnMode::Direct => "direct",
        }
    }
}

/// Live metadata of one connection.
pub struct ConnInfo {
    pub cid: u64,
    pub peer: String,
    pub ingress: Ingress,
    pub domain: Option<String>,
    pub dst_ip: Option<String>,
    pub target: Option<String>,
    pub mode: Option<ConnMode>,
    pub backend: Option<String>,
    pub started_ts: u64,
    pub bytes_up: u64,
    pub bytes_down: u64,
}

fn clone_opt_string(s: &Option<String>) -> (r: Option<String>)
    ensures
        r == *s,
{
    match s {
        Some(x) => Some(x.clone()),
        None => None,
    }
}

impl ConnInfo {
    /// A field-for-field copy.
    pub fn duplicate(&self) -> (r: ConnInfo)
        ensures
            r == *self,
    {
        ConnInfo {
            cid: self.cid,
            peer: self.peer.clone(),
            ingress: self.ingress,
            domain: clone_opt_string(&self.domain),
            dst_ip: clone_opt_string(&self.dst_ip),
            target: clone_opt_string(&self.target),
            mode: self.mode,
            backend: clone_opt_string(&self.backend),
            started_ts: self.started_ts,
            bytes_up: self.bytes_up,
            bytes_down: self.bytes_down,
        }
    }
}

/// One registry slot: the metadata, the cancellation token handed to the
/// copy halves, and whether cancellation has been requested on it.
pub struct ConnEntry {
    pub info: ConnInfo,
    pub cancelled: bool,
    pub token: tokio_util::sync::CancellationToken,
}

pub struct ConnRegistry {
    pub entries: Vec<ConnEntry>,
}

/// Some entry carries this connection id.
pub open spec fn has_cid(entries: Seq<ConnEntry>, cid: u64) -> bool {
    exists|i: int| 0 <= i < entries.len() && entries[i].info.cid == cid
}

/// Index of the first entry with this connection id.
pub open spec fn idx_of(entries: Seq<ConnEntry>, cid: u64) -> int
    decreases entries.len(),
{
    if entries.len() == 0 {
        0
    } else if entries[0].info.cid == cid {
        0
    } else {
        1 + idx_of(entries.skip(1), cid)
    }
}

pub proof fn lemma_idx_of(entries: Seq<ConnEntry>, cid: u64)
    ensures
        0 <= idx_of(entries, cid) <= entries.len(),
        idx_of(entries, cid) < entries.len() ==> entries[idx_of(entries, cid)].info.cid == cid,
        forall|j: int| 0 <= j < idx_of(entries, cid) ==> entries[j].info.cid != cid,
        (idx_of(entries, cid) == entries.len()) == !has_cid(entries, cid),
    decreases entries.len(),
{
    if entries.len() > 0 && entries[0].info.cid != cid {
        lemma_idx_of(entries.skip(1), cid);
        assert forall|j: int| 0 <= j < idx_of(entries, cid) implies entries[j].info.cid != cid by {
            if j > 0 {
                assert(entries.skip(1)[j - 1] == entries[j]);
            }
        }
        if idx_of(entries, cid) < entries.len() {
            assert(entries.skip(1)[idx_of(entries, cid) - 1] == entries[idx_of(entries, cid)]);
        }
        if idx_of(entries, cid) == entries.len() {
            assert forall|i: int| 0 <= i < entries.len() implies entries[i].info.cid != cid by {
                if i > 0 {
                    assert(entries.skip(1)[i - 1] == entries[i]);
                }
            }
        } else {
            assert(has_cid(entries, cid));
        }
    } else if entries.len() > 0 {
        assert(has_cid(entries, cid));
    }
}

/// How many entries have the given mode set.
pub open spec fn count_mode(entries: Seq<ConnEntry>, mode: ConnMode) -> int
    decreases entries.len(),
{
    if entries.len() == 0 {
        0
    } else {
        (if entries.last().info.mode == Some(mode) {
            1int
        } else {
            0int
        }) + count_mode(entries.drop_last(), mode)
    }
}

/// A SOCKS connection that has moved no bytes in either direction and is at
/// least `older_than_secs` old at instant `now`.
pub open spec fn is_stuck(info: ConnInfo, now: u64, older_than_secs: u64) -> bool {
    &&& info.mode == Some(ConnMode::Socks)
    &&& info.bytes_up == 0
    &&& info.bytes_down == 0
    &&& (if now >= info.started_ts {
        now - info.started_ts
    } else {
        0
    }) >= older_than_secs
}

/// How many entries are stuck.
pub open spec fn count_stuck(entries: Seq<ConnEntry>, now: u64, older_than_secs: u64) -> int
    decreases entries.len(),
{
    if entries.len() == 0 {
        0
    } else {
        (if is_stuck(entries.last().info, now, older_than_secs) {
            1int
        } else {
            0int
        }) + count_stuck(entries.drop_last(), now, older_than_secs)
    }
}

/// A just-registered entry: identified, attributed to its listener, with
/// nothing decided and nothing transferred yet.
pub open spec fn fresh_entry(e: ConnEntry, cid: u64, peer: Seq<char>, ingress: Ingress) -> bool {
    &&& e.info.cid == cid
    &&& e.info.peer@ == peer
    &&& e.info.ingress == ingress
    &&& e.info.domain is None
    &&& e.info.dst_ip is None
    &&& e.info.target is None
    &&& e.info.mode is None
    &&& e.info.backend is None
    &&& e.info.bytes_up == 0
    &&& e.info.bytes_down == 0
    &&& !e.cancelled
}

impl ConnRegistry {
    /// An empty registry.
    pub fn new() -> (r: ConnRegistry)
        ensures
            r.entries@.len() == 0,
    {
        ConnRegistry { entries: Vec::new() }
    }

    /// Number of active connections.
    pub fn len(&self) -> (r: usize)
        ensures
            r == self.entries@.len(),
    {
        self.entries.len()
    }

    fn contains_cid(&self, cid: u64) -> (r: bool)
        ensures
            r == has_cid(self.entries@, cid),
    {
        let mut i: usize = 0;
        while i < self.entries.len()
            invariant
                0 <= i <= self.entries@.len(),
                forall|j: int| 0 <= j < i ==> self.entries@[j].info.cid != cid,
            decreases self.entries.len() - i,
        {
            if self.entries[i].info.cid == cid {
                return true;
            }
            i = i + 1;
        }
        false
    }

    fn find(&self, cid: u64) -> (r: Option<usize>)
        ensures
            match r {
                Some(i) => i == idx_of(self.entries@, cid) && i < self.entries@.len()
                    && self.entries@[i as int].info.cid == cid,
                None => !has_cid(self.entries@, cid),
            },
    {
        proof {
            lemma_idx_of(self.entries@, cid);
        }
        let mut i: usize = 0;
        while i < self.entries.len()
            invariant
                0 <= i <= self.entries@.len(),
                forall|j: int| 0 <= j < i ==> self.entries@[j].info.cid != cid,
            decreases self.entries.len() - i,
        {
            if self.entries[i].info.cid == cid {
                proof {
                    lemma_idx_of(self.entries@, cid);
                }
                return Some(i);
            }
            i = i + 1;
        }
        None
    }

    /// Register a fresh connection under a random connection id.  The new
    /// entry starts with no domain, target, mode or traffic, and an
    /// uncancelled token; a colliding id replaces the old entry, as a map
    /// insertion would.
    pub fn new_conn(&mut self, peer: String, ingress: Ingress) -> (r: u64)
        ensures
            !has_cid(old(self).entries@, r) ==> {
                &&& final(self).entries@.len() == old(self).entries@.len() + 1
                &&& (forall|j: int|
                    0 <= j < old(self).entries@.len() ==> final(self).entries@[j] == old(self).entries@[j])
                &&& fresh_entry(final(self).entries@.last(), r, peer@, ingress)
            },
            has_cid(old(self).entries@, r) ==> {
                &&& final(self).entries@.len() == old(self).entries@.len()
                &&& (forall|j: int|
                    0 <= j < old(self).entries@.len() && j != idx_of(old(self).entries@, r)
                        ==> final(self).entries@[j] == old(self).entries@[j])
                &&& fresh_entry(final(self).entries@[idx_of(old(self).entries@, r)], r, peer@, ingress)
            },
    {
        let cid: u64 = rand::random::<u64>();
        let entry = ConnEntry {
            info: ConnInfo {
                cid,
                peer,
                ingress,
                domain: None,
                dst_ip: None,
                target: None,
                mode: None,
                backend: None,
                started_ts: crate::stats::now_ts(),
                bytes_up: 0,
                bytes_down: 0,
            },
            cancelled: false,
            token: token_new(),
        };
        match self.find(cid) {
            Some(idx) => {
                let ghost pre = self.entries@;
                self.entries.remove(idx);
                self.entries.insert(idx, entry);
                proof {
                    assert(self.entries@ =~= pre.update(idx as int, self.entries@[idx as int]));
                }
            },
            None => {
                self.entries.push(entry);
            },
        }
        cid
    }

    /// Install a fresh cancellation token for the connection and hand a
    /// clone of it out; the entry is no longer marked cancelled.
    pub fn set_cancel_token(&mut self, cid: u64) -> (r: Option<
        tokio_util::sync::CancellationToken,
    >)
        ensures
            final(self).entries@.len() == old(self).entries@.len(),
            forall|j: int|
                0 <= j < old(self).entries@.len() ==> final(self).entries@[j].info == old(self).entries@[j].info,
            (r is Some) == has_cid(old(self).entries@, cid),
            forall|j: int|
                0 <= j < old(self).entries@.len() && j != idx_of(old(self).entries@, cid) ==> final(self).entries@[j] == old(self).entries@[j],
            has_cid(old(self).entries@, cid) ==> !final(self).entries@[idx_of(
                old(self).entries@,
                cid,
            )].cancelled,
    {
        let idx = match self.find(cid) {
            Some(i) => i,
            None => {
                return None;
            },
        };
        let ghost pre = self.entries@;
        let mut e = self.entries.remove(idx);
        let fresh = token_new();
        let out = token_clone(&fresh);
        e.token = fresh;
        e.cancelled = false;
        self.entries.insert(idx, e);
        proof {
            assert(self.entries@ =~= pre.update(idx as int, self.entries@[idx as int]));
        }
        Some(out)
    }

    /// Request cancellation of one connection; reports whether it exists.
    pub fn kill(&mut self, cid: u64) -> (r: bool)
        ensures
            r == has_cid(old(self).entries@, cid),
            final(self).entries@.len() == old(self).entries@.len(),
            forall|j: int|
                0 <= j < old(self).entries@.len() ==> final(self).entries@[j].info == old(self).entries@[j].info,
            forall|j: int|
                0 <= j < old(self).entries@.len() && j != idx_of(old(self).entries@, cid) ==> final(self).entries@[j] == old(self).entries@[j],
            has_cid(old(self).entries@, cid) ==> final(self).entries@[idx_of(
                old(self).entries@,
                cid,
            )].cancelled,
    {
        let idx = match self.find(cid) {
            Some(i) => i,
            None => {
                return false;
            },
        };
        let ghost pre = self.entries@;
        let mut e = self.entries.remove(idx);
        token_cancel(&e.token);
        e.cancelled = true;
        self.entries.insert(idx, e);
        proof {
            assert(self.entries@ =~= pre.update(idx as int, self.entries@[idx as int]));
        }
        true
    }

    /// Record the target string and the chosen transport mode.
    pub fn set_target(&mut self, cid: u64, target: &str, mode: ConnMode)
        ensures
            final(self).entries@.len() == old(self).entries@.len(),
            forall|j: int|
                0 <= j < old(self).entries@.len() && j != idx_of(old(self).entries@, cid) ==> final(self).entries@[j] == old(self).entries@[j],
            has_cid(old(self).entries@, cid) ==> ({
                let i = idx_of(old(self).entries@, cid);
                let e = final(self).entries@[i];
                let o = old(self).entries@[i];
                e.info.target matches Some(t) && t@ == target@ && e.info.mode == Some(mode)
                    && e.info.cid == o.info.cid && e.info.peer == o.info.peer && e.info.ingress
                    == o.info.ingress && e.info.domain == o.info.domain && e.info.dst_ip
                    == o.info.dst_ip && e.info.backend == o.info.backend && e.info.started_ts
                    == o.info.started_ts && e.info.bytes_up == o.info.bytes_up && e.info.bytes_down
                    == o.info.bytes_down && e.cancelled == o.cancelled
            }),
    {
        let idx = match self.find(cid) {
            Some(i) => i,
            None => {
                return ;
            },
        };
        let ghost pre = self.entries@;
        let mut e = self.entries.remove(idx);
        e.info.target = Some(target.to_owned());
        e.info.mode = Some(mode);
        self.entries.insert(idx, e);
        proof {
            assert(self.entries@ =~= pre.update(idx as int, self.entries@[idx as int]));
        }
    }

    /// Record the sniffed domain; an empty or absent domain changes nothing.
    pub fn set_domain(&mut self, cid: u64, domain: Option<String>)
        ensures
            final(self).entries@.len() == old(self).entries@.len(),
            forall|j: int|
                0 <= j < old(self).entries@.len() && j != idx_of(old(self).entries@, cid) ==> final(self).entries@[j] == old(self).entries@[j],
            has_cid(old(self).entries@, cid) ==> ({
                let i = idx_of(old(self).entries@, cid);
                let e = final(self).entries@[i];
                let o = old(self).entries@[i];
                (match domain {
                    Some(d) => if d@.len() > 0 {
                        e.info.domain == Some(d)
                    } else {
                        e.info.domain == o.info.domain
                    },
                    None => e.info.domain == o.info.domain,
                }) && e.info.cid == o.info.cid && e.info.peer == o.info.peer && e.info.ingress
                    == o.info.ingress && e.info.target == o.info.target && e.info.mode
                    == o.info.mode && e.info.dst_ip == o.info.dst_ip && e.info.backend
                    == o.info.backend && e.info.started_ts == o.info.started_ts && e.info.bytes_up
                    == o.info.bytes_up && e.info.bytes_down == o.info.bytes_down && e.cancelled
                    == o.cancelled
            }),
    {
        let idx = match self.find(cid) {
            Some(i) => i,
            None => {
                return ;
            },
        };
        let set_it = match &domain {
            Some(d) => !d.as_str().is_empty(),
            None => false,
        };
        if set_it {
            let ghost pre = self.entries@;
            let mut e = self.entries.remove(idx);
            e.info.domain = domain;
            self.entries.insert(idx, e);
            proof {
                assert(self.entries@ =~= pre.update(idx as int, self.entries@[idx as int]));
            }
        }
    }

    /// Record the best-effort destination IP.
    pub fn set_dst_ip(&mut self, cid: u64, dst_ip: Option<String>)
        ensures
            final(self).entries@.len() == old(self).entries@.len(),
            forall|j: int|
                0 <= j < old(self).entries@.len() && j != idx_of(old(self).entries@, cid) ==> final(self).entries@[j] == old(self).entries@[j],
            has_cid(old(self).entries@, cid) ==> ({
                let i = idx_of(old(self).entries@, cid);
                let e = final(self).entries@[i];
                let o = old(self).entries@[i];
                e.info.dst_ip == dst_ip && e.info.cid == o.info.cid && e.info.peer == o.info.peer
                    && e.info.ingress == o.info.ingress && e.info.target == o.info.target
                    && e.info.mode == o.info.mode && e.info.domain == o.info.domain
                    && e.info.backend == o.info.backend && e.info.started_ts == o.info.started_ts
                    && e.info.bytes_up == o.info.bytes_up && e.info.bytes_down == o.info.bytes_down
                    && e.cancelled == o.cancelled
            }),
    {
        let idx = match self.find(cid) {
            Some(i) => i,
            None => {
                return ;
            },
        };
        let ghost pre = self.entries@;
        let mut e = self.entries.remove(idx);
        e.info.dst_ip = dst_ip;
        self.entries.insert(idx, e);
        proof {
            assert(self.entries@ =~= pre.update(idx as int, self.entries@[idx as int]));
        }
    }

    /// Record the chosen SOCKS backend address.
    pub fn set_backend(&mut self, cid: u64, backend: Option<String>)
        ensures
            final(self).entries@.len() == old(self).entries@.len(),
            forall|j: int|
                0 <= j < old(self).entries@.len() && j != idx_of(old(self).entries@, cid) ==> final(self).entries@[j] == old(self).entries@[j],
            has_cid(old(self).entries@, cid) ==> ({
                let i = idx_of(old(self).entries@, cid);
                let e = final(self).entries@[i];
                let o = old(self).entries@[i];
                e.info.backend == backend && e.info.cid == o.info.cid && e.info.peer == o.info.peer
                    && e.info.ingress == o.info.ingress && e.info.target == o.info.target
                    && e.info.mode == o.info.mode && e.info.domain == o.info.domain
                    && e.info.dst_ip == o.info.dst_ip && e.info.started_ts == o.info.started_ts
                    && e.info.bytes_up == o.info.bytes_up && e.info.bytes_down == o.info.bytes_down
                    && e.cancelled == o.cancelled
            }),
    {
        let idx = match self.find(cid) {
            Some(i) => i,
            None => {
                return ;
            },
        };
        let ghost pre = self.entries@;
        let mut e = self.entries.remove(idx);
        e.info.backend = backend;
        self.entries.insert(idx, e);
        proof {
            assert(self.entries@ =~= pre.update(idx as int, self.entries@[idx as int]));
        }
    }

    /// Add `n` upload bytes to the connection's counter (saturating).
    pub fn add_bytes_up(&mut self, cid: u64, n: u64)
        ensures
            final(self).entries@.len() == old(self).entries@.len(),
            forall|j: int|
                0 <= j < old(self).entries@.len() && j != idx_of(old(self).entries@, cid) ==> final(self).entries@[j] == old(self).entries@[j],
            has_cid(old(self).entries@, cid) ==> ({
                let i = idx_of(old(self).entries@, cid);
                let e = final(self).entries@[i];
                let o = old(self).entries@[i];
                (o.info.bytes_up + n <= u64::MAX ==> e.info.bytes_up == o.info.bytes_up + n)
                    && (o.info.bytes_up + n > u64::MAX ==> e.info.bytes_up == u64::MAX)
                    && e.info.cid == o.info.cid && e.info.peer == o.info.peer && e.info.ingress
                    == o.info.ingress && e.info.target == o.info.target && e.info.mode
                    == o.info.mode && e.info.domain == o.info.domain && e.info.dst_ip
                    == o.info.dst_ip && e.info.backend == o.info.backend && e.info.started_ts
                    == o.info.started_ts && e.info.bytes_down == o.info.bytes_down && e.cancelled
                    == o.cancelled
            }),
    {
        let idx = match self.find(cid) {
            Some(i) => i,
            None => {
                return ;
            },
        };
        let ghost pre = self.entries@;
        let mut e = self.entries.remove(idx);
        e.info.bytes_up = e.info.bytes_up.saturating_add(n);
        self.entries.insert(idx, e);
        proof {
            assert(self.entries@ =~= pre.update(idx as int, self.entries@[idx as int]));
        }
    }

    /// Add `n` download bytes to the connection's counter (saturating).
    pub fn add_bytes_down(&mut self, cid: u64, n: u64)
        ensures
            final(self).entries@.len() == old(self).entries@.len(),
            forall|j: int|
                0 <= j < old(self).entries@.len() && j != idx_of(old(self).entries@, cid) ==> final(self).entries@[j] == old(self).entries@[j],
            has_cid(old(self).entries@, cid) ==> ({
                let i = idx_of(old(self).entries@, cid);
                let e = final(self).entries@[i];
                let o = old(self).entries@[i];
                (o.info.bytes_down + n <= u64::MAX ==> e.info.bytes_down == o.info.bytes_down + n)
                    && (o.info.bytes_down + n > u64::MAX ==> e.info.bytes_down == u64::MAX)
                    && e.info.cid == o.info.cid && e.info.peer == o.info.peer && e.info.ingress
                    == o.info.ingress && e.info.target == o.info.target && e.info.mode
                    == o.info.mode && e.info.domain == o.info.domain && e.info.dst_ip
                    == o.info.dst_ip && e.info.backend == o.info.backend && e.info.started_ts
                    == o.info.started_ts && e.info.bytes_up == o.info.bytes_up && e.cancelled
                    == o.cancelled
            }),
    {
        let idx = match self.find(cid) {
            Some(i) => i,
            None => {
                return ;
            },
        };
        let ghost pre = self.entries@;
        let mut e = self.entries.remove(idx);
        e.info.bytes_down = e.info.bytes_down.saturating_add(n);
        self.entries.insert(idx, e);
        proof {
            assert(self.entries@ =~= pre.update(idx as int, self.entries@[idx as int]));
        }
    }

    /// Request cancellation of every connection in the given mode; returns
    /// how many connections are in that mode.
    pub fn kill_mode(&mut self, mode: ConnMode) -> (r: usize)
        ensures
            final(self).entries@.len() == old(self).entries@.len(),
            forall|j: int|
                0 <= j < old(self).entries@.len() ==> final(self).entries@[j].info == old(self).entries@[j].info,
            forall|j: int|
                0 <= j < old(self).entries@.len() ==> final(self).entries@[j].cancelled == (old(self).entries@[j].cancelled || old(self).entries@[j].info.mode == Some(mode)),
            r == count_mode(old(self).entries@, mode),
    {
        let mut i: usize = 0;
        let mut n: usize = 0;
        let ghost orig = self.entries@;
        while i < self.entries.len()
            invariant
                orig == old(self).entries@,
                0 <= i <= orig.len(),
                self.entries@.len() == orig.len(),
                n <= i,
                forall|j: int| 0 <= j < orig.len() ==> self.entries@[j].info == orig[j].info,
                forall|j: int|
                    0 <= j < i ==> self.entries@[j].cancelled == (orig[j].cancelled
                        || orig[j].info.mode == Some(mode)),
                forall|j: int| i <= j < orig.len() ==> self.entries@[j] == orig[j],
                n == count_mode(orig.take(i as int), mode),
            decreases self.entries.len() - i,
        {
            let matches_mode = match (self.entries[i].info.mode, mode) {
                (Some(ConnMode::Socks), ConnMode::Socks) => true,
                (Some(ConnMode::Direct), ConnMode::Direct) => true,
                _ => false,
            };
            let ghost pre = self.entries@;
            if matches_mode {
                let mut e = self.entries.remove(i);
                token_cancel(&e.token);
                e.cancelled = true;
                self.entries.insert(i, e);
                n = n + 1;
                proof {
                    assert(self.entries@ =~= pre.update(i as int, self.entries@[i as int]));
                }
            }
            i = i + 1;
            proof {
                let t = orig.take(i as int);
                assert(t.drop_last() =~= orig.take(i as int - 1));
                assert(t.last() == orig[i as int - 1]);
            }
        }
        proof {
            assert(orig.take(orig.len() as int) =~= orig);
        }
        n
    }

    /// Request cancellation of every stuck SOCKS connection (no traffic yet,
    /// older than the threshold at instant `now`); returns how many are
    /// stuck.
    pub fn kill_stuck_socks_zero_traffic(&mut self, older_than_secs: u64, now: u64) -> (r: usize)
        ensures
            final(self).entries@.len() == old(self).entries@.len(),
            forall|j: int|
                0 <= j < old(self).entries@.len() ==> final(self).entries@[j].info == old(self).entries@[j].info,
            forall|j: int|
                0 <= j < old(self).entries@.len() ==> final(self).entries@[j].cancelled == (old(self).entries@[j].cancelled || is_stuck(
                    old(self).entries@[j].info,
                    now,
                    older_than_secs,
                )),
            r == count_stuck(old(self).entries@, now, older_than_secs),
    {
        let mut i: usize = 0;
        let mut n: usize = 0;
        let ghost orig = self.entries@;
        while i < self.entries.len()
            invariant
                orig == old(self).entries@,
                0 <= i <= orig.len(),
                self.entries@.len() == orig.len(),
                n <= i,
                forall|j: int| 0 <= j < orig.len() ==> self.entries@[j].info == orig[j].info,
                forall|j: int|
                    0 <= j < i ==> self.entries@[j].cancelled == (orig[j].cancelled || is_stuck(
                        orig[j].info,
                        now,
                        older_than_secs,
                    )),
                forall|j: int| i <= j < orig.len() ==> self.entries@[j] == orig[j],
                n == count_stuck(orig.take(i as int), now, older_than_secs),
            decreases self.entries.len() - i,
        {
            let e_ref = &self.entries[i];
            let is_socks = match e_ref.info.mode {
                Some(ConnMode::Socks) => true,
                _ => false,
            };
            let age = if now >= e_ref.info.started_ts {
                now - e_ref.info.started_ts
            } else {
                0
            };
            let stuck = is_socks && e_ref.info.bytes_up == 0 && e_ref.info.bytes_down == 0 && age
                >= older_than_secs;
            let ghost pre = self.entries@;
            if stuck {
                let mut e = self.entries.remove(i);
                token_cancel(&e.token);
                e.cancelled = true;
                self.entries.insert(i, e);
                n = n + 1;
                proof {
                    assert(self.entries@ =~= pre.update(i as int, self.entries@[i as int]));
                }
            }
            i = i + 1;
            proof {
                let t = orig.take(i as int);
                assert(t.drop_last() =~= orig.take(i as int - 1));
                assert(t.last() == orig[i as int - 1]);
            }
        }
        proof {
            assert(orig.take(orig.len() as int) =~= orig);
        }
        n
    }

    /// Remove a finished connection from the registry.
    pub fn finish_conn(&mut self, cid: u64)
        ensures
            has_cid(old(self).entries@, cid) ==> final(self).entries@ == old(self).entries@.remove(
                idx_of(old(self).entries@, cid),
            ),
            !has_cid(old(self).entries@, cid) ==> final(self).entries@ == old(self).entries@,
    {
        let idx = match self.find(cid) {
            Some(i) => i,
            None => {
                return ;
            },
        };
        self.entries.remove(idx);
    }

    /// A copy of every connection's metadata.
    pub fn list(&self) -> (r: Vec<ConnInfo>)
        ensures
            r@.len() == self.entries@.len(),
            forall|j: int| 0 <= j < r@.len() ==> r@[j] == self.entries@[j].info,
    {
        let mut out: Vec<ConnInfo> = Vec::new();
        let mut i: usize = 0;
        while i < self.entries.len()
            invariant
                0 <= i <= self.entries@.len(),
                out@.len() == i,
                forall|j: int| 0 <= j < i ==> out@[j] == self.entries@[j].info,
            decreases self.entries.len() - i,
        {
            out.push(self.entries[i].info.duplicate());
            i = i + 1;
        }
        out
    }
}

pub open spec fn is_hex_digit_byte(b: u8) -> bool {
    (48 <= b && b <= 57) || (97 <= b && b <= 102) || (65 <= b && b <= 70)
}

pub open spec fn hex_digit_val(b: u8) -> int {
    if 48 <= b && b <= 57 {
        b - 48
    } else if 97 <= b && b <= 102 {
        b - 87
    } else {
        b - 55
    }
}

pub open spec fn all_hex_digits(s: Seq<u8>) -> bool {
    forall|i: int| 0 <= i < s.len() ==> is_hex_digit_byte(s[i])
}

/// Value of a hexadecimal digit sequence (most significant first).
pub open spec fn hex_value(s: Seq<u8>) -> int
    decreases s.len(),
{
    if s.len() == 0 {
        0
    } else {
        hex_value(s.take(s.len() - 1)) * 16 + hex_digit_val(s[s.len() - 1])
    }
}

/// The digits of a hexadecimal literal after an optional leading `+`, as
/// std's radix parsing accepts.
pub open spec fn hex_digits_of(s: Seq<u8>) -> Seq<u8> {
    if s.len() >= 2 && s[0] == 43 {
        s.skip(1)
    } else {
        s
    }
}

pub open spec fn parses_as_hex_u64(s: Seq<u8>) -> bool {
    let d = hex_digits_of(s);
    d.len() > 0 && all_hex_digits(d) && hex_value(d) <= u64::MAX
}

/// What an administrative connection id string names: after trimming, a
/// `0x`-prefixed hexadecimal number or a decimal number.
pub open spec fn spec_parse_cid(s: Seq<u8>) -> Option<u64> {
    let t = crate::bytesutil::trim_spec(s);
    if t.len() == 0 {
        None
    } else if crate::bytesutil::starts_with_spec(t, "0x".spec_bytes()) {
        let h = t.skip(2);
        if parses_as_hex_u64(h) {
            Some(hex_value(hex_digits_of(h)) as u64)
        } else {
            None
        }
    } else {
        if crate::bytesutil::parses_as_u64(t) {
            Some(
                crate::bytesutil::dec_value(crate::bytesutil::unsigned_digits(t)) as u64,
            )
        } else {
            None
        }
    }
}

proof fn lemma_hex_value_nonneg(s: Seq<u8>)
    requires
        all_hex_digits(s),
    ensures
        hex_value(s) >= 0,
    decreases s.len(),
{
    if s.len() > 0 {
        let t = s.take(s.len() - 1);
        assert(all_hex_digits(t)) by {
            assert(forall|i: int| 0 <= i < t.len() ==> t[i] == s[i]);
        }
        lemma_hex_value_nonneg(t);
    }
}

proof fn lemma_hex_prefix_le(s: Seq<u8>, k: int)
    requires
        0 <= k <= s.len(),
        all_hex_digits(s),
    ensures
        hex_value(s.take(k)) <= hex_value(s),
    decreases s.len() - k,
{
    if k < s.len() {
        lemma_hex_prefix_le(s, k + 1);
        assert(s.take(k + 1).take(k) =~= s.take(k));
        assert(s.take(k + 1)[k] == s[k]);
        let t = s.take(k);
        assert(all_hex_digits(t)) by {
            assert(forall|i: int| 0 <= i < t.len() ==> t[i] == s[i]);
        }
        lemma_hex_value_nonneg(t);
        assert(hex_value(s.take(k + 1)) == hex_value(s.take(k)) * 16 + hex_digit_val(s[k]));
    } else {
        assert(s.take(k) =~= s);
    }
}

fn parse_hex_u64(digits: &[u8]) -> (r: Option<u64>)
    ensures
        match r {
            Some(v) => parses_as_hex_u64(digits@) && v == hex_value(hex_digits_of(digits@)),
            None => !parses_as_hex_u64(digits@),
        },
{
    let d: &[u8] = if digits.len() >= 2 && digits[0] == 43 {
        &digits[1..digits.len()]
    } else {
        digits
    };
    proof {
        assert(d@ == hex_digits_of(digits@));
    }
    if d.len() == 0 {
        return None;
    }
    let mut acc: u64 = 0;
    let mut i: usize = 0;
    while i < d.len()
        invariant
            0 <= i <= d@.len(),
            d@.len() > 0,
            d@ == hex_digits_of(digits@),
            all_hex_digits(d@.take(i as int)),
            acc == hex_value(d@.take(i as int)),
        decreases d.len() - i,
    {
        let b = d[i];
        let hv: u64 = if 48 <= b && b <= 57 {
            (b - 48) as u64
        } else if 97 <= b && b <= 102 {
            (b - 87) as u64
        } else if 65 <= b && b <= 70 {
            (b - 55) as u64
        } else {
            proof {
                assert(!is_hex_digit_byte(d@[i as int]));
            }
            return None;
        };
        proof {
            lemma_hex_value_nonneg(d@.take(i as int));
        }
        if acc > (u64::MAX - hv) / 16 {
            proof {
                if all_hex_digits(d@) {
                    lemma_hex_prefix_le(d@, i as int + 1);
                    assert(d@.take(i as int + 1).take(i as int) =~= d@.take(i as int));
                    assert(d@.take(i as int + 1)[i as int] == d@[i as int]);
                    assert(hex_value(d@.take(i as int + 1)) == acc * 16 + hv);
                }
            }
            return None;
        }
        acc = acc * 16 + hv;
        i = i + 1;
        proof {
            assert(d@.take(i as int).take(i as int - 1) =~= d@.take(i as int - 1));
            assert(d@.take(i as int)[i - 1] == d@[i as int - 1]);
        }
    }
    proof {
        assert(d@.take(d@.len() as int) =~= d@);
    }
    Some(acc)
}

/// Parse an administrative connection id, decimal or `0x`-prefixed
/// hexadecimal.
pub fn parse_cid(s: &str) -> (r: Option<u64>)
    ensures
        r == spec_parse_cid(s.spec_bytes()),
{
    let t = crate::bytesutil::trim_bytes(s.as_bytes());
    if t.len() == 0 {
        return None;
    }
    if crate::bytesutil::starts_with(t, "0x".as_bytes()) {
        proof {
            assert("0x".spec_bytes().len() == 2) by {
                reveal_strlit("0x");
                vstd::utf8::is_ascii_chars_encode_utf8("0x"@);
            }
        }
        parse_hex_u64(&t[2..t.len()])
    } else {
        proof {
            assert(!crate::bytesutil::starts_with_spec(t@, "0x".spec_bytes()));
        }
        crate::bytesutil::parse_u64_bytes(t)
    }
}

/// Registry invariant: a registered connection either has no transport mode
/// yet, or exactly one of the two modes, never both.
pub proof fn lemma_registry_mode_invariant(r: ConnRegistry)
    ensures
        forall|i: int|
            0 <= i < r.entries@.len() ==> {
                let m = (#[trigger] r.entries@[i]).info.mode;
                (m is None || m == Some(ConnMode::Socks) || m == Some(ConnMode::Direct)) && !(m
                    == Some(ConnMode::Socks) && m == Some(ConnMode::Direct))
            },
{
    assert forall|i: int| 0 <= i < r.entries@.len() implies {
        let m = (#[trigger] r.entries@[i]).info.mode;
        (m is None || m == Some(ConnMode::Socks) || m == Some(ConnMode::Direct)) && !(m == Some(
            ConnMode::Socks,
        ) && m == Some(ConnMode::Direct))
    } by {
        match r.entries@[i].info.mode {
            None => {},
            Some(ConnMode::Socks) => {},
            Some(ConnMode::Direct) => {},
        }
    }
}

/// One pass of the enforcement loop.  While any backend is green, every
/// direct connection is cancelled; on the recovery edge (green was absent,
/// now present) stuck SOCKS connections are cancelled as well.  Returns the
/// counts of direct and stuck connections acted on.
pub fn enforce_tick(conns: &mut ConnRegistry, any_green: bool, had_green: bool, now: u64) -> (r: (
    usize,
    usize,
))
    ensures
        final(conns).entries@.len() == old(conns).entries@.len(),
        forall|j: int|
            0 <= j < old(conns).entries@.len() ==> final(conns).entries@[j].info == old(conns).entries@[j].info,
        any_green ==> forall|j: int|
            0 <= j < final(conns).entries@.len() && (#[trigger] final(conns).entries@[j]).info.mode
                == Some(ConnMode::Direct) ==> final(conns).entries@[j].cancelled,
        (any_green && !had_green) ==> forall|j: int|
            0 <= j < final(conns).entries@.len() && is_stuck(
                (#[trigger] final(conns).entries@[j]).info,
                now,
                15,
            ) ==> final(conns).entries@[j].cancelled,
        !any_green ==> final(conns).entries@ == old(conns).entries@,
        forall|j: int|
            0 <= j < old(conns).entries@.len() && old(conns).entries@[j].cancelled ==> final(conns).entries@[j].cancelled,
{
    if !any_green {
        return (0, 0);
    }
    let killed_direct = conns.kill_mode(ConnMode::Direct);
    let killed_stuck = if !had_green {
        conns.kill_stuck_socks_zero_traffic(15, now)
    } else {
        0
    };
    (killed_direct, killed_stuck)
}

} // verus!
