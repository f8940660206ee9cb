//! Global traffic counters, their snapshot form, and the broadcast events
//! that accompany a connection's life cycle.
use vstd::prelude::*;

use crate::bytesutil::{ascii_chars, dec_repr, string_from_ascii, u64_to_dec};

verus! {

/// Which local listener accepted a connection.
#[derive(Clone, Copy, Debug, PartialEq, Eq, Structural)]
pub enum Ingress {
    Internal,
    External,
}

/// Per-listener byte counters.
pub struct PortStats {
    pub bytes_up: u64,
    pub bytes_down: u64,
}

/// Global counters.  All additions saturate at the counter's maximum, so the
/// exact-increase clauses below hold whenever the total stays in range.
pub struct Stats {
    pub bytes_up: u64,
    pub bytes_down: u64,
    pub errors: u64,
    pub socks_ok: u64,
    pub socks_fail: u64,
    pub policy_drop: u64,
    pub internal: PortStats,
    pub external: PortStats,
}

#[derive(Clone, Debug)]
pub struct PortStatsSnapshot {
    pub bytes_up: u64,
    pub bytes_down: u64,
}

#[derive(Clone, Debug)]
pub struct StatsSnapshot {
    pub bytes_up: u64,
    pub bytes_down: u64,
    pub errors: u64,
    pub socks_ok: u64,
    pub socks_fail: u64,
    pub policy_drop: u64,
    pub internal: PortStatsSnapshot,
    pub external: PortStatsSnapshot,
}

/// Everything in `Stats` except the two global byte totals is unchanged.
pub open spec fn same_but_updown(a: Stats, b: Stats) -> bool {
    &&& a.errors == b.errors
    &&& a.socks_ok == b.socks_ok
    &&& a.socks_fail == b.socks_fail
    &&& a.policy_drop == b.policy_drop
    &&& a.internal.bytes_up == b.internal.bytes_up
    &&& a.internal.bytes_down == b.internal.bytes_down
    &&& a.external.bytes_up == b.external.bytes_up
    &&& a.external.bytes_down == b.external.bytes_down
}

impl Default for Stats {
    /// All counters start at zero.
    fn default() -> (r: Stats)
        ensures
            r.bytes_up == 0 && r.bytes_down == 0 && r.errors == 0 && r.socks_ok == 0
                && r.socks_fail == 0 && r.policy_drop == 0,
            r.internal.bytes_up == 0 && r.internal.bytes_down == 0,
            r.external.bytes_up == 0 && r.external.bytes_down == 0,
    {
        Stats {
            bytes_up: 0,
            bytes_down: 0,
            errors: 0,
            socks_ok: 0,
            socks_fail: 0,
            policy_drop: 0,
            internal: PortStats { bytes_up: 0, bytes_down: 0 },
            external: PortStats { bytes_up: 0, bytes_down: 0 },
        }
    }
}

impl Stats {
    /// Count `n` bytes sent client-to-upstream.
    pub fn add_up(&mut self, n: u64)
        ensures
            old(self).bytes_up + n <= u64::MAX ==> final(self).bytes_up == old(self).bytes_up + n,
            old(self).bytes_up + n > u64::MAX ==> final(self).bytes_up == u64::MAX,
            final(self).bytes_down == old(self).bytes_down,
            same_but_updown(*old(self), *final(self)),
    {
        self.bytes_up = self.bytes_up.saturating_add(n);
    }

    /// Count `n` bytes sent upstream-to-client.
    pub fn add_down(&mut self, n: u64)
        ensures
            old(self).bytes_down + n <= u64::MAX ==> final(self).bytes_down == old(self).bytes_down
                + n,
            old(self).bytes_down + n > u64::MAX ==> final(self).bytes_down == u64::MAX,
            final(self).bytes_up == old(self).bytes_up,
            same_but_updown(*old(self), *final(self)),
    {
        self.bytes_down = self.bytes_down.saturating_add(n);
    }

    /// Count `n` upload bytes against the listener that accepted the
    /// connection.
    pub fn add_up_ingress(&mut self, ingress: Ingress, n: u64)
        ensures
            ({
                let (o, f) = match ingress {
                    Ingress::Internal => (old(self).internal.bytes_up, final(self).internal.bytes_up),
                    Ingress::External => (old(self).external.bytes_up, final(self).external.bytes_up),
                };
                (o + n <= u64::MAX ==> f == o + n) && (o + n > u64::MAX ==> f == u64::MAX)
            }),
            match ingress {
                Ingress::Internal => final(self).external == old(self).external && final(self).internal.bytes_down == old(self).internal.bytes_down,
                Ingress::External => final(self).internal == old(self).internal && final(self).external.bytes_down == old(self).external.bytes_down,
            },
            final(self).bytes_up == old(self).bytes_up,
            final(self).bytes_down == old(self).bytes_down,
            final(self).errors == old(self).errors,
            final(self).socks_ok == old(self).socks_ok,
            final(self).socks_fail == old(self).socks_fail,
            final(self).policy_drop == old(self).policy_drop,
    {
        match ingress {
            Ingress::Internal => {
                self.internal.bytes_up = self.internal.bytes_up.saturating_add(n);
            },
            Ingress::External => {
                self.external.bytes_up = self.external.bytes_up.saturating_add(n);
            },
        }
    }

    /// Count `n` download bytes against the listener that accepted the
    /// connection.
    pub fn add_down_ingress(&mut self, ingress: Ingress, n: u64)
        ensures
            ({
                let (o, f) = match ingress {
                    Ingress::Internal => (
                        old(self).internal.bytes_down,
                        final(self).internal.bytes_down,
                    ),
                    Ingress::External => (
                        old(self).external.bytes_down,
                        final(self).external.bytes_down,
                    ),
                };
                (o + n <= u64::MAX ==> f == o + n) && (o + n > u64::MAX ==> f == u64::MAX)
            }),
            match ingress {
                Ingress::Internal => final(self).external == old(self).external && final(self).internal.bytes_up == old(self).internal.bytes_up,
                Ingress::External => final(self).internal == old(self).internal && final(self).external.bytes_up == old(self).external.bytes_up,
            },
            final(self).bytes_up == old(self).bytes_up,
            final(self).bytes_down == old(self).bytes_down,
            final(self).errors == old(self).errors,
            final(self).socks_ok == old(self).socks_ok,
            final(self).socks_fail == old(self).socks_fail,
            final(self).policy_drop == old(self).policy_drop,
    {
        match ingress {
            Ingress::Internal => {
                self.internal.bytes_down = self.internal.bytes_down.saturating_add(n);
            },
            Ingress::External => {
                self.external.bytes_down = self.external.bytes_down.saturating_add(n);
            },
        }
    }

    /// Count one connection-scoped error.
    pub fn inc_error(&mut self)
        ensures
            old(self).errors < u64::MAX ==> final(self).errors == old(self).errors + 1,
            final(self).bytes_up == old(self).bytes_up && final(self).bytes_down == old(self).bytes_down,
            final(self).socks_ok == old(self).socks_ok && final(self).socks_fail == old(self).socks_fail,
            final(self).policy_drop == old(self).policy_drop,
            final(self).internal == old(self).internal && final(self).external == old(self).external,
    {
        self.errors = self.errors.saturating_add(1);
    }

    /// Count one successful SOCKS tunnel establishment.
    pub fn inc_socks_ok(&mut self)
        ensures
            old(self).socks_ok < u64::MAX ==> final(self).socks_ok == old(self).socks_ok + 1,
            final(self).bytes_up == old(self).bytes_up && final(self).bytes_down == old(self).bytes_down,
            final(self).errors == old(self).errors && final(self).socks_fail == old(self).socks_fail,
            final(self).policy_drop == old(self).policy_drop,
            final(self).internal == old(self).internal && final(self).external == old(self).external,
    {
        self.socks_ok = self.socks_ok.saturating_add(1);
    }

    /// Count one failed SOCKS tunnel attempt.
    pub fn inc_socks_fail(&mut self)
        ensures
            old(self).socks_fail < u64::MAX ==> final(self).socks_fail == old(self).socks_fail + 1,
            final(self).bytes_up == old(self).bytes_up && final(self).bytes_down == old(self).bytes_down,
            final(self).errors == old(self).errors && final(self).socks_ok == old(self).socks_ok,
            final(self).policy_drop == old(self).policy_drop,
            final(self).internal == old(self).internal && final(self).external == old(self).external,
    {
        self.socks_fail = self.socks_fail.saturating_add(1);
    }

    /// Count one connection closed by rule policy.
    pub fn inc_policy_drop(&mut self)
        ensures
            old(self).policy_drop < u64::MAX ==> final(self).policy_drop == old(self).policy_drop
                + 1,
            final(self).bytes_up == old(self).bytes_up && final(self).bytes_down == old(self).bytes_down,
            final(self).errors == old(self).errors && final(self).socks_ok == old(self).socks_ok,
            final(self).socks_fail == old(self).socks_fail,
            final(self).internal == old(self).internal && final(self).external == old(self).external,
    {
        self.policy_drop = self.policy_drop.saturating_add(1);
    }

    /// A copy of every counter at one instant.
    pub fn snapshot(&self) -> (r: StatsSnapshot)
        ensures
            r.bytes_up == self.bytes_up && r.bytes_down == self.bytes_down,
            r.errors == self.errors && r.socks_ok == self.socks_ok,
            r.socks_fail == self.socks_fail && r.policy_drop == self.policy_drop,
            r.internal.bytes_up == self.internal.bytes_up && r.internal.bytes_down
                == self.internal.bytes_down,
            r.external.bytes_up == self.external.bytes_up && r.external.bytes_down
                == self.external.bytes_down,
    {
        StatsSnapshot {
            bytes_up: self.bytes_up,
            bytes_down: self.bytes_down,
            errors: self.errors,
            socks_ok: self.socks_ok,
            socks_fail: self.socks_fail,
            policy_drop: self.policy_drop,
            internal: PortStatsSnapshot {
                bytes_up: self.internal.bytes_up,
                bytes_down: self.internal.bytes_down,
            },
            external: PortStatsSnapshot {
                bytes_up: self.external.bytes_up,
                bytes_down: self.external.bytes_down,
            },
        }
    }
}

/// Seconds since the Unix epoch.  Relies on `std::time::SystemTime::now`;
/// nothing can be promised of the clock's reading.
#[verifier::external_body]
pub fn now_ts() -> u64 {
    match std::time::SystemTime::now().duration_since(std::time::UNIX_EPOCH) {
        Ok(d) => d.as_secs(),
        Err(_) => 0,
    }
}

/// One broadcast entry of the connection event stream.
pub struct Event {
    pub ts: u64,
    pub kind: String,
    pub cid: Option<u64>,
    pub peer: Option<String>,
    pub target: Option<String>,
    pub mode: Option<String>,
}

impl Event {
    /// A connection was accepted and registered.
    pub fn conn_open(cid: u64, peer: String) -> (r: Event)
        ensures
            r.kind@ == "conn_open"@,
            r.cid == Some(cid),
            r.peer matches Some(p) && p@ == peer@,
            r.target is None && r.mode is None,
    {
        Event {
            ts: now_ts(),
            kind: "conn_open".to_owned(),
            cid: Some(cid),
            peer: Some(peer),
            target: None,
            mode: None,
        }
    }

    /// A connection finished and left the registry.
    pub fn conn_close(cid: u64) -> (r: Event)
        ensures
            r.kind@ == "conn_close"@,
            r.cid == Some(cid),
            r.peer is None && r.target is None && r.mode is None,
    {
        Event {
            ts: now_ts(),
            kind: "conn_close".to_owned(),
            cid: Some(cid),
            peer: None,
            target: None,
            mode: None,
        }
    }

    /// The target and transport mode of a connection became known.
    pub fn conn_target(cid: u64, host: String, port: u16, mode: String) -> (r: Event)
        ensures
            r.kind@ == "conn_target"@,
            r.cid == Some(cid),
            r.peer is None,
            r.target matches Some(t) && t@ == host@ + ":"@ + ascii_chars(dec_repr(port as int)),
            r.mode matches Some(m) && m@ == mode@,
    {
        let mut t = host;
        t.append(":");
        let digits = u64_to_dec(port as u64);
        let ds = string_from_ascii(digits);
        t.append(ds.as_str());
        Event {
            ts: now_ts(),
            kind: "conn_target".to_owned(),
            cid: Some(cid),
            peer: None,
            target: Some(t),
            mode: Some(mode),
        }
    }
}

} // verus!
