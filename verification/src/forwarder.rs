//! Per-connection decision logic of the forwarder: target representation,
//! route selection under the no-bypass policy, remote-DNS preference for
//! SOCKS targets, byte-batch accounting, download shaping arithmetic, and
//! the copy-loop step predicate.  The accept loop and the socket I/O around
//! these decisions live at the boundary.
use vstd::prelude::*;
use vstd::string::StringSliceAdditionalSpecFns;

use crate::addr::SockAddrV;
use crate::bytesutil::{
    all_digits, ascii_chars, contains_byte, dec_value, first_idx, is_ascii_digit_byte,
};
use crate::rules::Action;
use crate::socks5::TargetAddr;

verus! {

/// Where a connection is headed: a recovered original destination
/// (transparent mode) or a configured host and port (explicit mode).
pub enum Target {
    SockAddr(SockAddrV),
    HostPort(String, u16),
}

impl Target {
    /// The host part (address text or configured name) and the port.
    pub fn to_host_port_string(&self) -> (r: (String, u16))
        ensures
            match *self {
                Target::SockAddr(sa) => r.0@ == ascii_chars(crate::addr::ip_repr(sa.ip)) && r.1
                    == sa.port,
                Target::HostPort(h, p) => r.0@ == h@ && r.1 == p,
            },
    {
        match self {
            Target::SockAddr(sa) => (sa.ip.to_display(), sa.port),
            Target::HostPort(h, p) => (h.clone(), *p),
        }
    }

    /// The SOCKS target for this destination: the literal address in
    /// transparent mode, the name (for remote resolution) in explicit mode.
    pub fn to_socks_target(&self) -> (r: TargetAddr)
        ensures
            match *self {
                Target::SockAddr(sa) => r matches TargetAddr::Ip(a) && a == sa,
                Target::HostPort(h, p) => r matches TargetAddr::Domain(d, q) && d@ == h@ && q == p,
            },
    {
        match self {
            Target::SockAddr(sa) => TargetAddr::Ip(*sa),
            Target::HostPort(h, p) => TargetAddr::Domain(h.clone(), *p),
        }
    }
}

/// A dotted-quad IPv4 literal: four decimal octets, each without leading
/// zeros and at most 255.
pub open spec fn is_ipv4_octet(s: Seq<u8>) -> bool {
    &&& s.len() > 0
    &&& all_digits(s)
    &&& s.len() <= 3
    &&& (s.len() > 1 ==> s[0] != 48)
    &&& dec_value(s) <= 255
}

/// A dotted-quad IPv4 literal, decomposed at the first, second and third
/// dots: exactly three dots, and all four fields octets.
pub open spec fn spec_is_ipv4_literal(s: Seq<u8>) -> bool {
    let a = first_idx(s, 46);
    let b = a + 1 + first_idx(s.skip(a + 1), 46);
    let c = b + 1 + first_idx(s.skip(b + 1), 46);
    &&& a < s.len()
    &&& b < s.len()
    &&& c < s.len()
    &&& !contains_byte(s.skip(c + 1), 46)
    &&& is_ipv4_octet(s.subrange(0, a))
    &&& is_ipv4_octet(s.subrange(a + 1, b))
    &&& is_ipv4_octet(s.subrange(b + 1, c))
    &&& is_ipv4_octet(s.subrange(c + 1, s.len() as int))
}

/// A host string that names an address rather than a domain: a dotted-quad
/// IPv4 literal, or anything with a colon (IPv6 forms; never a hostname).
pub open spec fn spec_is_ip_literal(s: Seq<u8>) -> bool {
    spec_is_ipv4_literal(s) || contains_byte(s, 58)
}

fn parse_octet(s: &[u8]) -> (r: bool)
    ensures
        r == is_ipv4_octet(s@),
{
    if s.len() == 0 || s.len() > 3 {
        return false;
    }
    let mut i: usize = 0;
    while i < s.len()
        invariant
            0 <= i <= s@.len(),
            forall|j: int| 0 <= j < i ==> is_ascii_digit_byte(s@[j]),
        decreases s.len() - i,
    {
        if !(48 <= s[i] && s[i] <= 57) {
            return false;
        }
        i = i + 1;
    }
    if s.len() > 1 && s[0] == 48 {
        return false;
    }
    proof {
        crate::bytesutil::lemma_dec_value_small(s@);
        assert(crate::bytesutil::unsigned_digits(s@) == s@);
    }
    match crate::bytesutil::parse_u64_bytes(s) {
        Some(v) => v <= 255,
        None => false,
    }
}

/// When no dot follows position `d`, the first dot of the tail is its end.
proof fn lemma_skip_none(s: Seq<u8>, d: int)
    requires
        0 <= d < s.len(),
        forall|j: int| d + 1 <= j < s.len() ==> s[j] != 46,
    ensures
        d + 1 + first_idx(s.skip(d + 1), 46) >= s.len(),
{
    let sk = s.skip(d + 1);
    crate::bytesutil::lemma_first_idx(sk, 46);
    let fi = first_idx(sk, 46);
    assert(fi >= sk.len()) by {
        if fi < sk.len() {
            assert(sk[fi] == 46);
            assert(sk[fi] == s[fi + d + 1]);
        }
    }
}

/// The first dot strictly after position `d` stands exactly where the tail's
/// first dot does.
proof fn lemma_skip_first(s: Seq<u8>, d: int, found: int)
    requires
        0 <= d < found < s.len(),
        s[found] == 46,
        forall|j: int| d + 1 <= j < found ==> s[j] != 46,
    ensures
        found == d + 1 + first_idx(s.skip(d + 1), 46),
{
    let sk = s.skip(d + 1);
    crate::bytesutil::lemma_first_idx(sk, 46);
    let fi = first_idx(sk, 46);
    assert(sk[found - d - 1] == s[found]);
    assert(fi >= found - d - 1) by {
        if fi < found - d - 1 {
            assert(sk[fi] == 46);
            assert(sk[fi] == s[fi + d + 1]);
        }
    }
    assert(fi <= found - d - 1) by {
        if fi > found - d - 1 {
            assert(sk[found - d - 1] != 46);
        }
    }
}

/// Whether a host string is an IP literal (and so gains nothing from
/// remote DNS).
pub fn looks_like_ip(host: &str) -> (r: bool)
    ensures
        r == spec_is_ip_literal(host.spec_bytes()),
{
    let b = host.as_bytes();
    proof {
        crate::bytesutil::lemma_first_idx(b@, 58);
    }
    match crate::bytesutil::find_byte(b, 58, 0) {
        Some(_) => {
            return true;
        },
        None => {},
    }
    proof {
        crate::bytesutil::lemma_first_idx(b@, 46);
    }
    let a = match crate::bytesutil::find_byte(b, 46, 0) {
        Some(i) => i,
        None => {
            return false;
        },
    };
    let n = b.len();
    proof {
        assert(a < n);
        assert(a as int == first_idx(b@, 46));
    }
    let bq = match crate::bytesutil::find_byte(b, 46, a + 1) {
        Some(i) => i,
        None => {
            proof {
                lemma_skip_none(b@, a as int);
            }
            return false;
        },
    };
    proof {
        lemma_skip_first(b@, a as int, bq as int);
        assert(bq < n);
    }
    let cq = match crate::bytesutil::find_byte(b, 46, bq + 1) {
        Some(i) => i,
        None => {
            proof {
                lemma_skip_none(b@, bq as int);
            }
            return false;
        },
    };
    proof {
        lemma_skip_first(b@, bq as int, cq as int);
        assert(cq < b@.len());
    }
    match crate::bytesutil::find_byte(b, 46, cq + 1) {
        Some(p) => {
            proof {
                assert(b@.skip(cq as int + 1)[p as int - (cq as int) - 1] == b@[p as int]);
                assert(contains_byte(b@.skip(cq as int + 1), 46));
            }
            return false;
        },
        None => {
            proof {
                assert(!contains_byte(b@.skip(cq as int + 1), 46)) by {
                    if contains_byte(b@.skip(cq as int + 1), 46) {
                        let p = choose|p: int|
                            0 <= p < b@.skip(cq as int + 1).len() && (#[trigger] b@.skip(
                                cq as int + 1,
                            )[p]) == 46;
                        assert(b@[p + cq + 1] == 46);
                    }
                }
            }
        },
    }
    let o0 = parse_octet(&b[0..a]);
    let o1 = parse_octet(&b[a + 1..bq]);
    let o2 = parse_octet(&b[bq + 1..cq]);
    let o3 = parse_octet(&b[cq + 1..b.len()]);
    o0 && o1 && o2 && o3
}

/// SOCKS remote-DNS preference: in transparent mode, when sniffing yielded
/// a non-empty host that is not an IP literal, the SOCKS CONNECT uses that
/// name — address type "domain" — rather than the recovered address; in
/// every other case the target's own SOCKS form is used.
pub fn choose_socks_target(target: &Target, domain_hint: Option<&str>) -> (r: TargetAddr)
    ensures
        match (target, domain_hint) {
            (Target::SockAddr(sa), Some(h)) => {
                if h@.len() > 0 && !spec_is_ip_literal(h.spec_bytes()) {
                    r matches TargetAddr::Domain(d, p) && d@ == h@ && p == sa.port
                } else {
                    r matches TargetAddr::Ip(a) && a == sa
                }
            },
            (Target::SockAddr(sa), None) => r matches TargetAddr::Ip(a) && a == *sa,
            (Target::HostPort(hh, pp), _) => r matches TargetAddr::Domain(d, q) && d@ == hh@ && q
                == pp,
        },
{
    match (target, domain_hint) {
        (Target::SockAddr(sa), Some(h)) => {
            if !h.is_empty() && !looks_like_ip(h) {
                TargetAddr::Domain(h.to_owned(), sa.port)
            } else {
                TargetAddr::Ip(*sa)
            }
        },
        _ => target.to_socks_target(),
    }
}

/// The route resolved from the rule action under the no-bypass policy.
#[derive(Clone, Copy, Debug, PartialEq, Eq, Structural)]
pub enum RouteDecision {
    /// Tunnel through a SOCKS backend.
    UseSocks,
    /// Connect directly: allowed only while no backend is green.
    UseDirect,
    /// Close cleanly and count a policy drop.
    DropClean,
    /// Wait briefly for a backend to recover, then decide again.
    WaitForBackend,
}

/// Resolve the rule action and the green-backend state into a route.
/// Direct mode is possible only when no backend is green — the no-bypass
/// policy overrides even an explicit `direct` rule.
pub fn route_decision(action: Option<Action>, socks_available: bool) -> (r: RouteDecision)
    ensures
        r == RouteDecision::UseDirect ==> !socks_available,
        match action {
            Some(Action::Drop) => r == RouteDecision::DropClean,
            Some(Action::Reset) => r == RouteDecision::DropClean,
            Some(Action::Wait) => r == RouteDecision::WaitForBackend,
            Some(Action::Direct) => r == (if socks_available {
                RouteDecision::UseSocks
            } else {
                RouteDecision::UseDirect
            }),
            Some(Action::Socks) | None => r == (if socks_available {
                RouteDecision::UseSocks
            } else {
                RouteDecision::UseDirect
            }),
        },
{
    match action {
        Some(Action::Drop) | Some(Action::Reset) => RouteDecision::DropClean,
        Some(Action::Wait) => RouteDecision::WaitForBackend,
        Some(Action::Direct) | Some(Action::Socks) | None => {
            if socks_available {
                RouteDecision::UseSocks
            } else {
                RouteDecision::UseDirect
            }
        },
    }
}

/// After a failed SOCKS connect, falling back to a direct connection is
/// allowed exactly while no backend is green.
pub fn direct_fallback_allowed(any_green: bool) -> (r: bool)
    ensures
        r == !any_green,
{
    !any_green
}

/// Batches per-backend byte attribution: bytes accumulate locally and are
/// flushed to the backend registry in chunks of at least 64 KiB.
pub struct ByteBatcher {
    pub acc: u64,
}

impl ByteBatcher {
    pub fn new() -> (r: ByteBatcher)
        ensures
            r.acc == 0,
    {
        ByteBatcher { acc: 0 }
    }

    /// Account `n` more bytes; returns the amount to attribute to the
    /// backend now, if the batch threshold was reached.  No byte is lost:
    /// what was accumulated plus `n` either stays accumulated or is flushed.
    pub fn add(&mut self, n: u64) -> (r: Option<u64>)
        requires
            old(self).acc + n <= u64::MAX,
        ensures
            match r {
                Some(flush) => flush == old(self).acc + n && final(self).acc == 0 && flush >= 65536,
                None => final(self).acc == old(self).acc + n && final(self).acc < 65536,
            },
    {
        let total = self.acc + n;
        if total >= 65536 {
            self.acc = 0;
            Some(total)
        } else {
            self.acc = total;
            None
        }
    }

    /// Hand back whatever is still accumulated (the final flush when a copy
    /// half ends).
    pub fn finish(&mut self) -> (r: u64)
        ensures
            r == old(self).acc,
            final(self).acc == 0,
    {
        let r = self.acc;
        self.acc = 0;
        r
    }
}

/// Total of a sequence of chunk sizes.
pub open spec fn sum_chunks(chunks: Seq<u64>) -> int
    decreases chunks.len(),
{
    if chunks.len() == 0 {
        0
    } else {
        sum_chunks(chunks.drop_last()) + chunks.last()
    }
}

/// A counter that adds each chunk in turn, as the global, per-ingress and
/// per-connection counters all do.
pub open spec fn fold_add(start: int, chunks: Seq<u64>) -> int
    decreases chunks.len(),
{
    if chunks.len() == 0 {
        start
    } else {
        fold_add(start, chunks.drop_last()) + chunks.last()
    }
}

/// Byte-accounting conservation: a counter that adds every chunk of a
/// completed direction ends exactly at its start plus the direction's byte
/// total.  The global, per-ingress and per-connection counters each perform
/// exactly this fold (one add per chunk, by their contracts), so all three
/// increase by the same amount: the bytes moved.
pub proof fn lemma_byte_conservation(start: int, chunks: Seq<u64>)
    ensures
        fold_add(start, chunks) == start + sum_chunks(chunks),
    decreases chunks.len(),
{
    if chunks.len() > 0 {
        lemma_byte_conservation(start, chunks.drop_last());
    }
}

/// Download shaping: with a rolling window of `window_bytes` bytes over
/// `elapsed_ms` milliseconds against a cap of `limit_bps` bytes per second,
/// the time to sleep before the next write, in milliseconds — zero when no
/// cap is set or the rate is within the cap, and never more than 500 ms so
/// cancellation stays prompt.
pub fn throttle_sleep_ms(window_bytes: u64, elapsed_ms: u64, limit_bps: u64) -> (r: u64)
    ensures
        limit_bps == 0 ==> r == 0,
        elapsed_ms == 0 ==> r == 0,
        limit_bps > 0 && elapsed_ms > 0 && window_bytes * 1000 <= limit_bps * elapsed_ms ==> r == 0,
        limit_bps > 0 && elapsed_ms > 0 && window_bytes * 1000 > limit_bps * elapsed_ms ==> {
            let target = window_bytes as int * 1000 / (limit_bps as int);
            r == (if target - elapsed_ms > 500 {
                500int
            } else {
                target - elapsed_ms
            })
        },
        r <= 500,
{
    if limit_bps == 0 || elapsed_ms == 0 {
        return 0;
    }
    let wb = window_bytes as u128;
    let lim = limit_bps as u128;
    let el = elapsed_ms as u128;
    proof {
        assert(lim * el <= u128::MAX) by (nonlinear_arith)
            requires
                0 <= lim < 0x10000000000000000 && 0 <= el < 0x10000000000000000,
        ;
        assert(wb * 1000 <= u128::MAX) by (nonlinear_arith)
            requires
                0 <= wb < 0x10000000000000000,
        ;
    }
    if wb * 1000 <= lim * el {
        return 0;
    }
    let target = wb * 1000 / lim;
    proof {
        assert(wb as int * 1000 / (lim as int) >= el as int) by (nonlinear_arith)
            requires
                lim > 0 && wb as int * 1000 > lim as int * (el as int),
        ;
    }
    let sleep = target - el;
    if sleep > 500 {
        500
    } else {
        sleep as u64
    }
}

/// Whether the one-second shaping window should reset.
pub fn window_reset_due(elapsed_ms: u64) -> (r: bool)
    ensures
        r == (elapsed_ms > 1000),
{
    elapsed_ms > 1000
}

/// Whether the per-direction idle timeout has expired; a zero timeout
/// disables it.
pub fn idle_exceeded(since_activity_ms: u64, idle_timeout_secs: u32) -> (r: bool)
    ensures
        r == (idle_timeout_secs != 0 && since_activity_ms > idle_timeout_secs * 1000),
{
    idle_timeout_secs != 0 && since_activity_ms > (idle_timeout_secs as u64) * 1000
}

/// One copy-loop step decision: the half goes on reading exactly while
/// cancellation has not fired, the read returned data, and the idle
/// timeout has not expired.  In particular a cancelled connection never
/// continues — cancellation is honoured at the very next step.
pub fn copy_step_continues(cancelled: bool, n_read: usize, idle_hit: bool) -> (r: bool)
    ensures
        r == (!cancelled && n_read > 0 && !idle_hit),
        cancelled ==> !r,
{
    !cancelled && n_read > 0 && !idle_hit
}

} // verus!
