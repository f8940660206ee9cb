//! Per-UID traffic redirection options: protocol choice, port
//! specifications and their normalization into iptables arguments.  Running
//! iptables is boundary work; the argument computation is verified here.
use vstd::prelude::*;

use crate::bytesutil::{
    all_digits, dec_value, first_idx, is_ascii_digit_byte, lemma_first_idx, parse_u16_bytes,
    parses_as_u16, trim_eq, trim_eq_spec, unsigned_digits,
};

verus! {

/// Which protocols the redirection covers.
#[derive(Debug, Clone, Copy, PartialEq, Eq, Structural)]
pub enum ProtoChoice {
    Tcp,
    Udp,
    TcpUdp,
}

impl ProtoChoice {
    /// `"tcp"`, `"udp"` or `"tcp_udp"`; anything else falls back to TCP.
    pub fn from_str(s: &str) -> (r: ProtoChoice)
        ensures
            s@ == "tcp"@ ==> r is Tcp,
            s@ == "udp"@ ==> r is Udp,
            s@ == "tcp_udp"@ ==> r is TcpUdp,
            !(s@ == "tcp"@ || s@ == "udp"@ || s@ == "tcp_udp"@) ==> r is Tcp,
    {
        proof {
            reveal_strlit("tcp");
            reveal_strlit("udp");
            reveal_strlit("tcp_udp");
            assert("tcp"@.len() == 3);
            assert("udp"@.len() == 3);
            assert("tcp_udp"@.len() == 7);
            assert("tcp"@[0] == 't' && "udp"@[0] == 'u');
            assert("tcp"@ != "udp"@);
            assert("tcp"@ != "tcp_udp"@);
            assert("udp"@ != "tcp_udp"@);
        }
        if crate::bytesutil::str_eq(s, "udp") {
            ProtoChoice::Udp
        } else if crate::bytesutil::str_eq(s, "tcp_udp") {
            ProtoChoice::TcpUdp
        } else {
            ProtoChoice::Tcp
        }
    }

    /// The protocol names this choice stands for.
    pub fn protos(self) -> (r: Vec<&'static str>)
        ensures
            self is Tcp ==> r@.len() == 1 && r@[0]@ == "tcp"@,
            self is Udp ==> r@.len() == 1 && r@[0]@ == "udp"@,
            self is TcpUdp ==> r@.len() == 2 && r@[0]@ == "tcp"@ && r@[1]@ == "udp"@,
    {
        let mut out: Vec<&'static str> = Vec::new();
        match self {
            ProtoChoice::Tcp => {
                out.push("tcp");
            },
            ProtoChoice::Udp => {
                out.push("udp");
            },
            ProtoChoice::TcpUdp => {
                out.push("tcp");
                out.push("udp");
            },
        }
        out
    }
}

/// The redirection knobs: all ports or a port list.
#[derive(Debug, Clone)]
pub struct DpiTunnelOptions {
    pub port_preference: u8,
    pub dpi_ports: String,
}

impl Default for DpiTunnelOptions {
    /// Redirect the usual web and peer-to-peer ports.
    fn default() -> (r: DpiTunnelOptions)
        ensures
            r.port_preference == 0,
            r.dpi_ports@ == "80 443 2710 6969 51413 6771 6881-6999 49152-65535"@,
    {
        DpiTunnelOptions {
            port_preference: 0,
            dpi_ports: "80 443 2710 6969 51413 6771 6881-6999 49152-65535".to_string(),
        }
    }
}

/// Ports text with whitespace turned into commas, comma runs collapsed and
/// outer commas trimmed.
pub open spec fn collapse_commas(s: Seq<u8>) -> Seq<u8>
    decreases s.len(),
{
    if s.len() == 0 {
        Seq::empty()
    } else {
        let p = collapse_commas(s.drop_last());
        let b = if s.last() == 32 || s.last() == 9 {
            44u8
        } else {
            s.last()
        };
        if b == 44 && p.len() > 0 && p.last() == 44 {
            p
        } else {
            p.push(b)
        }
    }
}

pub open spec fn spec_normalize_ports_csv(s: Seq<u8>) -> Seq<u8> {
    trim_eq_spec(collapse_commas(s), 44)
}

/// Normalize a ports specification into a comma-separated list.
pub fn normalize_ports_csv(dpi_ports: &[u8]) -> (r: Vec<u8>)
    ensures
        r@ == spec_normalize_ports_csv(dpi_ports@),
{
    let mut out: Vec<u8> = Vec::new();
    let mut i: usize = 0;
    proof {
        assert(dpi_ports@.take(0) =~= Seq::<u8>::empty());
    }
    while i < dpi_ports.len()
        invariant
            0 <= i <= dpi_ports@.len(),
            out@ == collapse_commas(dpi_ports@.take(i as int)),
        decreases dpi_ports.len() - i,
    {
        proof {
            let t = dpi_ports@.take(i as int + 1);
            assert(t.drop_last() =~= dpi_ports@.take(i as int));
            assert(t.last() == dpi_ports@[i as int]);
        }
        let raw = dpi_ports[i];
        let b: u8 = if raw == 32 || raw == 9 {
            44
        } else {
            raw
        };
        let skip_it = b == 44 && out.len() > 0 && out[out.len() - 1] == 44;
        if !skip_it {
            out.push(b);
        }
        i = i + 1;
    }
    proof {
        assert(dpi_ports@.take(dpi_ports@.len() as int) =~= dpi_ports@);
    }
    let trimmed = trim_eq(out.as_slice(), 44);
    let mut res: Vec<u8> = Vec::new();
    let mut k: usize = 0;
    while k < trimmed.len()
        invariant
            0 <= k <= trimmed@.len(),
            res@ == trimmed@.take(k as int),
        decreases trimmed.len() - k,
    {
        res.push(trimmed[k]);
        k = k + 1;
        proof {
            assert(trimmed@.take(k as int) =~= trimmed@.take(k as int - 1).push(
                trimmed@[k as int - 1],
            ));
        }
    }
    proof {
        assert(res@ =~= trimmed@);
    }
    res
}

/// Token counting over a comma-separated ports list: how many usable
/// tokens, and whether any is a range.
pub open spec fn spec_analyze(s: Seq<u8>) -> (int, bool)
    decreases s.len(),
{
    let i = if 0 <= first_idx(s, 44) && first_idx(s, 44) < s.len() {
        first_idx(s, 44)
    } else {
        s.len() as int
    };
    if i < s.len() {
        let (c1, h1) = spec_analyze_token(s.take(i));
        let (c2, h2) = spec_analyze(s.skip(i + 1));
        (c1 + c2, h1 || h2)
    } else {
        spec_analyze_token(s)
    }
}

pub open spec fn spec_analyze_token(t0: Seq<u8>) -> (int, bool) {
    let t = crate::bytesutil::trim_spec(t0);
    if t.len() == 0 {
        (0int, false)
    } else if crate::bytesutil::contains_byte(t, 45) {
        (1int, true)
    } else if all_digits(t) {
        (1int, false)
    } else {
        (0int, false)
    }
}

/// Count tokens and detect ranges in a normalized ports list.
pub fn analyze_ports(ports_csv: &[u8]) -> (r: (usize, bool))
    ensures
        r.0 as int == spec_analyze(ports_csv@).0,
        r.1 == spec_analyze(ports_csv@).1,
{
    let mut count: usize = 0;
    let mut has_range = false;
    let mut start: usize = 0;
    let n = ports_csv.len();
    let ghost cs = ports_csv@;
    proof {
        assert(cs.skip(0) =~= cs);
    }
    loop
        invariant
            0 <= start <= n,
            n == cs.len(),
            ports_csv@ == cs,
            2 * (count as int) <= start + 2,
            spec_analyze(cs).0 == count + spec_analyze(cs.skip(start as int)).0,
            spec_analyze(cs).1 == (has_range || spec_analyze(cs.skip(start as int)).1),
        decreases n - start,
    {
        let tail = &ports_csv[start..n];
        proof {
            lemma_first_idx(tail@, 44);
        }
        let comma = crate::bytesutil::find_byte(tail, 44, 0);
        match comma {
            Some(c) => {
                let tok = &tail[0..c];
                let ghost tl = cs.skip(start as int);
                proof {
                    assert(c as int == first_idx(tl, 44));
                    assert(tok@ == tl.take(c as int));
                    assert(tl.skip(c as int + 1) =~= cs.skip(start as int + c + 1));
                }
                let (dc, dr) = analyze_token(tok);
                proof {
                    if dc == 1 {
                        assert(tok@.len() > 0);
                    }
                }
                count = count + dc;
                has_range = has_range || dr;
                start = start + c + 1;
            },
            None => {
                let ghost tl = cs.skip(start as int);
                proof {
                    assert(first_idx(tl, 44) == tl.len());
                }
                let (dc, dr) = analyze_token(tail);
                count = count + dc;
                has_range = has_range || dr;
                return (count, has_range);
            },
        }
    }
}

fn analyze_token(t0: &[u8]) -> (r: (usize, bool))
    ensures
        r.0 as int == spec_analyze_token(t0@).0,
        r.1 == spec_analyze_token(t0@).1,
        r.0 <= 1,
        r.0 == 1 ==> t0@.len() > 0,
{
    proof {
        crate::bytesutil::lemma_trim_spec_subrange(t0@);
    }
    let t = crate::bytesutil::trim_bytes(t0);
    if t.len() == 0 {
        return (0, false);
    }
    let mut has_dash = false;
    let mut digits = true;
    let mut i: usize = 0;
    while i < t.len()
        invariant
            0 <= i <= t@.len(),
            has_dash == exists|j: int| 0 <= j < i && t@[j] == 45,
            digits == (forall|j: int| 0 <= j < i ==> is_ascii_digit_byte(t@[j])),
        decreases t.len() - i,
    {
        if t[i] == 45 {
            has_dash = true;
        }
        if !(48 <= t[i] && t[i] <= 57) {
            digits = false;
        }
        i = i + 1;
    }
    if has_dash {
        (1, true)
    } else if digits {
        (1, false)
    } else {
        (0, false)
    }
}

/// A `A-B` range token: exactly one dash, both sides ports, reordered when
/// reversed.
pub open spec fn spec_parse_range(t: Seq<u8>) -> Option<(u16, u16)> {
    let d = first_idx(t, 45);
    if d < t.len() && !crate::bytesutil::contains_byte(t.skip(d + 1), 45) {
        let a = t.take(d);
        let b = t.skip(d + 1);
        if parses_as_u16(a) && parses_as_u16(b) {
            let va = dec_value(unsigned_digits(a));
            let vb = dec_value(unsigned_digits(b));
            if va <= vb {
                Some((va as u16, vb as u16))
            } else {
                Some((vb as u16, va as u16))
            }
        } else {
            None
        }
    } else {
        None
    }
}

/// Parse a `A-B` port range token.
pub fn parse_range(token: &[u8]) -> (r: Option<(u16, u16)>)
    ensures
        r == spec_parse_range(token@),
{
    proof {
        lemma_first_idx(token@, 45);
    }
    let n = token.len();
    let d = match crate::bytesutil::find_byte(token, 45, 0) {
        Some(i) => {
            proof {
                assert(i as int == first_idx(token@, 45));
                assert(i < n);
            }
            i
        },
        None => {
            return None;
        },
    };
    let b_part = &token[d + 1..n];
    proof {
        assert(b_part@ =~= token@.skip(d as int + 1));
    }
    let mut k: usize = 0;
    while k < b_part.len()
        invariant
            0 <= k <= b_part@.len(),
            d as int == first_idx(token@, 45),
            d < token@.len(),
            b_part@ == token@.skip(d as int + 1),
            forall|j: int| 0 <= j < k ==> b_part@[j] != 45,
        decreases b_part.len() - k,
    {
        if b_part[k] == 45 {
            proof {
                assert(crate::bytesutil::contains_byte(token@.skip(d as int + 1), 45)) by {
                    assert(token@.skip(d as int + 1)[k as int] == 45);
                }
            }
            return None;
        }
        k = k + 1;
    }
    proof {
        assert(!crate::bytesutil::contains_byte(token@.skip(d as int + 1), 45)) by {
            if crate::bytesutil::contains_byte(token@.skip(d as int + 1), 45) {
                let p = choose|p: int|
                    0 <= p < token@.skip(d as int + 1).len() && (#[trigger] token@.skip(
                        d as int + 1,
                    )[p]) == 45;
                assert(b_part@[p] == 45);
            }
        }
    }
    match (parse_u16_bytes(&token[0..d]), parse_u16_bytes(b_part)) {
        (Some(a), Some(b)) => {
            if a <= b {
                Some((a, b))
            } else {
                Some((b, a))
            }
        },
        _ => None,
    }
}

} // verus!
