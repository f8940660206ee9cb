//! The library's own socket-address model: IPv4 or IPv6 address plus port,
//! held as plain bytes so that contracts can speak about every part of it.
//! The boundary code converts between these and the operating system's
//! socket addresses.
use vstd::prelude::*;

use crate::bytesutil::{ascii_chars, dec_repr, is_ascii_bytes, string_from_ascii, u64_to_dec};

verus! {

#[derive(Clone, Copy, Debug, PartialEq, Eq, Structural)]
pub enum IpAddrV {
    V4(u8, u8, u8, u8),
    V6(u16, u16, u16, u16, u16, u16, u16, u16),
}

#[derive(Clone, Copy, Debug, PartialEq, Eq, Structural)]
pub struct SockAddrV {
    pub ip: IpAddrV,
    pub port: u16,
}

impl IpAddrV {
    pub fn is_v4(&self) -> (r: bool)
        ensures
            r == (self is V4),
    {
        match self {
            IpAddrV::V4(..) => true,
            IpAddrV::V6(..) => false,
        }
    }
}

/// One lowercase hex digit.
pub open spec fn hex_digit(v: int) -> u8 {
    if v < 10 {
        (48 + v) as u8
    } else {
        (87 + v) as u8
    }
}

/// Four-digit zero-padded lowercase hex of a 16-bit group.
pub open spec fn hex4(v: u16) -> Seq<u8> {
    seq![
        hex_digit(v as int / 4096),
        hex_digit((v as int / 256) % 16),
        hex_digit((v as int / 16) % 16),
        hex_digit(v as int % 16),
    ]
}

/// The textual form of an IP address: dotted decimal for IPv4, bracketed
/// zero-padded hex groups for IPv6.
pub open spec fn ip_repr(ip: IpAddrV) -> Seq<u8> {
    match ip {
        IpAddrV::V4(o0, o1, o2, o3) => dec_repr(o0 as int) + seq![46u8] + dec_repr(o1 as int)
            + seq![46u8] + dec_repr(o2 as int) + seq![46u8] + dec_repr(o3 as int),
        IpAddrV::V6(g0, g1, g2, g3, g4, g5, g6, g7) => seq![91u8] + hex4(g0) + seq![58u8] + hex4(g1)
            + seq![58u8] + hex4(g2) + seq![58u8] + hex4(g3) + seq![58u8] + hex4(g4) + seq![58u8]
            + hex4(g5) + seq![58u8] + hex4(g6) + seq![58u8] + hex4(g7) + seq![93u8],
    }
}

/// The textual form of an address: the IP, a colon, the decimal port.
pub open spec fn addr_repr(a: SockAddrV) -> Seq<u8> {
    ip_repr(a.ip) + seq![58u8] + dec_repr(a.port as int)
}

fn push_dec(out: &mut Vec<u8>, v: u64)
    ensures
        final(out)@ == old(out)@ + dec_repr(v as int),
{
    let mut d = u64_to_dec(v);
    let mut i: usize = 0;
    while i < d.len()
        invariant
            0 <= i <= d@.len(),
            d@ == dec_repr(v as int),
            out@ == old(out)@ + d@.take(i as int),
        decreases d.len() - i,
    {
        out.push(d[i]);
        i = i + 1;
        proof {
            assert(old(out)@ + d@.take(i as int) =~= (old(out)@ + d@.take(i as int - 1)).push(
                d@[i as int - 1],
            ));
        }
    }
    proof {
        assert(d@.take(d@.len() as int) =~= d@);
    }
}

fn push_hex4(out: &mut Vec<u8>, v: u16)
    ensures
        final(out)@ == old(out)@ + hex4(v),
{
    let d0 = (v / 4096) as u8;
    let d1 = ((v / 256) % 16) as u8;
    let d2 = ((v / 16) % 16) as u8;
    let d3 = (v % 16) as u8;
    out.push(if d0 < 10 {
        48 + d0
    } else {
        87 + d0
    });
    out.push(if d1 < 10 {
        48 + d1
    } else {
        87 + d1
    });
    out.push(if d2 < 10 {
        48 + d2
    } else {
        87 + d2
    });
    out.push(if d3 < 10 {
        48 + d3
    } else {
        87 + d3
    });
    proof {
        assert(final(out)@ =~= old(out)@ + hex4(v));
    }
}

#[verifier::rlimit(100)]
fn push_ip(out: &mut Vec<u8>, ip: IpAddrV)
    ensures
        final(out)@ == old(out)@ + ip_repr(ip),
        forall|i: int| 0 <= i < ip_repr(ip).len() ==> ip_repr(ip)[i] < 128,
{
    match ip {
            IpAddrV::V4(o0, o1, o2, o3) => {
                push_dec(out, o0 as u64);
                out.push(46);
                push_dec(out, o1 as u64);
                out.push(46);
                push_dec(out, o2 as u64);
                out.push(46);
                push_dec(out, o3 as u64);
            },
            IpAddrV::V6(g0, g1, g2, g3, g4, g5, g6, g7) => {
                out.push(91);
                push_hex4(out, g0);
                out.push(58);
                push_hex4(out, g1);
                out.push(58);
                push_hex4(out, g2);
                out.push(58);
                push_hex4(out, g3);
                out.push(58);
                push_hex4(out, g4);
                out.push(58);
                push_hex4(out, g5);
                out.push(58);
                push_hex4(out, g6);
                out.push(58);
                push_hex4(out, g7);
                out.push(93);
            },
    }
    proof {
        assert(out@ =~= old(out)@ + ip_repr(ip));
        match ip {
            IpAddrV::V4(o0, o1, o2, o3) => {
                crate::bytesutil::lemma_dec_repr_ascii_pub(o0 as int);
                crate::bytesutil::lemma_dec_repr_ascii_pub(o1 as int);
                crate::bytesutil::lemma_dec_repr_ascii_pub(o2 as int);
                crate::bytesutil::lemma_dec_repr_ascii_pub(o3 as int);
            },
            IpAddrV::V6(..) => {},
        }
    }
}

impl IpAddrV {
    /// The textual form of the IP address alone.
    pub fn to_display(&self) -> (r: String)
        ensures
            r@ == ascii_chars(ip_repr(*self)),
    {
        let mut out: Vec<u8> = Vec::new();
        push_ip(&mut out, *self);
        proof {
            assert(is_ascii_bytes(out@));
        }
        string_from_ascii(out)
    }
}

impl SockAddrV {
    /// The textual `ip:port` form of the address.
    pub fn to_display(&self) -> (r: String)
        ensures
            r@ == ascii_chars(addr_repr(*self)),
    {
        let mut out: Vec<u8> = Vec::new();
        push_ip(&mut out, self.ip);
        out.push(58);
        push_dec(&mut out, self.port as u64);
        proof {
            assert(out@ =~= addr_repr(*self));
            crate::bytesutil::lemma_dec_repr_ascii_pub(self.port as int);
            assert(is_ascii_bytes(out@));
        }
        string_from_ascii(out)
    }
}

} // verus!
