//! SOCKS5 (RFC 1928) and user/password subnegotiation (RFC 1929) message
//! building and reply parsing.  The socket I/O around these messages lives
//! at the boundary; every byte that goes onto or comes off the wire is
//! specified here.
use vstd::prelude::*;
use vstd::string::StringSliceAdditionalSpecFns;

use crate::addr::{IpAddrV, SockAddrV};
use crate::bytesutil::utf8_bytes;

verus! {

/// Where a tunnel should lead: a literal address, or a name the SOCKS
/// server resolves remotely.
pub enum TargetAddr {
    Ip(SockAddrV),
    Domain(String, u16),
}

/// Everything that can go wrong in the SOCKS5 dialogue.
#[derive(Clone, Copy, Debug, PartialEq, Eq, Structural)]
pub enum SocksError {
    /// A domain name longer than 255 bytes cannot be sent.
    DomainTooLong,
    /// Username or password longer than 255 bytes cannot be sent.
    CredsTooLong,
    /// The peer answered with a version other than 5.
    InvalidVersion(u8),
    /// The server accepts none of the offered auth methods.
    NoAcceptableAuth,
    /// The server chose a method this client does not speak.
    UnsupportedAuthMethod(u8),
    /// User/password subnegotiation was rejected.
    AuthFailed,
    /// The server reported a non-zero CONNECT reply code.
    ConnectFailed(u8),
    /// The reply carried an unknown address type.
    UnknownAtyp(u8),
}

/// The greeting bytes: version 5, then the offered method list — always
/// no-auth, plus user/password when credentials are configured.
pub open spec fn spec_greeting(offer_userpass: bool) -> Seq<u8> {
    if offer_userpass {
        seq![5u8, 2u8, 0u8, 2u8]
    } else {
        seq![5u8, 1u8, 0u8]
    }
}

/// Build the initial greeting.
pub fn build_greeting(offer_userpass: bool) -> (r: Vec<u8>)
    ensures
        r@ == spec_greeting(offer_userpass),
{
    let mut out: Vec<u8> = Vec::new();
    out.push(5);
    if offer_userpass {
        out.push(2);
        out.push(0);
        out.push(2);
    } else {
        out.push(1);
        out.push(0);
    }
    proof {
        assert(out@ =~= spec_greeting(offer_userpass));
    }
    out
}

/// The authentication method selected by the server.
#[derive(Clone, Copy, Debug, PartialEq, Eq, Structural)]
pub enum AuthMethod {
    NoAuth,
    UserPass,
}

/// Interpret the two-byte greeting reply.
pub fn parse_greeting_reply(ver: u8, method: u8) -> (r: Result<AuthMethod, SocksError>)
    ensures
        ver != 5 ==> r == Result::<AuthMethod, SocksError>::Err(SocksError::InvalidVersion(ver)),
        ver == 5 && method == 0 ==> r == Result::<AuthMethod, SocksError>::Ok(AuthMethod::NoAuth),
        ver == 5 && method == 2 ==> r == Result::<AuthMethod, SocksError>::Ok(AuthMethod::UserPass),
        ver == 5 && method == 255 ==> r == Result::<AuthMethod, SocksError>::Err(
            SocksError::NoAcceptableAuth,
        ),
        ver == 5 && method != 0 && method != 2 && method != 255 ==> r == Result::<
            AuthMethod,
            SocksError,
        >::Err(SocksError::UnsupportedAuthMethod(method)),
{
    if ver != 5 {
        Err(SocksError::InvalidVersion(ver))
    } else if method == 0 {
        Ok(AuthMethod::NoAuth)
    } else if method == 2 {
        Ok(AuthMethod::UserPass)
    } else if method == 255 {
        Err(SocksError::NoAcceptableAuth)
    } else {
        Err(SocksError::UnsupportedAuthMethod(method))
    }
}

/// The RFC 1929 request: version 1, then the length-prefixed username and
/// password.
pub open spec fn spec_userpass_request(user: Seq<u8>, pass: Seq<u8>) -> Seq<u8> {
    seq![1u8, user.len() as u8] + user + seq![pass.len() as u8] + pass
}

/// Build the user/password subnegotiation request; fails exactly when
/// either credential exceeds 255 bytes.
pub fn build_userpass(user: &[u8], pass: &[u8]) -> (r: Result<Vec<u8>, SocksError>)
    ensures
        (r is Ok) <==> (user@.len() <= 255 && pass@.len() <= 255),
        r matches Ok(v) ==> v@ == spec_userpass_request(user@, pass@),
        r matches Err(e) ==> e == SocksError::CredsTooLong,
{
    if user.len() > 255 || pass.len() > 255 {
        return Err(SocksError::CredsTooLong);
    }
    let mut out: Vec<u8> = Vec::new();
    out.push(1);
    out.push(user.len() as u8);
    let mut i: usize = 0;
    while i < user.len()
        invariant
            0 <= i <= user@.len(),
            out@ == seq![1u8, user@.len() as u8] + user@.take(i as int),
        decreases user.len() - i,
    {
        out.push(user[i]);
        i = i + 1;
        proof {
            assert(seq![1u8, user@.len() as u8] + user@.take(i as int) =~= (seq![
                1u8,
                user@.len() as u8,
            ] + user@.take(i as int - 1)).push(user@[i as int - 1]));
        }
    }
    out.push(pass.len() as u8);
    let mut j: usize = 0;
    while j < pass.len()
        invariant
            0 <= j <= pass@.len(),
            out@ == seq![1u8, user@.len() as u8] + user@.take(user@.len() as int) + seq![
                pass@.len() as u8,
            ] + pass@.take(j as int),
        decreases pass.len() - j,
    {
        out.push(pass[j]);
        j = j + 1;
        proof {
            assert(seq![1u8, user@.len() as u8] + user@.take(user@.len() as int) + seq![
                pass@.len() as u8,
            ] + pass@.take(j as int) =~= (seq![1u8, user@.len() as u8] + user@.take(
                user@.len() as int,
            ) + seq![pass@.len() as u8] + pass@.take(j as int - 1)).push(pass@[j as int - 1]));
        }
    }
    proof {
        assert(user@.take(user@.len() as int) =~= user@);
        assert(pass@.take(pass@.len() as int) =~= pass@);
        assert(out@ =~= spec_userpass_request(user@, pass@));
    }
    Ok(out)
}

/// Interpret the two-byte auth reply: success is version 1, status 0.
pub fn parse_auth_reply(ver: u8, status: u8) -> (r: Result<(), SocksError>)
    ensures
        (r is Ok) <==> (ver == 1 && status == 0),
        r matches Err(e) ==> e == SocksError::AuthFailed,
{
    if ver == 1 && status == 0 {
        Ok(())
    } else {
        Err(SocksError::AuthFailed)
    }
}

/// The CONNECT request bytes for a target: header `5 1 0`, the address in
/// its typed encoding, then the port in network order.
pub open spec fn spec_connect_request(t: TargetAddr) -> Seq<u8> {
    match t {
        TargetAddr::Ip(sa) => {
            let addr = match sa.ip {
                IpAddrV::V4(o0, o1, o2, o3) => seq![1u8, o0, o1, o2, o3],
                IpAddrV::V6(g0, g1, g2, g3, g4, g5, g6, g7) => seq![
                    4u8,
                    (g0 >> 8) as u8,
                    g0 as u8,
                    (g1 >> 8) as u8,
                    g1 as u8,
                    (g2 >> 8) as u8,
                    g2 as u8,
                    (g3 >> 8) as u8,
                    g3 as u8,
                    (g4 >> 8) as u8,
                    g4 as u8,
                    (g5 >> 8) as u8,
                    g5 as u8,
                    (g6 >> 8) as u8,
                    g6 as u8,
                    (g7 >> 8) as u8,
                    g7 as u8,
                ],
            };
            seq![5u8, 1u8, 0u8] + addr + seq![(sa.port >> 8) as u8, sa.port as u8]
        },
        TargetAddr::Domain(host, port) => seq![5u8, 1u8, 0u8, 3u8, utf8_bytes(host@).len() as u8]
            + utf8_bytes(host@) + seq![(port >> 8) as u8, port as u8],
    }
}

/// Build the CONNECT request; fails exactly when a domain target's UTF-8
/// form exceeds 255 bytes.
pub fn encode_connect_request(t: &TargetAddr) -> (r: Result<Vec<u8>, SocksError>)
    ensures
        (r is Ok) <==> (match *t {
            TargetAddr::Ip(_) => true,
            TargetAddr::Domain(h, _) => utf8_bytes(h@).len() <= 255,
        }),
        r matches Ok(v) ==> v@ == spec_connect_request(*t),
        r matches Err(e) ==> e == SocksError::DomainTooLong,
{
    let mut out: Vec<u8> = Vec::new();
    out.push(5);
    out.push(1);
    out.push(0);
    match t {
        TargetAddr::Ip(sa) => {
            match sa.ip {
                IpAddrV::V4(o0, o1, o2, o3) => {
                    out.push(1);
                    out.push(o0);
                    out.push(o1);
                    out.push(o2);
                    out.push(o3);
                },
                IpAddrV::V6(g0, g1, g2, g3, g4, g5, g6, g7) => {
                    out.push(4);
                    out.push((g0 >> 8) as u8);
                    out.push(g0 as u8);
                    out.push((g1 >> 8) as u8);
                    out.push(g1 as u8);
                    out.push((g2 >> 8) as u8);
                    out.push(g2 as u8);
                    out.push((g3 >> 8) as u8);
                    out.push(g3 as u8);
                    out.push((g4 >> 8) as u8);
                    out.push(g4 as u8);
                    out.push((g5 >> 8) as u8);
                    out.push(g5 as u8);
                    out.push((g6 >> 8) as u8);
                    out.push(g6 as u8);
                    out.push((g7 >> 8) as u8);
                    out.push(g7 as u8);
                },
            }
            out.push((sa.port >> 8) as u8);
            out.push(sa.port as u8);
            proof {
                assert(out@ =~= spec_connect_request(*t));
            }
            Ok(out)
        },
        TargetAddr::Domain(host, port) => {
            let hb = host.as_str().as_bytes();
            if hb.len() > 255 {
                return Err(SocksError::DomainTooLong);
            }
            out.push(3);
            out.push(hb.len() as u8);
            let mut i: usize = 0;
            while i < hb.len()
                invariant
                    0 <= i <= hb@.len(),
                    hb@.len() <= 255,
                    out@ == seq![5u8, 1u8, 0u8, 3u8, hb@.len() as u8] + hb@.take(i as int),
                decreases hb.len() - i,
            {
                out.push(hb[i]);
                i = i + 1;
                proof {
                    assert(seq![5u8, 1u8, 0u8, 3u8, hb@.len() as u8] + hb@.take(i as int) =~= (seq![
                        5u8,
                        1u8,
                        0u8,
                        3u8,
                        hb@.len() as u8,
                    ] + hb@.take(i as int - 1)).push(hb@[i as int - 1]));
                }
            }
            let p = *port;
            out.push((p >> 8) as u8);
            out.push(p as u8);
            proof {
                assert(hb@.take(hb@.len() as int) =~= hb@);
                assert(out@ =~= spec_connect_request(*t));
            }
            Ok(out)
        },
    }
}

/// Interpret the four-byte CONNECT reply header; on success returns the
/// address type whose bound address follows.
pub fn parse_reply_header(ver: u8, rep: u8, atyp: u8) -> (r: Result<u8, SocksError>)
    ensures
        ver != 5 ==> r == Result::<u8, SocksError>::Err(SocksError::InvalidVersion(ver)),
        ver == 5 && rep != 0 ==> r == Result::<u8, SocksError>::Err(SocksError::ConnectFailed(rep)),
        ver == 5 && rep == 0 && (atyp == 1 || atyp == 3 || atyp == 4) ==> r == Result::<
            u8,
            SocksError,
        >::Ok(atyp),
        ver == 5 && rep == 0 && !(atyp == 1 || atyp == 3 || atyp == 4) ==> r == Result::<
            u8,
            SocksError,
        >::Err(SocksError::UnknownAtyp(atyp)),
{
    if ver != 5 {
        Err(SocksError::InvalidVersion(ver))
    } else if rep != 0 {
        Err(SocksError::ConnectFailed(rep))
    } else if atyp == 1 || atyp == 3 || atyp == 4 {
        Ok(atyp)
    } else {
        Err(SocksError::UnknownAtyp(atyp))
    }
}

/// How many bytes of bound address and port remain to be consumed after the
/// reply header: 4+2 for IPv4, 16+2 for IPv6, and for a domain one length
/// byte has been read and `len + 2` bytes follow.
pub fn bound_addr_remaining(atyp: u8, domain_len: u8) -> (r: usize)
    requires
        atyp == 1 || atyp == 3 || atyp == 4,
    ensures
        atyp == 1 ==> r == 6,
        atyp == 4 ==> r == 18,
        atyp == 3 ==> r == domain_len + 2,
{
    if atyp == 1 {
        6
    } else if atyp == 4 {
        18
    } else {
        (domain_len as usize) + 2
    }
}

} // verus!
