//! Best-effort extraction of the destination host from the first bytes of a
//! client stream: HTTP CONNECT request lines, plain HTTP `Host:` headers,
//! and TLS ClientHello server-name extensions.  Every recognizer is a pure
//! function of the peeked bytes, specified byte for byte.
use vstd::prelude::*;
use vstd::string::StringSliceAdditionalSpecFns;

use crate::bytesutil::{
    all_digits, ascii_chars, ascii_lower_seq, first_ws_idx, is_ascii_bytes, last_idx,
    lemma_first_ws_idx,
    lemma_last_idx, starts_with, starts_with_spec, string_from_ascii, to_lower, trim_bytes,
    trim_end_eq, trim_end_eq_spec, trim_eq, trim_eq_spec, trim_spec,
};

verus! {

/// What kind of evidence produced the sniffed host.
pub enum SniffResult {
    /// Plain HTTP request with a Host header.
    HttpHost(String),
    /// HTTP CONNECT request (proxy-style).
    ConnectHost(String),
    /// TLS ClientHello with a server name.
    TlsSni(String),
}

/// Position of the first CRLF pair, or `-1` when there is none.
pub open spec fn first_crlf(s: Seq<u8>) -> int
    decreases s.len(),
{
    if s.len() < 2 {
        -1
    } else if s[0] == 13 && s[1] == 10 {
        0
    } else if first_crlf(s.skip(1)) < 0 {
        -1
    } else {
        1 + first_crlf(s.skip(1))
    }
}

pub proof fn lemma_first_crlf(s: Seq<u8>)
    ensures
        -1 <= first_crlf(s) <= s.len() - 2 || s.len() < 2,
        first_crlf(s) >= 0 ==> first_crlf(s) + 1 < s.len() && s[first_crlf(s)] == 13 && s[first_crlf(
            s,
        ) + 1] == 10,
        forall|j: int| 0 <= j < first_crlf(s) ==> !((#[trigger] s[j]) == 13 && s[j + 1] == 10),
        first_crlf(s) < 0 ==> forall|j: int| 0 <= j && j + 1 < s.len() ==> !((#[trigger] s[j]) == 13 && s[j + 1] == 10),
    decreases s.len(),
{
    if s.len() >= 2 && !(s[0] == 13 && s[1] == 10) {
        lemma_first_crlf(s.skip(1));
        assert forall|j: int| 0 <= j < first_crlf(s) implies !((#[trigger] s[j]) == 13 && s[j + 1] == 10) by {
            if j > 0 {
                assert(s.skip(1)[j - 1] == s[j]);
                assert(s.skip(1)[j] == s[j + 1]);
            }
        }
        if first_crlf(s) >= 0 {
            assert(s.skip(1)[first_crlf(s) - 1] == s[first_crlf(s)]);
            assert(s.skip(1)[first_crlf(s)] == s[first_crlf(s) + 1]);
        }
        if first_crlf(s) < 0 {
            assert forall|j: int| 0 <= j && j + 1 < s.len() implies !((#[trigger] s[j]) == 13 && s[j + 1] == 10) by {
                if j > 0 {
                    assert(s.skip(1)[j - 1] == s[j]);
                    assert(s.skip(1)[j] == s[j + 1]);
                }
            }
        }
    }
}

fn find_crlf(s: &[u8]) -> (r: Option<usize>)
    ensures
        match r {
            Some(i) => i == first_crlf(s@),
            None => first_crlf(s@) < 0,
        },
{
    proof {
        lemma_first_crlf(s@);
    }
    if s.len() < 2 {
        return None;
    }
    let mut i: usize = 0;
    while i + 1 < s.len()
        invariant
            0 <= i && i + 1 <= s@.len(),
            forall|j: int| 0 <= j < i ==> !((#[trigger] s@[j]) == 13 && s@[j + 1] == 10),
        decreases s.len() - i,
    {
        if s[i] == 13 && s[i + 1] == 10 {
            proof {
                lemma_first_crlf(s@);
            }
            return Some(i);
        }
        i = i + 1;
    }
    proof {
        lemma_first_crlf(s@);
    }
    None
}

/// A byte a request line may hold: printable ASCII, space or tab.
pub open spec fn is_line_byte(b: u8) -> bool {
    (33 <= b && b <= 126) || b == 32 || b == 9
}

pub open spec fn line_ok(line: Seq<u8>) -> bool {
    line.len() > 0 && forall|i: int| 0 <= i < line.len() ==> is_line_byte(line[i])
}

/// The first line of the buffer: up to the first CRLF, else the first 512
/// bytes; `None` when empty or not printable ASCII.
pub open spec fn spec_first_line(s: Seq<u8>) -> Option<Seq<u8>> {
    let e = if first_crlf(s) >= 0 {
        first_crlf(s)
    } else if s.len() < 512 {
        s.len() as int
    } else {
        512
    };
    let line = s.take(e);
    if line_ok(line) {
        Some(line)
    } else {
        None
    }
}

fn first_line(s: &[u8]) -> (r: Option<&[u8]>)
    ensures
        match r {
            Some(l) => spec_first_line(s@) == Some(l@),
            None => spec_first_line(s@) is None,
        },
{
    let e: usize = match find_crlf(s) {
        Some(i) => i,
        None => {
            if s.len() < 512 {
                s.len()
            } else {
                512
            }
        },
    };
    proof {
        lemma_first_crlf(s@);
    }
    let line = &s[0..e];
    if line.len() == 0 {
        return None;
    }
    proof {
        assert(line@ == s@.take(e as int));
    }
    let mut i: usize = 0;
    while i < line.len()
        invariant
            0 <= i <= line@.len(),
            line@.len() > 0,
            forall|j: int| 0 <= j < i ==> is_line_byte(line@[j]),
            line_ok(line@) ==> spec_first_line(s@) == Some(line@),
            !line_ok(line@) ==> spec_first_line(s@) is None,
        decreases line.len() - i,
    {
        let b = line[i];
        if !((33 <= b && b <= 126) || b == 32 || b == 9) {
            return None;
        }
        i = i + 1;
    }
    Some(line)
}

/// The sequence with every leading copy of `p` removed.
pub open spec fn strip_all(s: Seq<u8>, p: Seq<u8>) -> Seq<u8>
    decreases s.len(),
{
    if p.len() == 0 || !starts_with_spec(s, p) {
        s
    } else {
        strip_all(s.skip(p.len() as int), p)
    }
}

/// The host named by a CONNECT request line, after stripping the method,
/// taking the first token, dropping the port after the last colon, peeling
/// brackets, trimming and lowercasing; `None` when absent or empty.
pub open spec fn spec_sniff_connect(s: Seq<u8>) -> Option<Seq<u8>> {
    match spec_first_line(s) {
        None => None,
        Some(line) => {
            if !starts_with_spec(line, "CONNECT ".spec_bytes()) {
                None
            } else {
                let rest = strip_all(line, "CONNECT ".spec_bytes());
                let t0 = crate::bytesutil::leading_ws(rest);
                let rest2 = rest.skip(t0);
                let target = rest2.take(first_ws_idx(rest2));
                if target.len() == 0 {
                    None
                } else {
                    let li = last_idx(target, 58);
                    let host0 = if li >= 0 {
                        target.take(li)
                    } else {
                        target
                    };
                    let host1 = trim_eq_spec(trim_eq_spec(host0, 91), 93);
                    let host2 = ascii_lower_seq(trim_spec(host1));
                    if host2.len() == 0 {
                        None
                    } else {
                        Some(host2)
                    }
                }
            }
        },
    }
}

fn sniff_connect(s: &[u8]) -> (r: Option<Vec<u8>>)
    ensures
        match r {
            Some(h) => spec_sniff_connect(s@) == Some(h@) && is_ascii_bytes(h@),
            None => spec_sniff_connect(s@) is None,
        },
{
    let line = match first_line(s) {
        Some(l) => l,
        None => {
            return None;
        },
    };
    if !starts_with(line, "CONNECT ".as_bytes()) {
        return None;
    }
    let mut cur: &[u8] = line;
    while cur.len() >= 8 && starts_with(cur, "CONNECT ".as_bytes())
        invariant
            strip_all(line@, "CONNECT ".spec_bytes()) == strip_all(cur@, "CONNECT ".spec_bytes()),
            forall|i: int| 0 <= i < cur@.len() ==> is_line_byte(cur@[i]),
        decreases cur.len(),
    {
        proof {
            assert("CONNECT ".spec_bytes().len() == 8) by {
                reveal_strlit("CONNECT ");
                vstd::utf8::is_ascii_chars_encode_utf8("CONNECT "@);
            }
        }
        let next = &cur[8..cur.len()];
        proof {
            assert(next@ == cur@.skip(8));
            assert forall|i: int| 0 <= i < next@.len() implies is_line_byte(next@[i]) by {
                assert(next@[i] == cur@[i + 8]);
            }
        }
        cur = next;
    }
    proof {
        assert("CONNECT ".spec_bytes().len() == 8) by {
            reveal_strlit("CONNECT ");
            vstd::utf8::is_ascii_chars_encode_utf8("CONNECT "@);
        }
        assert(!starts_with_spec(cur@, "CONNECT ".spec_bytes()));
        assert(strip_all(cur@, "CONNECT ".spec_bytes()) == cur@);
    }
    let rest = cur;
    let t0 = crate::bytesutil::ws_prefix_len(rest);
    proof {
        crate::bytesutil::lemma_leading_ws_bound(rest@);
    }
    let rest2 = &rest[t0..rest.len()];
    let tend = ws_token_end(rest2);
    proof {
        lemma_first_ws_idx(rest2@);
    }
    let target = &rest2[0..tend];
    if target.len() == 0 {
        return None;
    }
    proof {
        lemma_last_idx(target@, 58);
    }
    let li = rfind_colon(target);
    let host0: &[u8] = match li {
        Some(i) => &target[0..i],
        None => target,
    };
    let host1 = trim_eq(trim_eq(host0, 91), 93);
    let host2 = to_lower(trim_bytes(host1));
    if host2.len() == 0 {
        return None;
    }
    proof {
        assert forall|i: int| 0 <= i < host2@.len() implies host2@[i] < 128 by {
            let t = trim_spec(host1@);
            assert(host2@[i] == crate::bytesutil::ascii_lower_byte(t[i]));
            lemma_trim_subrange_line(rest@, rest2@, target@, host0@, host1@, t, i);
        }
    }
    Some(host2)
}

/// Every byte of the successive trims and cuts comes from the original
/// line, whose bytes are printable ASCII.
proof fn lemma_trim_subrange_line(
    rest: Seq<u8>,
    rest2: Seq<u8>,
    target: Seq<u8>,
    host0: Seq<u8>,
    host1: Seq<u8>,
    t: Seq<u8>,
    i: int,
)
    requires
        forall|j: int| 0 <= j < rest.len() ==> is_line_byte(rest[j]),
        rest2 == rest.skip(crate::bytesutil::leading_ws(rest)),
        target == rest2.take(first_ws_idx(rest2)),
        host0 == target || (last_idx(target, 58) >= 0 && host0 == target.take(
            last_idx(target, 58),
        )),
        host1 == trim_eq_spec(trim_eq_spec(host0, 91), 93),
        t == trim_spec(host1),
        0 <= i < t.len(),
    ensures
        t[i] < 128,
{
    let lw = crate::bytesutil::leading_ws(rest);
    crate::bytesutil::lemma_leading_ws_bound(rest);
    lemma_first_ws_idx(rest2);
    lemma_last_idx(target, 58);
    let h91 = trim_eq_spec(host0, 91);
    crate::bytesutil::lemma_trim_eq_subrange(host0, 91);
    crate::bytesutil::lemma_trim_eq_subrange(h91, 93);
    crate::bytesutil::lemma_trim_spec_subrange(host1);
    assert(is_line_byte(t[i])) by {
        let i1 = crate::bytesutil::trim_spec_offset(host1) + i;
        assert(t[i] == host1[i1]);
        let i2 = crate::bytesutil::trim_eq_offset(h91, 93) + i1;
        assert(host1[i1] == h91[i2]);
        let i3 = crate::bytesutil::trim_eq_offset(host0, 91) + i2;
        assert(h91[i2] == host0[i3]);
        assert(host0[i3] == target[i3]);
        assert(target[i3] == rest2[i3]);
        assert(rest2[i3] == rest[i3 + lw]);
    }
}

fn ws_token_end(s: &[u8]) -> (r: usize)
    ensures
        r == first_ws_idx(s@),
{
    proof {
        lemma_first_ws_idx(s@);
    }
    let mut i: usize = 0;
    while i < s.len() && !crate::bytesutil::is_ws(s[i])
        invariant
            0 <= i <= s@.len(),
            forall|j: int| 0 <= j < i ==> !crate::bytesutil::is_ascii_ws(s@[j]),
        decreases s.len() - i,
    {
        i = i + 1;
    }
    proof {
        lemma_first_ws_idx(s@);
    }
    i
}

/// Relies on `std::str::from_utf8`: it succeeds exactly on valid UTF-8.
#[verifier::external_body]
fn utf8_ok(b: &[u8]) -> (r: bool)
    ensures
        r == vstd::utf8::valid_utf8(b@),
{
    std::str::from_utf8(b).is_ok()
}

/// The host carried by a `Host:` header value: trimmed and lowercased, the
/// port after the last colon dropped when it is all digits; only ASCII
/// hosts are reported.
pub open spec fn spec_host_value(v: Seq<u8>) -> Option<Seq<u8>> {
    let h0 = ascii_lower_seq(trim_spec(v));
    if h0.len() == 0 {
        None
    } else {
        let li = last_idx(h0, 58);
        let h = if li >= 0 && all_digits(h0.skip(li + 1)) {
            h0.take(li)
        } else {
            h0
        };
        if is_ascii_bytes(h) {
            Some(h)
        } else {
            None
        }
    }
}

fn host_value(v: &[u8]) -> (r: Option<Vec<u8>>)
    ensures
        match r {
            Some(h) => spec_host_value(v@) == Some(h@) && is_ascii_bytes(h@),
            None => spec_host_value(v@) is None,
        },
{
    let h0 = to_lower(trim_bytes(v));
    if h0.len() == 0 {
        return None;
    }
    proof {
        lemma_last_idx(h0@, 58);
    }
    let li = rfind_colon(h0.as_slice());
    let stripped: bool = match li {
        Some(i) => all_digits_exec(&h0.as_slice()[i + 1..h0.len()]),
        None => false,
    };
    let h: Vec<u8> = match (li, stripped) {
        (Some(i), true) => {
            let mut out: Vec<u8> = Vec::new();
            let mut k: usize = 0;
            while k < i
                invariant
                    0 <= k <= i <= h0@.len(),
                    out@ == h0@.take(k as int),
                decreases i - k,
            {
                out.push(h0[k]);
                k = k + 1;
                proof {
                    assert(h0@.take(k as int) =~= h0@.take(k as int - 1).push(h0@[k as int - 1]));
                }
            }
            out
        },
        _ => h0,
    };
    let mut q: usize = 0;
    while q < h.len()
        invariant
            0 <= q <= h@.len(),
            forall|j: int| 0 <= j < q ==> h@[j] < 128,
            spec_host_value(v@) == (if is_ascii_bytes(h@) {
                Some(h@)
            } else {
                None::<Seq<u8>>
            }),
        decreases h.len() - q,
    {
        if h[q] >= 128 {
            return None;
        }
        q = q + 1;
    }
    Some(h)
}

fn all_digits_exec(s: &[u8]) -> (r: bool)
    ensures
        r == all_digits(s@),
{
    let mut i: usize = 0;
    while i < s.len()
        invariant
            0 <= i <= s@.len(),
            forall|j: int| 0 <= j < i ==> crate::bytesutil::is_ascii_digit_byte(s@[j]),
        decreases s.len() - i,
    {
        if !(48 <= s[i] && s[i] <= 57) {
            return false;
        }
        i = i + 1;
    }
    true
}

/// The header scan: up to `fuel` CRLF-separated lines starting at `i`; an
/// empty line or a missing next line ends the scan, a `Host:` line yields
/// its value.
pub open spec fn scan_headers(s: Seq<u8>, i: int, fuel: int) -> Option<Seq<u8>>
    decreases fuel,
{
    if fuel <= 0 {
        None
    } else {
        let rel = first_crlf(s.skip(i));
        let seg = if rel >= 0 {
            s.skip(i).take(rel)
        } else {
            s.skip(i)
        };
        if seg.len() == 0 {
            None
        } else if starts_with_spec(seg, "Host:".spec_bytes()) {
            spec_host_value(seg.skip(5))
        } else if rel >= 0 {
            scan_headers(s, i + rel + 2, fuel - 1)
        } else {
            None
        }
    }
}

fn scan_headers_exec(s: &[u8], i: usize, fuel: u32) -> (r: Option<Vec<u8>>)
    requires
        i <= s@.len(),
    ensures
        match r {
            Some(h) => scan_headers(s@, i as int, fuel as int) == Some(h@) && is_ascii_bytes(h@),
            None => scan_headers(s@, i as int, fuel as int) is None,
        },
    decreases fuel,
{
    if fuel == 0 {
        return None;
    }
    let tail = &s[i..s.len()];
    let rel = find_crlf(tail);
    let seg: &[u8] = match rel {
        Some(p) => {
            proof {
                lemma_first_crlf(tail@);
            }
            &tail[0..p]
        },
        None => tail,
    };
    if seg.len() == 0 {
        return None;
    }
    if starts_with(seg, "Host:".as_bytes()) {
        proof {
            assert("Host:".spec_bytes().len() == 5) by {
                reveal_strlit("Host:");
                vstd::utf8::is_ascii_chars_encode_utf8("Host:"@);
            }
        }
        return host_value(&seg[5..seg.len()]);
    }
    match rel {
        Some(p) => {
            proof {
                lemma_first_crlf(tail@);
            }
            scan_headers_exec(s, i + p + 2, fuel - 1)
        },
        None => None,
    }
}

/// The host named by a plain HTTP request: a recognized method line, a
/// fully UTF-8 buffer, and a `Host:` header found within the first
/// sixty-four header lines.
pub open spec fn spec_sniff_http_host(s: Seq<u8>) -> Option<Seq<u8>> {
    match spec_first_line(s) {
        None => None,
        Some(line) => {
            if !(starts_with_spec(line, "GET ".spec_bytes()) || starts_with_spec(
                line,
                "POST ".spec_bytes(),
            ) || starts_with_spec(line, "HEAD ".spec_bytes()) || starts_with_spec(
                line,
                "PUT ".spec_bytes(),
            ) || starts_with_spec(line, "DELETE ".spec_bytes()) || starts_with_spec(
                line,
                "OPTIONS ".spec_bytes(),
            ) || starts_with_spec(line, "PATCH ".spec_bytes())) {
                None
            } else if !vstd::utf8::valid_utf8(s) {
                None
            } else if first_crlf(s) < 0 {
                None
            } else {
                scan_headers(s, first_crlf(s) + 2, 64)
            }
        },
    }
}

fn sniff_http_host(s: &[u8]) -> (r: Option<Vec<u8>>)
    ensures
        match r {
            Some(h) => spec_sniff_http_host(s@) == Some(h@) && is_ascii_bytes(h@),
            None => spec_sniff_http_host(s@) is None,
        },
{
    let line = match first_line(s) {
        Some(l) => l,
        None => {
            return None;
        },
    };
    let is_method = starts_with(line, "GET ".as_bytes()) || starts_with(line, "POST ".as_bytes())
        || starts_with(line, "HEAD ".as_bytes()) || starts_with(line, "PUT ".as_bytes())
        || starts_with(line, "DELETE ".as_bytes()) || starts_with(line, "OPTIONS ".as_bytes())
        || starts_with(line, "PATCH ".as_bytes());
    if !is_method {
        return None;
    }
    if !utf8_ok(s) {
        return None;
    }
    let n = s.len();
    proof {
        lemma_first_crlf(s@);
    }
    match find_crlf(s) {
        Some(p) => {
            proof {
                assert(p + 2 <= n);
            }
            scan_headers_exec(s, p + 2, 64)
        },
        None => None,
    }
}

/// The ClientHello server-name scan over one extension block.
pub open spec fn scan_names(s: Seq<u8>, j: int, list_end: int) -> Option<Seq<u8>>
    decreases list_end - j,
{
    if j + 3 > list_end {
        None
    } else {
        let nt = s[j];
        let nl = s[j + 1] * 256 + s[j + 2];
        let j2 = j + 3;
        if j2 + nl > list_end {
            None
        } else if nt == 0 {
            let name = s.subrange(j2, j2 + nl);
            let h = ascii_lower_seq(trim_end_eq_spec(trim_spec(name), 46));
            if is_ascii_bytes(name) && h.len() > 0 {
                Some(h)
            } else {
                scan_names(s, j2 + nl, list_end)
            }
        } else {
            scan_names(s, j2 + nl, list_end)
        }
    }
}

/// The ClientHello extension walk: server-name extensions are searched for
/// a usable name; other extensions are skipped.
pub open spec fn scan_exts(s: Seq<u8>, i: int, end: int) -> Option<Seq<u8>>
    decreases end - i,
{
    if i + 4 > end {
        None
    } else {
        let et = s[i] * 256 + s[i + 1];
        let el = s[i + 2] * 256 + s[i + 3];
        let i2 = i + 4;
        if i2 + el > end {
            None
        } else if et == 0 {
            if el < 2 {
                None
            } else {
                let ll = s[i2] * 256 + s[i2 + 1];
                let j0 = i2 + 2;
                let list_end = if j0 + ll < i2 + el {
                    j0 + ll
                } else {
                    i2 + el
                };
                match scan_names(s, j0, list_end) {
                    Some(h) => Some(h),
                    None => scan_exts(s, i2 + el, end),
                }
            }
        } else {
            scan_exts(s, i2 + el, end)
        }
    }
}

fn scan_names_exec(s: &[u8], j: usize, list_end: usize) -> (r: Option<Vec<u8>>)
    requires
        j <= s@.len(),
        list_end <= s@.len(),
    ensures
        match r {
            Some(h) => scan_names(s@, j as int, list_end as int) == Some(h@) && is_ascii_bytes(h@),
            None => scan_names(s@, j as int, list_end as int) is None,
        },
    decreases list_end - j,
{
    if j > list_end || list_end - j < 3 {
        return None;
    }
    let nt = s[j];
    let nl: usize = (s[j + 1] as usize) * 256 + (s[j + 2] as usize);
    let j2 = j + 3;
    if nl > list_end - j2 {
        return None;
    }
    if nt == 0 {
        let name = &s[j2..j2 + nl];
        let h = to_lower(trim_end_eq(trim_bytes(name), 46));
        let mut name_ascii = true;
        let mut q: usize = 0;
        while q < name.len()
            invariant
                0 <= q <= name@.len(),
                name_ascii == (forall|p: int| 0 <= p < q ==> name@[p] < 128),
            decreases name.len() - q,
        {
            if name[q] >= 128 {
                name_ascii = false;
            }
            q = q + 1;
        }
        if name_ascii && h.len() > 0 {
            proof {
                assert(is_ascii_bytes(h@)) by {
                    crate::bytesutil::lemma_trim_spec_subrange(name@);
                    crate::bytesutil::lemma_trailing_eq_bound(trim_spec(name@), 46);
                    assert forall|p: int| 0 <= p < h@.len() implies h@[p] < 128 by {
                        let t = trim_end_eq_spec(trim_spec(name@), 46);
                        assert(h@[p] == crate::bytesutil::ascii_lower_byte(t[p]));
                        assert(t[p] == trim_spec(name@)[p]);
                        assert(trim_spec(name@)[p] == name@[crate::bytesutil::trim_spec_offset(
                            name@,
                        ) + p]);
                    }
                }
            }
            Some(h)
        } else {
            scan_names_exec(s, j2 + nl, list_end)
        }
    } else {
        scan_names_exec(s, j2 + nl, list_end)
    }
}

fn scan_exts_exec(s: &[u8], i: usize, end: usize) -> (r: Option<Vec<u8>>)
    requires
        i <= s@.len(),
        end <= s@.len(),
    ensures
        match r {
            Some(h) => scan_exts(s@, i as int, end as int) == Some(h@) && is_ascii_bytes(h@),
            None => scan_exts(s@, i as int, end as int) is None,
        },
    decreases end - i,
{
    if i > end || end - i < 4 {
        return None;
    }
    let et: usize = (s[i] as usize) * 256 + (s[i + 1] as usize);
    let el: usize = (s[i + 2] as usize) * 256 + (s[i + 3] as usize);
    let i2 = i + 4;
    if el > end - i2 {
        return None;
    }
    if et == 0 {
        if el < 2 {
            return None;
        }
        let ll: usize = (s[i2] as usize) * 256 + (s[i2 + 1] as usize);
        let j0 = i2 + 2;
        let list_end: usize = if ll < el - 2 {
            j0 + ll
        } else {
            i2 + el
        };
        proof {
            assert(list_end as int == (if j0 + ll < i2 + el {
                j0 as int + ll
            } else {
                i2 as int + el
            }));
        }
        match scan_names_exec(s, j0, list_end) {
            Some(h) => Some(h),
            None => scan_exts_exec(s, i2 + el, end),
        }
    } else {
        scan_exts_exec(s, i2 + el, end)
    }
}

/// The server name of a TLS ClientHello: a full handshake record is walked
/// — record header, handshake header, session id, cipher suites,
/// compression methods — down to the extensions, where the first usable
/// server name wins.
pub open spec fn spec_sniff_tls_sni(s: Seq<u8>) -> Option<Seq<u8>> {
    let n = s.len() as int;
    if n < 5 {
        None
    } else if s[0] != 0x16 {
        None
    } else if s[1] != 0x03 {
        None
    } else if n < 5 + s[3] * 256 + s[4] {
        None
    } else if 9 > n {
        None
    } else if s[5] != 0x01 {
        None
    } else if 9 + s[6] * 65536 + s[7] * 256 + s[8] > n {
        None
    } else if 43 > n {
        None
    } else if 44 > n {
        None
    } else {
        let i2 = 44 + s[43];
        if i2 + 2 > n {
            None
        } else {
            let i3 = i2 + 2 + s[i2] * 256 + s[i2 + 1];
            if i3 + 1 > n {
                None
            } else {
                let i4 = i3 + 1 + s[i3];
                if i4 + 2 > n {
                    None
                } else {
                    let el = s[i4] * 256 + s[i4 + 1];
                    let i5 = i4 + 2;
                    if i5 + el > n {
                        None
                    } else {
                        scan_exts(s, i5, i5 + el)
                    }
                }
            }
        }
    }
}

fn sniff_tls_sni(s: &[u8]) -> (r: Option<Vec<u8>>)
    ensures
        match r {
            Some(h) => spec_sniff_tls_sni(s@) == Some(h@) && is_ascii_bytes(h@),
            None => spec_sniff_tls_sni(s@) is None,
        },
{
    let n = s.len();
    if n < 5 {
        return None;
    }
    if s[0] != 0x16 {
        return None;
    }
    if s[1] != 0x03 {
        return None;
    }
    let rec_len: usize = (s[3] as usize) * 256 + (s[4] as usize);
    if n < 5 || rec_len > n - 5 {
        return None;
    }
    if n < 9 {
        return None;
    }
    if s[5] != 0x01 {
        return None;
    }
    let hs_len: usize = (s[6] as usize) * 65536 + (s[7] as usize) * 256 + (s[8] as usize);
    if hs_len > n - 9 {
        return None;
    }
    if n < 43 || n < 44 {
        return None;
    }
    let sid = s[43] as usize;
    let i2 = 44 + sid;
    if i2 + 2 > n {
        return None;
    }
    let cs: usize = (s[i2] as usize) * 256 + (s[i2 + 1] as usize);
    if cs > n - i2 - 2 {
        proof {
            assert(i2 as int + 2 + s@[i2 as int] * 256 + s@[i2 as int + 1] + 1 > n);
        }
        return None;
    }
    let i3 = i2 + 2 + cs;
    if i3 + 1 > n {
        return None;
    }
    let comp = s[i3] as usize;
    if comp > n - i3 - 1 {
        proof {
            assert(i3 as int + 1 + s@[i3 as int] + 2 > n);
        }
        return None;
    }
    let i4 = i3 + 1 + comp;
    if i4 + 2 > n {
        return None;
    }
    let el: usize = (s[i4] as usize) * 256 + (s[i4 + 1] as usize);
    let i5 = i4 + 2;
    if el > n - i5 {
        return None;
    }
    scan_exts_exec(s, i5, i5 + el)
}

/// Best-effort host sniffing on the first bytes of a stream: CONNECT
/// request lines win, then plain HTTP `Host:` headers, then TLS server
/// names; an empty buffer yields nothing.
pub fn sniff_host(buf: &[u8]) -> (r: Option<SniffResult>)
    ensures
        buf@.len() == 0 ==> r is None,
        buf@.len() > 0 ==> match r {
            Some(SniffResult::ConnectHost(h)) => spec_sniff_connect(buf@) matches Some(b) && h@
                == ascii_chars(b),
            Some(SniffResult::HttpHost(h)) => spec_sniff_connect(buf@) is None && (
            spec_sniff_http_host(buf@) matches Some(b) && h@ == ascii_chars(b)),
            Some(SniffResult::TlsSni(h)) => spec_sniff_connect(buf@) is None
                && spec_sniff_http_host(buf@) is None && (spec_sniff_tls_sni(buf@) matches Some(b)
                && h@ == ascii_chars(b)),
            None => spec_sniff_connect(buf@) is None && spec_sniff_http_host(buf@) is None
                && spec_sniff_tls_sni(buf@) is None,
        },
{
    if buf.len() == 0 {
        return None;
    }
    if let Some(h) = sniff_connect(buf) {
        return Some(SniffResult::ConnectHost(string_from_ascii(h)));
    }
    if let Some(h) = sniff_http_host(buf) {
        return Some(SniffResult::HttpHost(string_from_ascii(h)));
    }
    if let Some(h) = sniff_tls_sni(buf) {
        return Some(SniffResult::TlsSni(string_from_ascii(h)));
    }
    None
}

/// Sniff idempotence: each recognizer is a pure function of the peeked
/// bytes, so — with `sniff_host`'s contract, which pins its result to these
/// functions — sniffing the same prefix twice always returns the same
/// result.
pub proof fn lemma_sniff_idempotent(b1: Seq<u8>, b2: Seq<u8>)
    requires
        b1 == b2,
    ensures
        spec_sniff_connect(b1) == spec_sniff_connect(b2),
        spec_sniff_http_host(b1) == spec_sniff_http_host(b2),
        spec_sniff_tls_sni(b1) == spec_sniff_tls_sni(b2),
{
}

fn rfind_colon(s: &[u8]) -> (r: Option<usize>)
    ensures
        match r {
            Some(i) => i == last_idx(s@, 58),
            None => last_idx(s@, 58) == -1,
        },
{
    proof {
        lemma_last_idx(s@, 58);
    }
    let mut i: usize = s.len();
    while i > 0
        invariant
            0 <= i <= s@.len(),
            forall|j: int| i <= j < s@.len() ==> s@[j] != 58,
        decreases i,
    {
        i = i - 1;
        if s[i] == 58 {
            proof {
                lemma_last_idx(s@, 58);
            }
            return Some(i);
        }
    }
    proof {
        lemma_last_idx(s@, 58);
    }
    None
}

} // verus!
