//! Extraction of per-protocol port filters from a raw program
//! configuration: every `--filter-tcp=` and `--filter-udp=` value in the
//! text, with line continuations honoured and comments stripped, merged
//! into one compact range list per protocol.
use vstd::prelude::*;
use vstd::string::StringSliceAdditionalSpecFns;

use crate::bytesutil::{
    find_byte, find_sub, first_idx, first_sub, is_ascii_ws, leading_ws, lemma_first_idx,
    lemma_first_sub, lemma_leading_ws_bound, remove_all, remove_all_exec, starts_with,
    starts_with_spec, trim_bytes, trim_spec, ws_prefix_len,
};
use crate::portfilter::{
    in_ranges, merge_ranges, parse_ranges_bytes, spec_parse_ranges, PortRange, ProtoPortFilter,
};

verus! {

/// A value ends where whitespace is followed, after more whitespace, by the
/// next option marker.
pub open spec fn next_opt_here(t: Seq<u8>) -> bool {
    t.len() > 0 && is_ascii_ws(t[0]) && starts_with_spec(t.skip(leading_ws(t)), "--".spec_bytes())
}

/// Length of an option value: up to the first whitespace that leads into
/// another option, else the whole tail.
pub open spec fn value_end(t: Seq<u8>) -> int
    decreases t.len(),
{
    if t.len() == 0 {
        0
    } else if next_opt_here(t) {
        0
    } else {
        1 + value_end(t.skip(1))
    }
}

proof fn lemma_value_end(t: Seq<u8>)
    ensures
        0 <= value_end(t) <= t.len(),
        value_end(t) < t.len() ==> next_opt_here(t.skip(value_end(t))),
        forall|j: int| 0 <= j < value_end(t) ==> !next_opt_here(#[trigger] t.skip(j)),
    decreases t.len(),
{
    if t.len() > 0 && next_opt_here(t) {
        assert(t.skip(0) =~= t);
    } else if t.len() > 0 {
        lemma_value_end(t.skip(1));
        assert forall|j: int| 0 <= j < value_end(t) implies !next_opt_here(#[trigger] t.skip(j)) by {
            if j > 0 {
                assert(t.skip(1).skip(j - 1) =~= t.skip(j));
            } else {
                assert(t.skip(0) =~= t);
            }
        }
        if value_end(t) < t.len() {
            assert(t.skip(1).skip(value_end(t) - 1) =~= t.skip(value_end(t)));
        }
    }
}

fn value_end_exec(t: &[u8]) -> (r: usize)
    ensures
        r as int == value_end(t@),
{
    proof {
        lemma_value_end(t@);
    }
    let n = t.len();
    let mut j: usize = 0;
    while j < n
        invariant
            0 <= j <= n,
            n == t@.len(),
            forall|jj: int| 0 <= jj < j ==> !next_opt_here(#[trigger] t@.skip(jj)),
        decreases n - j,
    {
        if crate::bytesutil::is_ws(t[j]) {
            let tail = &t[j..n];
            let lw = ws_prefix_len(tail);
            proof {
                lemma_leading_ws_bound(tail@);
            }
            let hit = starts_with(&tail[lw..tail.len()], "--".as_bytes());
            proof {
                assert(tail@ == t@.skip(j as int));
                assert(tail@.skip(lw as int) =~= t@.skip(j as int).skip(
                    leading_ws(t@.skip(j as int)),
                ));
                if hit {
                    assert(next_opt_here(t@.skip(j as int)));
                    lemma_value_end(t@);
                }
            }
            if hit {
                return j;
            }
        } else {
            proof {
                assert(t@.skip(j as int)[0] == t@[j as int]);
            }
        }
        j = j + 1;
    }
    proof {
        lemma_value_end(t@);
        if value_end(t@) < t@.len() {
            assert(!next_opt_here(t@.skip(value_end(t@))));
        }
    }
    n
}

/// The ranges contributed by every occurrence of `key` in one prepared
/// line: each value runs from the key to the next option marker, is
/// trimmed, and parses as a port specification.
pub open spec fn collect_ranges(line: Seq<u8>, key: Seq<u8>) -> Seq<PortRange>
    decreases line.len(),
{
    if key.len() == 0 {
        Seq::empty()
    } else {
        let f = first_sub(line, key);
        if f < 0 || f + key.len() > line.len() {
            Seq::empty()
        } else {
            let tail = line.skip(f + key.len());
            let v = trim_spec(tail.take(value_end(tail)));
            (if v.len() > 0 {
                spec_parse_ranges(v)
            } else {
                Seq::empty()
            }) + collect_ranges(tail, key)
        }
    }
}

/// One configuration line: the comment cut off, the rest trimmed, then the
/// key's values collected.
pub open spec fn line_ranges(line: Seq<u8>, key: Seq<u8>) -> Seq<PortRange> {
    let cut = if 0 <= first_idx(line, 35) && first_idx(line, 35) < line.len() {
        line.take(first_idx(line, 35))
    } else {
        line
    };
    collect_ranges(trim_spec(cut), key)
}

/// The whole prepared text, line by line.
pub open spec fn text_ranges(s: Seq<u8>, key: Seq<u8>) -> Seq<PortRange>
    decreases s.len(),
{
    let i = if 0 <= first_idx(s, 10) && first_idx(s, 10) < s.len() {
        first_idx(s, 10)
    } else {
        s.len() as int
    };
    if i < s.len() {
        line_ranges(s.take(i), key) + text_ranges(s.skip(i + 1), key)
    } else {
        line_ranges(s, key)
    }
}

/// Every range the raw configuration names for `key`: backslash line
/// continuations are removed first, then the text is walked line by line.
pub open spec fn spec_filter_ranges(raw: Seq<u8>, key: Seq<u8>) -> Seq<PortRange> {
    text_ranges(remove_all(remove_all(raw, seq![92u8, 13u8, 10u8]), seq![92u8, 10u8]), key)
}

fn line_gather(line: &[u8], key: &[u8], out: &mut Vec<PortRange>)
    requires
        key@.len() > 0,
    ensures
        final(out)@ == old(out)@ + line_ranges(line@, key@),
{
    proof {
        lemma_first_idx(line@, 35);
    }
    let cut: &[u8] = match find_byte(line, 35, 0) {
        Some(i) => {
            proof {
                assert(i as int == first_idx(line@, 35));
            }
            &line[0..i]
        },
        None => line,
    };
    let mut cur: &[u8] = trim_bytes(cut);
    let ghost start = cur@;
    proof {
        assert(line_ranges(line@, key@) == collect_ranges(start, key@));
    }
    loop
        invariant
            key@.len() > 0,
            line_ranges(line@, key@) == collect_ranges(start, key@),
            old(out)@ + collect_ranges(start, key@) == out@ + collect_ranges(cur@, key@),
        decreases cur@.len(),
    {
        proof {
            lemma_first_sub(cur@, key@);
        }
        match find_sub(cur, key) {
            None => {
                proof {
                    assert(collect_ranges(cur@, key@) == Seq::<PortRange>::empty());
                    assert(out@ + Seq::<PortRange>::empty() =~= out@);
                    assert(old(out)@ + collect_ranges(start, key@) =~= out@);
                }
                return ;
            },
            Some(f) => {
                let kl = key.len();
                let cl = cur.len();
                proof {
                    assert(f as int == first_sub(cur@, key@));
                    assert(f + kl <= cl);
                }
                let tail = &cur[f + kl..cl];
                proof {
                    assert(tail@ == cur@.skip(f as int + key@.len()));
                }
                let ve = value_end_exec(tail);
                proof {
                    lemma_value_end(tail@);
                }
                let v = trim_bytes(&tail[0..ve]);
                if v.len() > 0 {
                    let mut rs = parse_ranges_bytes(v);
                    let ghost pre = out@;
                    out.append(&mut rs);
                    proof {
                        assert(out@ =~= pre + spec_parse_ranges(trim_spec(
                            tail@.take(value_end(tail@)),
                        )));
                        assert(pre + (spec_parse_ranges(trim_spec(tail@.take(value_end(tail@))))
                            + collect_ranges(tail@, key@)) =~= out@ + collect_ranges(tail@, key@));
                    }
                } else {
                    proof {
                        assert(out@ + (Seq::<PortRange>::empty() + collect_ranges(tail@, key@)) =~=
                        out@ + collect_ranges(tail@, key@));
                    }
                }
                cur = tail;
            },
        }
    }
}

fn gather(s: &[u8], key: &[u8]) -> (r: Vec<PortRange>)
    requires
        key@.len() > 0,
    ensures
        r@ == text_ranges(s@, key@),
{
    let mut out: Vec<PortRange> = Vec::new();
    let mut start: usize = 0;
    let n = s.len();
    let ghost cs = s@;
    proof {
        assert(cs.skip(0) =~= cs);
    }
    loop
        invariant
            0 <= start <= n,
            n == cs.len(),
            s@ == cs,
            key@.len() > 0,
            text_ranges(cs, key@) == out@ + text_ranges(cs.skip(start as int), key@),
        decreases n - start,
    {
        let tail = &s[start..n];
        proof {
            lemma_first_idx(tail@, 10);
        }
        match find_byte(tail, 10, 0) {
            Some(c) => {
                let line = &tail[0..c];
                let ghost tl = cs.skip(start as int);
                proof {
                    assert(c as int == first_idx(tl, 10));
                    assert(line@ == tl.take(c as int));
                    assert(tl.skip(c as int + 1) =~= cs.skip(start as int + c + 1));
                }
                line_gather(line, key, &mut out);
                start = start + c + 1;
            },
            None => {
                let ghost tl = cs.skip(start as int);
                proof {
                    assert(first_idx(tl, 10) == tl.len());
                }
                line_gather(tail, key, &mut out);
                return out;
            },
        }
    }
}

/// Extract and merge every `--filter-tcp=` and `--filter-udp=` value from a
/// raw configuration text.  The result covers, per protocol, exactly the
/// ports the configuration names, as a sorted list of ranges separated by
/// uncovered ports.
pub fn extract_proto_port_filter(raw: &str) -> (r: ProtoPortFilter)
    ensures
        forall|p: u16|
            in_ranges(r.tcp@, p) == in_ranges(
                spec_filter_ranges(raw.spec_bytes(), "--filter-tcp=".spec_bytes()),
                p,
            ),
        forall|p: u16|
            in_ranges(r.udp@, p) == in_ranges(
                spec_filter_ranges(raw.spec_bytes(), "--filter-udp=".spec_bytes()),
                p,
            ),
        forall|i: int| 0 <= i < r.tcp@.len() - 1 ==> #[trigger] r.tcp@[i].end + 1 < r.tcp@[i
            + 1].start,
        forall|i: int| 0 <= i < r.udp@.len() - 1 ==> #[trigger] r.udp@[i].end + 1 < r.udp@[i
            + 1].start,
{
    let mut cont_crlf: Vec<u8> = Vec::new();
    cont_crlf.push(92);
    cont_crlf.push(13);
    cont_crlf.push(10);
    let mut cont_lf: Vec<u8> = Vec::new();
    cont_lf.push(92);
    cont_lf.push(10);
    proof {
        assert(cont_crlf@ =~= seq![92u8, 13u8, 10u8]);
        assert(cont_lf@ =~= seq![92u8, 10u8]);
    }
    let step1 = remove_all_exec(raw.as_bytes(), cont_crlf.as_slice());
    let cleaned = remove_all_exec(step1.as_slice(), cont_lf.as_slice());
    proof {
        reveal_strlit("--filter-tcp=");
        reveal_strlit("--filter-udp=");
        vstd::utf8::is_ascii_chars_encode_utf8("--filter-tcp="@);
        vstd::utf8::is_ascii_chars_encode_utf8("--filter-udp="@);
        assert("--filter-tcp=".spec_bytes().len() == 13);
        assert("--filter-udp=".spec_bytes().len() == 13);
    }
    let tcp_all = gather(cleaned.as_slice(), "--filter-tcp=".as_bytes());
    let udp_all = gather(cleaned.as_slice(), "--filter-udp=".as_bytes());
    let tcp = merge_ranges(tcp_all);
    let udp = merge_ranges(udp_all);
    ProtoPortFilter { tcp, udp }
}

} // verus!
