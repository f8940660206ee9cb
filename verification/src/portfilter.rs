//! Port range filters: parsing `80,443,4000-5000`-style specifications,
//! normalizing them into a sorted, gap-separated range list that covers
//! exactly the same ports, and rendering them as multiport arguments.
use vstd::prelude::*;
use vstd::relations::sorted_by;
use vstd::string::StringSliceAdditionalSpecFns;

use crate::bytesutil::{
    ascii_chars, dec_repr, dec_value, first_idx, is_ascii_bytes, lemma_first_idx, parse_u16_bytes,
    parses_as_u16, string_from_ascii, trim_bytes, trim_spec, u64_to_dec, unsigned_digits,
};

verus! {

/// An inclusive port range.
#[derive(Debug, Clone, Copy, PartialEq, Eq, Structural)]
pub struct PortRange {
    pub start: u16,
    pub end: u16,
}

impl PortRange {
    pub fn new(start: u16, end: u16) -> (r: PortRange)
        ensures
            r.start == start && r.end == end,
    {
        PortRange { start, end }
    }
}

/// Port ranges split by protocol.
#[derive(Debug, Clone)]
pub struct ProtoPortFilter {
    pub tcp: Vec<PortRange>,
    pub udp: Vec<PortRange>,
}

impl ProtoPortFilter {
    /// No ports are filtered for either protocol.
    pub fn is_empty(&self) -> (r: bool)
        ensures
            r == (self.tcp@.len() == 0 && self.udp@.len() == 0),
    {
        self.tcp.len() == 0 && self.udp.len() == 0
    }
}

/// Whether port `p` is covered by any of the ranges.
pub open spec fn in_ranges(rs: Seq<PortRange>, p: u16) -> bool {
    exists|i: int| 0 <= i < rs.len() && (#[trigger] rs[i]).start <= p <= rs[i].end
}

/// The specification text with spaces and tabs removed.
pub open spec fn cleaned_of(s: Seq<u8>) -> Seq<u8>
    decreases s.len(),
{
    if s.len() == 0 {
        Seq::empty()
    } else if s.last() == 32 || s.last() == 9 {
        cleaned_of(s.drop_last())
    } else {
        cleaned_of(s.drop_last()).push(s.last())
    }
}

/// The ranges one comma-separated token contributes: a dash- or
/// colon-separated pair of ports (reordered if reversed), or a single port;
/// zero ports and unparsable tokens contribute nothing.
pub open spec fn tok_ranges(t0: Seq<u8>) -> Seq<PortRange> {
    let t = trim_spec(t0);
    if t.len() == 0 {
        Seq::empty()
    } else {
        let d = if first_idx(t, 45) < t.len() {
            first_idx(t, 45)
        } else {
            first_idx(t, 58)
        };
        if d < t.len() {
            let a = t.take(d);
            let b = t.skip(d + 1);
            if parses_as_u16(a) && parses_as_u16(b) {
                let va = dec_value(unsigned_digits(a));
                let vb = dec_value(unsigned_digits(b));
                if va >= 1 && vb >= 1 {
                    if va <= vb {
                        seq![PortRange { start: va as u16, end: vb as u16 }]
                    } else {
                        seq![PortRange { start: vb as u16, end: va as u16 }]
                    }
                } else {
                    Seq::empty()
                }
            } else {
                Seq::empty()
            }
        } else {
            if parses_as_u16(t) && dec_value(unsigned_digits(t)) >= 1 {
                seq![
                    PortRange {
                        start: dec_value(unsigned_digits(t)) as u16,
                        end: dec_value(unsigned_digits(t)) as u16,
                    },
                ]
            } else {
                Seq::empty()
            }
        }
    }
}

/// All ranges of a cleaned specification, token by token.
pub open spec fn ranges_of(s: Seq<u8>) -> Seq<PortRange>
    decreases s.len(),
{
    let i = if 0 <= first_idx(s, 44) && first_idx(s, 44) < s.len() {
        first_idx(s, 44)
    } else {
        s.len() as int
    };
    if i < s.len() {
        tok_ranges(s.take(i)) + ranges_of(s.skip(i + 1))
    } else {
        tok_ranges(s)
    }
}

/// What `parse_ranges` returns on a specification string.
pub open spec fn spec_parse_ranges(s: Seq<u8>) -> Seq<PortRange> {
    ranges_of(cleaned_of(s))
}

fn clean_spec(s: &[u8]) -> (r: Vec<u8>)
    ensures
        r@ == cleaned_of(s@),
{
    let mut out: Vec<u8> = Vec::new();
    let mut i: usize = 0;
    proof {
        assert(s@.take(0) =~= Seq::<u8>::empty());
    }
    while i < s.len()
        invariant
            0 <= i <= s@.len(),
            out@ == cleaned_of(s@.take(i as int)),
        decreases s.len() - i,
    {
        let b = s[i];
        proof {
            let t = s@.take(i as int + 1);
            assert(t.drop_last() =~= s@.take(i as int));
            assert(t.last() == s@[i as int]);
        }
        if !(b == 32 || b == 9) {
            out.push(b);
        }
        i = i + 1;
    }
    proof {
        assert(s@.take(s@.len() as int) =~= s@);
    }
    out
}

fn parse_token(t0: &[u8]) -> (r: Option<PortRange>)
    ensures
        match r {
            Some(pr) => tok_ranges(t0@) == seq![pr],
            None => tok_ranges(t0@).len() == 0,
        },
{
    let t = trim_bytes(t0);
    if t.len() == 0 {
        return None;
    }
    proof {
        lemma_first_idx(t@, 45);
        lemma_first_idx(t@, 58);
    }
    let dash = crate::bytesutil::find_byte(t, 45, 0);
    let sep: Option<usize> = match dash {
        Some(i) => {
            proof {
                assert(i as int == first_idx(t@, 45));
            }
            Some(i)
        },
        None => {
            match crate::bytesutil::find_byte(t, 58, 0) {
                Some(i) => {
                    proof {
                        assert(first_idx(t@, 45) == t@.len());
                        assert(i as int == first_idx(t@, 58));
                    }
                    Some(i)
                },
                None => {
                    proof {
                        assert(first_idx(t@, 45) == t@.len());
                        assert(first_idx(t@, 58) == t@.len());
                    }
                    None
                },
            }
        },
    };
    match sep {
        Some(d) => {
            let a = &t[0..d];
            let b = &t[d + 1..t.len()];
            match (parse_u16_bytes(a), parse_u16_bytes(b)) {
                (Some(va), Some(vb)) => {
                    if va >= 1 && vb >= 1 {
                        if va <= vb {
                            Some(PortRange { start: va, end: vb })
                        } else {
                            Some(PortRange { start: vb, end: va })
                        }
                    } else {
                        None
                    }
                },
                _ => None,
            }
        },
        None => {
            match parse_u16_bytes(t) {
                Some(v) => {
                    if v >= 1 {
                        Some(PortRange { start: v, end: v })
                    } else {
                        None
                    }
                },
                None => None,
            }
        },
    }
}

/// Parse a `80,443,4000-5000`-style specification (spaces and tabs ignored,
/// `-` or `:` as the range separator, reversed ranges reordered, invalid
/// tokens skipped).
pub fn parse_ranges(spec: &str) -> (r: Vec<PortRange>)
    ensures
        r@ == spec_parse_ranges(spec.spec_bytes()),
{
    parse_ranges_bytes(spec.as_bytes())
}

/// The byte-level form of `parse_ranges`.
pub fn parse_ranges_bytes(spec: &[u8]) -> (r: Vec<PortRange>)
    ensures
        r@ == spec_parse_ranges(spec@),
{
    let cleaned = clean_spec(spec);
    let mut out: Vec<PortRange> = Vec::new();
    let mut start: usize = 0;
    let n = cleaned.len();
    let ghost cs = cleaned@;
    proof {
        assert(cs.skip(0) =~= cs);
    }
    loop
        invariant
            0 <= start <= n,
            n == cs.len(),
            cleaned@ == cs,
            spec_parse_ranges(spec@) == out@ + ranges_of(cs.skip(start as int)),
        decreases n - start,
    {
        let tail = &cleaned.as_slice()[start..n];
        proof {
            lemma_first_idx(tail@, 44);
        }
        let comma = crate::bytesutil::find_byte(tail, 44, 0);
        match comma {
            Some(c) => {
                let tok = &tail[0..c];
                let ghost tl = cs.skip(start as int);
                proof {
                    assert(c as int == first_idx(tl, 44));
                    assert(tok@ == tl.take(c as int));
                    assert(tl.skip(c as int + 1) =~= cs.skip(start as int + c + 1));
                }
                let ghost pre = out@;
                match parse_token(tok) {
                    Some(pr) => {
                        out.push(pr);
                        proof {
                            assert(pre + (tok_ranges(tl.take(c as int)) + ranges_of(
                                tl.skip(c as int + 1),
                            )) =~= out@ + ranges_of(cs.skip(start as int + c + 1)));
                        }
                    },
                    None => {
                        proof {
                            assert(pre + (tok_ranges(tl.take(c as int)) + ranges_of(
                                tl.skip(c as int + 1),
                            )) =~= out@ + ranges_of(cs.skip(start as int + c + 1)));
                        }
                    },
                }
                start = start + c + 1;
            },
            None => {
                let ghost tl = cs.skip(start as int);
                proof {
                    assert(first_idx(tl, 44) == tl.len());
                    assert(ranges_of(tl) == tok_ranges(tl));
                }
                let ghost pre = out@;
                match parse_token(tail) {
                    Some(pr) => {
                        out.push(pr);
                        proof {
                            assert(pre + tok_ranges(tl) =~= out@);
                        }
                    },
                    None => {
                        proof {
                            assert(pre + tok_ranges(tl) =~= out@);
                        }
                    },
                }
                return out;
            },
        }
    }
}

pub open spec fn pr_leq() -> spec_fn(PortRange, PortRange) -> bool {
    |a: PortRange, b: PortRange|
        (a.start < b.start) || (a.start == b.start && a.end <= b.end)
}

fn sort_ranges(v: &Vec<PortRange>) -> (r: Vec<PortRange>)
    ensures
        r@.to_multiset() == v@.to_multiset(),
        sorted_by(r@, pr_leq()),
{
    let mut out: Vec<PortRange> = Vec::new();
    let mut i: usize = 0;
    proof {
        assert(out@ =~= v@.take(0));
    }
    while i < v.len()
        invariant
            0 <= i <= v@.len(),
            out@.to_multiset() == v@.take(i as int).to_multiset(),
            sorted_by(out@, pr_leq()),
        decreases v.len() - i,
    {
        let x = v[i];
        let mut j: usize = out.len();
        while j > 0 && (out[j - 1].start > x.start || (out[j - 1].start == x.start && out[j
            - 1].end > x.end))
            invariant
                0 <= j <= out@.len(),
                forall|t: int| j <= t < out@.len() ==> !pr_leq()(#[trigger] out@[t], x),
            decreases j,
        {
            j = j - 1;
        }
        let ghost pre = out@;
        out.insert(j, x);
        proof {
            broadcast use vstd::seq_lib::to_multiset_insert;
            broadcast use vstd::seq_lib::group_to_multiset_ensures;

            assert(v@.take(i as int + 1).drop_last() =~= v@.take(i as int));
            assert(v@.take(i as int + 1).to_multiset() =~= v@.take(
                i as int + 1,
            ).drop_last().to_multiset().insert(v@[i as int])) by {
                let t = v@.take(i as int + 1);
                assert(t =~= t.drop_last().push(t.last()));
            }
            assert forall|a: int, b: int| 0 <= a < b < out@.len() implies pr_leq()(
                out@[a],
                out@[b],
            ) by {
                if b < j {
                    assert(out@[a] == pre[a] && out@[b] == pre[b]);
                } else if a > j {
                    assert(out@[a] == pre[a - 1] && out@[b] == pre[b - 1]);
                } else if a == j {
                    assert(out@[b] == pre[b - 1]);
                    assert(!pr_leq()(pre[b - 1], x));
                } else if b == j {
                    assert(out@[a] == pre[a]);
                    if j > 0 {
                        assert(pr_leq()(pre[j - 1], x));
                        if a < j - 1 {
                            assert(pr_leq()(pre[a], pre[j - 1]));
                        }
                    }
                } else {
                    assert(out@[a] == pre[a] && out@[b] == pre[b - 1]);
                    if j > 0 {
                        assert(pr_leq()(pre[j - 1], x));
                        if a < j - 1 {
                            assert(pr_leq()(pre[a], pre[j - 1]));
                        }
                    }
                    assert(!pr_leq()(pre[b - 1], x));
                }
            }
        }
        i = i + 1;
    }
    proof {
        assert(v@.take(v@.len() as int) =~= v@);
    }
    out
}

/// Merge and normalize ranges: the result is sorted, its ranges are
/// separated by at least one uncovered port, and it covers exactly the same
/// ports as the input.
pub fn merge_ranges(ranges: Vec<PortRange>) -> (r: Vec<PortRange>)
    ensures
        forall|p: u16| in_ranges(r@, p) == in_ranges(ranges@, p),
        forall|i: int| 0 <= i < r@.len() - 1 ==> #[trigger] r@[i].end + 1 < r@[i + 1].start,
        ranges@.len() == 0 ==> r@.len() == 0,
{
    if ranges.len() == 0 {
        return ranges;
    }
    let sorted = sort_ranges(&ranges);
    proof {
        broadcast use vstd::seq_lib::group_to_multiset_ensures;

        assert(sorted@.to_multiset().len() == ranges@.to_multiset().len());
        assert(sorted@.len() == ranges@.len());
        assert forall|p: u16| in_ranges(sorted@, p) == in_ranges(ranges@, p) by {
            lemma_in_ranges_multiset(sorted@, ranges@, p);
        }
    }
    let mut merged: Vec<PortRange> = Vec::new();
    let mut cur: PortRange = sorted[0];
    let mut i: usize = 1;
    proof {
        assert(sorted@.take(1) =~= Seq::<PortRange>::empty().push(sorted@[0]));
        assert forall|p: u16| (in_ranges(merged@, p) || cur.start <= p <= cur.end) == in_ranges(
            sorted@.take(1),
            p,
        ) by {
            lemma_in_ranges_push(Seq::<PortRange>::empty(), sorted@[0], p);
        }
    }
    while i < sorted.len()
        invariant
            1 <= i <= sorted@.len(),
            sorted_by(sorted@, pr_leq()),
            forall|p: u16|
                #![trigger in_ranges(sorted@.take(i as int), p)]
                (in_ranges(merged@, p) || cur.start <= p <= cur.end) == in_ranges(
                    sorted@.take(i as int),
                    p,
                ),
            cur.start <= sorted@[i as int - 1].start,
            forall|j: int| 0 <= j < merged@.len() - 1 ==> #[trigger] merged@[j].end + 1
                < merged@[j + 1].start,
            merged@.len() > 0 ==> merged@.last().end + 1 < cur.start,
        decreases sorted.len() - i,
    {
        let r = sorted[i];
        proof {
            assert(pr_leq()(sorted@[i as int - 1], sorted@[i as int]));
            assert(sorted@[i as int - 1].start <= r.start);
            assert(cur.start <= r.start);
            assert(sorted@.take(i as int + 1) =~= sorted@.take(i as int).push(sorted@[i as int]));
        }
        if r.start as u32 <= cur.end as u32 + 1 {
            let new_end = if r.end > cur.end {
                r.end
            } else {
                cur.end
            };
            proof {
                assert(r.start as int <= cur.end as int + 1);
                assert forall|p: u16|
                    #![trigger in_ranges(sorted@.take(i as int + 1), p)]
                    (in_ranges(merged@, p) || cur.start <= p <= new_end) == in_ranges(
                        sorted@.take(i as int + 1),
                        p,
                    ) by {
                    lemma_in_ranges_push(sorted@.take(i as int), sorted@[i as int], p);
                    assert(in_ranges(sorted@.take(i as int + 1), p) == (in_ranges(
                        sorted@.take(i as int),
                        p,
                    ) || (r.start <= p <= r.end)));
                    assert(in_ranges(sorted@.take(i as int), p) == (in_ranges(merged@, p) || (
                    cur.start <= p <= cur.end)));
                    assert((cur.start <= p <= new_end) == ((cur.start <= p <= cur.end) || (r.start
                        <= p <= r.end)));
                }
            }
            cur = PortRange { start: cur.start, end: new_end };
        } else {
            let ghost pre_m = merged@;
            merged.push(cur);
            proof {
                assert forall|p: u16|
                    #![trigger in_ranges(sorted@.take(i as int + 1), p)]
                    (in_ranges(merged@, p) || r.start <= p <= r.end) == in_ranges(
                        sorted@.take(i as int + 1),
                        p,
                    ) by {
                    lemma_in_ranges_push(sorted@.take(i as int), sorted@[i as int], p);
                    lemma_in_ranges_push(pre_m, cur, p);
                    assert(in_ranges(sorted@.take(i as int + 1), p) == (in_ranges(
                        sorted@.take(i as int),
                        p,
                    ) || (r.start <= p <= r.end)));
                    assert(in_ranges(sorted@.take(i as int), p) == (in_ranges(pre_m, p) || (
                    cur.start <= p <= cur.end)));
                    assert(in_ranges(merged@, p) == (in_ranges(pre_m, p) || (cur.start <= p
                        <= cur.end)));
                }
                assert(merged@.last() == cur);
                assert forall|j: int| 0 <= j < merged@.len() - 1 implies #[trigger] merged@[j].end
                    + 1 < merged@[j + 1].start by {
                    if j < merged@.len() - 2 {
                        assert(merged@[j] == pre_m[j] && merged@[j + 1] == pre_m[j + 1]);
                    } else {
                        assert(merged@[j] == pre_m.last() && merged@[j + 1] == cur);
                    }
                }
            }
            cur = r;
        }
        i = i + 1;
    }
    proof {
        assert(sorted@.take(sorted@.len() as int) =~= sorted@);
        let ghost pre_m = merged@;
        assert forall|p: u16| in_ranges(pre_m.push(cur), p) == (in_ranges(pre_m, p) || cur.start
            <= p <= cur.end) by {
            lemma_in_ranges_push(pre_m, cur, p);
        }
    }
    let ghost pre_m = merged@;
    merged.push(cur);
    proof {
        assert forall|j: int| 0 <= j < merged@.len() - 1 implies #[trigger] merged@[j].end + 1
            < merged@[j + 1].start by {
            if j < merged@.len() - 2 {
                assert(merged@[j] == pre_m[j] && merged@[j + 1] == pre_m[j + 1]);
            } else {
                assert(merged@[j + 1] == cur);
                if pre_m.len() > 0 {
                    assert(merged@[j] == pre_m.last());
                }
            }
        }
    }
    merged
}

proof fn lemma_in_ranges_push(rs: Seq<PortRange>, x: PortRange, p: u16)
    ensures
        in_ranges(rs.push(x), p) == (in_ranges(rs, p) || x.start <= p <= x.end),
{
    if in_ranges(rs, p) {
        let i = choose|i: int| 0 <= i < rs.len() && (#[trigger] rs[i]).start <= p <= rs[i].end;
        assert(rs.push(x)[i].start <= p <= rs.push(x)[i].end);
    }
    if x.start <= p <= x.end {
        assert(rs.push(x)[rs.len() as int].start <= p <= rs.push(x)[rs.len() as int].end);
    }
    if in_ranges(rs.push(x), p) {
        let i = choose|i: int|
            0 <= i < rs.push(x).len() && (#[trigger] rs.push(x)[i]).start <= p <= rs.push(
                x,
            )[i].end;
        if i < rs.len() {
            assert(rs[i].start <= p <= rs[i].end);
        }
    }
}

proof fn lemma_in_ranges_multiset(a: Seq<PortRange>, b: Seq<PortRange>, p: u16)
    requires
        a.to_multiset() == b.to_multiset(),
    ensures
        in_ranges(a, p) == in_ranges(b, p),
{
    broadcast use vstd::seq_lib::group_to_multiset_ensures;

    if in_ranges(a, p) {
        let i = choose|i: int| 0 <= i < a.len() && (#[trigger] a[i]).start <= p <= a[i].end;
        assert(a.to_multiset().count(a[i]) > 0) by {
            assert(a.contains(a[i]));
        }
        assert(b.contains(a[i]));
        let j = choose|j: int| 0 <= j < b.len() && b[j] == a[i];
        assert(b[j].start <= p <= b[j].end);
    }
    if in_ranges(b, p) {
        let i = choose|i: int| 0 <= i < b.len() && (#[trigger] b[i]).start <= p <= b[i].end;
        assert(b.to_multiset().count(b[i]) > 0) by {
            assert(b.contains(b[i]));
        }
        assert(a.contains(b[i]));
        let j = choose|j: int| 0 <= j < a.len() && a[j] == b[i];
        assert(a[j].start <= p <= a[j].end);
    }
}

/// All ranges parsed from a list of specifications, in order.
pub open spec fn all_spec_ranges(specs: Seq<Seq<char>>) -> Seq<PortRange>
    decreases specs.len(),
{
    if specs.len() == 0 {
        Seq::empty()
    } else {
        all_spec_ranges(specs.drop_last()) + spec_parse_ranges(
            crate::bytesutil::utf8_bytes(specs.last()),
        )
    }
}

/// Parse several specifications and merge the result into a compact,
/// sorted, gap-separated list covering exactly the same ports.
pub fn parse_and_merge_specs(specs: &Vec<String>) -> (r: Vec<PortRange>)
    ensures
        forall|p: u16| in_ranges(r@, p) == in_ranges(
            all_spec_ranges(specs@.map_values(|s: String| s@)),
            p,
        ),
        forall|i: int| 0 <= i < r@.len() - 1 ==> #[trigger] r@[i].end + 1 < r@[i + 1].start,
{
    let mut all: Vec<PortRange> = Vec::new();
    let mut i: usize = 0;
    proof {
        assert(specs@.map_values(|s: String| s@).take(0) =~= Seq::<Seq<char>>::empty());
    }
    while i < specs.len()
        invariant
            0 <= i <= specs@.len(),
            all@ == all_spec_ranges(specs@.map_values(|s: String| s@).take(i as int)),
        decreases specs.len() - i,
    {
        let mut rs = parse_ranges(specs[i].as_str());
        let ghost pre = all@;
        all.append(&mut rs);
        i = i + 1;
        proof {
            let m = specs@.map_values(|s: String| s@);
            assert(m.take(i as int).drop_last() =~= m.take(i as int - 1));
            assert(m.take(i as int).last() == m[i as int - 1]);
            assert(all@ =~= pre + spec_parse_ranges(crate::bytesutil::utf8_bytes(m[i as int - 1])));
        }
    }
    proof {
        let m = specs@.map_values(|s: String| s@);
        assert(m.take(m.len() as int) =~= m);
    }
    let merged = merge_ranges(all);
    merged
}

/// The multiport rendering of one range: the port alone, or `start:end`.
pub open spec fn elem_repr(r: PortRange) -> Seq<u8> {
    if r.start == r.end {
        dec_repr(r.start as int)
    } else {
        dec_repr(r.start as int) + seq![58u8] + dec_repr(r.end as int)
    }
}

/// Render merged ranges as iptables multiport elements.
pub fn to_multiport_elements(ranges: &Vec<PortRange>) -> (r: Vec<String>)
    ensures
        r@.len() == ranges@.len(),
        forall|i: int| 0 <= i < r@.len() ==> (#[trigger] r@[i])@ == ascii_chars(
            elem_repr(ranges@[i]),
        ),
{
    let mut out: Vec<String> = Vec::new();
    let mut i: usize = 0;
    while i < ranges.len()
        invariant
            0 <= i <= ranges@.len(),
            out@.len() == i,
            forall|j: int| 0 <= j < i ==> (#[trigger] out@[j])@ == ascii_chars(
                elem_repr(ranges@[j]),
            ),
        decreases ranges.len() - i,
    {
        let pr = ranges[i];
        let mut bytes = u64_to_dec(pr.start as u64);
        if pr.start != pr.end {
            bytes.push(58);
            let mut e = u64_to_dec(pr.end as u64);
            bytes.append(&mut e);
        }
        proof {
            assert(bytes@ =~= elem_repr(ranges@[i as int]));
            crate::bytesutil::lemma_dec_repr_ascii_pub(pr.start as int);
            crate::bytesutil::lemma_dec_repr_ascii_pub(pr.end as int);
            assert(is_ascii_bytes(bytes@));
        }
        out.push(string_from_ascii(bytes));
        i = i + 1;
    }
    out
}

/// Split elements into chunks of at most `max_elems` entries.
pub fn chunk_multiport(elements: &Vec<String>, max_elems: usize) -> (r: Vec<Vec<String>>)
    requires
        max_elems >= 1,
    ensures
        elements@.len() == 0 ==> r@.len() == 0,
        forall|i: int|
            0 <= i < r@.len() ==> (#[trigger] r@[i])@ == elements@.subrange(
                i * max_elems,
                if (i + 1) * max_elems < elements@.len() {
                    (i + 1) * max_elems
                } else {
                    elements@.len() as int
                },
            ),
        elements@.len() > 0 ==> ((r@.len() - 1) * max_elems < elements@.len() <= r@.len()
            * max_elems),
{
    let mut out: Vec<Vec<String>> = Vec::new();
    if elements.len() == 0 {
        return out;
    }
    let n = elements.len();
    let mut i: usize = 0;
    proof {
        assert(out@.len() * max_elems == 0) by (nonlinear_arith)
            requires
                out@.len() == 0,
        ;
    }
    while i < n
        invariant
            max_elems >= 1,
            n == elements@.len(),
            0 <= i <= n,
            i < n ==> i == out@.len() * max_elems,
            out@.len() * max_elems >= i,
            out@.len() > 0 ==> (out@.len() - 1) * max_elems < i,
            forall|k: int|
                0 <= k < out@.len() ==> (#[trigger] out@[k])@ == elements@.subrange(
                    k * max_elems,
                    if (k + 1) * max_elems < elements@.len() {
                        (k + 1) * max_elems
                    } else {
                        elements@.len() as int
                    },
                ),
        decreases n - i,
    {
        let end = if max_elems < n - i {
            i + max_elems
        } else {
            n
        };
        let mut chunk: Vec<String> = Vec::new();
        let mut j: usize = i;
        while j < end
            invariant
                i <= j <= end <= elements@.len(),
                chunk@ == elements@.subrange(i as int, j as int),
            decreases end - j,
        {
            chunk.push(elements[j].clone());
            j = j + 1;
            proof {
                assert(elements@.subrange(i as int, j as int) =~= elements@.subrange(
                    i as int,
                    j as int - 1,
                ).push(elements@[j as int - 1]));
            }
        }
        let ghost k = out@.len() as int;
        let ghost m = max_elems as int;
        out.push(chunk);
        proof {
            assert(k * m == i as int);
            assert((k + 1) * m == k * m + m) by (nonlinear_arith);
            assert((k + 1) * m == i as int + m);
            assert(out@.len() * m == (k + 1) * m);
            assert((out@.len() - 1) * m == k * m);
            assert(chunk@ == elements@.subrange(
                k * m,
                if (k + 1) * m < elements@.len() {
                    (k + 1) * m
                } else {
                    elements@.len() as int
                },
            ));
            assert forall|t: int|
                0 <= t < out@.len() implies (#[trigger] out@[t])@ == elements@.subrange(
                    t * m,
                    if (t + 1) * m < elements@.len() {
                        (t + 1) * m
                    } else {
                        elements@.len() as int
                    },
                ) by {
                if t < k {
                } else {
                    assert(out@[t] == chunk);
                }
            }
        }
        i = end;
    }
    proof {
        let q = out@.len() as int;
        let m = max_elems as int;
        let n_ = elements@.len() as int;
        assert(q * m >= i);
        assert(q >= 1);
        assert((q - 1) * m < n_);
    }
    out
}

/// The comma-separated join of the elements.
pub open spec fn csv_join(elems: Seq<Seq<char>>) -> Seq<char>
    decreases elems.len(),
{
    if elems.len() == 0 {
        Seq::empty()
    } else if elems.len() == 1 {
        elems[0]
    } else {
        csv_join(elems.drop_last()) + ","@ + elems.last()
    }
}

/// Join multiport elements with commas.
pub fn join_elems_csv(elems: &Vec<String>) -> (r: String)
    ensures
        r@ == csv_join(elems@.map_values(|s: String| s@)),
{
    let mut out = String::new();
    let mut i: usize = 0;
    proof {
        assert(elems@.map_values(|s: String| s@).take(0) =~= Seq::<Seq<char>>::empty());
    }
    while i < elems.len()
        invariant
            0 <= i <= elems@.len(),
            out@ == csv_join(elems@.map_values(|s: String| s@).take(i as int)),
        decreases elems.len() - i,
    {
        if i > 0 {
            out.append(",");
        }
        out.append(elems[i].as_str());
        i = i + 1;
        proof {
            let m = elems@.map_values(|s: String| s@);
            assert(m.take(i as int).drop_last() =~= m.take(i as int - 1));
            assert(m.take(i as int).last() == m[i as int - 1]);
            if i as int - 1 == 0 {
                assert(out@ =~= csv_join(m.take(i as int)));
            } else {
                assert(out@ =~= csv_join(m.take(i as int)));
            }
        }
    }
    proof {
        let m = elems@.map_values(|s: String| s@);
        assert(m.take(m.len() as int) =~= m);
    }
    out
}

} // verus!
