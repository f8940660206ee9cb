//! Declarative traffic rules: an ordered list of predicates with actions,
//! matched first-wins against a connection descriptor.
use vstd::prelude::*;
use vstd::string::StringSliceAdditionalSpecFns;

use crate::bytesutil::{
    ascii_lower_seq, bytes_eq, contains_byte, dec_value, first_idx, lemma_first_idx,
    parse_u16_bytes, parses_as_u16, to_lower, utf8_bytes, trim_bytes, trim_spec, unsigned_digits,
};

verus! {

/// What to do with a connection that matched a rule.
#[derive(Clone, Copy, Debug, PartialEq, Eq, Structural)]
pub enum Action {
    Socks,
    Direct,
    Drop,
    Reset,
    Wait,
}

/// Classify a destination port into a coarse protocol label.
pub fn classify_protocol(port: u16) -> (r: String)
    ensures
        port == 80 || port == 8080 || port == 8000 ==> r@ == "http"@,
        port == 443 || port == 8443 ==> r@ == "https"@,
        port == 53 ==> r@ == "dns"@,
        !(port == 80 || port == 8080 || port == 8000 || port == 443 || port == 8443 || port == 53)
            ==> r@ == "tcp"@,
{
    match port {
        80 | 8080 | 8000 => "http".to_owned(),
        443 | 8443 => "https".to_owned(),
        53 => "dns".to_owned(),
        _ => "tcp".to_owned(),
    }
}

#[verifier::external_type_specification]
#[verifier::external_body]
pub struct ExRegex(regex::Regex);

/// Whether the case-insensitive regular expression `pattern` matches
/// somewhere in `text`.  Names the result of `regex::Regex::is_match` for a
/// regex built from `pattern` with case-insensitive matching: that result is
/// a function of the pattern and the text alone.
pub uninterp spec fn ci_regex_match(pattern: Seq<char>, text: Seq<char>) -> bool;

/// A compiled case-insensitive host pattern, kept together with its source
/// text so that contracts can speak about it.
pub struct HostRegex {
    pattern: String,
    re: regex::Regex,
}

impl HostRegex {
    /// The source pattern this regex was compiled from.
    pub closed spec fn pat(&self) -> Seq<char> {
        self.pattern@
    }

    /// Relies on `regex::RegexBuilder`: `case_insensitive(true).build()`
    /// compiles the given pattern for case-insensitive matching; `Err` only
    /// on an invalid pattern.
    #[verifier::external_body]
    pub fn compile(pattern: &str) -> (r: Option<HostRegex>)
        ensures
            match r {
                Some(h) => h.pat() == pattern@,
                None => true,
            },
    {
        match regex::RegexBuilder::new(pattern).case_insensitive(true).build() {
            Ok(re) => Some(HostRegex { pattern: pattern.to_owned(), re }),
            Err(_) => None,
        }
    }

    /// Relies on `regex::Regex::is_match`: deterministic in the compiled
    /// pattern and the text.
    #[verifier::external_body]
    pub fn is_match(&self, text: &str) -> (r: bool)
        ensures
            r == ci_regex_match(self.pat(), text@),
    {
        self.re.is_match(text)
    }
}

/// One rule as handed in by the configuration loader, all fields plain.
#[derive(Clone, Debug)]
pub struct RawRule {
    pub action: String,
    pub proto: Option<String>,
    pub port: Option<u16>,
    pub port_range: Option<String>,
    pub host_regex: Option<String>,
    pub socks_available: Option<bool>,
    pub is_udp: Option<bool>,
}

/// A compiled rule: all conditions normalized, first-wins evaluation.
pub struct Rule {
    pub proto: Option<Vec<u8>>,
    pub port: Option<u16>,
    pub port_range: Option<(u16, u16)>,
    pub host_regex: Option<HostRegex>,
    pub socks_available: Option<bool>,
    pub is_udp: Option<bool>,
    pub action: Action,
}

pub struct Rules {
    pub rules: Vec<Rule>,
}

/// A rule matches when every condition it carries holds of the input.
/// `proto_low` is the ASCII-lowercased UTF-8 of the protocol label.
pub open spec fn rule_matches(
    r: Rule,
    proto_low: Seq<u8>,
    host: Seq<char>,
    port: u16,
    socks_available: bool,
    is_udp: bool,
) -> bool {
    &&& (match r.proto {
        Some(p) => p@ == proto_low,
        None => true,
    })
    &&& (match r.is_udp {
        Some(u) => u == is_udp,
        None => true,
    })
    &&& (match r.socks_available {
        Some(s) => s == socks_available,
        None => true,
    })
    &&& (match r.port {
        Some(p) => p == port,
        None => true,
    })
    &&& (match r.port_range {
        Some((lo, hi)) => lo <= port && port <= hi,
        None => true,
    })
    &&& (match r.host_regex {
        Some(h) => ci_regex_match(h.pat(), host),
        None => true,
    })
}

/// The action of the first matching rule from index `i` on, if any.
pub open spec fn first_match_from(
    rules: Seq<Rule>,
    i: int,
    proto_low: Seq<u8>,
    host: Seq<char>,
    port: u16,
    socks_available: bool,
    is_udp: bool,
) -> Option<Action>
    decreases rules.len() - i,
{
    if i < 0 || i >= rules.len() {
        None
    } else if rule_matches(rules[i], proto_low, host, port, socks_available, is_udp) {
        Some(rules[i].action)
    } else {
        first_match_from(rules, i + 1, proto_low, host, port, socks_available, is_udp)
    }
}

pub open spec fn first_match(
    rules: Seq<Rule>,
    proto_low: Seq<u8>,
    host: Seq<char>,
    port: u16,
    socks_available: bool,
    is_udp: bool,
) -> Option<Action> {
    first_match_from(rules, 0, proto_low, host, port, socks_available, is_udp)
}

/// Rule-order semantics: the evaluator's result is the action of the first
/// rule whose predicate holds, and it is `None` exactly when no rule matches.
pub proof fn lemma_rule_order_semantics(
    rules: Seq<Rule>,
    proto_low: Seq<u8>,
    host: Seq<char>,
    port: u16,
    socks_available: bool,
    is_udp: bool,
)
    ensures
        match first_match(rules, proto_low, host, port, socks_available, is_udp) {
            Some(a) => exists|i: int|
                0 <= i < rules.len() && #[trigger] rule_matches(
                    rules[i],
                    proto_low,
                    host,
                    port,
                    socks_available,
                    is_udp,
                ) && a == rules[i].action && (forall|j: int|
                    0 <= j < i ==> !rule_matches(
                        rules[j],
                        proto_low,
                        host,
                        port,
                        socks_available,
                        is_udp,
                    )),
            None => forall|i: int|
                0 <= i < rules.len() ==> !rule_matches(
                    #[trigger] rules[i],
                    proto_low,
                    host,
                    port,
                    socks_available,
                    is_udp,
                ),
        },
{
    lemma_first_match_from(rules, 0, proto_low, host, port, socks_available, is_udp);
}

proof fn lemma_first_match_from(
    rules: Seq<Rule>,
    k: int,
    proto_low: Seq<u8>,
    host: Seq<char>,
    port: u16,
    socks_available: bool,
    is_udp: bool,
)
    requires
        0 <= k <= rules.len(),
    ensures
        match first_match_from(rules, k, proto_low, host, port, socks_available, is_udp) {
            Some(a) => exists|i: int|
                k <= i < rules.len() && #[trigger] rule_matches(
                    rules[i],
                    proto_low,
                    host,
                    port,
                    socks_available,
                    is_udp,
                ) && a == rules[i].action && (forall|j: int|
                    k <= j < i ==> !rule_matches(
                        rules[j],
                        proto_low,
                        host,
                        port,
                        socks_available,
                        is_udp,
                    )),
            None => forall|i: int|
                k <= i < rules.len() ==> !rule_matches(
                    #[trigger] rules[i],
                    proto_low,
                    host,
                    port,
                    socks_available,
                    is_udp,
                ),
        },
    decreases rules.len() - k,
{
    if k < rules.len() {
        if !rule_matches(rules[k], proto_low, host, port, socks_available, is_udp) {
            lemma_first_match_from(rules, k + 1, proto_low, host, port, socks_available, is_udp);
        }
    }
}

/// The action named by a (trimmed, lowercased) action string.
pub open spec fn spec_action_of(s: Seq<u8>) -> Option<Action> {
    if s == "socks".spec_bytes() {
        Some(Action::Socks)
    } else if s == "direct".spec_bytes() {
        Some(Action::Direct)
    } else if s == "drop".spec_bytes() {
        Some(Action::Drop)
    } else if s == "reset".spec_bytes() {
        Some(Action::Reset)
    } else if s == "wait".spec_bytes() {
        Some(Action::Wait)
    } else {
        None
    }
}

fn action_of_bytes(s: &[u8]) -> (r: Option<Action>)
    ensures
        r == spec_action_of(s@),
{
    if bytes_eq(s, "socks".as_bytes()) {
        Some(Action::Socks)
    } else if bytes_eq(s, "direct".as_bytes()) {
        Some(Action::Direct)
    } else if bytes_eq(s, "drop".as_bytes()) {
        Some(Action::Drop)
    } else if bytes_eq(s, "reset".as_bytes()) {
        Some(Action::Reset)
    } else if bytes_eq(s, "wait".as_bytes()) {
        Some(Action::Wait)
    } else {
        None
    }
}

/// A port range condition `"LO-HI"`: exactly one dash, both sides decimal
/// port numbers after trimming.
pub open spec fn spec_parse_range_cond(s: Seq<u8>) -> Option<(u16, u16)> {
    let i = first_idx(s, 45);
    if i < s.len() && !contains_byte(s.skip(i + 1), 45) {
        let a = trim_spec(s.take(i));
        let b = trim_spec(s.skip(i + 1));
        if parses_as_u16(a) && parses_as_u16(b) {
            Some(
                (
                    dec_value(unsigned_digits(a)) as u16,
                    dec_value(unsigned_digits(b)) as u16,
                ),
            )
        } else {
            None
        }
    } else {
        None
    }
}

fn parse_range_cond(s: &[u8]) -> (r: Option<(u16, u16)>)
    ensures
        r == spec_parse_range_cond(s@),
{
    proof {
        lemma_first_idx(s@, 45);
    }
    let mut i: usize = 0;
    let mut found: bool = false;
    while i < s.len() && !found
        invariant
            0 <= i <= s@.len(),
            found ==> i < s@.len() && s@[i as int] == 45,
            forall|j: int| 0 <= j < i ==> s@[j] != 45,
        decreases s.len() - i, !found as int,
    {
        if s[i] == 45 {
            found = true;
        } else {
            i = i + 1;
        }
    }
    if !found {
        proof {
            assert(first_idx(s@, 45) == s@.len());
        }
        return None;
    }
    proof {
        assert(i as int == first_idx(s@, 45));
    }
    let rest = &s[i + 1..s.len()];
    if find_second_dash(rest) {
        return None;
    }
    let a = trim_bytes(&s[0..i]);
    let b = trim_bytes(rest);
    match (parse_u16_bytes(a), parse_u16_bytes(b)) {
        (Some(lo), Some(hi)) => Some((lo, hi)),
        _ => None,
    }
}

fn find_second_dash(s: &[u8]) -> (r: bool)
    ensures
        r == contains_byte(s@, 45),
{
    let mut i: usize = 0;
    while i < s.len()
        invariant
            forall|j: int| 0 <= j < i ==> s@[j] != 45,
        decreases s.len() - i,
    {
        if s[i] == 45 {
            return true;
        }
        i = i + 1;
    }
    false
}

/// The raw rule's action names a known action.
pub open spec fn action_ok(raw: RawRule) -> bool {
    spec_action_of(ascii_lower_seq(trim_spec(utf8_bytes(raw.action@)))) is Some
}

/// How a compiled rule relates to its raw form.  All fields are pinned
/// except whether the host pattern compiled; when it did, its source is the
/// raw pattern.
pub open spec fn compiles_to(raw: RawRule, r: Rule) -> bool {
    &&& Some(r.action) == spec_action_of(ascii_lower_seq(trim_spec(utf8_bytes(raw.action@))))
    &&& (match (raw.proto, r.proto) {
        (Some(s), Some(p)) => p@ == ascii_lower_seq(utf8_bytes(s@)),
        (None, None) => true,
        _ => false,
    })
    &&& r.port == raw.port
    &&& (match raw.port_range {
        Some(s) => r.port_range == spec_parse_range_cond(utf8_bytes(s@)),
        None => r.port_range is None,
    })
    &&& (match r.host_regex {
        Some(h) => raw.host_regex matches Some(s) && h.pat() == s@,
        None => true,
    })
    &&& r.socks_available == raw.socks_available
    &&& r.is_udp == raw.is_udp
}

/// The compiled list keeps the raw order, dropping rules with unknown
/// actions.
pub open spec fn rules_correspond(raws: Seq<RawRule>, out: Seq<Rule>) -> bool
    decreases raws.len(),
{
    if raws.len() == 0 {
        out.len() == 0
    } else if action_ok(raws.last()) {
        out.len() > 0 && compiles_to(raws.last(), out.last()) && rules_correspond(
            raws.drop_last(),
            out.drop_last(),
        )
    } else {
        rules_correspond(raws.drop_last(), out)
    }
}

impl Rules {
    /// An empty rule list: every decision falls through to the default.
    pub fn empty() -> (r: Rules)
        ensures
            r.rules@.len() == 0,
    {
        Rules { rules: Vec::new() }
    }

    /// Compile raw rules in order; rules with unknown actions are dropped.
    pub fn from_raw(raws: &Vec<RawRule>) -> (r: Rules)
        ensures
            rules_correspond(raws@, r.rules@),
    {
        let mut out: Vec<Rule> = Vec::new();
        let mut i: usize = 0;
        proof {
            assert(raws@.take(0) =~= Seq::<RawRule>::empty());
        }
        while i < raws.len()
            invariant
                0 <= i <= raws@.len(),
                rules_correspond(raws@.take(i as int), out@),
            decreases raws.len() - i,
        {
            let raw = &raws[i];
            let ghost prev_out = out@;
            match Self::compile(raw) {
                Some(rule) => {
                    out.push(rule);
                    proof {
                        let t = raws@.take(i as int + 1);
                        assert(t.last() == raws@[i as int]);
                        assert(t.drop_last() =~= raws@.take(i as int));
                        assert(out@.last() == rule);
                        assert(out@.drop_last() =~= prev_out);
                    }
                },
                None => {
                    proof {
                        let t = raws@.take(i as int + 1);
                        assert(t.last() == raws@[i as int]);
                        assert(t.drop_last() =~= raws@.take(i as int));
                    }
                },
            }
            i = i + 1;
        }
        proof {
            assert(raws@.take(raws@.len() as int) =~= raws@);
        }
        Rules { rules: out }
    }

    fn compile(raw: &RawRule) -> (r: Option<Rule>)
        ensures
            match r {
                Some(rule) => action_ok(*raw) && compiles_to(*raw, rule),
                None => !action_ok(*raw),
            },
    {
        let action_low = to_lower(trim_bytes(raw.action.as_str().as_bytes()));
        let action = match action_of_bytes(action_low.as_slice()) {
            Some(a) => a,
            None => {
                return None;
            },
        };
        let proto: Option<Vec<u8>> = match &raw.proto {
            Some(s) => Some(to_lower(s.as_str().as_bytes())),
            None => None,
        };
        let port_range: Option<(u16, u16)> = match &raw.port_range {
            Some(s) => parse_range_cond(s.as_str().as_bytes()),
            None => None,
        };
        let host_regex: Option<HostRegex> = match &raw.host_regex {
            Some(s) => HostRegex::compile(s.as_str()),
            None => None,
        };
        Some(
            Rule {
                proto,
                port: raw.port,
                port_range,
                host_regex,
                socks_available: raw.socks_available,
                is_udp: raw.is_udp,
                action,
            },
        )
    }

    /// First-wins evaluation of the rule list against one connection.
    pub fn decide(
        &self,
        proto: &str,
        host: &str,
        port: u16,
        socks_available: bool,
        is_udp: bool,
    ) -> (r: Option<Action>)
        ensures
            r == first_match(
                self.rules@,
                ascii_lower_seq(proto.spec_bytes()),
                host@,
                port,
                socks_available,
                is_udp,
            ),
    {
        let ghost plow = ascii_lower_seq(proto.spec_bytes());
        let proto_low = to_lower(proto.as_bytes());
        let mut i: usize = 0;
        while i < self.rules.len()
            invariant
                0 <= i <= self.rules@.len(),
                plow == ascii_lower_seq(proto.spec_bytes()),
                proto_low@ == plow,
                first_match(self.rules@, plow, host@, port, socks_available, is_udp)
                    == first_match_from(
                    self.rules@,
                    i as int,
                    plow,
                    host@,
                    port,
                    socks_available,
                    is_udp,
                ),
            decreases self.rules.len() - i,
        {
            let m = Self::rule_match(&self.rules[i], proto_low.as_slice(), host, port, socks_available, is_udp);
            if m {
                proof {
                    assert(first_match_from(self.rules@, i as int, plow, host@, port, socks_available, is_udp)
                        == Some(self.rules@[i as int].action));
                }
                return Some(self.rules[i].action);
            }
            proof {
                assert(first_match_from(self.rules@, i as int, plow, host@, port, socks_available, is_udp)
                    == first_match_from(self.rules@, i as int + 1, plow, host@, port, socks_available, is_udp));
            }
            i = i + 1;
        }
        None
    }

    fn rule_match(
        r: &Rule,
        proto_low: &[u8],
        host: &str,
        port: u16,
        socks_available: bool,
        is_udp: bool,
    ) -> (m: bool)
        ensures
            m == rule_matches(*r, proto_low@, host@, port, socks_available, is_udp),
    {
        match &r.proto {
            Some(p) => {
                if !bytes_eq(p.as_slice(), proto_low) {
                    return false;
                }
            },
            None => {},
        }
        match r.is_udp {
            Some(u) => {
                if u != is_udp {
                    return false;
                }
            },
            None => {},
        }
        match r.socks_available {
            Some(s) => {
                if s != socks_available {
                    return false;
                }
            },
            None => {},
        }
        match r.port {
            Some(p) => {
                if p != port {
                    return false;
                }
            },
            None => {},
        }
        match r.port_range {
            Some((lo, hi)) => {
                if !(lo <= port && port <= hi) {
                    return false;
                }
            },
            None => {},
        }
        match &r.host_regex {
            Some(h) => {
                if !h.is_match(host) {
                    return false;
                }
            },
            None => {},
        }
        true
    }
}

} // verus!
