use t2s::addr::{IpAddrV, SockAddrV};
use t2s::forwarder::{
    choose_socks_target, copy_step_continues, direct_fallback_allowed, idle_exceeded,
    looks_like_ip, route_decision, throttle_sleep_ms, window_reset_due, ByteBatcher,
    RouteDecision, Target,
};
use t2s::rules::{classify_protocol, Action, RawRule, Rules};
use t2s::sniff::{sniff_host, SniffResult};
use t2s::socks5::{
    build_greeting, build_userpass, bound_addr_remaining, encode_connect_request,
    parse_auth_reply, parse_greeting_reply, parse_reply_header, AuthMethod, SocksError,
    TargetAddr,
};

fn raw_rule(action: &str) -> RawRule {
    RawRule {
        action: action.to_string(),
        proto: None,
        port: None,
        port_range: None,
        host_regex: None,
        socks_available: None,
        is_udp: None,
    }
}

#[test]
fn classify_protocol_ports() {
    assert_eq!(classify_protocol(80), "http");
    assert_eq!(classify_protocol(8080), "http");
    assert_eq!(classify_protocol(8000), "http");
    assert_eq!(classify_protocol(443), "https");
    assert_eq!(classify_protocol(8443), "https");
    assert_eq!(classify_protocol(53), "dns");
    assert_eq!(classify_protocol(1234), "tcp");
}

#[test]
fn rules_empty_list_decides_nothing() {
    let rules = Rules::empty();
    assert_eq!(rules.decide("http", "example.org", 80, true, false), None);
}

#[test]
fn rules_drop_on_dns_port() {
    let mut raws = Vec::new();
    let mut r = raw_rule("drop");
    r.port = Some(53);
    raws.push(r);
    let rules = Rules::from_raw(&raws);
    assert_eq!(rules.decide("dns", "8.8.8.8", 53, false, false), Some(Action::Drop));
    assert_eq!(rules.decide("tcp", "example.org", 5353, false, false), None);
}

#[test]
fn rules_first_match_wins() {
    let mut raws = Vec::new();
    let mut r1 = raw_rule("direct");
    r1.port = Some(443);
    raws.push(r1);
    let mut r2 = raw_rule("drop");
    r2.port = Some(443);
    raws.push(r2);
    let rules = Rules::from_raw(&raws);
    assert_eq!(rules.decide("https", "example.org", 443, true, false), Some(Action::Direct));
}

#[test]
fn rules_action_is_trimmed_and_case_insensitive() {
    let raws = vec![raw_rule("  DROP  ")];
    let rules = Rules::from_raw(&raws);
    assert_eq!(rules.decide("tcp", "x", 1, false, false), Some(Action::Drop));
}

#[test]
fn rules_unknown_action_is_ignored() {
    let raws = vec![raw_rule("explode")];
    let rules = Rules::from_raw(&raws);
    assert_eq!(rules.decide("tcp", "x", 1, false, false), None);
}

#[test]
fn rules_port_range_condition() {
    let mut r = raw_rule("socks");
    r.port_range = Some("1000-2000".to_string());
    let rules = Rules::from_raw(&vec![r]);
    assert_eq!(rules.decide("tcp", "x", 1500, false, false), Some(Action::Socks));
    assert_eq!(rules.decide("tcp", "x", 2500, false, false), None);
}

#[test]
fn rules_invalid_port_range_drops_condition() {
    let mut r = raw_rule("wait");
    r.port_range = Some("10-20-30".to_string());
    let rules = Rules::from_raw(&vec![r]);
    assert_eq!(rules.decide("tcp", "x", 9999, false, false), Some(Action::Wait));
}

#[test]
fn rules_host_regex_is_case_insensitive() {
    let mut r = raw_rule("reset");
    r.host_regex = Some("example".to_string());
    let rules = Rules::from_raw(&vec![r]);
    assert_eq!(rules.decide("https", "EXAMPLE.com", 443, false, false), Some(Action::Reset));
    assert_eq!(rules.decide("https", "other.com", 443, false, false), None);
}

#[test]
fn rules_proto_and_flags_conditions() {
    let mut r = raw_rule("drop");
    r.proto = Some("HTTP".to_string());
    r.socks_available = Some(true);
    r.is_udp = Some(false);
    let rules = Rules::from_raw(&vec![r]);
    assert_eq!(rules.decide("http", "x", 80, true, false), Some(Action::Drop));
    assert_eq!(rules.decide("http", "x", 80, false, false), None);
    assert_eq!(rules.decide("dns", "x", 53, true, false), None);
}

#[test]
fn sniff_plain_http_host() {
    let buf = b"GET / HTTP/1.1\r\nHost: example.org\r\n\r\n";
    match sniff_host(buf) {
        Some(SniffResult::HttpHost(h)) => assert_eq!(h, "example.org"),
        _ => panic!("expected a plain-HTTP host"),
    }
}

#[test]
fn sniff_http_host_strips_port_and_lowers() {
    let buf = b"GET / HTTP/1.1\r\nHost: EXAMPLE.org:8080\r\n\r\n";
    match sniff_host(buf) {
        Some(SniffResult::HttpHost(h)) => assert_eq!(h, "example.org"),
        _ => panic!("expected a plain-HTTP host"),
    }
}

#[test]
fn sniff_http_rejects_invalid_utf8_body() {
    let mut buf = b"GET / HTTP/1.1\r\nHost: example.org\r\n".to_vec();
    buf.push(0xff);
    buf.push(0xfe);
    assert!(sniff_host(&buf).is_none());
}

#[test]
fn sniff_connect_host() {
    let buf = b"CONNECT example.com:443 HTTP/1.1\r\n\r\n";
    match sniff_host(buf) {
        Some(SniffResult::ConnectHost(h)) => assert_eq!(h, "example.com"),
        _ => panic!("expected a CONNECT host"),
    }
}

#[test]
fn sniff_empty_and_truncated_buffers() {
    assert!(sniff_host(b"").is_none());
    assert!(sniff_host(&[0x16, 0x03]).is_none());
    assert!(sniff_host(b"GET / HTTP/1.1").is_none());
}

#[test]
fn sniff_tls_sni() {
    let name = b"www.test.example";
    let mut hs_body: Vec<u8> = Vec::new();
    hs_body.extend_from_slice(&[3, 3]);
    hs_body.extend_from_slice(&[0u8; 32]);
    hs_body.push(0);
    hs_body.extend_from_slice(&[0, 2, 0x13, 0x01]);
    hs_body.extend_from_slice(&[1, 0]);
    let mut sni: Vec<u8> = Vec::new();
    let list_len = 3 + name.len();
    sni.extend_from_slice(&[(list_len >> 8) as u8, list_len as u8]);
    sni.push(0);
    sni.extend_from_slice(&[(name.len() >> 8) as u8, name.len() as u8]);
    sni.extend_from_slice(name);
    let mut ext: Vec<u8> = Vec::new();
    ext.extend_from_slice(&[0, 0]);
    ext.extend_from_slice(&[(sni.len() >> 8) as u8, sni.len() as u8]);
    ext.extend_from_slice(&sni);
    hs_body.extend_from_slice(&[(ext.len() >> 8) as u8, ext.len() as u8]);
    hs_body.extend_from_slice(&ext);
    let mut hs: Vec<u8> = Vec::new();
    hs.push(1);
    let l = hs_body.len();
    hs.extend_from_slice(&[(l >> 16) as u8, (l >> 8) as u8, l as u8]);
    hs.extend_from_slice(&hs_body);
    let mut rec: Vec<u8> = Vec::new();
    rec.extend_from_slice(&[0x16, 3, 1]);
    rec.extend_from_slice(&[(hs.len() >> 8) as u8, hs.len() as u8]);
    rec.extend_from_slice(&hs);
    match sniff_host(&rec) {
        Some(SniffResult::TlsSni(h)) => assert_eq!(h, "www.test.example"),
        _ => panic!("expected a TLS server name"),
    }
}

#[test]
fn sniff_same_prefix_sniffs_equal() {
    let buf = b"GET / HTTP/1.1\r\nHost: example.org\r\n\r\n";
    let first = match sniff_host(buf) {
        Some(SniffResult::HttpHost(h)) => h,
        _ => panic!("expected a host"),
    };
    let second = match sniff_host(buf) {
        Some(SniffResult::HttpHost(h)) => h,
        _ => panic!("expected a host"),
    };
    assert_eq!(first, second);
}

#[test]
fn socks_greeting_bytes() {
    assert_eq!(build_greeting(false), vec![5u8, 1, 0]);
    assert_eq!(build_greeting(true), vec![5u8, 2, 0, 2]);
}

#[test]
fn socks_greeting_reply_cases() {
    assert_eq!(parse_greeting_reply(5, 0), Ok(AuthMethod::NoAuth));
    assert_eq!(parse_greeting_reply(5, 2), Ok(AuthMethod::UserPass));
    assert_eq!(parse_greeting_reply(5, 0xFF), Err(SocksError::NoAcceptableAuth));
    assert_eq!(parse_greeting_reply(5, 1), Err(SocksError::UnsupportedAuthMethod(1)));
    assert_eq!(parse_greeting_reply(4, 0), Err(SocksError::InvalidVersion(4)));
}

#[test]
fn socks_connect_request_for_domain() {
    let t = TargetAddr::Domain("example.org".to_string(), 80);
    let bytes = encode_connect_request(&t).unwrap();
    let mut expected = vec![5u8, 1, 0, 3, 11];
    expected.extend_from_slice(b"example.org");
    expected.extend_from_slice(&[0, 80]);
    assert_eq!(bytes, expected);
}

#[test]
fn socks_connect_request_for_ipv4() {
    let t = TargetAddr::Ip(SockAddrV { ip: IpAddrV::V4(93, 184, 216, 34), port: 80 });
    let bytes = encode_connect_request(&t).unwrap();
    assert_eq!(bytes, vec![5u8, 1, 0, 1, 93, 184, 216, 34, 0, 80]);
}

#[test]
fn socks_connect_request_rejects_long_domain() {
    let t = TargetAddr::Domain("x".repeat(256), 80);
    assert_eq!(encode_connect_request(&t), Err(SocksError::DomainTooLong));
}

#[test]
fn socks_userpass_request() {
    let bytes = build_userpass(b"user", b"pw").unwrap();
    assert_eq!(bytes, vec![1u8, 4, b'u', b's', b'e', b'r', 2, b'p', b'w']);
    assert_eq!(build_userpass(&[0u8; 256], b"x"), Err(SocksError::CredsTooLong));
    assert_eq!(parse_auth_reply(1, 0), Ok(()));
    assert_eq!(parse_auth_reply(1, 1), Err(SocksError::AuthFailed));
}

#[test]
fn socks_reply_header_cases() {
    assert_eq!(parse_reply_header(5, 0, 1), Ok(1));
    assert_eq!(parse_reply_header(5, 0, 3), Ok(3));
    assert_eq!(parse_reply_header(5, 5, 1), Err(SocksError::ConnectFailed(5)));
    assert_eq!(parse_reply_header(4, 0, 1), Err(SocksError::InvalidVersion(4)));
    assert_eq!(parse_reply_header(5, 0, 9), Err(SocksError::UnknownAtyp(9)));
    assert_eq!(bound_addr_remaining(1, 0), 6);
    assert_eq!(bound_addr_remaining(4, 0), 18);
    assert_eq!(bound_addr_remaining(3, 10), 12);
}

#[test]
fn remote_dns_prefers_sniffed_domain() {
    let target = Target::SockAddr(SockAddrV { ip: IpAddrV::V4(93, 184, 216, 34), port: 80 });
    match choose_socks_target(&target, Some("example.org")) {
        TargetAddr::Domain(h, p) => {
            assert_eq!(h, "example.org");
            assert_eq!(p, 80);
        },
        _ => panic!("expected the sniffed domain"),
    }
}

#[test]
fn remote_dns_keeps_ip_when_hint_is_literal() {
    let target = Target::SockAddr(SockAddrV { ip: IpAddrV::V4(1, 2, 3, 4), port: 443 });
    match choose_socks_target(&target, Some("1.2.3.4")) {
        TargetAddr::Ip(sa) => assert_eq!(sa.port, 443),
        _ => panic!("expected the literal address"),
    }
    match choose_socks_target(&target, None) {
        TargetAddr::Ip(_) => {},
        _ => panic!("expected the literal address"),
    }
}

#[test]
fn ip_literal_detection() {
    assert!(looks_like_ip("1.2.3.4"));
    assert!(looks_like_ip("::1"));
    assert!(looks_like_ip("fe80::1"));
    assert!(!looks_like_ip("example.org"));
    assert!(!looks_like_ip("256.1.1.1"));
    assert!(!looks_like_ip("01.2.3.4"));
    assert!(!looks_like_ip("1.2.3"));
    assert!(!looks_like_ip("1.2.3.4.5"));
}

#[test]
fn route_decision_follows_rules_and_policy() {
    assert_eq!(route_decision(Some(Action::Drop), true), RouteDecision::DropClean);
    assert_eq!(route_decision(Some(Action::Reset), false), RouteDecision::DropClean);
    assert_eq!(route_decision(Some(Action::Wait), true), RouteDecision::WaitForBackend);
    assert_eq!(route_decision(None, true), RouteDecision::UseSocks);
    assert_eq!(route_decision(None, false), RouteDecision::UseDirect);
    assert_eq!(route_decision(Some(Action::Direct), true), RouteDecision::UseSocks);
    assert_eq!(route_decision(Some(Action::Direct), false), RouteDecision::UseDirect);
}

#[test]
fn direct_fallback_only_without_green() {
    assert!(!direct_fallback_allowed(true));
    assert!(direct_fallback_allowed(false));
}

#[test]
fn byte_batcher_flushes_at_threshold() {
    let mut b = ByteBatcher::new();
    assert_eq!(b.add(40000), None);
    assert_eq!(b.add(30000), Some(70000));
    assert_eq!(b.add(10), None);
    assert_eq!(b.finish(), 10);
    assert_eq!(b.finish(), 0);
}

#[test]
fn throttle_limits_download_rate() {
    // An eight-megabit cap is 1 MiB per second; two MiB observed within one
    // second must sleep the full half-second step.
    let cap: u64 = 8 * 1024 * 1024 / 8;
    assert_eq!(throttle_sleep_ms(2 * 1024 * 1024, 1000, cap), 500);
    assert_eq!(throttle_sleep_ms(1024, 1000, cap), 0);
    assert_eq!(throttle_sleep_ms(2 * 1024 * 1024, 1000, 0), 0);
    assert_eq!(throttle_sleep_ms(2 * 1024 * 1024, 0, cap), 0);
    // Slightly over the cap sleeps only the missing time.
    assert_eq!(throttle_sleep_ms(cap + cap / 10, 1000, cap), 99);
}

#[test]
fn copy_step_honours_cancellation() {
    assert!(!copy_step_continues(true, 100, false));
    assert!(!copy_step_continues(false, 0, false));
    assert!(!copy_step_continues(false, 100, true));
    assert!(copy_step_continues(false, 100, false));
    assert!(idle_exceeded(2000, 1));
    assert!(!idle_exceeded(500, 1));
    assert!(!idle_exceeded(u64::MAX, 0));
    assert!(window_reset_due(1001));
    assert!(!window_reset_due(1000));
}
