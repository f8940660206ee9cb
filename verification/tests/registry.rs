use t2s::addr::{IpAddrV, SockAddrV};
use t2s::backend::{rtt_integrity_percent, derive_state, BackendState, SocksBackends};
use t2s::conn::{enforce_tick, parse_cid, ConnMode, ConnRegistry};
use t2s::stats::{Event, Ingress, Stats};

fn v4(a: u8, b: u8, c: u8, d: u8, port: u16) -> SockAddrV {
    SockAddrV { ip: IpAddrV::V4(a, b, c, d), port }
}

#[test]
fn stats_counters_add_exactly() {
    let mut s = Stats::default();
    s.add_up(10);
    s.add_up(5);
    s.add_down(7);
    s.add_up_ingress(Ingress::Internal, 10);
    s.add_down_ingress(Ingress::External, 3);
    s.inc_error();
    s.inc_socks_ok();
    s.inc_socks_fail();
    s.inc_policy_drop();
    let snap = s.snapshot();
    assert_eq!(snap.bytes_up, 15);
    assert_eq!(snap.bytes_down, 7);
    assert_eq!(snap.internal.bytes_up, 10);
    assert_eq!(snap.internal.bytes_down, 0);
    assert_eq!(snap.external.bytes_down, 3);
    assert_eq!(snap.errors, 1);
    assert_eq!(snap.socks_ok, 1);
    assert_eq!(snap.socks_fail, 1);
    assert_eq!(snap.policy_drop, 1);
}

#[test]
fn conn_target_event_formats_target() {
    let e = Event::conn_target(7, "93.184.216.34".to_string(), 80, "socks5".to_string());
    assert_eq!(e.kind, "conn_target");
    assert_eq!(e.cid, Some(7));
    assert_eq!(e.target.as_deref(), Some("93.184.216.34:80"));
    assert_eq!(e.mode.as_deref(), Some("socks5"));
    let c = Event::conn_close(7);
    assert_eq!(c.kind, "conn_close");
    assert!(c.target.is_none());
}

#[test]
fn registry_lifecycle_and_mode() {
    let mut reg = ConnRegistry::new();
    let cid = reg.new_conn("10.0.0.7:40000".to_string(), Ingress::Internal);
    assert_eq!(reg.len(), 1);
    let infos = reg.list();
    assert_eq!(infos[0].cid, cid);
    assert!(infos[0].mode.is_none());
    reg.set_target(cid, "93.184.216.34:80", ConnMode::Socks);
    reg.set_domain(cid, Some("example.org".to_string()));
    reg.set_domain(cid, Some(String::new()));
    reg.set_dst_ip(cid, Some("93.184.216.34".to_string()));
    reg.add_bytes_up(cid, 100);
    reg.add_bytes_down(cid, 50);
    let infos = reg.list();
    assert_eq!(infos[0].mode, Some(ConnMode::Socks));
    assert_eq!(infos[0].target.as_deref(), Some("93.184.216.34:80"));
    assert_eq!(infos[0].domain.as_deref(), Some("example.org"));
    assert_eq!(infos[0].bytes_up, 100);
    assert_eq!(infos[0].bytes_down, 50);
    reg.finish_conn(cid);
    assert_eq!(reg.len(), 0);
}

#[test]
fn registry_kill_by_cid() {
    let mut reg = ConnRegistry::new();
    let cid = reg.new_conn("peer".to_string(), Ingress::External);
    assert!(reg.kill(cid));
    assert!(!reg.kill(cid.wrapping_add(1)));
    assert!(reg.entries[0].cancelled);
}

#[test]
fn registry_kill_mode_counts_direct() {
    let mut reg = ConnRegistry::new();
    let c1 = reg.new_conn("a".to_string(), Ingress::Internal);
    let c2 = reg.new_conn("b".to_string(), Ingress::Internal);
    let c3 = reg.new_conn("c".to_string(), Ingress::Internal);
    reg.set_target(c1, "t1", ConnMode::Direct);
    reg.set_target(c2, "t2", ConnMode::Socks);
    reg.set_target(c3, "t3", ConnMode::Direct);
    assert_eq!(reg.kill_mode(ConnMode::Direct), 2);
    for e in reg.entries.iter() {
        if e.info.mode == Some(ConnMode::Direct) {
            assert!(e.cancelled);
        } else {
            assert!(!e.cancelled);
        }
    }
}

#[test]
fn registry_kills_stuck_socks_only() {
    let mut reg = ConnRegistry::new();
    let c1 = reg.new_conn("a".to_string(), Ingress::Internal);
    let c2 = reg.new_conn("b".to_string(), Ingress::Internal);
    reg.set_target(c1, "t1", ConnMode::Socks);
    reg.set_target(c2, "t2", ConnMode::Socks);
    reg.add_bytes_up(c2, 1);
    let killed = reg.kill_stuck_socks_zero_traffic(0, u64::MAX);
    assert_eq!(killed, 1);
}

#[test]
fn enforcement_cancels_direct_while_green() {
    let mut reg = ConnRegistry::new();
    let c1 = reg.new_conn("a".to_string(), Ingress::Internal);
    let c2 = reg.new_conn("b".to_string(), Ingress::Internal);
    reg.set_target(c1, "t1", ConnMode::Direct);
    reg.set_target(c2, "t2", ConnMode::Socks);
    let (direct, _) = enforce_tick(&mut reg, true, true, u64::MAX);
    assert_eq!(direct, 1);
    for e in reg.entries.iter() {
        if e.info.mode == Some(ConnMode::Direct) {
            assert!(e.cancelled);
        }
    }
    // Without a green backend nothing is touched.
    let mut quiet = ConnRegistry::new();
    let c = quiet.new_conn("a".to_string(), Ingress::Internal);
    quiet.set_target(c, "t", ConnMode::Direct);
    let (d, s) = enforce_tick(&mut quiet, false, false, u64::MAX);
    assert_eq!((d, s), (0, 0));
    assert!(!quiet.entries[0].cancelled);
}

#[test]
fn recovery_edge_cancels_stuck_socks() {
    let mut reg = ConnRegistry::new();
    let c1 = reg.new_conn("a".to_string(), Ingress::Internal);
    reg.set_target(c1, "t1", ConnMode::Socks);
    let (_, stuck) = enforce_tick(&mut reg, true, false, u64::MAX);
    assert_eq!(stuck, 1);
    assert!(reg.entries[0].cancelled);
}

#[test]
fn backends_require_at_least_one_address() {
    assert!(SocksBackends::new(Vec::new()).is_none());
    assert!(SocksBackends::new(vec![v4(10, 0, 0, 1, 1080)]).is_some());
}

#[test]
fn backends_start_red_and_turn_green_after_probes() {
    let mut b = SocksBackends::new(vec![v4(10, 0, 0, 1, 1080)]).unwrap();
    assert!(!b.any_green());
    assert!(!b.any_reachable());
    b.update(0, None, Some(12), Some(30), Some(57));
    assert!(b.any_green());
    assert!(b.any_reachable());
    let snap = b.snapshot();
    assert_eq!(snap[0].state, BackendState::Green);
    assert!(snap[0].healthy);
    assert_eq!(snap[0].socks_ping_ms, Some(12));
    assert_eq!(snap[0].ttl_min, Some(57));
    assert_eq!(snap[0].ttl_max, Some(57));
}

#[test]
fn backend_states_follow_probe_outcomes() {
    assert_eq!(derive_state(None, None), BackendState::Red);
    assert_eq!(derive_state(Some(5), None), BackendState::Yellow);
    assert_eq!(derive_state(Some(5), Some(9)), BackendState::Green);
    let mut b = SocksBackends::new(vec![v4(10, 0, 0, 1, 1080)]).unwrap();
    b.update(0, Some("internet probe failed".to_string()), Some(5), None, None);
    let snap = b.snapshot();
    assert_eq!(snap[0].state, BackendState::Yellow);
    assert!(!snap[0].healthy);
    assert!(b.any_reachable());
    assert!(!b.any_green());
}

#[test]
fn auth_failure_marks_backend_red_and_selection_skips_it() {
    let a = v4(10, 0, 0, 1, 1080);
    let bb = v4(10, 0, 0, 2, 1080);
    let mut b = SocksBackends::new(vec![a, bb]).unwrap();
    b.update(0, None, Some(4), Some(8), None);
    b.update(1, None, Some(4), Some(8), None);
    b.mark_backend_failed(a, "no acceptable auth methods".to_string());
    let snap = b.snapshot();
    assert_eq!(snap[0].state, BackendState::Red);
    assert_eq!(snap[0].last_error.as_deref(), Some("no acceptable auth methods"));
    for _ in 0..4 {
        assert_eq!(b.select_rr(), Some(bb));
    }
}

#[test]
fn round_robin_spreads_selections_evenly() {
    let a = v4(10, 0, 0, 1, 1080);
    let bb = v4(10, 0, 0, 2, 1080);
    let mut b = SocksBackends::new(vec![a, bb]).unwrap();
    assert_eq!(b.select_rr(), None);
    b.update(0, None, Some(4), Some(8), None);
    b.update(1, None, Some(4), Some(8), None);
    let mut count_a = 0;
    let mut count_b = 0;
    for _ in 0..6 {
        match b.select_rr() {
            Some(sa) if sa == a => count_a += 1,
            Some(sa) if sa == bb => count_b += 1,
            _ => panic!("expected a green backend"),
        }
    }
    assert_eq!(count_a, 3);
    assert_eq!(count_b, 3);
}

#[test]
fn backends_add_remove_and_attribute_bytes() {
    let a = v4(10, 0, 0, 1, 1080);
    let bb = v4(10, 0, 0, 2, 1080);
    let mut b = SocksBackends::new(vec![a]).unwrap();
    b.add(bb);
    b.add(bb);
    assert_eq!(b.len(), 2);
    b.add_bytes(bb, 65536);
    b.add_bytes(bb, 100);
    let snap = b.snapshot();
    assert_eq!(snap[1].total_bytes, 65636);
    b.remove(a);
    assert_eq!(b.len(), 1);
    assert_eq!(b.addr_at(0), Some(bb));
    assert_eq!(b.addr_at(1), None);
}

#[test]
fn rtt_integrity_counts_samples_near_median() {
    assert_eq!(rtt_integrity_percent(&vec![10, 10, 10]), 100);
    assert_eq!(rtt_integrity_percent(&vec![10, 10, 100]), 66);
    assert_eq!(rtt_integrity_percent(&vec![7]), 100);
}

#[test]
fn address_display_forms() {
    assert_eq!(v4(1, 2, 3, 4, 80).to_display(), "1.2.3.4:80");
    assert_eq!(v4(93, 184, 216, 34, 0).ip.to_display(), "93.184.216.34");
    let six = SockAddrV { ip: IpAddrV::V6(0, 0, 0, 0, 0, 0, 0, 1), port: 443 };
    assert_eq!(six.to_display(), "[0000:0000:0000:0000:0000:0000:0000:0001]:443");
}

#[test]
fn cid_parses_decimal_and_hex() {
    assert_eq!(parse_cid("12345"), Some(12345));
    assert_eq!(parse_cid("  42 "), Some(42));
    assert_eq!(parse_cid("0x2a"), Some(42));
    assert_eq!(parse_cid("0xFF"), Some(255));
    assert_eq!(parse_cid("0x"), None);
    assert_eq!(parse_cid(""), None);
    assert_eq!(parse_cid("beef"), None);
    assert_eq!(parse_cid("18446744073709551615"), Some(u64::MAX));
    assert_eq!(parse_cid("18446744073709551616"), None);
}
