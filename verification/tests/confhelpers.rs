use t2s::daemon::State;
use t2s::health::{enforce_sleep_interval, health_sleep_interval, is_idle, parse_ping_output, sampler_sleep_interval};
use t2s::iplist::is_v4_line;
use t2s::nfqws_filters::extract_proto_port_filter;
use t2s::iptport::{analyze_ports, normalize_ports_csv, parse_range, DpiTunnelOptions, ProtoChoice};
use t2s::pkg_uid::{package_of_line, Mode, Sha256Tracker};
use t2s::portfilter::{
    chunk_multiport, join_elems_csv, merge_ranges, parse_and_merge_specs, parse_ranges,
    to_multiport_elements, PortRange, ProtoPortFilter,
};
use t2s::ports::{
    collect_used_ports_for_conflict_check, next_free_port, program_base,
    suggest_port_for_new_profile,
};
use t2s::selinux::{parse_getenforce, SelinuxGuard, SelinuxMode};
use t2s::settings::{
    api_info_path, api_token_path, ip6tables_backup_path, iptables_backup_path, start_json_path,
    token_path, StartSettings,
};
use t2s::singbox::{CaptureMode, Profile, Setting};
use t2s::system::{compute_cpu_percent, parse_kb, CpuSample};
use t2s::zconfig::{shell_single_quote_escape, LogConfig, NotificationType, NotificationsConfig};

#[test]
fn port_spec_parsing() {
    let rs = parse_ranges("80,443,4000-5000");
    assert_eq!(rs, vec![PortRange::new(80, 80), PortRange::new(443, 443), PortRange::new(4000, 5000)]);
    assert_eq!(parse_ranges(" 443 , 3000-6000 "), vec![
        PortRange::new(443, 443),
        PortRange::new(3000, 6000),
    ]);
    assert_eq!(parse_ranges("500-100"), vec![PortRange::new(100, 500)]);
    assert_eq!(parse_ranges("100:200"), vec![PortRange::new(100, 200)]);
    assert_eq!(parse_ranges("zero,0,70000,"), Vec::<PortRange>::new());
}

#[test]
fn merged_ranges_union_overlaps() {
    let merged = merge_ranges(vec![
        PortRange::new(80, 80),
        PortRange::new(443, 443),
        PortRange::new(3000, 6000),
        PortRange::new(3500, 65000),
    ]);
    assert_eq!(merged, vec![
        PortRange::new(80, 80),
        PortRange::new(443, 443),
        PortRange::new(3000, 65000),
    ]);
    // Adjacent ranges fuse.
    assert_eq!(merge_ranges(vec![PortRange::new(1, 2), PortRange::new(3, 4)]), vec![
        PortRange::new(1, 4),
    ]);
    assert_eq!(merge_ranges(Vec::new()), Vec::<PortRange>::new());
}

#[test]
fn specs_parse_and_merge_together() {
    let specs = vec![
        "80,443,4000-5000".to_string(),
        "443, 3000-6000".to_string(),
        "3500-65000".to_string(),
    ];
    let merged = parse_and_merge_specs(&specs);
    assert_eq!(merged, vec![
        PortRange::new(80, 80),
        PortRange::new(443, 443),
        PortRange::new(3000, 65000),
    ]);
}

#[test]
fn multiport_rendering_and_chunking() {
    let rs = vec![PortRange::new(80, 80), PortRange::new(4000, 5000)];
    let elems = to_multiport_elements(&rs);
    assert_eq!(elems, vec!["80".to_string(), "4000:5000".to_string()]);
    assert_eq!(join_elems_csv(&elems), "80,4000:5000");
    let many: Vec<String> = (0..20).map(|i| i.to_string()).collect();
    let chunks = chunk_multiport(&many, 15);
    assert_eq!(chunks.len(), 2);
    assert_eq!(chunks[0].len(), 15);
    assert_eq!(chunks[1].len(), 5);
    assert!(chunk_multiport(&Vec::new(), 15).is_empty());
    let f = ProtoPortFilter { tcp: rs, udp: Vec::new() };
    assert!(!f.is_empty());
    assert!(ProtoPortFilter { tcp: Vec::new(), udp: Vec::new() }.is_empty());
}

#[test]
fn proto_choice_and_ports_csv() {
    assert_eq!(ProtoChoice::from_str("udp"), ProtoChoice::Udp);
    assert_eq!(ProtoChoice::from_str("tcp_udp"), ProtoChoice::TcpUdp);
    assert_eq!(ProtoChoice::from_str("anything"), ProtoChoice::Tcp);
    assert_eq!(ProtoChoice::Tcp.protos(), vec!["tcp"]);
    assert_eq!(ProtoChoice::TcpUdp.protos(), vec!["tcp", "udp"]);
    assert_eq!(normalize_ports_csv(b"80 443,,53  "), b"80,443,53".to_vec());
    assert_eq!(analyze_ports(b"80,443"), (2, false));
    assert_eq!(analyze_ports(b"80,100-200,x"), (2, true));
    assert_eq!(parse_range(b"100-200"), Some((100, 200)));
    assert_eq!(parse_range(b"200-100"), Some((100, 200)));
    assert_eq!(parse_range(b"1-2-3"), None);
    assert_eq!(parse_range(b"80"), None);
    let opts = DpiTunnelOptions::default();
    assert_eq!(opts.port_preference, 0);
    assert!(opts.dpi_ports.starts_with("80 443"));
}

#[test]
fn port_allocation_rules() {
    assert_eq!(program_base("nfqws"), Some(200));
    assert_eq!(program_base("nfqws2"), Some(200));
    assert_eq!(program_base("byedpi"), Some(1130));
    assert_eq!(program_base("dpitunnel"), Some(1840));
    assert_eq!(program_base("t2s"), None);
    let used = vec![200, 201];
    assert_eq!(next_free_port(200, 200, &used), Some(202));
    assert_eq!(next_free_port(0, 1130, &Vec::new()), Some(1130));
    assert_eq!(next_free_port(100, 1130, &Vec::new()), Some(1130));
    let sorted = collect_used_ports_for_conflict_check(&vec![1006, 53], &vec![0, 201, 53]);
    assert_eq!(sorted, vec![53, 201, 1006]);
    let profiles = vec![("nfqws".to_string(), 200u16), ("nfqws".to_string(), 201u16)];
    assert_eq!(suggest_port_for_new_profile("nfqws", &vec![1006], &profiles), Some(202));
    assert_eq!(suggest_port_for_new_profile("t2s", &Vec::new(), &profiles), None);
}

#[test]
fn uid_mode_and_digest_tracking() {
    assert!(matches!(Mode::from_str("dpi"), Mode::Dpi));
    assert!(matches!(Mode::from_str("DPI"), Mode::Dpi));
    assert!(matches!(Mode::from_str("other"), Mode::Default));
    let mut t = Sha256Tracker::new();
    let (old, changed) = t.check_and_update("/data/apps.txt", "aaaa");
    assert_eq!(old, None);
    assert!(changed);
    let (old, changed) = t.check_and_update("/data/apps.txt", "aaaa");
    assert_eq!(old.as_deref(), Some("aaaa"));
    assert!(!changed);
    let (old, changed) = t.check_and_update("/data/apps.txt", "bbbb");
    assert_eq!(old.as_deref(), Some("aaaa"));
    assert!(changed);
}

#[test]
fn package_list_lines() {
    assert_eq!(package_of_line(b"  com.example.app  "), Some(b"com.example.app".to_vec()));
    assert_eq!(package_of_line(b"com.example.app # note"), Some(b"com.example.app".to_vec()));
    assert_eq!(package_of_line(b"# only a comment"), None);
    assert_eq!(package_of_line(b"   "), None);
}

#[test]
fn selinux_parsing_and_guard() {
    assert_eq!(parse_getenforce("Enforcing\r\n"), SelinuxMode::Enforcing);
    assert_eq!(parse_getenforce("  permissive "), SelinuxMode::Permissive);
    assert_eq!(parse_getenforce("Disabled"), SelinuxMode::Disabled);
    assert_eq!(parse_getenforce("???"), SelinuxMode::Unknown);
    assert_eq!(SelinuxMode::Enforcing.as_str(), "Enforcing");
    assert_eq!(SelinuxMode::Unknown.as_str(), "Unknown");
    let mut g = SelinuxGuard::enter_permissive_if_enforcing(SelinuxMode::Enforcing, true);
    assert!(g.restore());
    assert!(!g.restore());
    let mut g2 = SelinuxGuard::enter_permissive_if_enforcing(SelinuxMode::Permissive, true);
    assert!(!g2.restore());
    let mut g3 = SelinuxGuard::enter_permissive_if_enforcing(SelinuxMode::Enforcing, true);
    g3.disarm();
    assert!(!g3.restore());
    let mut g4 = SelinuxGuard::enter_permissive_if_enforcing(SelinuxMode::Enforcing, false);
    assert!(!g4.restore());
}

#[test]
fn fixed_paths_and_start_settings() {
    assert_eq!(start_json_path(), "/data/adb/modules/ZDT-D/setting/start.json");
    assert_eq!(iptables_backup_path(), "/data/adb/modules/ZDT-D/setting/iptables_backup.rules");
    assert_eq!(ip6tables_backup_path(), "/data/adb/modules/ZDT-D/setting/ip6tables_backup.rules");
    assert_eq!(api_token_path(), "/data/adb/modules/ZDT-D/api/token");
    assert_eq!(token_path(), api_token_path());
    assert_eq!(api_info_path(), "/data/adb/modules/ZDT-D/api/info.json");
    let st = StartSettings::default();
    assert!(!st.enabled);
    assert!(!st.first_launch);
}

#[test]
fn config_defaults_and_escaping() {
    let lc = LogConfig::default();
    assert_eq!(lc.level, "info");
    assert!(lc.file.is_none());
    let nc = NotificationsConfig::default();
    assert!(!nc.enabled);
    assert_eq!(nc.prefix, "ZDT-D:");
    assert_eq!(nc.su_uid, 2000);
    assert_eq!(shell_single_quote_escape(b"abc'd"), b"abc'\"'\"'d".to_vec());
    assert_eq!(shell_single_quote_escape(b"plain"), b"plain".to_vec());
    let n = NotificationType::Error { msg: "boom".to_string() };
    assert_eq!(n.tag(), "error");
    let p = NotificationType::Processing { file_path: "/a/b".to_string(), percent: 50 };
    assert_eq!(p.tag(), "processing");
}

#[test]
fn daemon_state_admission() {
    let mut st = State {
        token: "t".to_string(),
        services_running: false,
        start_in_progress: false,
        stop_in_progress: false,
        start: StartSettings::default(),
    };
    assert!(st.begin_start());
    assert!(!st.begin_start());
    assert!(!st.begin_stop());
    st.finish_start(true);
    assert!(st.services_running);
    assert!(!st.begin_start());
    assert!(st.begin_stop());
    assert!(!st.services_running);
    st.finish_stop();
    assert!(st.begin_start());
}

#[test]
fn sleep_policies() {
    assert!(!is_idle(1, 0));
    assert!(!is_idle(0, 3));
    assert!(is_idle(0, 0));
    assert_eq!(health_sleep_interval(false, 0), 5);
    assert_eq!(health_sleep_interval(true, 100), 60);
    assert_eq!(health_sleep_interval(true, 500), 120);
    assert_eq!(health_sleep_interval(true, 2000), 180);
    assert_eq!(enforce_sleep_interval(false, 0), 2);
    assert_eq!(enforce_sleep_interval(true, 100), 15);
    assert_eq!(enforce_sleep_interval(true, 700), 30);
    assert_eq!(sampler_sleep_interval(false, 0), 1);
    assert_eq!(sampler_sleep_interval(true, 100), 3);
    assert_eq!(sampler_sleep_interval(true, 700), 10);
}

#[test]
fn cpu_and_meminfo_arithmetic() {
    let prev = CpuSample { total: 1000, idle: 800 };
    let cur = CpuSample { total: 1100, idle: 850 };
    assert_eq!(compute_cpu_percent(prev, cur), 50);
    assert_eq!(compute_cpu_percent(cur, cur), 0);
    assert_eq!(compute_cpu_percent(cur, prev), 0);
    assert_eq!(parse_kb("MemTotal:       16316412 kB", "MemTotal:"), Some(16316412));
    assert_eq!(parse_kb("MemFree: 12 kB", "MemTotal:"), None);
    assert_eq!(parse_kb("MemTotal: junk", "MemTotal:"), None);
}

#[test]
fn singbox_profiles_filter() {
    let setting = Setting {
        enabled: true,
        mode: t2s::singbox::Mode::Transparent,
        t2s_port: 11290,
        t2s_web_port: 8000,
        active_transparent_profile: "main".to_string(),
        profiles: vec![
            Profile { name: "main".to_string(), enabled: true, port: Some(2080), capture: Some(CaptureMode::Tcp) },
            Profile { name: "spare".to_string(), enabled: false, port: None, capture: None },
        ],
    };
    let on = setting.enabled_profiles();
    assert_eq!(on.len(), 1);
    assert_eq!(on[0].name, "main");
}

#[test]
fn v4_list_lines() {
    assert!(is_v4_line(b" 1.2.3.4 "));
    assert!(is_v4_line(b"8.8.8.8/32"));
    assert!(!is_v4_line(b"# comment"));
    assert!(!is_v4_line(b"::1"));
    assert!(!is_v4_line(b"host.example"));
    assert!(!is_v4_line(b"   "));
    let st = t2s::iplist::Stats::default();
    assert_eq!(st.total_v4, 0);
}

#[test]
fn nfqws_filter_values_merge_across_lines() {
    let raw = "--filter-udp=80,443,4000-5000\n--filter-udp=443, 3000-6000\n--filter-udp=3500-65000\n";
    let f = extract_proto_port_filter(raw);
    assert!(f.tcp.is_empty());
    assert_eq!(f.udp, vec![
        PortRange::new(80, 80),
        PortRange::new(443, 443),
        PortRange::new(3000, 65000),
    ]);
}

#[test]
fn nfqws_filter_handles_continuations_comments_and_options() {
    let raw = "--filter-tcp=80,\\\n443 --dpi-desync=fake # tail comment\n# --filter-tcp=9999\n--filter-udp=53\n";
    let f = extract_proto_port_filter(raw);
    assert_eq!(f.tcp, vec![PortRange::new(80, 80), PortRange::new(443, 443)]);
    assert_eq!(f.udp, vec![PortRange::new(53, 53)]);
    assert!(!f.is_empty());
}

#[test]
fn ping_output_parsing() {
    let out = "64 bytes from 1.1.1.1: icmp_seq=1 ttl=117 time=14.3 ms";
    assert_eq!(parse_ping_output(out), Some((14, 117)));
    assert_eq!(parse_ping_output("ttl=57 time=3 ms"), Some((3, 57)));
    assert_eq!(parse_ping_output("time=3 ms"), None);
    assert_eq!(parse_ping_output("ttl=57"), None);
    assert_eq!(parse_ping_output("ttl=57 time=3 seconds"), None);
}
