use rsteria2::addr::{IpAddress, SocketAddress};
use rsteria2::brutal::UploadControl;
use rsteria2::endpoint::{
    bind_address, connect_plan, endpoint_ports, obfuscator, resolved_endpoint, transport_plan,
};
use rsteria2::ports::parse_ports;
use rsteria2::text::{
    ascii_chars, chars_of, decimal_string, find_char, parse_decimal, rfind_char, trim, white_space,
};
use rsteria2::time::TimeSpan;
use rsteria2::tls::CertPolicy;
use rsteria2::{Config, Error, QuicParams};

fn config_error(e: Error) -> String {
    match e {
        Error::Config(s) => s,
        other => panic!("not a configuration error: {:?}", other),
    }
}

fn at(addr: &str) -> Config {
    Config {
        server_addr: addr.into(),
        ..Default::default()
    }
}

const HOST: IpAddress = IpAddress::V4([192, 0, 2, 1]);

fn v4(port: u16) -> SocketAddress {
    SocketAddress::V4 {
        ip: [192, 0, 2, 1],
        port,
    }
}

#[test]
fn parse_ports_single_range_list() {
    assert_eq!(parse_ports("443"), Some(vec![443]));
    assert_eq!(parse_ports("443,445"), Some(vec![443, 445]));
    assert_eq!(parse_ports("100-103"), Some(vec![100, 101, 102, 103]));
    // Overlap + reversed range are normalized and de-duplicated.
    assert_eq!(parse_ports("103-100,101"), Some(vec![100, 101, 102, 103]));
    assert_eq!(parse_ports("*").unwrap().len(), 65536);
    assert!(parse_ports("nope").is_none());
    assert!(parse_ports("").is_none());
}

#[test]
fn host_part_strips_port() {
    let c = Config {
        server_addr: "example.com:20000-50000".into(),
        ..Default::default()
    };
    assert_eq!(c.host_part(), "example.com");
    assert_eq!(c.resolved_server_name(), "example.com");
}

#[test]
fn ports_edge_cases() {
    assert_eq!(parse_ports("all").unwrap().len(), 65536);
    assert_eq!(parse_ports("all").unwrap()[65535], 65535);
    assert_eq!(parse_ports(" 7 - 5 ,\t9\u{a0}"), Some(vec![5, 6, 7, 9]));
    assert_eq!(parse_ports("+443"), Some(vec![443]));
    assert_eq!(parse_ports("0065535"), Some(vec![65535]));
    assert_eq!(parse_ports("65535-65535"), Some(vec![65535]));
    assert_eq!(parse_ports("65536"), None);
    assert_eq!(parse_ports("1-2-3"), None);
    assert_eq!(parse_ports("443,"), None);
    assert_eq!(parse_ports(",443"), None);
    assert_eq!(parse_ports("-5"), None);
    assert_eq!(parse_ports(" all"), None);
    assert_eq!(parse_ports("*,1"), None);
}

#[test]
fn port_list_does_not_depend_on_how_it_is_written() {
    assert_eq!(parse_ports("1-4,9"), parse_ports("9,4-2,1,3,3"));
}

#[test]
fn host_without_port_is_the_whole_address() {
    let mut c = at("example.com");
    assert_eq!(c.host_part(), "example.com");
    assert_eq!(c.port_part(), None);
    c.server_addr = "[2001:db8::1]:443".into();
    assert_eq!(c.host_part(), "[2001:db8::1]");
    assert_eq!(c.port_part(), Some("443".to_string()));
    c.server_name = "sni.example".into();
    assert_eq!(c.resolved_server_name(), "sni.example");
}

#[test]
fn config_defaults() {
    let c = Config::default();
    assert!(c.fast_open);
    assert!(!c.insecure);
    assert_eq!((c.rx_bps, c.tx_bps), (0, 0));
    assert_eq!((c.hop_interval_min_secs, c.hop_interval_max_secs), (0, 0));
    assert!(c.server_addr.is_empty() && c.server_name.is_empty() && c.auth.is_empty());
    assert!(c.obfs_password.is_empty() && c.hop_ports.is_empty());
    assert!(c.pin_sha256.is_empty() && c.ca_pem.is_empty());
    let q = QuicParams::default();
    assert_eq!(q.stream_receive_window, 8_388_608);
    assert_eq!(q.connection_receive_window, 20_971_520);
    assert_eq!(q.max_idle_timeout, TimeSpan::from_secs(30));
    assert_eq!(q.keep_alive_interval, TimeSpan::from_secs(10));
    assert_eq!(q.initial_rtt, TimeSpan::from_millis(100));
    assert!(!q.disable_path_mtu_discovery);
}

#[test]
fn white_space_is_what_unicode_says() {
    for u in 0..=0x10ffffu32 {
        if let Some(c) = char::from_u32(u) {
            assert_eq!(white_space(c), c.is_whitespace(), "{:x}", u);
        }
    }
}

#[test]
fn text_helpers() {
    assert_eq!(chars_of("aé"), vec!['a', 'é']);
    assert_eq!(trim(&chars_of("\u{2003} x y\n")), &['x', ' ', 'y']);
    assert_eq!(trim(&chars_of("  ")).len(), 0);
    assert_eq!(find_char(&['a', 'b', 'a'], 'a'), 0);
    assert_eq!(find_char(&['a', 'b'], 'c'), 2);
    assert_eq!(rfind_char(&['a', 'b', 'a'], 'a'), Some(2));
    assert_eq!(rfind_char(&['a'], 'b'), None);
    assert_eq!(ascii_chars(b"ok\xff"), vec!['o', 'k', '\u{ff}']);
}

#[test]
fn decimal_numbers() {
    for n in [0u64, 7, 10, 65535, u64::MAX] {
        let s = decimal_string(n);
        assert_eq!(s, n.to_string());
        assert_eq!(parse_decimal(&chars_of(&s), u64::MAX), Some(n));
    }
    assert_eq!(
        parse_decimal(&chars_of("18446744073709551616"), u64::MAX),
        None
    );
    assert_eq!(parse_decimal(&chars_of("+"), 9), None);
    assert_eq!(parse_decimal(&chars_of(""), 9), None);
    assert_eq!(parse_decimal(&chars_of("-1"), 9), None);
    assert_eq!(parse_decimal(&chars_of("10"), 9), None);
    assert_eq!(parse_decimal(&chars_of("+009"), 9), Some(9));
}

#[test]
fn time_spans() {
    assert_eq!(
        TimeSpan::from_millis(1500),
        TimeSpan {
            secs: 1,
            nanos: 500_000_000
        }
    );
    assert_eq!(TimeSpan::from_secs(2).as_nanos(), 2_000_000_000);
    assert_eq!(
        TimeSpan::from_nanos(2_000_000_001),
        TimeSpan { secs: 2, nanos: 1 }
    );
}

#[test]
fn endpoint_ports_from_address_or_hop_ports() {
    assert_eq!(endpoint_ports(&at("h:443")).unwrap(), vec![443]);
    assert_eq!(endpoint_ports(&at("h:5-7")).unwrap(), vec![5, 6, 7]);
    let mut c = at("h");
    assert_eq!(
        config_error(endpoint_ports(&c).unwrap_err()),
        "server_addr missing port: h"
    );
    c.hop_ports = "9,8".into();
    assert_eq!(endpoint_ports(&c).unwrap(), vec![8, 9]);
    c.hop_ports = "x".into();
    assert_eq!(
        config_error(endpoint_ports(&c).unwrap_err()),
        "invalid ports: x"
    );
    assert_eq!(
        config_error(endpoint_ports(&at("h:")).unwrap_err()),
        "invalid ports: "
    );
}

#[test]
fn one_port_does_not_hop() {
    let (canonical, hop) = resolved_endpoint(&at("h:443"), &[443], Some(HOST)).unwrap();
    assert_eq!(canonical, v4(443));
    assert!(hop.is_none());
}

#[test]
fn several_ports_hop() {
    let mut c = at("h:5-7");
    let (canonical, hop) = resolved_endpoint(&c, &[5, 6, 7], Some(HOST)).unwrap();
    let hop = hop.unwrap();
    assert_eq!(canonical, v4(5));
    assert_eq!(hop.addrs, vec![v4(5), v4(6), v4(7)]);
    assert!(hop.addrs.contains(&canonical));
    assert_eq!(hop.interval_min, TimeSpan::from_secs(30));
    assert_eq!(hop.interval_max, TimeSpan::from_secs(30));
    c.hop_interval_min_secs = 10;
    c.hop_interval_max_secs = 60;
    let hop = resolved_endpoint(&c, &[5, 6], Some(HOST)).unwrap().1.unwrap();
    assert_eq!(hop.interval_min, TimeSpan::from_secs(10));
    assert_eq!(hop.interval_max, TimeSpan::from_secs(60));
    c.hop_interval_max_secs = 3;
    let hop = resolved_endpoint(&c, &[5, 6], Some(HOST)).unwrap().1.unwrap();
    assert_eq!(hop.interval_max, TimeSpan::from_secs(10));
}

#[test]
fn unresolved_host() {
    let e = resolved_endpoint(&at("h.example:443"), &[443], None).err().unwrap();
    assert_eq!(config_error(e), "could not resolve server host: h.example");
}

#[test]
fn obfuscation_password() {
    let mut c = at("h:1");
    assert!(obfuscator(&c).unwrap().is_none());
    c.obfs_password = "abc".into();
    assert_eq!(
        config_error(obfuscator(&c).err().unwrap()),
        "obfs password must be at least 4 bytes"
    );
    // Four bytes in two characters.
    c.obfs_password = "éé".into();
    assert!(obfuscator(&c).unwrap().is_some());
}

#[test]
fn plan_settles_everything() {
    let mut c = at("h:1-2");
    c.tx_bps = 9;
    c.insecure = true;
    c.obfs_password = "secret".into();
    let plan = connect_plan(&c, &[1, 2], Some(HOST)).unwrap();
    assert_eq!(plan.server_name, "h");
    assert_eq!(plan.canonical, v4(1));
    assert_eq!(plan.hop.unwrap().addrs.len(), 2);
    assert!(plan.obfs.is_some());
    assert!(matches!(plan.policy, CertPolicy::AcceptAll));
    assert_eq!(
        plan.upload,
        Some(UploadControl {
            rate: 9,
            use_bbr: false
        })
    );
    c.insecure = false;
    c.tx_bps = 0;
    c.pin_sha256 = "00".repeat(31) + "Ff";
    let plan = connect_plan(&c, &[1], Some(HOST)).unwrap();
    assert!(plan.hop.is_none() && plan.upload.is_none());
    match plan.policy {
        CertPolicy::Pinned { pin, chain } => {
            assert!(chain);
            assert_eq!(pin[31], 255);
            assert_eq!(pin[..31], [0u8; 31]);
        }
        _ => panic!("no pin"),
    }
}

#[test]
fn plan_reports_the_first_fault() {
    let mut c = at("h:1");
    c.obfs_password = "abc".into();
    c.pin_sha256 = "zz".into();
    assert_eq!(
        config_error(connect_plan(&c, &[1], None).err().unwrap()),
        "could not resolve server host: h"
    );
    assert_eq!(
        config_error(connect_plan(&c, &[1], Some(HOST)).err().unwrap()),
        "obfs password must be at least 4 bytes"
    );
    c.obfs_password = String::new();
    assert_eq!(
        config_error(connect_plan(&c, &[1], Some(HOST)).err().unwrap()),
        "pin_sha256 must be 32 bytes (64 hex chars)"
    );
}

#[test]
fn transport_parameters() {
    let mut q = QuicParams::default();
    let t = transport_plan(&q);
    assert_eq!(t.stream_receive_window, 8_388_608);
    assert_eq!(t.receive_window, 20_971_520);
    assert!(t.mtu_discovery);
    assert_eq!(t.datagram_receive_buffer_size, 1200 * 1024);
    assert_eq!(t.datagram_send_buffer_size, 1200 * 1024);
    assert_eq!(t.max_idle_timeout, q.max_idle_timeout);
    assert_eq!(t.keep_alive_interval, q.keep_alive_interval);
    assert_eq!(t.initial_rtt, q.initial_rtt);
    q.stream_receive_window = u64::MAX;
    q.connection_receive_window = (1 << 62) - 1;
    q.disable_path_mtu_discovery = true;
    let t = transport_plan(&q);
    assert_eq!(t.stream_receive_window, (1 << 62) - 1);
    assert_eq!(t.receive_window, (1 << 62) - 1);
    assert!(!t.mtu_discovery);
}

#[test]
fn bind_in_the_family_of_the_server() {
    assert_eq!(bind_address(&v4(1)), "0.0.0.0:0");
    let six = SocketAddress::new(IpAddress::V6([0; 16]), 1);
    assert_eq!(
        six,
        SocketAddress::V6 {
            ip: [0; 16],
            port: 1,
            flowinfo: 0,
            scope_id: 0
        }
    );
    assert_eq!(bind_address(&six), "[::]:0");
}
