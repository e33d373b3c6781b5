use cross_domain_log_intel::collector::{adb_device_serials, find_latest_session, get_default_profile, Config, Profile};
use cross_domain_log_intel::html::html_escape;
use cross_domain_log_intel::models::{Domain, LogEntry};
use cross_domain_log_intel::parser::{
    can_frame_from_line, can_line_time, can_time_of_line, eth_frame_from_line, is_capture_path,
    load_sample_tokens, log_entry_from_line, parse_eth_lines, parse_log_lines, CanTime,
};
use cross_domain_log_intel::pcap::{capture_terminates, parse_pcapng_eth, PcapError};
use cross_domain_log_intel::text::parse_i64;

#[test]
fn log_line_timestamps_normalise_to_millis() {
    let e = log_entry_from_line("1708423215000 QNX kernel GpsService service crashed", Domain::Qnx, 5);
    assert_eq!(e.timestamp, 1708423215000);
    assert_eq!(e.process, "kernel");
    assert_eq!(e.message, "1708423215000 QNX kernel GpsService service crashed");
    assert_eq!(e.domain, Domain::Qnx);
    let e = log_entry_from_line("at 1708423215 QNX x", Domain::Android, 5);
    assert_eq!(e.timestamp, 1708423215000);
    assert_eq!(e.process, "QNX");
    let e = log_entry_from_line("123456789 a", Domain::Qnx, 5);
    assert_eq!(e.timestamp, 1234567890000);
    assert_eq!(e.process, "unknown");
    // short tokens are padded to 13 digits
    let e = log_entry_from_line("17084232150 QNX kernel X up", Domain::Qnx, 5);
    assert_eq!(e.timestamp, 1708423215000);
    assert_eq!(e.process, "kernel");
    let e = log_entry_from_line("170842321500 a b c", Domain::Qnx, 5);
    assert_eq!(e.timestamp, 1708423215000);
    // at most 13 digits form the token
    let e = log_entry_from_line("17084232150001 x", Domain::Qnx, 5);
    assert_eq!(e.timestamp, 1708423215000);
}

#[test]
fn log_line_without_timestamp_uses_clock() {
    let e = log_entry_from_line("CPU: 45% Mem: 512MB", Domain::Qnx, 42);
    assert_eq!(e.timestamp, 42);
    assert_eq!(e.process, "Mem:");
    // nine non-ASCII digits are 18 bytes long and do not parse: the clock is used
    let e = log_entry_from_line("\u{661}\u{662}\u{663}\u{664}\u{665}\u{666}\u{667}\u{668}\u{669} x", Domain::Qnx, 7);
    assert_eq!(e.timestamp, 7);
    let lines = vec!["a b c".to_string(), "1708423215000 QNX kernel boot".to_string()];
    let entries: Vec<LogEntry> = parse_log_lines(&lines, Domain::Android);
    assert_eq!(entries.len(), 2);
    assert_eq!(entries[0].process, "c");
    assert_eq!(entries[1].timestamp, 1708423215000);
    assert!(entries[0].timestamp > 1_600_000_000_000);
}

#[test]
fn can_lines() {
    match can_line_time("0.015 1 123#45 Rx", 9) {
        CanTime::Seconds(s) => assert_eq!(s, "0.015"),
        other => panic!("unexpected {:?}", other),
    }
    match can_line_time("1708423215000 can1 1A2#00FF", 9) {
        CanTime::Millis(v) => assert_eq!(v, 1708423215000),
        other => panic!("unexpected {:?}", other),
    }
    match can_line_time("1708423215 can1 1A2#00FF", 9) {
        CanTime::Millis(v) => assert_eq!(v, 1708423215000),
        other => panic!("unexpected {:?}", other),
    }
    match can_line_time("123456789 can1", 9) {
        CanTime::Millis(v) => assert_eq!(v, 123456789),
        other => panic!("unexpected {:?}", other),
    }
    match can_line_time("no numbers", 9) {
        CanTime::Millis(v) => assert_eq!(v, 9),
        other => panic!("unexpected {:?}", other),
    }
    match can_time_of_line("nothing") {
        CanTime::Millis(v) => assert!(v > 1_600_000_000_000),
        other => panic!("unexpected {:?}", other),
    }
    let f = can_frame_from_line("0.015 1 123#4567 Rx", 15);
    assert_eq!(f.timestamp, 15);
    assert_eq!(f.channel, "1");
    assert_eq!(f.id, "123");
    assert_eq!(f.data, "4567");
    // the fourth column gives the direction
    assert_eq!(f.direction, "Rx");
    assert_eq!(f.raw, "0.015 1 123#4567 Rx");
    let f = can_frame_from_line("0.015 1 123#4567", 15);
    assert_eq!(f.direction, "-");
    let f = can_frame_from_line("x", 1);
    assert_eq!(f.channel, "can0");
    assert_eq!(f.id, "unknown");
    assert_eq!(f.data, "");
}

#[test]
fn eth_lines() {
    let f = eth_frame_from_line("1708423215 eth0 TX SOME/IP  request\tx", 3);
    assert_eq!(f.timestamp, 1708423215000);
    assert_eq!(f.iface, "eth0");
    assert_eq!(f.direction, "TX");
    assert_eq!(f.summary, "SOME/IP request x");
    let f = eth_frame_from_line("1708423215000", 3);
    assert_eq!(f.timestamp, 1708423215000);
    assert_eq!(f.iface, "eth0");
    assert_eq!(f.direction, "-");
    assert_eq!(f.summary, "");
    let f = eth_frame_from_line("a eth1 RX", 3);
    assert_eq!(f.timestamp, 3);
    assert_eq!(f.iface, "eth1");
    assert_eq!(f.summary, "");
    let frames = parse_eth_lines(&vec!["1 2 3 4".to_string()]);
    assert_eq!(frames.len(), 1);
    assert_eq!(frames[0].summary, "4");
    assert!(is_capture_path("trace.pcapng"));
    assert!(is_capture_path("a.pcap"));
    assert!(!is_capture_path("a.pcap.log"));
    assert!(!is_capture_path("pcap"));
}

#[test]
fn load_figures() {
    let entries = vec![
        LogEntry { timestamp: 1, domain: Domain::Qnx, process: "p".to_string(), message: "CPU: 45% Mem: 512MB".to_string() },
        LogEntry { timestamp: 2, domain: Domain::Qnx, process: "p".to_string(), message: "nothing here".to_string() },
        LogEntry { timestamp: 3, domain: Domain::Qnx, process: "p".to_string(), message: "rss=1.5 GB".to_string() },
    ];
    let t = load_sample_tokens(&entries);
    assert_eq!(t.len(), 2);
    assert_eq!(t[0].timestamp, 1);
    assert_eq!(t[0].cpu.as_deref(), Some("45"));
    assert_eq!(t[0].mem.as_deref(), Some("512"));
    assert!(!t[0].mem_in_gb);
    assert_eq!(t[1].cpu, None);
    assert_eq!(t[1].mem.as_deref(), Some("1.5"));
    assert!(t[1].mem_in_gb);
}

fn epb(ts_sec: u32, ts_usec: u32, packet: &[u8]) -> Vec<u8> {
    let mut b = Vec::new();
    let block_len = (28 + packet.len() + 4) as u32;
    b.extend_from_slice(&6u32.to_le_bytes());
    b.extend_from_slice(&block_len.to_le_bytes());
    b.extend_from_slice(&0u32.to_le_bytes());
    b.extend_from_slice(&ts_sec.to_le_bytes());
    b.extend_from_slice(&ts_usec.to_le_bytes());
    b.extend_from_slice(&(packet.len() as u32).to_le_bytes());
    b.extend_from_slice(&(packet.len() as u32).to_le_bytes());
    b.extend_from_slice(packet);
    b.extend_from_slice(&block_len.to_le_bytes());
    while b.len() % 4 != 0 {
        b.push(0);
    }
    b
}

fn ipv4_packet(proto: u8, len: usize, flags: u8) -> Vec<u8> {
    let mut p = vec![0u8; len];
    p[12] = 0x08;
    p[13] = 0x00;
    p[14] = 0x45;
    p[23] = proto;
    p[26..30].copy_from_slice(&[10, 0, 0, 1]);
    p[30..34].copy_from_slice(&[192, 168, 1, 20]);
    p[34..36].copy_from_slice(&80u16.to_be_bytes());
    p[36..38].copy_from_slice(&443u16.to_be_bytes());
    if len > 47 {
        p[47] = flags;
    }
    p
}

fn shb() -> Vec<u8> {
    let mut b = vec![0x0A, 0x0D, 0x0D, 0x0A];
    b.extend_from_slice(&[0u8; 24]);
    b
}

#[test]
fn pcapng_frames() {
    let mut data = shb();
    data.extend(epb(1708423215, 500000, &ipv4_packet(6, 54, 0x12)));
    data.extend(epb(1, 999, &ipv4_packet(17, 42, 0)));
    data.extend(epb(2, 0, &[1, 2, 3]));
    let frames = parse_pcapng_eth(&data).unwrap();
    assert_eq!(frames.len(), 3);
    assert_eq!(frames[0].timestamp, 1708423215500);
    assert_eq!(frames[0].summary, "TCP 10.0.0.1:80 -> 192.168.1.20:443 SYN");
    assert_eq!(frames[0].direction, "RX");
    assert_eq!(frames[0].iface, "eth0");
    assert_eq!(frames[0].raw, "pcapng packet @1708423215500ms len=54");
    assert_eq!(frames[1].timestamp, 1000);
    assert_eq!(frames[1].summary, "UDP 10.0.0.1:80 -> 192.168.1.20:443");
    assert_eq!(frames[2].summary, "ETH packet");
    assert_eq!(frames[2].direction, "-");
    assert!(capture_terminates(&data));
}

#[test]
fn pcapng_tcp_flags_and_short_capture() {
    let mut data = shb();
    data.extend(epb(0, 0, &ipv4_packet(6, 60, 0x11)));
    data.extend(epb(0, 0, &ipv4_packet(6, 60, 0x10)));
    data.extend(epb(0, 0, &ipv4_packet(6, 60, 0x00)));
    let frames = parse_pcapng_eth(&data).unwrap();
    assert!(frames[0].summary.ends_with(" FIN"));
    assert!(frames[1].summary.ends_with(" ACK"));
    assert!(frames[2].summary.ends_with(" DATA"));
    // a block whose captured length runs past the data gives no frame
    let mut data = shb();
    let mut b = epb(0, 0, &[0u8; 8]);
    b[20..24].copy_from_slice(&1000u32.to_le_bytes());
    data.extend(b);
    assert!(parse_pcapng_eth(&data).unwrap().is_empty());
}

#[test]
fn pcap_errors_and_edges() {
    match parse_pcapng_eth(&vec![1, 2, 3, 4]) {
        Err(e) => {
            assert_eq!(e, PcapError::InvalidMagic);
            assert_eq!(e.message(), "Not a valid pcapng or pcap file: invalid magic number");
        },
        Ok(_) => panic!("accepted a bad magic number"),
    }
    assert!(parse_pcapng_eth(&vec![0x0A]).unwrap().is_empty());
    let classic = vec![0xD4, 0xC3, 0xB2, 0xA1, 0, 0, 0, 0];
    assert!(parse_pcapng_eth(&classic).unwrap().is_empty());
    // an aligned block of length zero would be read forever
    let mut data = shb();
    data.extend_from_slice(&1u32.to_le_bytes());
    data.extend_from_slice(&0u32.to_le_bytes());
    data.extend_from_slice(&[0u8; 12]);
    assert!(!capture_terminates(&data));
}

#[test]
fn decimal_parsing() {
    assert_eq!(parse_i64("+12"), Some(12));
    assert_eq!(parse_i64("-0"), Some(0));
    assert_eq!(parse_i64(""), None);
    assert_eq!(parse_i64("-"), None);
    assert_eq!(parse_i64("12a"), None);
    assert_eq!(parse_i64("9223372036854775807"), Some(i64::MAX));
    assert_eq!(parse_i64("9223372036854775808"), None);
    assert_eq!(parse_i64("-9223372036854775808"), Some(i64::MIN));
    assert_eq!(parse_i64("-9223372036854775809"), None);
    assert_eq!(parse_i64("99999999999999999999999"), None);
}

#[test]
fn escaping_html() {
    assert_eq!(html_escape("<a href=\"x\">Tom & 'Jerry'</a>"), "&lt;a href=&quot;x&quot;&gt;Tom &amp; &#39;Jerry&#39;&lt;/a&gt;");
    assert_eq!(html_escape("plain"), "plain");
}

fn profile(ip: &str) -> Profile {
    Profile { qnx_ip: Some(ip.to_string()), qnx_user: None, qnx_port: Some(2222), qnx_password: None, adb_serial: None }
}

#[test]
fn default_profile_lookup() {
    let cfg = Config {
        default_profile: Some("lab".to_string()),
        profiles: Some(vec![("car".to_string(), profile("1.1.1.1")), ("lab".to_string(), profile("10.0.0.5"))]),
    };
    let p = get_default_profile(Some(&cfg)).unwrap();
    assert_eq!(p.qnx_ip.as_deref(), Some("10.0.0.5"));
    assert_eq!(p.qnx_port, Some(2222));
    let cfg2 = Config { default_profile: Some("none".to_string()), profiles: cfg.profiles };
    assert!(get_default_profile(Some(&cfg2)).is_none());
    assert!(get_default_profile(None).is_none());
    let cfg3 = Config { default_profile: None, profiles: None };
    assert!(get_default_profile(Some(&cfg3)).is_none());
}

#[test]
fn latest_session_by_name() {
    let names = vec!["qnx_20240101_120000".to_string(), "session_20240301_090000".to_string(), "android_20250101_000000".to_string()];
    assert_eq!(find_latest_session("/home/u/.log_collector", &names), Some("/home/u/.log_collector/session_20240301_090000".to_string()));
    assert_eq!(find_latest_session("/s", &vec![]), None);
    let names = vec!["ab".to_string(), "abc".to_string(), "b".to_string(), "B".to_string()];
    assert_eq!(find_latest_session("s", &names), Some("s/b".to_string()));
}

#[test]
fn adb_device_listing() {
    let lines: Vec<String> = "List of devices attached\nemulator-5554\tdevice product:sdk model:x\n\n  R58M123 device usb:1\n"
        .lines()
        .map(|l| l.to_string())
        .collect();
    assert_eq!(adb_device_serials(&lines), vec!["emulator-5554".to_string(), "R58M123".to_string()]);
    assert!(adb_device_serials(&vec!["List of devices attached".to_string()]).is_empty());
}

#[test]
fn vector_asc_lines() {
    let f = can_frame_from_line("1.500000 1 123 Tx d 2 01 02", 1500);
    assert_eq!(f.timestamp, 1500);
    assert_eq!(f.channel, "1");
    assert_eq!(f.id, "123");
    assert_eq!(f.direction, "Tx");
    assert_eq!(f.data, "0102");
    // the byte count bounds the data columns; trailing fields are not data
    let f = can_frame_from_line("   2.000100 2  18FEF100x       Rx   d 3 0A 0B 0C  Length = 235 BitCount = 124", 7);
    assert_eq!(f.channel, "2");
    assert_eq!(f.id, "18FEF100x");
    assert_eq!(f.direction, "Rx");
    assert_eq!(f.data, "0A0B0C");
    // a count larger than the columns takes those there are
    let f = can_frame_from_line("0.1 1 7E0 tx d 8 11 22", 0);
    assert_eq!(f.data, "1122");
    assert_eq!(f.direction, "tx");
    // a remote frame carries no data
    let f = can_frame_from_line("0.2 1 7E0 Rx r", 0);
    assert_eq!(f.data, "");
    assert_eq!(f.id, "7E0");
    // an ID#DATA group gives the id and data
    let f = can_frame_from_line("0.3 can1 1A0#FF00 Tx", 3);
    assert_eq!(f.id, "1A0");
    assert_eq!(f.data, "FF00");
    assert_eq!(f.direction, "Tx");
    match can_line_time("1.500000 1 123 Tx d 2 01 02", 9) {
        CanTime::Seconds(s) => assert_eq!(s, "1.500000"),
        other => panic!("unexpected {:?}", other),
    }
}
