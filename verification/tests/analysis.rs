use cross_domain_log_intel::classifier::classify_logs;
use cross_domain_log_intel::models::{CanFrame, Domain, LogEntry, SystemEvent};
use cross_domain_log_intel::reporter::{
    detect_failure_sequences, domain_metrics, find_repetitive_errors, render_issue_rows,
    stable_order_desc,
};
use cross_domain_log_intel::rules::{
    correlate, correlate_checked, event_window_counts, is_tx_direction, window_impact, SimpleRule,
};

fn entry(ts: i64, domain: Domain, process: &str, message: &str) -> LogEntry {
    LogEntry { timestamp: ts, domain, process: process.to_string(), message: message.to_string() }
}

fn kind(e: &SystemEvent) -> &str {
    e.event_type()
}

#[test]
fn classify_recognises_each_kind() {
    let entries = vec![
        entry(1, Domain::Qnx, "svc", "GpsService SERVICE STARTED ok"),
        entry(2, Domain::Qnx, "svc", "GpsService service crashed"),
        entry(3, Domain::Android, "k", "kernel panic at boot"),
        entry(4, Domain::Android, "k", "System reset detected"),
        entry(5, Domain::Qnx, "net", "NetworkManager timeout"),
        entry(6, Domain::Qnx, "wd", "watchdog triggered"),
        entry(7, Domain::Android, "m", "checksum mismatch"),
        entry(8, Domain::Android, "f", "abnormal behavior detected"),
        entry(9, Domain::Android, "x", "all good here"),
    ];
    let events = classify_logs(&entries);
    let kinds: Vec<&str> = events.iter().map(kind).collect();
    assert_eq!(
        kinds,
        vec![
            "Service Start",
            "Service Crash",
            "System Crash",
            "Reset/Reboot",
            "Timeout",
            "Watchdog Trigger",
            "Discrepancy",
            "Deviation"
        ]
    );
    assert_eq!(events[0].timestamp(), 1);
    assert_eq!(*events[2].domain(), Domain::Android);
    assert_eq!(events[1].raw_log(), "GpsService service crashed");
    match &events[1] {
        SystemEvent::ServiceCrash { process, .. } => assert_eq!(process, "svc"),
        other => panic!("unexpected {:?}", other),
    }
    match &events[3] {
        SystemEvent::Reset { reason, .. } => assert_eq!(reason, "System reset detected"),
        other => panic!("unexpected {:?}", other),
    }
}

#[test]
fn classify_rule_order_decides() {
    // a crash mentioning "service" is a service crash, not a system crash
    let entries = vec![
        entry(1, Domain::Qnx, "a", "crash in service layer"),
        entry(2, Domain::Qnx, "b", "crash without the s-word"),
        entry(3, Domain::Qnx, "c", "timeout then reboot"),
        entry(4, Domain::Qnx, "d", "Service Panic"),
    ];
    let events = classify_logs(&entries);
    let kinds: Vec<&str> = events.iter().map(kind).collect();
    assert_eq!(kinds, vec!["Service Crash", "System Crash", "Reset/Reboot", "Service Crash"]);
}

#[test]
fn classify_skips_plain_lines() {
    let entries = vec![entry(1, Domain::Qnx, "a", "hello"), entry(2, Domain::Qnx, "b", "")];
    assert!(classify_logs(&entries).is_empty());
}

#[test]
fn event_getters_and_severity() {
    let w = SystemEvent::Watchdog { domain: Domain::Qnx, timestamp: 7, raw_log: "wd".to_string() };
    assert_eq!(w.severity(), "WARNING");
    assert_eq!(w.event_type(), "Watchdog Trigger");
    let s = SystemEvent::ServiceStart {
        domain: Domain::Android,
        name: "n".to_string(),
        timestamp: 1,
        raw_log: "r".to_string(),
    };
    assert_eq!(s.severity(), "INFO");
    let d = SystemEvent::Deviation {
        domain: Domain::Android,
        details: "x".to_string(),
        timestamp: 1,
        raw_log: "r".to_string(),
    };
    assert_eq!(d.severity(), "CRITICAL");
    assert_eq!(Domain::Qnx.name(), "QNX");
    assert_eq!(Domain::Android.name(), "Android");
}

fn crash(ts: i64, p: &str) -> SystemEvent {
    SystemEvent::ServiceCrash { domain: Domain::Qnx, process: p.to_string(), timestamp: ts, raw_log: format!("{} crashed", p) }
}

fn timeout(ts: i64, s: &str) -> SystemEvent {
    SystemEvent::Timeout { domain: Domain::Android, service: s.to_string(), timestamp: ts, raw_log: "timeout".to_string() }
}

fn can(ts: i64, id: &str, data: &str) -> CanFrame {
    CanFrame {
        timestamp: ts,
        channel: "can0".to_string(),
        id: id.to_string(),
        data: data.to_string(),
        direction: "TX".to_string(),
        raw: String::new(),
    }
}

fn rule(id: &str, byte_index: usize, mask: u8, nonzero: bool, within: i64) -> SimpleRule {
    SimpleRule {
        id: id.to_string(),
        byte_index,
        bit_mask: mask,
        value_nonzero: nonzero,
        within_ms: within,
        description: "brake".to_string(),
    }
}

#[test]
fn correlate_reports_matching_frames() {
    let frames = vec![can(1000, "1A2", "0F01"), can(1200, "1a2", "0E01"), can(3000, "1A2", "0F01")];
    let rules = vec![rule("1a2", 0, 0x01, true, 1000)];
    let lines = correlate(&frames, 1500, &rules);
    assert_eq!(lines, vec!["Rule 'brake' matched on frame 1A2 at 1000ms (event 1500)".to_string()]);
    // the clear-bit rule picks the other frame
    let rules = vec![rule("1A2", 0, 0x01, false, 1000)];
    let lines = correlate(&frames, 1500, &rules);
    assert_eq!(lines, vec!["Rule 'brake' matched on frame 1a2 at 1200ms (event 1500)".to_string()]);
}

#[test]
fn correlate_reads_the_indexed_byte() {
    let frames = vec![can(-5, "7", "00+8")];
    // "+8" reads as hex 8, masked by 8 is non-zero
    let rules = vec![rule("7", 1, 0x08, true, 10)];
    assert_eq!(correlate(&frames, 0, &rules), vec!["Rule 'brake' matched on frame 7 at -5ms (event 0)".to_string()]);
    // beyond the payload nothing matches
    let rules = vec![rule("7", 2, 0x08, true, 10)];
    assert!(correlate(&frames, 0, &rules).is_empty());
    // a non-hex byte never matches
    let frames = vec![can(0, "7", "zz")];
    let rules = vec![rule("7", 0, 0xFF, false, 10)];
    assert!(correlate(&frames, 0, &rules).is_empty());
}

#[test]
fn correlate_checked_refuses_split_characters() {
    let frames = vec![can(0, "7", "0é")];
    let rules = vec![rule("7", 0, 0xFF, true, 10)];
    assert!(correlate_checked(&frames, 0, &rules).is_none());
    let frames = vec![can(0, "7", "FF")];
    assert_eq!(correlate_checked(&frames, 0, &rules).map(|v| v.len()), Some(1));
}

#[test]
fn window_impact_counts_after_and_before() {
    let events = vec![
        timeout(500, "a"),
        crash(1000, "gps"),
        timeout(1500, "b"),
        SystemEvent::SystemCrash { domain: Domain::Qnx, reason: "r".to_string(), timestamp: 2000, raw_log: "r".to_string() },
        crash(2500, "media"),
        crash(2600, "audio"),
        SystemEvent::Watchdog { domain: Domain::Qnx, timestamp: 3000, raw_log: "w".to_string() },
        crash(9000, "late"),
    ];
    let r = window_impact(&events, 1000, 5000);
    assert_eq!(r.after_count, 6);
    assert_eq!(r.before_count, 1);
    assert_eq!(r.crash_count, 4);
    assert_eq!(r.timeout_count, 1);
    assert_eq!(r.watchdog_count, 1);
    assert_eq!(r.crashed_services, vec!["audio".to_string(), "media".to_string(), "SYSTEM".to_string()]);
    assert_eq!(r.first_crash_ts, 1000);
    assert_eq!(r.time_delta_ms, 0);
    assert_eq!(r.severity, "CRITICAL");
}

#[test]
fn window_impact_without_crashes() {
    let events = vec![timeout(10, "a"), timeout(20, "b"), timeout(30, "c"), timeout(40, "d")];
    let r = window_impact(&events, 0, 100);
    assert_eq!(r.crash_count, 0);
    assert_eq!(r.first_crash_ts, i64::MAX);
    assert_eq!(r.time_delta_ms, 100);
    assert_eq!(r.severity, "MEDIUM");
    let r = window_impact(&events, 25, 10);
    assert_eq!(r.severity, "LOW");
    assert_eq!(r.before_count, 1);
    let r = window_impact(&[crash(5, "x")], 0, 10);
    assert_eq!(r.severity, "HIGH");
    // the window before a frame saturates at the smallest timestamp
    let r = window_impact(&[crash(i64::MIN, "x")], i64::MIN + 1, 5);
    assert_eq!(r.before_count, 1);
}

#[test]
fn tx_direction_ignores_case() {
    assert!(is_tx_direction("tx"));
    assert!(is_tx_direction("CAN-Tx"));
    assert!(!is_tx_direction("RX"));
    assert!(!is_tx_direction("-"));
}

#[test]
fn rate_windows_count_each_start() {
    let events = vec![crash(3000, "a"), crash(1000, "b"), crash(1500, "c"), crash(7000, "d")];
    let w = event_window_counts(&events, 1000);
    assert_eq!(w.starts, vec![1000, 1500, 3000, 7000]);
    assert_eq!(w.counts, vec![2, 1, 1, 1]);
    let w = event_window_counts(&[], 1000);
    assert!(w.starts.is_empty() && w.counts.is_empty());
}

#[test]
fn failure_sequences_are_tallied() {
    let events = vec![crash(1, "a"), timeout(2, "b"), crash(3, "a"), timeout(4, "b"), crash(5, "c")];
    let r = detect_failure_sequences(&events);
    assert_eq!(r, vec![("Crash → Timeout".to_string(), 2), ("Timeout → Crash".to_string(), 2)]);
    let events = vec![
        crash(1, "a"),
        SystemEvent::Reset { domain: Domain::Qnx, reason: "r".to_string(), timestamp: 2, raw_log: "r".to_string() },
        SystemEvent::Reset { domain: Domain::Qnx, reason: "r".to_string(), timestamp: 3, raw_log: "r".to_string() },
        SystemEvent::Reset { domain: Domain::Qnx, reason: "r".to_string(), timestamp: 4, raw_log: "r".to_string() },
    ];
    let r = detect_failure_sequences(&events);
    assert_eq!(r, vec![("Reset → Reset".to_string(), 2), ("Crash → Reset".to_string(), 1)]);
    assert!(detect_failure_sequences(&[crash(1, "a")]).is_empty());
}

#[test]
fn repetitive_errors_group_by_service() {
    let events = vec![crash(1000, "gps/main"), timeout(1200, "net"), crash(4000, "gps/main"), crash(5000, "other"), crash(10000, "gps/main")];
    let r = find_repetitive_errors(&events);
    assert_eq!(r.len(), 1);
    assert_eq!(r[0].error_type, "Crash");
    assert_eq!(r[0].service_or_reason, "gps");
    assert_eq!(r[0].domain, Domain::Qnx);
    assert_eq!(r[0].occurrence_count, 3);
    assert_eq!(r[0].occurrences_at_ms, vec![1000, 4000, 10000]);
    assert_eq!(r[0].time_between_failures_avg_ms, 4500);
}

#[test]
fn repetitive_errors_order_and_rounding() {
    let events = vec![timeout(10, "a"), timeout(3, "a"), crash(1, "b"), crash(2, "b"), crash(3, "b")];
    let r = find_repetitive_errors(&events);
    assert_eq!(r.len(), 2);
    assert_eq!(r[0].error_type, "Crash");
    assert_eq!(r[0].occurrence_count, 3);
    assert_eq!(r[1].error_type, "Timeout");
    // a span of -7 over one gap rounds toward zero
    assert_eq!(r[1].time_between_failures_avg_ms, -7);
    let events = vec![timeout(10, "a"), timeout(0, "a"), timeout(1, "a")];
    // span -9 over two gaps: -4.5 rounds toward zero
    assert_eq!(find_repetitive_errors(&events)[0].time_between_failures_avg_ms, -4);
}

#[test]
fn stable_order_sorts_keys_descending() {
    assert_eq!(stable_order_desc(&vec![1, 3, 2, 3]), vec![1, 3, 2, 0]);
    assert!(stable_order_desc(&vec![]).is_empty());
}

#[test]
fn issue_rows_skip_starts_sort_by_severity_and_count_frames() {
    let long = "x".repeat(150);
    let events = vec![
        SystemEvent::ServiceStart { domain: Domain::Qnx, name: "n".to_string(), timestamp: 1, raw_log: "start".to_string() },
        SystemEvent::Timeout { domain: Domain::Android, service: "s".to_string(), timestamp: 6000, raw_log: "a\nb".to_string() },
        SystemEvent::Reset { domain: Domain::Qnx, reason: "r".to_string(), timestamp: 7, raw_log: long.clone() },
    ];
    let frames = vec![can(1000, "1", ""), can(999, "1", ""), can(6000, "1", ""), can(6001, "1", "")];
    let html = render_issue_rows(&events, Some(&frames));
    let expected = format!(
        "<tr><td>7</td><td>QNX</td><td>CRITICAL</td><td>Reset/Reboot</td><td class=\"truncate\">{}...</td><td>0</td></tr>\n<tr><td>6000</td><td>Android</td><td>WARNING</td><td>Timeout</td><td class=\"truncate\">a b</td><td>2</td></tr>\n",
        "x".repeat(137)
    );
    assert_eq!(html, expected);
    let html = render_issue_rows(&events[1..2], None);
    assert!(html.ends_with("<td>0</td></tr>\n"));
}

#[test]
fn domain_metrics_count_kinds() {
    let events = vec![crash(1, "a"), crash(2, "b"), timeout(3, "c")];
    let m = domain_metrics(&events, Domain::Qnx);
    assert_eq!(m.service_crashes, 2);
    assert_eq!(m.timeouts, 0);
    let m = domain_metrics(&events, Domain::Android);
    assert_eq!(m.timeouts, 1);
    assert_eq!(m.service_crashes, 0);
}
