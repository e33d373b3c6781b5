use cross_domain_log_intel::classifier::classify_logs;
use cross_domain_log_intel::analysis::{correlate_events, run_analysis};
use cross_domain_log_intel::collector::{
    manual_serial, pick_listed_device, port_answer, resolve_answer, serial_or_auto,
};
use cross_domain_log_intel::metrics::generate_metrics;
use cross_domain_log_intel::models::{CanFrame, Domain, LogEntry, SystemEvent};
use cross_domain_log_intel::order::{stable_name_order, stable_order_asc};
use cross_domain_log_intel::reporter::{generate_html_report, impact_cells, REPORT_FOOTER, REPORT_PREAMBLE};
use cross_domain_log_intel::rules::{event_window_counts, SimpleRule};

fn entry(ts: i64, domain: Domain, message: &str) -> LogEntry {
    LogEntry { timestamp: ts, domain, process: "p".to_string(), message: message.to_string() }
}

fn can(ts: i64, id: &str, data: &str) -> CanFrame {
    CanFrame {
        timestamp: ts,
        channel: "can0".to_string(),
        id: id.to_string(),
        data: data.to_string(),
        direction: "TX".to_string(),
        raw: String::new(),
    }
}

fn rule(id: &str, byte_index: usize, mask: u8, within_ms: i64) -> SimpleRule {
    SimpleRule {
        id: id.to_string(),
        byte_index,
        bit_mask: mask,
        value_nonzero: true,
        within_ms,
        description: "brake".to_string(),
    }
}

#[test]
fn stable_ascending_order_keeps_ties_in_place() {
    assert_eq!(stable_order_asc(&vec![5, 1, 5, 0, 1]), vec![3, 1, 4, 0, 2]);
    assert_eq!(stable_order_asc(&vec![i64::MAX, i64::MIN]), vec![1, 0]);
    assert!(stable_order_asc(&vec![]).is_empty());
}

#[test]
fn names_order_bytewise() {
    let names = vec!["QNX".to_string(), "Android".to_string(), "B".to_string(), "Android".to_string()];
    assert_eq!(stable_name_order(&names), vec![1, 3, 2, 0]);
    let names = vec!["ab".to_string(), "a".to_string(), "é".to_string(), "z".to_string()];
    assert_eq!(stable_name_order(&names), vec![1, 0, 3, 2]);
}

#[test]
fn rate_windows_use_sorted_starts() {
    let events = vec![
        SystemEvent::Watchdog { domain: Domain::Qnx, timestamp: 30, raw_log: String::new() },
        SystemEvent::Watchdog { domain: Domain::Qnx, timestamp: 10, raw_log: String::new() },
        SystemEvent::Watchdog { domain: Domain::Qnx, timestamp: 20, raw_log: String::new() },
    ];
    let r = event_window_counts(&events, 10);
    assert_eq!(r.starts, vec![10, 20, 30]);
    assert_eq!(r.counts, vec![2, 2, 1]);
}

#[test]
fn analysis_merges_in_time_order_and_correlates() {
    let qnx = vec![
        entry(3000, Domain::Qnx, "GpsService service crashed"),
        entry(1000, Domain::Qnx, "all fine"),
        entry(2000, Domain::Qnx, "watchdog triggered"),
    ];
    let android = vec![entry(2000, Domain::Android, "system reset"), entry(500, Domain::Android, "service started")];
    let frames = vec![can(2500, "1A0", "0F01"), can(2600, "1a0", "0000"), can(100, "1A0", "FF")];
    let rules = vec![rule("1a0", 0, 0x01, 1000)];
    let a = run_analysis(&qnx, &android, Some(&frames), Some(&rules)).expect("checkable");
    let times: Vec<i64> = a.entries.iter().map(|e| e.timestamp).collect();
    assert_eq!(times, vec![500, 1000, 2000, 2000, 3000]);
    // equal timestamps: the QNX entry stays before the Android one
    assert_eq!(a.entries[2].domain, Domain::Qnx);
    assert_eq!(a.entries[3].domain, Domain::Android);
    let kinds: Vec<&str> = a.events.iter().map(|e| e.event_type()).collect();
    assert_eq!(kinds, vec!["Service Start", "Watchdog Trigger", "Reset/Reboot", "Service Crash"]);
    assert_eq!(
        a.correlations,
        vec![
            (500, "Rule 'brake' matched on frame 1A0 at 100ms (event 500)".to_string()),
            (3000, "Rule 'brake' matched on frame 1A0 at 2500ms (event 3000)".to_string()),
        ]
    );
    // without rules there is nothing to correlate
    let a = run_analysis(&qnx, &android, Some(&frames), None).expect("no rules");
    assert!(a.correlations.is_empty());
    assert_eq!(a.events.len(), 4);
}

#[test]
fn analysis_refuses_uncheckable_payload() {
    // the payload byte straddles a multi-byte character at the crash's time
    let qnx = vec![entry(3000, Domain::Qnx, "service crash")];
    let frames = vec![can(2900, "1A0", "0é")];
    let rules = vec![rule("1a0", 0, 0x01, 1000)];
    assert!(run_analysis(&qnx, &vec![], Some(&frames), Some(&rules)).is_none());
    // the same frame outside the rule's window is never read
    let frames = vec![can(100, "1A0", "0é")];
    assert!(run_analysis(&qnx, &vec![], Some(&frames), Some(&rules)).is_some());
}

#[test]
fn metrics_total_and_split_by_domain() {
    let events = vec![
        SystemEvent::ServiceCrash { domain: Domain::Qnx, process: "a".to_string(), timestamp: 1, raw_log: String::new() },
        SystemEvent::ServiceCrash { domain: Domain::Android, process: "b".to_string(), timestamp: 2, raw_log: String::new() },
        SystemEvent::Timeout { domain: Domain::Android, service: "c".to_string(), timestamp: 3, raw_log: String::new() },
    ];
    let r = generate_metrics(events, "T".to_string(), "now".to_string(), 42);
    assert_eq!(r.total_service_crashes, 2);
    assert_eq!(r.total_timeouts, 1);
    assert_eq!(r.total_resets, 0);
    assert_eq!(r.by_domain[0].0, "QNX");
    assert_eq!(r.by_domain[0].1.service_crashes, 1);
    assert_eq!(r.by_domain[1].0, "Android");
    assert_eq!(r.by_domain[1].1.timeouts, 1);
    assert_eq!(r.events.len(), 3);
    assert_eq!(r.boot_time_ms, 42);
}

#[test]
fn html_report_layout() {
    let events = vec![
        SystemEvent::Timeout { domain: Domain::Android, service: "c".to_string(), timestamp: 3, raw_log: "t".to_string() },
        SystemEvent::ServiceCrash { domain: Domain::Qnx, process: "a".to_string(), timestamp: 1, raw_log: "c".to_string() },
    ];
    let r = generate_metrics(events, "Title".to_string(), "2026-01-01 00:00:00".to_string(), -5);
    let html = generate_html_report(&r, None, &vec![]);
    assert!(html.starts_with(REPORT_PREAMBLE));
    assert!(html.ends_with(REPORT_FOOTER));
    assert!(html.contains("<h1>Title</h1>\n"));
    assert!(html.contains("Boot: -5 ms"));
    assert!(html.contains("<div class=\"card\">Service Crashes<br><strong>1</strong></div>"));
    // the critical crash is listed before the warning
    let crash = html.find("<td>CRITICAL</td>").unwrap();
    let warn = html.find("<td>WARNING</td>").unwrap();
    assert!(crash < warn);
    // domains in name order: Android before QNX
    let a = html.find("<tr><td>Android</td><td>0</td><td>0</td><td>0</td><td>1</td></tr>").unwrap();
    let q = html.find("<tr><td>QNX</td><td>0</td><td>1</td><td>0</td><td>0</td></tr>").unwrap();
    assert!(a < q);
    assert!(!html.contains("Message Impacts"));
    let html = generate_html_report(&r, None, &vec!["<tr><td>row</td></tr>\n".to_string()]);
    assert!(html.contains("Ranked by Causal Score)</h2>\n"));
    assert!(html.contains("<tr><td>row</td></tr>\n</table>\n<footer>"));
}

#[test]
fn prompt_answers_fall_back_to_profile_defaults() {
    assert_eq!(resolve_answer("  10.0.0.2 \n", Some("10.0.0.1"), ""), "10.0.0.2");
    assert_eq!(resolve_answer(" \n", Some("10.0.0.1"), ""), "10.0.0.1");
    assert_eq!(resolve_answer("\n", None, "root"), "root");
    assert_eq!(port_answer("\n", Some(2222)), "2222");
    assert_eq!(port_answer("\n", None), "22");
    assert_eq!(port_answer(" 8022\n", Some(2222)), "8022");
    assert_eq!(manual_serial(" emulator-5554\n", Some("abc")), Some("emulator-5554".to_string()));
    assert_eq!(manual_serial("\n", Some("abc")), Some("abc".to_string()));
    assert_eq!(manual_serial("\n", Some("")), Some(String::new()));
    assert_eq!(manual_serial("\n", None), None);
    assert_eq!(serial_or_auto("\n", Some("")), None);
    assert_eq!(serial_or_auto("\n", Some("abc")), Some("abc".to_string()));
    assert_eq!(serial_or_auto(" x ", None), Some("x".to_string()));
}

#[test]
fn device_picked_by_number() {
    let devices = vec!["a".to_string(), "b".to_string(), "c".to_string()];
    assert_eq!(pick_listed_device(&devices, "2\n"), Some("b".to_string()));
    assert_eq!(pick_listed_device(&devices, " +3 "), Some("c".to_string()));
    assert_eq!(pick_listed_device(&devices, "03"), Some("c".to_string()));
    assert_eq!(pick_listed_device(&devices, "0"), None);
    assert_eq!(pick_listed_device(&devices, "4"), None);
    assert_eq!(pick_listed_device(&devices, "-1"), None);
    assert_eq!(pick_listed_device(&devices, "+"), None);
    assert_eq!(pick_listed_device(&devices, "1x"), None);
    assert_eq!(pick_listed_device(&devices, "99999999999999999999999"), None);
    assert_eq!(pick_listed_device(&devices, ""), None);
}

#[test]
fn events_correlated_one_by_one() {
    let events = vec![
        SystemEvent::Watchdog { domain: Domain::Qnx, timestamp: 1000, raw_log: String::new() },
        SystemEvent::Watchdog { domain: Domain::Qnx, timestamp: 3000, raw_log: String::new() },
    ];
    let frames = vec![can(900, "1A0", "01"), can(2950, "1a0", "03")];
    let rules = vec![rule("1A0", 0, 0x02, 100), rule("1A0", 0, 0x01, 200)];
    let c = correlate_events(&events, &frames, &rules).unwrap();
    assert_eq!(
        c,
        vec![
            (1000, "Rule 'brake' matched on frame 1A0 at 900ms (event 1000)".to_string()),
            (3000, "Rule 'brake' matched on frame 1a0 at 2950ms (event 3000)".to_string()),
            (3000, "Rule 'brake' matched on frame 1a0 at 2950ms (event 3000)".to_string()),
        ]
    );
    let bad = vec![can(2950, "1a0", "0é")];
    assert!(correlate_events(&events, &bad, &rules).is_none());
    assert_eq!(correlate_events(&[], &bad, &rules), Some(vec![]));
}

#[test]
fn laws_on_concrete_values() {
    // classification ignores case
    let events = classify_logs(&vec![
        entry(1, Domain::Qnx, "GPS Service CRASHED"),
        entry(2, Domain::Qnx, "gps service crashed"),
    ]);
    assert_eq!(events[0].event_type(), events[1].event_type());
    // the totals cover every event once, and split into the domains' counts
    let events = classify_logs(&vec![
        entry(1, Domain::Qnx, "service started"),
        entry(2, Domain::Android, "watchdog bark"),
        entry(3, Domain::Android, "unexpected value"),
        entry(4, Domain::Qnx, "nothing"),
    ]);
    let r = generate_metrics(events, String::new(), String::new(), 0);
    let total = r.total_service_starts + r.total_service_crashes + r.total_system_crashes + r.total_timeouts
        + r.total_watchdog_triggers + r.total_resets + r.total_discrepancies + r.total_deviations;
    assert_eq!(total, r.events.len());
    assert_eq!(r.total_watchdog_triggers, r.by_domain[0].1.watchdog_triggers + r.by_domain[1].1.watchdog_triggers);
    // merged entries ascend
    let a = run_analysis(
        &vec![entry(9, Domain::Qnx, "a"), entry(-3, Domain::Qnx, "b")],
        &vec![entry(4, Domain::Android, "c")],
        None,
        None,
    )
    .unwrap();
    let times: Vec<i64> = a.entries.iter().map(|e| e.timestamp).collect();
    assert_eq!(times, vec![-3, 4, 9]);
}

#[test]
fn impact_row_cells() {
    let services = vec!["GpsService".to_string(), "AVeryLongServiceNameIndeed".to_string(), "Third".to_string()];
    let sigs = vec![
        ("a".to_string(), "1.00".to_string()),
        ("b".to_string(), "2.00".to_string()),
        ("c".to_string(), "3.00".to_string()),
        ("d".to_string(), "4.00".to_string()),
    ];
    let c = impact_cells(&services, "CRITICAL", 2, 1, &sigs).unwrap();
    assert_eq!(c.services, "GpsService, AVeryLongServiceN...");
    assert_eq!(c.severity, "<span style='color:red;font-weight:bold'>CRITICAL</span>");
    assert_eq!(c.crashes, "2 (+ 1 timeout)");
    assert_eq!(c.signals, "a=1.00; b=2.00; c=3.00");
    let c = impact_cells(&vec![], "LOW", 0, 3, &vec![]).unwrap();
    assert_eq!(c.services, "-");
    assert_eq!(c.severity, "LOW");
    assert_eq!(c.crashes, "3 timeout");
    assert_eq!(c.signals, "-");
    let c = impact_cells(&vec![], "HIGH", 0, 0, &vec![]).unwrap();
    assert_eq!(c.crashes, "None");
    assert_eq!(c.severity, "<span style='color:orange;font-weight:bold'>HIGH</span>");
    // a cut that would split a character: 16 ASCII bytes, then a two-byte one
    let split = vec![format!("{}é{}", "x".repeat(16), "y".repeat(10))];
    assert!(impact_cells(&split, "MEDIUM", 1, 0, &vec![]).is_none());
    // the third service is not shown, so it is never cut
    let third = vec!["a".to_string(), "b".to_string(), format!("{}é{}", "x".repeat(16), "y".repeat(10))];
    assert_eq!(impact_cells(&third, "MEDIUM", 3, 0, &vec![]).unwrap().services, "a, b");
}
