use cross_domain_log_intel::analysis::upload_field_name;
use cross_domain_log_intel::cli::{options_complete, parse_cli_args, EthSource};
use cross_domain_log_intel::collector::{menu_choice, sessions_newest_first, MenuChoice};
use cross_domain_log_intel::decoder::decode_payload;

fn args(v: &[&str]) -> Vec<String> {
    v.iter().map(|s| s.to_string()).collect()
}

#[test]
fn payload_hex_pairs() {
    assert_eq!(decode_payload(" 0A1bff\n"), Some(vec![0x0a, 0x1b, 0xff]));
    // an odd digit at the end is left out; pairs that are not hex give nothing
    assert_eq!(decode_payload("0Azz1"), Some(vec![0x0a]));
    // `from_str_radix` accepts a leading plus sign
    assert_eq!(decode_payload("+f10"), Some(vec![0x0f, 0x10]));
    assert_eq!(decode_payload(""), Some(vec![]));
    // a two-byte character that fills a pair is no hex byte
    assert_eq!(decode_payload("é01"), Some(vec![0x01]));
    // a pair that would split a character cannot be read
    assert_eq!(decode_payload("0é"), None);
}

#[test]
fn command_line_options() {
    let a = args(&[
        "cli", "q.log", "a.log", "--can", "c1.asc", "x", "--eth", "e.log", "--eth-pcapng", "e.pcapng",
        "--can", "c2.asc", "--html", "out.html", "--rules", "r.json", "--dbc", "d.json",
    ]);
    assert!(options_complete(&a));
    let c = parse_cli_args(&a).unwrap();
    assert_eq!(c.qnx_path, "q.log");
    assert_eq!(c.android_path, "a.log");
    assert_eq!(c.can_paths, vec!["c1.asc".to_string(), "c2.asc".to_string()]);
    match c.eth {
        Some(EthSource::Capture(p)) => assert_eq!(p, "e.pcapng"),
        other => panic!("unexpected {:?}", other),
    }
    assert_eq!(c.html_path.as_deref(), Some("out.html"));
    assert_eq!(c.rules_path.as_deref(), Some("r.json"));
    assert_eq!(c.dbc_path.as_deref(), Some("d.json"));
    // an option's value may look like an option
    let a = args(&["cli", "q", "a", "--html", "--can"]);
    assert!(options_complete(&a));
    let c = parse_cli_args(&a).unwrap();
    assert_eq!(c.html_path.as_deref(), Some("--can"));
    assert!(c.can_paths.is_empty());
    assert!(parse_cli_args(&args(&["cli", "q"])).is_none());
    assert!(!options_complete(&args(&["cli", "q", "a", "--can"])));
    assert!(!options_complete(&args(&["cli", "q", "a", "x", "--html", "o", "--dbc"])));
}

#[test]
fn menu_answers() {
    assert_eq!(menu_choice("1\n"), MenuChoice::CollectQnx);
    assert_eq!(menu_choice(" 2 "), MenuChoice::CollectAndroid);
    assert_eq!(menu_choice("3"), MenuChoice::GenerateReport);
    assert_eq!(menu_choice("4"), MenuChoice::ListSessions);
    assert_eq!(menu_choice("5\n"), MenuChoice::Exit);
    assert_eq!(menu_choice("6"), MenuChoice::ToggleStreaming);
    assert_eq!(menu_choice("7"), MenuChoice::CollectBoth);
    assert_eq!(menu_choice("8"), MenuChoice::Invalid);
    assert_eq!(menu_choice("1 2"), MenuChoice::Invalid);
}

#[test]
fn sessions_listed_newest_first() {
    let names = args(&["qnx_20240101_000000", "android_20250101_000000", "session_20240301_120000"]);
    assert_eq!(
        sessions_newest_first(&names),
        args(&["session_20240301_120000", "qnx_20240101_000000", "android_20250101_000000"])
    );
    assert!(sessions_newest_first(&vec![]).is_empty());
}

#[test]
fn upload_fields_by_name() {
    assert_eq!(upload_field_name("ContentDisposition { name: \"qnx_file\" }"), "qnx_file");
    assert_eq!(upload_field_name("name=\"android_file\"; filename=\"qnx_file.log\""), "qnx_file");
    assert_eq!(upload_field_name("name=\"rules_file\""), "rules_file");
    assert_eq!(upload_field_name("name=\"other\""), "unknown");
}
