use printwatch::dispatch::{dispatch_command, Command, Dispatch};
use printwatch::files::files_from_response;
use printwatch::protocol::{
    action_result, build_gcode, is_sentinel, process_datagram, status_from_response, strip_crlf,
};

#[test]
fn file_list_drops_banners_and_sizes() {
    let lines: Vec<String> = vec![
        "Begin file list".to_string(),
        "a.gcode 100".to_string(),
        "b.gcode 200".to_string(),
        "End file list".to_string(),
        "ok L:2".to_string(),
    ];
    let files = files_from_response(&lines);
    assert_eq!(files, vec!["a.gcode".to_string(), "b.gcode".to_string()]);
}

#[test]
fn file_list_of_empty_response_is_empty() {
    let lines: Vec<String> = Vec::new();
    let files = files_from_response(&lines);
    assert!(files.is_empty());
}

#[test]
fn file_list_of_short_response_is_empty() {
    let lines: Vec<String> = vec!["Begin file list".to_string(), "ok L:0".to_string()];
    assert!(files_from_response(&lines).is_empty());
    let lines: Vec<String> = vec![
        "Begin file list".to_string(),
        "End file list".to_string(),
        "ok L:0".to_string(),
    ];
    assert!(files_from_response(&lines).is_empty());
}

#[test]
fn datagrams_collect_until_sentinel() {
    let mut out: Vec<String> = Vec::new();
    assert!(!process_datagram(&mut out, "Begin file list\r\n"));
    assert!(!process_datagram(&mut out, "a.gcode 100\r\n"));
    assert!(process_datagram(&mut out, "ok L:1\r\n"));
    assert_eq!(
        out,
        vec![
            "Begin file list".to_string(),
            "a.gcode 100".to_string(),
            "ok L:1".to_string()
        ]
    );
}

#[test]
fn strip_crlf_strips_only_a_trailing_one() {
    assert_eq!(strip_crlf("ok\r\n"), "ok");
    assert_eq!(strip_crlf("ok"), "ok");
    assert_eq!(strip_crlf(""), "");
    assert_eq!(strip_crlf("\r\n"), "");
}

#[test]
fn sentinel_is_an_ok_prefix() {
    assert!(is_sentinel("ok L:2"));
    assert!(is_sentinel("ok"));
    assert!(!is_sentinel("o"));
    assert!(!is_sentinel("B:1/2"));
}

#[test]
fn empty_status_response_is_unreachable() {
    let lines: Vec<String> = Vec::new();
    let r = status_from_response(&lines);
    assert_eq!(r.unwrap_err(), "Unable to connect");
}

#[test]
fn status_response_decodes_first_line() {
    let lines: Vec<String> = vec!["T:10".to_string(), "ok".to_string()];
    let st = status_from_response(&lines).unwrap();
    assert_eq!(st.t, 10);
}

#[test]
fn gcode_of_each_action() {
    assert_eq!(build_gcode("resume", "").unwrap(), "M24");
    assert_eq!(build_gcode("pause", "").unwrap(), "M25");
    assert_eq!(build_gcode("stop", "").unwrap(), "M33");
    assert_eq!(
        build_gcode("start", "part.gcode").unwrap(),
        "M6030 \"part.gcode\""
    );
    assert!(build_gcode("reboot", "").is_none());
}

#[test]
fn action_result_reports_failure_when_nothing_came_back() {
    let empty: Vec<String> = Vec::new();
    let r = action_result("pause", "10.0.0.7", &empty);
    assert_eq!(r.unwrap_err(), "Failed to pause printer at 10.0.0.7");
    let some: Vec<String> = vec!["ok".to_string()];
    assert_eq!(action_result("pause", "10.0.0.7", &some).unwrap(), "ok");
}

fn cmd(
    action: &str,
    name: Option<&str>,
    ip: Option<&str>,
    file: Option<&str>,
) -> Command {
    Command {
        action: action.to_string(),
        name: name.map(|s| s.to_string()),
        ip_address: ip.map(|s| s.to_string()),
        file: file.map(|s| s.to_string()),
    }
}

#[test]
fn dispatch_routes_registry_mutations() {
    match dispatch_command(&cmd("add", Some("p1"), Some("10.0.0.7"), None)) {
        Dispatch::AddPrinter { name, ip } => {
            assert_eq!(name, "p1");
            assert_eq!(ip, "10.0.0.7");
        }
        _ => panic!("expected AddPrinter"),
    }
    match dispatch_command(&cmd("remove", Some("p1"), None, None)) {
        Dispatch::RemovePrinter { name } => assert_eq!(name, "p1"),
        _ => panic!("expected RemovePrinter"),
    }
}

#[test]
fn dispatch_rejects_missing_fields() {
    assert!(matches!(
        dispatch_command(&cmd("add", Some("p1"), None, None)),
        Dispatch::MissingField
    ));
    assert!(matches!(
        dispatch_command(&cmd("remove", None, Some("10.0.0.7"), None)),
        Dispatch::MissingField
    ));
    assert!(matches!(
        dispatch_command(&cmd("pause", None, None, None)),
        Dispatch::MissingField
    ));
    assert!(matches!(
        dispatch_command(&cmd("start", None, Some("10.0.0.7"), None)),
        Dispatch::MissingField
    ));
}

#[test]
fn dispatch_routes_device_actions() {
    match dispatch_command(&cmd("start", None, Some("10.0.0.7"), Some("part.gcode"))) {
        Dispatch::DeviceCommand { ip, gcode } => {
            assert_eq!(ip, "10.0.0.7");
            assert_eq!(gcode, "M6030 \"part.gcode\"");
        }
        _ => panic!("expected DeviceCommand"),
    }
    match dispatch_command(&cmd("resume", None, Some("10.0.0.7"), None)) {
        Dispatch::DeviceCommand { ip, gcode } => {
            assert_eq!(ip, "10.0.0.7");
            assert_eq!(gcode, "M24");
        }
        _ => panic!("expected DeviceCommand"),
    }
}

#[test]
fn dispatch_flags_unknown_actions() {
    assert!(matches!(
        dispatch_command(&cmd("reboot", Some("p1"), Some("10.0.0.7"), None)),
        Dispatch::Unsupported
    ));
}
