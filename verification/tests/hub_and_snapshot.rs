use printwatch::hub::ConnectionHub;
use printwatch::json::{snapshot_from_json, snapshot_to_json};
use printwatch::snapshot::{build_snapshot, progress_text, status_record, DevicePoll, PrinterStatus};

#[test]
fn progress_is_a_truncated_two_decimal_percentage() {
    assert_eq!(progress_text(50, 100), "50.00");
    assert_eq!(progress_text(0, 0), "Not Printing");
    assert_eq!(progress_text(1, 3), "33.33");
    assert_eq!(progress_text(2, 3), "66.66");
    assert_eq!(progress_text(100, 100), "100.00");
    assert_eq!(progress_text(0, 7), "0.00");
}

#[test]
fn unreachable_device_degrades_to_an_error_record() {
    let status_lines: Vec<String> = Vec::new();
    let file_lines: Vec<String> = Vec::new();
    let r = status_record(
        "p1".to_string(),
        "127.0.0.1".to_string(),
        &status_lines,
        &file_lines,
    );
    assert_eq!(r.printer_name, "p1");
    assert_eq!(r.ip_address, "127.0.0.1");
    assert!(r.files_available.is_empty());
    assert_eq!(r.progress, "Unable to connect");
    assert!(!r.paused);
}

#[test]
fn reachable_device_gets_progress_and_files() {
    let status_lines: Vec<String> = vec!["ok B:1/2 D:50/100/1 T:9".to_string()];
    let file_lines: Vec<String> = vec![
        "Begin file list".to_string(),
        "a.gcode 100".to_string(),
        "End file list".to_string(),
        "ok L:1".to_string(),
    ];
    let r = status_record(
        "p1".to_string(),
        "10.0.0.7".to_string(),
        &status_lines,
        &file_lines,
    );
    assert_eq!(r.files_available, vec!["a.gcode".to_string()]);
    assert_eq!(r.progress, "50.00");
    assert!(r.paused);
}

#[test]
fn one_failed_device_does_not_spoil_the_snapshot() {
    let polls = vec![
        DevicePoll {
            name: "down".to_string(),
            ip: "127.0.0.1".to_string(),
            status_lines: Vec::new(),
            file_lines: Vec::new(),
        },
        DevicePoll {
            name: "up".to_string(),
            ip: "10.0.0.7".to_string(),
            status_lines: vec!["ok D:1/4/0".to_string()],
            file_lines: Vec::new(),
        },
    ];
    let snap = build_snapshot(polls);
    assert_eq!(snap.len(), 2);
    assert_eq!(snap[0].printer_name, "down");
    assert_eq!(snap[0].progress, "Unable to connect");
    assert_eq!(snap[1].printer_name, "up");
    assert_eq!(snap[1].progress, "25.00");
}

#[test]
fn hub_broadcast_reaches_exactly_the_registered() {
    let mut hub = ConnectionHub::new();
    let (tx1, mut rx1) = tokio::sync::mpsc::unbounded_channel::<String>();
    let (tx2, mut rx2) = tokio::sync::mpsc::unbounded_channel::<String>();
    hub.register(1, tx1);
    hub.register(2, tx2);
    hub.unregister(1);
    let accepted = hub.broadcast("snapshot");
    assert_eq!(accepted, 1);
    assert_eq!(rx2.try_recv().unwrap(), "snapshot");
    assert!(rx1.try_recv().is_err());
}

#[test]
fn hub_unicast_to_unregistered_id_is_a_noop() {
    let mut hub = ConnectionHub::new();
    let (tx, mut rx) = tokio::sync::mpsc::unbounded_channel::<String>();
    hub.register(7, tx);
    assert!(!hub.unicast(99, "hello"));
    assert!(rx.try_recv().is_err());
    assert!(hub.unicast(7, "hello"));
    assert_eq!(rx.try_recv().unwrap(), "hello");
}

#[test]
fn hub_unregister_of_absent_id_is_a_noop() {
    let mut hub = ConnectionHub::new();
    let (tx, _rx) = tokio::sync::mpsc::unbounded_channel::<String>();
    hub.register(1, tx);
    hub.unregister(2);
    assert_eq!(hub.len(), 1);
    assert!(hub.contains(1));
    assert!(!hub.contains(2));
}

fn sample_snapshot() -> Vec<PrinterStatus> {
    vec![
        PrinterStatus {
            printer_name: "p1".to_string(),
            ip_address: "127.0.0.1".to_string(),
            files_available: vec!["a.gcode".to_string(), "b \"x\".gcode".to_string()],
            progress: "50.00".to_string(),
            paused: false,
        },
        PrinterStatus {
            printer_name: "back\\slash".to_string(),
            ip_address: "10.0.0.7".to_string(),
            files_available: Vec::new(),
            progress: "Not Printing".to_string(),
            paused: true,
        },
    ]
}

#[test]
fn snapshot_serializes_with_stable_field_order() {
    let list = vec![PrinterStatus {
        printer_name: "p1".to_string(),
        ip_address: "127.0.0.1".to_string(),
        files_available: vec!["a.gcode".to_string()],
        progress: "50.00".to_string(),
        paused: false,
    }];
    let json = snapshot_to_json(&list);
    assert_eq!(
        json,
        "[{\"printer_name\":\"p1\",\"ip_address\":\"127.0.0.1\",\
         \"files_available\":[\"a.gcode\"],\"progress\":\"50.00\",\"paused\":false}]"
    );
}

#[test]
fn reparsing_and_reserializing_a_snapshot_is_byte_identical() {
    let json = snapshot_to_json(&sample_snapshot());
    let parsed = snapshot_from_json(&json).expect("canonical text parses");
    let json2 = snapshot_to_json(&parsed);
    assert_eq!(json, json2);
    assert_eq!(parsed.len(), 2);
    assert_eq!(parsed[0].files_available[1], "b \"x\".gcode");
    assert_eq!(parsed[1].printer_name, "back\\slash");
    assert!(parsed[1].paused);
}

#[test]
fn empty_snapshot_round_trips() {
    let empty: Vec<PrinterStatus> = Vec::new();
    let json = snapshot_to_json(&empty);
    assert_eq!(json, "[]");
    let parsed = snapshot_from_json(&json).unwrap();
    assert!(parsed.is_empty());
    assert_eq!(snapshot_to_json(&parsed), "[]");
}

#[test]
fn non_canonical_json_is_rejected() {
    assert!(snapshot_from_json("").is_none());
    assert!(snapshot_from_json("{}").is_none());
    assert!(snapshot_from_json("[ ]").is_none());
    assert!(snapshot_from_json("[{\"printer\":\"p\"}]").is_none());
}

#[test]
fn timed_out_device_snapshot_reaches_all_viewers() {
    let polls = vec![DevicePoll {
        name: "p1".to_string(),
        ip: "127.0.0.1".to_string(),
        status_lines: Vec::new(),
        file_lines: Vec::new(),
    }];
    let snap = build_snapshot(polls);
    assert_eq!(snap.len(), 1);
    assert_eq!(snap[0].printer_name, "p1");
    assert!(snap[0].files_available.is_empty());
    assert!(!snap[0].paused);
    assert_eq!(snap[0].progress, "Unable to connect");
    let json = snapshot_to_json(&snap);

    let mut hub = ConnectionHub::new();
    let (tx1, mut rx1) = tokio::sync::mpsc::unbounded_channel::<String>();
    let (tx2, mut rx2) = tokio::sync::mpsc::unbounded_channel::<String>();
    hub.register(1, tx1);
    hub.register(2, tx2);
    let accepted = hub.broadcast(&json);
    assert_eq!(accepted, 2);
    let got1 = rx1.try_recv().unwrap();
    let got2 = rx2.try_recv().unwrap();
    assert_eq!(got1, json);
    assert_eq!(got2, json);
    assert!(got1.contains("\"progress\":\"Unable to connect\""));
}
