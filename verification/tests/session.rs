use std::time::Duration;

use logiclink_desk::ble::{
    build_request, decode_notification, decode_notifications, decode_timed_notifications,
    join_strings, matching_device_name, notification_height, notification_matches_request,
    query_result, samples_since, scan_decision, validate_read_only_query, BleError,
    HeightSample, NotificationRecord, QueryOptions, ScanDecision,
};
use logiclink_desk::commands::CommandArg;
use logiclink_desk::protocol::{encode_packet, slip_encode, ProtocolError};

fn options(query: &str, args: Vec<CommandArg>, allow_motion: bool) -> QueryOptions {
    QueryOptions {
        device_name: None,
        query: query.to_string(),
        args,
        characteristic: "app".to_string(),
        scan_timeout: Duration::from_millis(1),
        connect_timeout: Duration::from_millis(1),
        response_window: Duration::from_millis(1),
        allow_motion,
    }
}

#[test]
fn guard_allows_read_only_queries() {
    assert!(validate_read_only_query(&options("get-height", vec![], false)).is_ok());
    assert!(validate_read_only_query(&options("drive-up", vec![], true)).is_ok());
    assert!(matches!(
        validate_read_only_query(&options("drive-up", vec![], false)).unwrap_err(),
        BleError::QueryNotReadOnly(q) if q == "drive-up"
    ));
    assert!(matches!(
        validate_read_only_query(&options("led-on", vec![], true)).unwrap_err(),
        BleError::QueryNotReadOnly(_)
    ));
}

#[test]
fn guard_refuses_interface_stats_reset() {
    let keep = vec![CommandArg::Number(1), CommandArg::Number(0)];
    assert!(validate_read_only_query(&options("get-interface-stats", keep, false)).is_ok());
    let reset = vec![CommandArg::Number(1), CommandArg::Number(1)];
    assert!(matches!(
        validate_read_only_query(&options("get-interface-stats", reset, false)).unwrap_err(),
        BleError::InterfaceStatsResetRefused
    ));
    let text = vec![CommandArg::Number(1), CommandArg::Text("0".to_string())];
    assert!(matches!(
        validate_read_only_query(&options("get-interface-stats", text, false)).unwrap_err(),
        BleError::InterfaceStatsResetRefused
    ));
}

#[test]
fn device_names() {
    assert_eq!(
        matching_device_name(Some("LOGIClink C1022".to_string()), None).unwrap(),
        Some("LOGIClink C1022".to_string())
    );
    assert_eq!(
        matching_device_name(Some("Other".to_string()), None).unwrap(),
        None
    );
    assert_eq!(
        matching_device_name(Some("Desk A".to_string()), Some("Desk A")).unwrap(),
        Some("Desk A".to_string())
    );
    assert!(matches!(
        matching_device_name(None, Some("")).unwrap_err(),
        BleError::MissingDeviceName
    ));
}

#[test]
fn scan_decisions() {
    let two = vec!["A".to_string(), "B".to_string()];
    assert!(matches!(scan_decision(&two, Some("A"), false, 5), ScanDecision::Use(0)));
    assert!(matches!(
        scan_decision(&two, None, false, 5),
        ScanDecision::Fail(BleError::MultipleDevices(s)) if s == "A, B"
    ));
    let none: Vec<String> = Vec::new();
    assert!(matches!(scan_decision(&none, None, false, 5), ScanDecision::Wait));
    assert!(matches!(
        scan_decision(&none, None, true, 5),
        ScanDecision::Fail(BleError::NotDiscovered { device_name, timeout_ms: 5 })
            if device_name == "LOGIClink device"
    ));
    assert_eq!(join_strings(&two, "; "), "A; B");
}

#[test]
fn request_roundtrips_through_notification_decoding() {
    let request = build_request("get-height", &[], [0x12, 0x34]).unwrap();
    assert_eq!(request.command, 0x08);
    assert_eq!(request.requested_command, "0x08");
    assert_eq!(request.requested_nonce, "1234");
    assert_eq!(request.wrote, hex::encode(&request.frame));
    assert!(notification_matches_request(&request.frame, 0x08, [0x12, 0x34]));
    assert!(!notification_matches_request(&request.frame, 0x08, [0x12, 0x35]));
    let records = decode_notification(&request.frame, None);
    assert_eq!(records.len(), 1);
    match &records[0] {
        NotificationRecord::Frame {
            command, nonce, payload, ..
        } => {
            assert_eq!(command, "0x08");
            assert_eq!(nonce, "1234");
            assert_eq!(payload, "000000");
        }
        other => panic!("unexpected {other:?}"),
    }
}

#[test]
fn bad_notifications_become_error_records() {
    let records = decode_timed_notifications(&vec![(vec![0xc0, 1, 2, 0xc0], 42)]);
    assert_eq!(records.len(), 1);
    match &records[0] {
        NotificationRecord::Error {
            raw_notification,
            error,
            received_at_ms,
        } => {
            assert_eq!(raw_notification, "c00102c0");
            assert!(matches!(error, ProtocolError::PacketTooShort));
            assert_eq!(*received_at_ms, Some(42));
        }
        other => panic!("unexpected {other:?}"),
    }
}

#[test]
fn responses_are_matched_by_command_and_nonce() {
    let request = build_request("get-height", &[], [0x00, 0x01]).unwrap();
    let answer = slip_encode(&encode_packet(0x08, &[0, 0xe8, 0x03, 0, 0, 0, 0], Some([0x00, 0x01])));
    let other = slip_encode(&encode_packet(0x08, &[0, 0xe9, 0x03, 0, 0, 0, 0], Some([0x00, 0x02])));
    let decoded = decode_notifications(&vec![other.clone(), answer.clone()]);
    assert_eq!(decoded.len(), 2);
    assert_eq!(notification_height(&decoded[1]), Some(1000));
    let result = query_result(
        "desk".to_string(),
        "get-height".to_string(),
        "c44".to_string(),
        &request,
        decoded,
    );
    assert_eq!(result.match_kind, "command-and-nonce");
    assert_eq!(result.matched_notifications.len(), 1);
    assert_eq!(notification_height(&result.matched_notifications[0]), Some(1000));
    assert_eq!(result.other_notifications.len(), 1);
    assert_eq!(result.notifications.len(), 2);

    let fallback = query_result(
        "desk".to_string(),
        "get-height".to_string(),
        "c44".to_string(),
        &request,
        decode_notifications(&vec![other]),
    );
    assert_eq!(fallback.match_kind, "command-only-fallback");
    assert_eq!(fallback.matched_notifications.len(), 1);
    assert_eq!(fallback.other_notifications.len(), 0);

    let nothing = query_result(
        "desk".to_string(),
        "get-height".to_string(),
        "c44".to_string(),
        &request,
        decode_notifications(&vec![vec![0xc0, 0xc0]]),
    );
    assert_eq!(nothing.match_kind, "none");
    assert!(nothing.matched_notifications.is_empty());
}

#[test]
fn samples_since_index() {
    let samples = vec![
        HeightSample { received_at_ms: 1, height: 10 },
        HeightSample { received_at_ms: 2, height: 11 },
    ];
    let (next, rest) = samples_since(&samples, 1);
    assert_eq!(next, 2);
    assert_eq!(rest.len(), 1);
    assert_eq!(rest[0].height, 11);
    let (next, rest) = samples_since(&samples, 5);
    assert_eq!(next, 2);
    assert!(rest.is_empty());
}
