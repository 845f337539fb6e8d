use std::time::Duration;

use logiclink_desk::cli::{
    last_reported_height, latency_summary, parsed_height, LatencySummary,
    motion_command_name, parse_command_args, parse_csv_u64, parse_hex, parse_number,
    parse_u64, percentile_nearest_rank, query_options, target_reached, CsvError, HexError,
    IntErrorKind,
};
use logiclink_desk::commands::CommandArg;
use logiclink_desk::response::{ParsedResponse, ResponseDetail};

#[test]
fn motion_directions() {
    assert_eq!(motion_command_name("up"), Some("drive-up"));
    assert_eq!(motion_command_name("drive-down"), Some("drive-down"));
    assert_eq!(motion_command_name("sideways"), None);
}

#[test]
fn targets() {
    assert!(target_reached("drive-up", Some(1000), Some(990)));
    assert!(!target_reached("drive-up", Some(980), Some(990)));
    assert!(target_reached("drive-down", Some(980), Some(990)));
    assert!(!target_reached("drive-down", None, Some(990)));
    assert!(!target_reached("drive-to", Some(1), Some(1)));
}

#[test]
fn percentiles() {
    let sorted = [10u128, 20, 30, 40];
    assert_eq!(percentile_nearest_rank(&sorted, 50), 20);
    assert_eq!(percentile_nearest_rank(&sorted, 90), 40);
    assert_eq!(percentile_nearest_rank(&sorted, 0), 10);
}

#[test]
fn numbers() {
    assert_eq!(parse_number("12"), Some(12));
    assert_eq!(parse_number("0x1F"), Some(31));
    assert_eq!(parse_number("0X10"), Some(16));
    assert_eq!(parse_number("0x+5"), Some(5));
    assert_eq!(parse_number("1a"), None);
    assert_eq!(parse_number(""), None);
    assert_eq!(parse_number("18446744073709551615"), Some(u64::MAX));
    assert_eq!(parse_number("18446744073709551616"), None);
    assert_eq!(parse_u64("+", 10), Err(IntErrorKind::InvalidDigit));
    assert_eq!(parse_u64("", 10), Err(IntErrorKind::Empty));
    assert_eq!(parse_u64("99999999999999999999x", 10), Err(IntErrorKind::PosOverflow));
}

#[test]
fn hex_arguments() {
    assert_eq!(parse_hex("hex:de:ad be-ef").unwrap(), vec![0xde, 0xad, 0xbe, 0xef]);
    assert_eq!(parse_hex("0A0b").unwrap(), vec![0x0a, 0x0b]);
    assert_eq!(parse_hex("abc").unwrap_err(), HexError::OddLength);
    assert_eq!(
        parse_hex("0z").unwrap_err(),
        HexError::InvalidHexCharacter { c: 'z', index: 1 }
    );
}

#[test]
fn command_arguments() {
    let args = vec!["5".to_string(), "0x10".to_string(), "text".to_string(), "0102".to_string()];
    let parsed = parse_command_args("handset-command", &args).unwrap();
    assert!(matches!(parsed[0], CommandArg::Number(5)));
    assert!(matches!(parsed[1], CommandArg::Number(16)));
    assert!(matches!(&parsed[2], CommandArg::Text(t) if t == "text"));
    assert!(matches!(&parsed[3], CommandArg::Bytes(b) if b == &vec![1, 2]));
    let xcp = vec!["1".to_string(), "12".to_string()];
    let parsed = parse_command_args("xcp-command", &xcp).unwrap();
    assert!(matches!(&parsed[1], CommandArg::Bytes(b) if b == &vec![0x12]));
    assert_eq!(
        parse_command_args("xcp-command", &vec!["1".to_string(), "1".to_string()]).unwrap_err(),
        HexError::OddLength
    );
}

#[test]
fn comma_separated_values() {
    assert_eq!(parse_csv_u64(" 50, 40 ,,30").unwrap(), vec![50, 40, 30]);
    assert_eq!(parse_csv_u64("50,40,30,25,20,15,10").unwrap().len(), 7);
    assert!(matches!(parse_csv_u64(" , ").unwrap_err(), CsvError::NoValues));
    assert!(matches!(
        parse_csv_u64("5, x ").unwrap_err(),
        CsvError::InvalidInteger { item, kind: IntErrorKind::InvalidDigit } if item == "x"
    ));
}

#[test]
fn options_from_milliseconds() {
    let o = query_options(Some("Desk"), "get-height", vec![], "c44", 1500, 20, 7, true);
    assert_eq!(o.device_name.as_deref(), Some("Desk"));
    assert_eq!(o.query, "get-height");
    assert_eq!(o.characteristic, "c44");
    assert_eq!(o.scan_timeout, Duration::from_millis(1500));
    assert_eq!(o.connect_timeout, Duration::from_millis(20));
    assert_eq!(o.response_window, Duration::from_millis(7));
    assert!(o.allow_motion);
}

fn height_frame(height: Option<u16>) -> logiclink_desk::ble::NotificationRecord {
    let parsed = match height {
        Some(h) => ParsedResponse::Result {
            result: 0,
            result_description: "success".to_string(),
            detail: ResponseDetail::Height { height: h, movement_counter: 0 },
        },
        None => ParsedResponse::NoResult,
    };
    logiclink_desk::ble::NotificationRecord::Frame {
        raw_notification: String::new(),
        raw_packet: String::new(),
        command: "0x08".to_string(),
        command_name: "get-height".to_string(),
        status: 0,
        nonce: "0000".to_string(),
        payload: String::new(),
        parsed,
        trailing_remainder: String::new(),
        received_at_ms: None,
    }
}

fn result_with(matched: Vec<logiclink_desk::ble::NotificationRecord>) -> logiclink_desk::ble::QueryResult {
    logiclink_desk::ble::QueryResult {
        device_name: "desk".to_string(),
        query: "get-height".to_string(),
        characteristic: "c".to_string(),
        wrote: String::new(),
        requested_command: "0x08".to_string(),
        requested_nonce: "0000".to_string(),
        match_kind: "command-and-nonce".to_string(),
        matched_notifications: matched,
        other_notifications: Vec::new(),
        notifications: Vec::new(),
    }
}

#[test]
fn heights_from_query_results() {
    let r = result_with(vec![height_frame(Some(700)), height_frame(None), height_frame(Some(705)), height_frame(None)]);
    assert_eq!(parsed_height(&r), Some(700));
    assert_eq!(last_reported_height(&r), Some(705));
    let first_without = result_with(vec![height_frame(None), height_frame(Some(710))]);
    assert_eq!(parsed_height(&first_without), None);
    assert_eq!(last_reported_height(&first_without), Some(710));
    let empty = result_with(Vec::new());
    assert_eq!(parsed_height(&empty), None);
    assert_eq!(last_reported_height(&empty), None);
}

#[test]
fn latency_summaries() {
    assert_eq!(latency_summary(&Vec::new()), None);
    let s = latency_summary(&vec![40, 10, 30, 20]).unwrap();
    assert_eq!(s, LatencySummary { min: 10, p50: 20, p90: 40, max: 40, sum: 100, count: 4 });
    assert_eq!(s.sum as f64 / s.count as f64, 25.0);
    let one = latency_summary(&vec![7]).unwrap();
    assert_eq!((one.min, one.p50, one.p90, one.max), (7, 7, 7, 7));
    let ten: Vec<u128> = (1..=10).rev().collect();
    let t = latency_summary(&ten).unwrap();
    assert_eq!((t.min, t.p50, t.p90, t.max), (1, 5, 9, 10));
}
