use logiclink_desk::response::{parse_response, result_description, ParsedResponse, ResponseDetail};

fn detail(command: u8, payload: &[u8]) -> (u8, String, ResponseDetail) {
    match parse_response(command, payload) {
        ParsedResponse::Result {
            result,
            result_description,
            detail,
        } => (result, result_description, detail),
        ParsedResponse::NoResult => panic!("expected a result"),
    }
}

#[test]
fn empty_payload_has_no_result() {
    assert!(matches!(parse_response(0x08, &[]), ParsedResponse::NoResult));
}

#[test]
fn short_height_response_is_an_ack() {
    let (result, description, d) = detail(0x08, &[0x00, 0x01]);
    assert_eq!(result, 0);
    assert_eq!(description, "ok");
    assert!(matches!(d, ResponseDetail::HeightOrMotionAck { data } if data == "01"));
}

#[test]
fn occupancy_response() {
    let (_, _, d) = detail(0x09, &[0x00, 0x01, 0x10, 0x00, 0x00, 0x00]);
    assert!(matches!(
        d,
        ResponseDetail::Occupancy {
            occupied: true,
            occupation_time: 16
        }
    ));
}

#[test]
fn serial_number_response() {
    let payload = [0x00, 0x01, 0x00, 0x02, 0x00, 0x0a, 0, 0, 0, 0, 0, 0, 0x01];
    let (_, _, d) = detail(0x1c, &payload);
    assert!(matches!(
        d,
        ResponseDetail::SerialNumber {
            product: 1,
            variant: 2,
            serial: 0x0100_0000_0000_000a
        }
    ));
}

#[test]
fn port_input_keeps_whole_values_only() {
    let (_, _, d) = detail(0x27, &[0x00, 0x03, 0x01, 0x00, 0x02, 0x00, 0x03]);
    match d {
        ResponseDetail::PortInput {
            count,
            values,
            complete,
        } => {
            assert_eq!(count, 3);
            assert_eq!(values, vec![1, 2]);
            assert!(!complete);
        }
        other => panic!("unexpected {other:?}"),
    }
}

#[test]
fn handset_wrapper_response() {
    let (_, _, d) = detail(0x19, &[0x00, 0x05, 0x04, 0xff, 0xaa]);
    match d {
        ResponseDetail::XcpWrapper {
            subcommand,
            expected_wrapped_length,
            marker,
            marker_description,
            wrapped_length_matches,
            xcp_data,
        } => {
            assert_eq!(subcommand, 5);
            assert_eq!(expected_wrapped_length, 4);
            assert_eq!(marker, 0xff);
            assert_eq!(marker_description, "xcp-response");
            assert!(wrapped_length_matches);
            assert_eq!(xcp_data, "aa");
        }
        other => panic!("unexpected {other:?}"),
    }
}

#[test]
fn other_commands_keep_their_data() {
    let (result, description, d) = detail(0x1f, &[0x06, 0xab]);
    assert_eq!(result, 6);
    assert_eq!(description, "invalid-command-parameter");
    assert!(matches!(d, ResponseDetail::Other { data } if data == "ab"));
}

#[test]
fn interface_stats_packed_counters() {
    let mut payload = vec![0u8; 69];
    payload[2] = 0x42;
    payload[3] = 0x01;
    payload[59] = 0x34;
    payload[60] = 0x12;
    payload[67] = 0xa5;
    let (_, _, d) = detail(0x22, &payload);
    match d {
        ResponseDetail::InterfaceStats {
            status_byte_at2,
            at3,
            window_at7,
            at59_low_nibble,
            at61_high_nibble,
            data,
            ..
        } => {
            assert_eq!(status_byte_at2, 0x42);
            assert_eq!(at3, 1);
            assert_eq!(window_at7, "00".repeat(16));
            assert_eq!(at59_low_nibble, 0x51234);
            assert_eq!(at61_high_nibble, 0xa0000);
            assert_eq!(data.len(), 136);
        }
        other => panic!("unexpected {other:?}"),
    }
}

#[test]
fn result_descriptions() {
    assert_eq!(result_description(0x0a), "firmware-hardware-incompatible");
    assert_eq!(result_description(0x42), "unknown-result");
}
