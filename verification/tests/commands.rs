use logiclink_desk::commands::{command_payload, read_only_commands, CommandArg, CommandError};

fn ok(name: &str, args: &[CommandArg]) -> (u8, Vec<u8>) {
    command_payload(name, args).unwrap()
}

#[test]
fn fixed_commands() {
    assert_eq!(ok("get-height", &[]), (0x08, vec![0, 0, 0]));
    assert_eq!(ok("get-occupancy", &[]), (0x09, vec![0]));
    assert_eq!(ok("get-serial-number", &[]), (0x1c, vec![0]));
    assert_eq!(ok("get-table-stats", &[]), (0x21, vec![0]));
    assert_eq!(ok("get-port-input", &[]), (0x27, vec![0]));
    assert_eq!(ok("get-conn-interface", &[]), (0x2b, vec![0]));
}

#[test]
fn drive_commands() {
    assert_eq!(ok("drive-up", &[]), (0x08, vec![0x01, 0x01, 0x00]));
    assert_eq!(
        ok("drive-up", &[CommandArg::Number(300)]),
        (0x08, vec![0x01, 0x2c, 0x01])
    );
    assert_eq!(ok("drive-down", &[]), (0x08, vec![0xff, 0x01, 0x00]));
    assert_eq!(
        ok("drive-to", &[CommandArg::Number(1000)]),
        (0x08, vec![0, 0, 0, 0xe8, 0x03])
    );
    assert!(matches!(
        command_payload("drive-to", &[]).unwrap_err(),
        CommandError::MissingNumber(s) if s == "drive-to"
    ));
    assert!(matches!(
        command_payload("drive-to", &[CommandArg::Number(70000)]).unwrap_err(),
        CommandError::InvalidU16(70000)
    ));
}

#[test]
fn led_commands() {
    assert_eq!(
        ok("led-on", &[CommandArg::Number(3), CommandArg::Number(0)]),
        (0x0a, vec![0xff, 0xff])
    );
    assert_eq!(
        ok("led-off", &[CommandArg::Number(2), CommandArg::Number(1)]),
        (0x0a, vec![0x01, 0x7f])
    );
    assert_eq!(ok("led-on", &[]), (0x0a, vec![0x7f, 0x7f]));
    assert!(matches!(
        command_payload("led-on", &[CommandArg::Number(300)]).unwrap_err(),
        CommandError::InvalidU8(300)
    ));
    assert_eq!(ok("led-bind", &[]), (0x1b, vec![1]));
}

#[test]
fn bind_and_info_commands() {
    assert_eq!(ok("buttons-bind", &[CommandArg::Number(4)]), (0x1a, vec![4]));
    assert_eq!(
        ok("all-buttons-bind", &[CommandArg::Number(2)]),
        (0x1a, vec![2, 2])
    );
    assert_eq!(ok("get-fw-id", &[]), (0x1d, vec![0]));
    assert_eq!(
        ok(
            "get-interface-stats",
            &[CommandArg::Number(1), CommandArg::Number(3)]
        ),
        (0x22, vec![1, 1])
    );
    assert_eq!(ok("handset-protocol", &[CommandArg::Number(2)]), (0x30, vec![2]));
}

#[test]
fn handset_and_xcp_commands() {
    assert_eq!(
        ok(
            "handset-command",
            &[
                CommandArg::Number(5),
                CommandArg::Number(1),
                CommandArg::Number(2),
                CommandArg::Bytes(vec![9, 9])
            ]
        ),
        (0x19, vec![5, 1, 2, 2, 9, 9])
    );
    assert_eq!(
        ok("handset-command", &[CommandArg::Number(5), CommandArg::Number(3)]),
        (0x19, vec![5, 1])
    );
    assert_eq!(
        ok(
            "xcp-command",
            &[
                CommandArg::Number(1),
                CommandArg::Bytes(vec![0xaa]),
                CommandArg::Number(4)
            ]
        ),
        (0x19, vec![2, 1, 7, 1, 0xaa])
    );
    assert_eq!(
        ok("xcp-group-heights", &[]),
        (
            0x19,
            vec![2, 0, 13, 8, 0xf4, 0x0a, 0x00, 0x02, 0x00, 0x45, 0x00, 0x00]
        )
    );
    assert_eq!(
        ok("xcp-init-group-count", &[]),
        (
            0x19,
            vec![2, 0, 4, 8, 0xf4, 0x01, 0x00, 0x02, 0x00, 0x6a, 0x00, 0x00]
        )
    );
    assert_eq!(
        ok("xcp-init-channel-map", &[]),
        (
            0x19,
            vec![2, 0, 13, 8, 0xf4, 0x0a, 0x00, 0x02, 0x00, 0x6d, 0x00, 0x00]
        )
    );
    assert_eq!(
        ok("xcp-init-calibration-records", &[]),
        (
            0x19,
            vec![2, 0, 19, 8, 0xf4, 0x10, 0x00, 0x02, 0x69, 0x00, 0x00, 0x00]
        )
    );
    assert!(matches!(
        command_payload("xcp-init-calibration-records", &[CommandArg::Number(40)]).unwrap_err(),
        CommandError::InvalidU8(258)
    ));
    assert_eq!(
        ok(
            "xcp-drive-to-group-raw",
            &[CommandArg::Number(3), CommandArg::Number(0x1234)]
        ),
        (
            0x19,
            vec![2, 0, 3, 8, 0xc7, 0x96, 0x5f, 0x03, 0x00, 0x12, 0x34, 0xec]
        )
    );
}

#[test]
fn ble_gadget_commands() {
    assert_eq!(
        ok("ble-set-name", &[CommandArg::Text("Desk".to_string())]),
        (0x11, vec![1, 7, 0x0e, b'D', b'e', b's', b'k'])
    );
    assert_eq!(
        ok("ble-set-key", &[CommandArg::Number(5)]),
        (0x11, vec![1, 9, 0x0e])
    );
    assert!(matches!(
        command_payload("ble-set-name", &[CommandArg::Text("x".repeat(17))]).unwrap_err(),
        CommandError::StringTooLong { max: 16 }
    ));
    assert_eq!(
        ok(
            "ble-gadget-read",
            &[CommandArg::Number(1), CommandArg::Number(2)]
        ),
        (0x11, vec![2, 1, 0x0e, 1, 0, 2, 0])
    );
    assert_eq!(
        ok(
            "ble-gadget-write",
            &[
                CommandArg::Number(1),
                CommandArg::Number(2),
                CommandArg::Bytes(vec![7, 8])
            ]
        ),
        (0x11, vec![2, 0, 0x0e, 1, 0, 2, 0, 2, 7, 8])
    );
}

#[test]
fn unknown_command_is_refused() {
    assert!(matches!(
        command_payload("bogus", &[]).unwrap_err(),
        CommandError::UnknownCommand(s) if s == "bogus"
    ));
}

#[test]
fn read_only_command_list() {
    let names = read_only_commands();
    assert_eq!(names.len(), 12);
    assert!(names.contains(&"get-height"));
    assert!(!names.contains(&"drive-up"));
}

#[test]
fn argument_of_wrong_kind_reads_as_absent() {
    let text = CommandArg::Text("x".to_string());
    let bytes = CommandArg::Bytes(vec![1, 2]);
    assert_eq!(ok("drive-up", &[text.clone()]), ok("drive-up", &[]));
    assert_eq!(ok("drive-up", &[bytes.clone()]), ok("drive-up", &[text.clone()]));
    assert_eq!(ok("ble-set-name", &[CommandArg::Number(5)]), ok("ble-set-name", &[]));
    assert_eq!(
        ok("handset-command", &[CommandArg::Number(1), CommandArg::Number(2), CommandArg::Number(3), text.clone()]),
        ok("handset-command", &[CommandArg::Number(1), CommandArg::Number(2), CommandArg::Number(3)])
    );
    assert_eq!(ok("get-height", &[text, bytes]), ok("get-height", &[]));
}
