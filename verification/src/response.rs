use vstd::prelude::*;

use crate::commands::{
    COMMAND_BLE_GADGET, COMMAND_BUTTONS_BIND, COMMAND_CONNECTION_INTERFACE, COMMAND_FIRMWARE_ID,
    COMMAND_HANDSET, COMMAND_HANDSET_PROTOCOL, COMMAND_HEIGHT, COMMAND_INTERFACE_STATS,
    COMMAND_LED, COMMAND_LED_BIND, COMMAND_OCCUPANCY, COMMAND_PORT_INPUT, COMMAND_SERIAL_NUMBER,
    COMMAND_TABLE_STATS,
};
use crate::text::{hex_encode, hex_lower};

verus! {

/// The fields of a response after its result byte, by kind.
#[derive(Debug, Clone)]
pub enum ResponseDetail {
    Height { height: u16, movement_counter: u32 },
    HeightOrMotionAck { data: String },
    Occupancy { occupied: bool, occupation_time: u32 },
    LedAck { data: String },
    ButtonsBindAck { data: String },
    LedBindAck { data: String },
    BleGadget { family: u8, operation: u8, selector: u8, data: String },
    BleGadgetAck { data: String },
    FirmwareId { version: u32, dirty: bool },
    SerialNumber { product: u16, variant: u16, serial: u64 },
    PortInput { count: usize, values: Vec<u16>, complete: bool },
    TableStats { at2: u32, at6: u32, at10: u32, at14: u32, at22: u32, data: String },
    InterfaceStats {
        status_byte_at2: u8,
        at3: u32,
        at39: u32,
        at43: u32,
        at47: u32,
        at51: u32,
        at55: u32,
        window_at7: String,
        window_at23: String,
        at59_low_nibble: u32,
        at61_high_nibble: u32,
        at63_low_nibble: u32,
        at65_high_nibble: u32,
        data: String,
    },
    ConnectionInterface { interface: u8 },
    HandsetProtocolAck { data: String },
    XcpWrapper {
        subcommand: u8,
        expected_wrapped_length: u8,
        marker: u8,
        marker_description: String,
        wrapped_length_matches: bool,
        xcp_data: String,
    },
    Other { data: String },
}

/// A parsed response payload.
#[derive(Debug, Clone)]
pub enum ParsedResponse {
    /// The payload was empty.
    NoResult,
    Result { result: u8, result_description: String, detail: ResponseDetail },
}

/// What a response detail holds.
pub enum DetailView {
    Height { height: u16, movement_counter: u32 },
    HeightOrMotionAck { data: Seq<char> },
    Occupancy { occupied: bool, occupation_time: u32 },
    LedAck { data: Seq<char> },
    ButtonsBindAck { data: Seq<char> },
    LedBindAck { data: Seq<char> },
    BleGadget { family: u8, operation: u8, selector: u8, data: Seq<char> },
    BleGadgetAck { data: Seq<char> },
    FirmwareId { version: u32, dirty: bool },
    SerialNumber { product: u16, variant: u16, serial: u64 },
    PortInput { count: usize, values: Seq<u16>, complete: bool },
    TableStats { at2: u32, at6: u32, at10: u32, at14: u32, at22: u32, data: Seq<char> },
    InterfaceStats {
        status_byte_at2: u8,
        at3: u32,
        at39: u32,
        at43: u32,
        at47: u32,
        at51: u32,
        at55: u32,
        window_at7: Seq<char>,
        window_at23: Seq<char>,
        at59_low_nibble: u32,
        at61_high_nibble: u32,
        at63_low_nibble: u32,
        at65_high_nibble: u32,
        data: Seq<char>,
    },
    ConnectionInterface { interface: u8 },
    HandsetProtocolAck { data: Seq<char> },
    XcpWrapper {
        subcommand: u8,
        expected_wrapped_length: u8,
        marker: u8,
        marker_description: Seq<char>,
        wrapped_length_matches: bool,
        xcp_data: Seq<char>,
    },
    Other { data: Seq<char> },
}

/// What a parsed response holds.
pub enum ParsedView {
    NoResult,
    Result { result: u8, result_description: Seq<char>, detail: DetailView },
}

impl View for ResponseDetail {
    type V = DetailView;

    open spec fn view(&self) -> DetailView {
        match self {
            ResponseDetail::Height { height, movement_counter } => DetailView::Height {
                height: *height,
                movement_counter: *movement_counter,
            },
            ResponseDetail::HeightOrMotionAck { data } => DetailView::HeightOrMotionAck {
                data: data@,
            },
            ResponseDetail::Occupancy { occupied, occupation_time } => DetailView::Occupancy {
                occupied: *occupied,
                occupation_time: *occupation_time,
            },
            ResponseDetail::LedAck { data } => DetailView::LedAck { data: data@ },
            ResponseDetail::ButtonsBindAck { data } => DetailView::ButtonsBindAck { data: data@ },
            ResponseDetail::LedBindAck { data } => DetailView::LedBindAck { data: data@ },
            ResponseDetail::BleGadget { family, operation, selector, data } => DetailView::BleGadget {
                family: *family,
                operation: *operation,
                selector: *selector,
                data: data@,
            },
            ResponseDetail::BleGadgetAck { data } => DetailView::BleGadgetAck { data: data@ },
            ResponseDetail::FirmwareId { version, dirty } => DetailView::FirmwareId {
                version: *version,
                dirty: *dirty,
            },
            ResponseDetail::SerialNumber { product, variant, serial } => DetailView::SerialNumber {
                product: *product,
                variant: *variant,
                serial: *serial,
            },
            ResponseDetail::PortInput { count, values, complete } => DetailView::PortInput {
                count: *count,
                values: values@,
                complete: *complete,
            },
            ResponseDetail::TableStats { at2, at6, at10, at14, at22, data } => DetailView::TableStats {
                at2: *at2,
                at6: *at6,
                at10: *at10,
                at14: *at14,
                at22: *at22,
                data: data@,
            },
            ResponseDetail::InterfaceStats {
                status_byte_at2,
                at3,
                at39,
                at43,
                at47,
                at51,
                at55,
                window_at7,
                window_at23,
                at59_low_nibble,
                at61_high_nibble,
                at63_low_nibble,
                at65_high_nibble,
                data,
            } => DetailView::InterfaceStats {
                status_byte_at2: *status_byte_at2,
                at3: *at3,
                at39: *at39,
                at43: *at43,
                at47: *at47,
                at51: *at51,
                at55: *at55,
                window_at7: window_at7@,
                window_at23: window_at23@,
                at59_low_nibble: *at59_low_nibble,
                at61_high_nibble: *at61_high_nibble,
                at63_low_nibble: *at63_low_nibble,
                at65_high_nibble: *at65_high_nibble,
                data: data@,
            },
            ResponseDetail::ConnectionInterface { interface } => DetailView::ConnectionInterface {
                interface: *interface,
            },
            ResponseDetail::HandsetProtocolAck { data } => DetailView::HandsetProtocolAck {
                data: data@,
            },
            ResponseDetail::XcpWrapper {
                subcommand,
                expected_wrapped_length,
                marker,
                marker_description,
                wrapped_length_matches,
                xcp_data,
            } => DetailView::XcpWrapper {
                subcommand: *subcommand,
                expected_wrapped_length: *expected_wrapped_length,
                marker: *marker,
                marker_description: marker_description@,
                wrapped_length_matches: *wrapped_length_matches,
                xcp_data: xcp_data@,
            },
            ResponseDetail::Other { data } => DetailView::Other { data: data@ },
        }
    }
}

impl View for ParsedResponse {
    type V = ParsedView;

    open spec fn view(&self) -> ParsedView {
        match self {
            ParsedResponse::NoResult => ParsedView::NoResult,
            ParsedResponse::Result { result, result_description, detail } => ParsedView::Result {
                result: *result,
                result_description: result_description@,
                detail: detail@,
            },
        }
    }
}

// ---------------------------------------------------------------------------
// Little-endian fields
// ---------------------------------------------------------------------------

pub open spec fn spec_u16_le(b: Seq<u8>, offset: int) -> u16 {
    (b[offset] as int + 256 * b[offset + 1] as int) as u16
}

pub open spec fn spec_u32_le(b: Seq<u8>, offset: int) -> u32 {
    (b[offset] as int + 256 * b[offset + 1] as int + 65536 * b[offset + 2] as int + 16777216
        * b[offset + 3] as int) as u32
}

pub open spec fn spec_u64_le(b: Seq<u8>, offset: int) -> u64 {
    (spec_u32_le(b, offset) as int + 4294967296 * spec_u32_le(b, offset + 4) as int) as u64
}

fn u16_le(bytes: &[u8], offset: usize) -> (v: u16)
    requires
        offset + 1 < bytes.len(),
    ensures
        v == spec_u16_le(bytes@, offset as int),
{
    bytes[offset] as u16 + 256 * bytes[offset + 1] as u16
}

fn u32_le(bytes: &[u8], offset: usize) -> (v: u32)
    requires
        offset + 3 < bytes.len(),
    ensures
        v == spec_u32_le(bytes@, offset as int),
{
    bytes[offset] as u32 + 256 * bytes[offset + 1] as u32 + 65536 * bytes[offset + 2] as u32
        + 16777216 * bytes[offset + 3] as u32
}

fn u64_le(bytes: &[u8], offset: usize) -> (v: u64)
    requires
        offset + 7 < bytes.len(),
    ensures
        v == spec_u64_le(bytes@, offset as int),
{
    u32_le(bytes, offset) as u64 + 4294967296 * u32_le(bytes, offset + 4) as u64
}

// ---------------------------------------------------------------------------
// Descriptions
// ---------------------------------------------------------------------------

/// The meaning of a result byte.
pub open spec fn spec_result_description(result: u8) -> Seq<char> {
    if result == 0x00 {
        "ok"@
    } else if result == 0x01 {
        "unknown-command"@
    } else if result == 0x02 {
        "unimplemented-command"@
    } else if result == 0x03 {
        "command-not-allowed"@
    } else if result == 0x04 {
        "invalid-command-length"@
    } else if result == 0x05 {
        "user-not-logged-in"@
    } else if result == 0x06 {
        "invalid-command-parameter"@
    } else if result == 0x07 {
        "user-profile-not-ready-or-login-invalid"@
    } else if result == 0x08 {
        "login-disabled"@
    } else if result == 0x09 {
        "service-unavailable"@
    } else if result == 0x0a {
        "firmware-hardware-incompatible"@
    } else {
        "unknown-result"@
    }
}

/// Names the result byte of a response.
pub fn result_description(result: u8) -> (s: &'static str)
    ensures
        s@ == spec_result_description(result),
{
    match result {
        0x00 => "ok",
        0x01 => "unknown-command",
        0x02 => "unimplemented-command",
        0x03 => "command-not-allowed",
        0x04 => "invalid-command-length",
        0x05 => "user-not-logged-in",
        0x06 => "invalid-command-parameter",
        0x07 => "user-profile-not-ready-or-login-invalid",
        0x08 => "login-disabled",
        0x09 => "service-unavailable",
        0x0a => "firmware-hardware-incompatible",
        _ => "unknown-result",
    }
}

/// The meaning of the marker byte of a wrapped XCP response.
pub open spec fn spec_marker_description(marker: u8) -> Seq<char> {
    if marker == 0xff {
        "xcp-response"@
    } else {
        "non-xcp-or-error"@
    }
}

// ---------------------------------------------------------------------------
// Parsing
// ---------------------------------------------------------------------------

/// The payload after its result byte, in hexadecimal.
pub open spec fn rest_hex(p: Seq<u8>) -> Seq<char> {
    hex_lower(p.subrange(1, p.len() as int))
}

/// The 16-bit values of a port-input response: as many of the announced count
/// as the payload holds whole.
pub open spec fn port_values(p: Seq<u8>) -> Seq<u16> {
    let count = p[1] as int;
    let available = (p.len() - 2) / 2;
    let kept = if count < available {
        count
    } else {
        available
    };
    Seq::new(kept as nat, |i: int| spec_u16_le(p, 2 + 2 * i))
}

/// A 20-bit counter: 16 low bits at `offset`, 4 high bits from a nibble.
pub open spec fn packed20(p: Seq<u8>, offset: int, nibble: u8) -> u32 {
    ((spec_u16_le(p, offset) as u32) | ((nibble as u32) << 16u32)) as u32
}

/// The fields of a non-empty response payload for the given command.
pub open spec fn spec_detail(command: u8, p: Seq<u8>) -> DetailView {
    let len = p.len();
    if command == COMMAND_HEIGHT && len >= 7 {
        DetailView::Height { height: spec_u16_le(p, 1), movement_counter: spec_u32_le(p, 3) }
    } else if command == COMMAND_HEIGHT {
        DetailView::HeightOrMotionAck { data: rest_hex(p) }
    } else if command == COMMAND_OCCUPANCY && len >= 6 {
        DetailView::Occupancy { occupied: p[1] != 0, occupation_time: spec_u32_le(p, 2) }
    } else if command == COMMAND_LED {
        DetailView::LedAck { data: rest_hex(p) }
    } else if command == COMMAND_BUTTONS_BIND {
        DetailView::ButtonsBindAck { data: rest_hex(p) }
    } else if command == COMMAND_LED_BIND {
        DetailView::LedBindAck { data: rest_hex(p) }
    } else if command == COMMAND_BLE_GADGET && len >= 4 {
        DetailView::BleGadget {
            family: p[1],
            operation: p[2],
            selector: p[3],
            data: hex_lower(p.subrange(4, len as int)),
        }
    } else if command == COMMAND_BLE_GADGET {
        DetailView::BleGadgetAck { data: rest_hex(p) }
    } else if command == COMMAND_FIRMWARE_ID && len >= 6 {
        DetailView::FirmwareId { version: spec_u32_le(p, 1), dirty: p[5] != 0 }
    } else if command == COMMAND_SERIAL_NUMBER && len == 13 {
        DetailView::SerialNumber {
            product: spec_u16_le(p, 1),
            variant: spec_u16_le(p, 3),
            serial: spec_u64_le(p, 5),
        }
    } else if command == COMMAND_PORT_INPUT && len >= 2 {
        DetailView::PortInput {
            count: p[1] as usize,
            values: port_values(p),
            complete: port_values(p).len() == p[1] as int,
        }
    } else if command == COMMAND_TABLE_STATS && len >= 26 {
        DetailView::TableStats {
            at2: spec_u32_le(p, 2),
            at6: spec_u32_le(p, 6),
            at10: spec_u32_le(p, 10),
            at14: spec_u32_le(p, 14),
            at22: spec_u32_le(p, 22),
            data: rest_hex(p),
        }
    } else if command == COMMAND_INTERFACE_STATS && len >= 69 {
        DetailView::InterfaceStats {
            status_byte_at2: p[2],
            at3: spec_u32_le(p, 3),
            at39: spec_u32_le(p, 39),
            at43: spec_u32_le(p, 43),
            at47: spec_u32_le(p, 47),
            at51: spec_u32_le(p, 51),
            at55: spec_u32_le(p, 55),
            window_at7: hex_lower(p.subrange(7, 23)),
            window_at23: hex_lower(p.subrange(23, 39)),
            at59_low_nibble: packed20(p, 59, p[67] & 0x0fu8),
            at61_high_nibble: packed20(p, 61, p[67] >> 4u8),
            at63_low_nibble: packed20(p, 63, p[68] & 0x0fu8),
            at65_high_nibble: packed20(p, 65, p[68] >> 4u8),
            data: rest_hex(p),
        }
    } else if command == COMMAND_CONNECTION_INTERFACE && len >= 2 {
        DetailView::ConnectionInterface { interface: p[1] }
    } else if command == COMMAND_HANDSET_PROTOCOL {
        DetailView::HandsetProtocolAck { data: rest_hex(p) }
    } else if command == COMMAND_HANDSET && len >= 4 {
        DetailView::XcpWrapper {
            subcommand: p[1],
            expected_wrapped_length: p[2],
            marker: p[3],
            marker_description: spec_marker_description(p[3]),
            wrapped_length_matches: len == p[2] as int + 1,
            xcp_data: hex_lower(p.subrange(4, len as int)),
        }
    } else {
        DetailView::Other { data: rest_hex(p) }
    }
}

/// A response payload: its result byte and what the command's response holds.
pub open spec fn spec_parse_response(command: u8, p: Seq<u8>) -> ParsedView {
    if p.len() == 0 {
        ParsedView::NoResult
    } else {
        ParsedView::Result {
            result: p[0],
            result_description: spec_result_description(p[0]),
            detail: spec_detail(command, p),
        }
    }
}

fn rest_hex_of(payload: &[u8], from: usize) -> (s: String)
    requires
        from <= payload.len(),
    ensures
        s@ == hex_lower(payload@.subrange(from as int, payload.len() as int)),
{
    hex_encode(&payload[from..payload.len()])
}

fn parse_port_input(payload: &[u8]) -> (d: ResponseDetail)
    requires
        payload.len() >= 2,
    ensures
        d@ == (DetailView::PortInput {
            count: payload@[1] as usize,
            values: port_values(payload@),
            complete: port_values(payload@).len() == payload@[1] as int,
        }),
{
    let count = payload[1] as usize;
    let mut values: Vec<u16> = Vec::new();
    let mut index: usize = 0;
    while index < count
        invariant
            count == payload@[1] as usize,
            payload.len() >= 2,
            index <= count,
            values@.len() == (if (index as int) < (payload.len() - 2) / 2 {
                index as int
            } else {
                (payload.len() - 2) / 2
            }),
            forall|i: int| 0 <= i < values@.len() ==> values@[i] == spec_u16_le(payload@, 2 + 2 * i),
        decreases count - index,
    {
        let offset = 2 + index * 2;
        if offset + 1 < payload.len() {
            values.push(u16_le(payload, offset));
        }
        index = index + 1;
    }
    let complete = values.len() == count;
    assert(values@ =~= port_values(payload@));
    ResponseDetail::PortInput { count, values, complete }
}

fn parse_interface_stats(payload: &[u8]) -> (d: ResponseDetail)
    requires
        payload.len() >= 69,
    ensures
        d@ == spec_detail(COMMAND_INTERFACE_STATS, payload@),
{
    let p = payload;
    ResponseDetail::InterfaceStats {
        status_byte_at2: p[2],
        at3: u32_le(p, 3),
        at39: u32_le(p, 39),
        at43: u32_le(p, 43),
        at47: u32_le(p, 47),
        at51: u32_le(p, 51),
        at55: u32_le(p, 55),
        window_at7: hex_encode(&p[7..23]),
        window_at23: hex_encode(&p[23..39]),
        at59_low_nibble: u16_le(p, 59) as u32 | (((p[67] & 0x0f) as u32) << 16u32),
        at61_high_nibble: u16_le(p, 61) as u32 | (((p[67] >> 4u8) as u32) << 16u32),
        at63_low_nibble: u16_le(p, 63) as u32 | (((p[68] & 0x0f) as u32) << 16u32),
        at65_high_nibble: u16_le(p, 65) as u32 | (((p[68] >> 4u8) as u32) << 16u32),
        data: rest_hex_of(p, 1),
    }
}

fn parse_detail(command: u8, payload: &[u8]) -> (d: ResponseDetail)
    requires
        payload.len() >= 1,
    ensures
        d@ == spec_detail(command, payload@),
{
    let len = payload.len();
    if command == COMMAND_HEIGHT && len >= 7 {
        ResponseDetail::Height {
            height: u16_le(payload, 1),
            movement_counter: u32_le(payload, 3),
        }
    } else if command == COMMAND_HEIGHT {
        ResponseDetail::HeightOrMotionAck { data: rest_hex_of(payload, 1) }
    } else if command == COMMAND_OCCUPANCY && len >= 6 {
        ResponseDetail::Occupancy {
            occupied: payload[1] != 0,
            occupation_time: u32_le(payload, 2),
        }
    } else if command == COMMAND_LED {
        ResponseDetail::LedAck { data: rest_hex_of(payload, 1) }
    } else if command == COMMAND_BUTTONS_BIND {
        ResponseDetail::ButtonsBindAck { data: rest_hex_of(payload, 1) }
    } else if command == COMMAND_LED_BIND {
        ResponseDetail::LedBindAck { data: rest_hex_of(payload, 1) }
    } else if command == COMMAND_BLE_GADGET && len >= 4 {
        ResponseDetail::BleGadget {
            family: payload[1],
            operation: payload[2],
            selector: payload[3],
            data: rest_hex_of(payload, 4),
        }
    } else if command == COMMAND_BLE_GADGET {
        ResponseDetail::BleGadgetAck { data: rest_hex_of(payload, 1) }
    } else if command == COMMAND_FIRMWARE_ID && len >= 6 {
        ResponseDetail::FirmwareId { version: u32_le(payload, 1), dirty: payload[5] != 0 }
    } else if command == COMMAND_SERIAL_NUMBER && len == 13 {
        ResponseDetail::SerialNumber {
            product: u16_le(payload, 1),
            variant: u16_le(payload, 3),
            serial: u64_le(payload, 5),
        }
    } else if command == COMMAND_PORT_INPUT && len >= 2 {
        parse_port_input(payload)
    } else if command == COMMAND_TABLE_STATS && len >= 26 {
        ResponseDetail::TableStats {
            at2: u32_le(payload, 2),
            at6: u32_le(payload, 6),
            at10: u32_le(payload, 10),
            at14: u32_le(payload, 14),
            at22: u32_le(payload, 22),
            data: rest_hex_of(payload, 1),
        }
    } else if command == COMMAND_INTERFACE_STATS && len >= 69 {
        parse_interface_stats(payload)
    } else if command == COMMAND_CONNECTION_INTERFACE && len >= 2 {
        ResponseDetail::ConnectionInterface { interface: payload[1] }
    } else if command == COMMAND_HANDSET_PROTOCOL {
        ResponseDetail::HandsetProtocolAck { data: rest_hex_of(payload, 1) }
    } else if command == COMMAND_HANDSET && len >= 4 {
        let expected_wrapped_length = payload[2];
        let marker_description = if payload[3] == 0xff {
            String::from_str("xcp-response")
        } else {
            String::from_str("non-xcp-or-error")
        };
        ResponseDetail::XcpWrapper {
            subcommand: payload[1],
            expected_wrapped_length,
            marker: payload[3],
            marker_description,
            wrapped_length_matches: len == expected_wrapped_length as usize + 1,
            xcp_data: rest_hex_of(payload, 4),
        }
    } else {
        ResponseDetail::Other { data: rest_hex_of(payload, 1) }
    }
}

/// Parses a response payload: the result byte, its meaning, and the fields of
/// the command's response when the payload is long enough for them.
pub fn parse_response(command: u8, payload: &[u8]) -> (r: ParsedResponse)
    ensures
        r@ == spec_parse_response(command, payload@),
{
    if payload.len() == 0 {
        return ParsedResponse::NoResult;
    }
    let result = payload[0];
    ParsedResponse::Result {
        result,
        result_description: String::from_str(result_description(result)),
        detail: parse_detail(command, payload),
    }
}


impl ResponseDetail {
    /// A copy with the same contents.
    pub fn duplicate(&self) -> (c: ResponseDetail)
        ensures
            c@ == self@,
    {
        match self {
            ResponseDetail::Height { height, movement_counter } => ResponseDetail::Height {
                height: *height,
                movement_counter: *movement_counter,
            },
            ResponseDetail::HeightOrMotionAck { data } => ResponseDetail::HeightOrMotionAck {
                data: data.clone(),
            },
            ResponseDetail::Occupancy { occupied, occupation_time } => ResponseDetail::Occupancy {
                occupied: *occupied,
                occupation_time: *occupation_time,
            },
            ResponseDetail::LedAck { data } => ResponseDetail::LedAck { data: data.clone() },
            ResponseDetail::ButtonsBindAck { data } => ResponseDetail::ButtonsBindAck {
                data: data.clone(),
            },
            ResponseDetail::LedBindAck { data } => ResponseDetail::LedBindAck { data: data.clone() },
            ResponseDetail::BleGadget { family, operation, selector, data } => ResponseDetail::BleGadget {
                family: *family,
                operation: *operation,
                selector: *selector,
                data: data.clone(),
            },
            ResponseDetail::BleGadgetAck { data } => ResponseDetail::BleGadgetAck {
                data: data.clone(),
            },
            ResponseDetail::FirmwareId { version, dirty } => ResponseDetail::FirmwareId {
                version: *version,
                dirty: *dirty,
            },
            ResponseDetail::SerialNumber { product, variant, serial } => ResponseDetail::SerialNumber {
                product: *product,
                variant: *variant,
                serial: *serial,
            },
            ResponseDetail::PortInput { count, values, complete } => ResponseDetail::PortInput {
                count: *count,
                values: vstd::slice::slice_to_vec(values.as_slice()),
                complete: *complete,
            },
            ResponseDetail::TableStats { at2, at6, at10, at14, at22, data } => ResponseDetail::TableStats {
                at2: *at2,
                at6: *at6,
                at10: *at10,
                at14: *at14,
                at22: *at22,
                data: data.clone(),
            },
            ResponseDetail::InterfaceStats {
                status_byte_at2,
                at3,
                at39,
                at43,
                at47,
                at51,
                at55,
                window_at7,
                window_at23,
                at59_low_nibble,
                at61_high_nibble,
                at63_low_nibble,
                at65_high_nibble,
                data,
            } => ResponseDetail::InterfaceStats {
                status_byte_at2: *status_byte_at2,
                at3: *at3,
                at39: *at39,
                at43: *at43,
                at47: *at47,
                at51: *at51,
                at55: *at55,
                window_at7: window_at7.clone(),
                window_at23: window_at23.clone(),
                at59_low_nibble: *at59_low_nibble,
                at61_high_nibble: *at61_high_nibble,
                at63_low_nibble: *at63_low_nibble,
                at65_high_nibble: *at65_high_nibble,
                data: data.clone(),
            },
            ResponseDetail::ConnectionInterface { interface } => ResponseDetail::ConnectionInterface {
                interface: *interface,
            },
            ResponseDetail::HandsetProtocolAck { data } => ResponseDetail::HandsetProtocolAck {
                data: data.clone(),
            },
            ResponseDetail::XcpWrapper {
                subcommand,
                expected_wrapped_length,
                marker,
                marker_description,
                wrapped_length_matches,
                xcp_data,
            } => ResponseDetail::XcpWrapper {
                subcommand: *subcommand,
                expected_wrapped_length: *expected_wrapped_length,
                marker: *marker,
                marker_description: marker_description.clone(),
                wrapped_length_matches: *wrapped_length_matches,
                xcp_data: xcp_data.clone(),
            },
            ResponseDetail::Other { data } => ResponseDetail::Other { data: data.clone() },
        }
    }
}

impl ParsedResponse {
    /// A copy with the same contents.
    pub fn duplicate(&self) -> (c: ParsedResponse)
        ensures
            c@ == self@,
    {
        match self {
            ParsedResponse::NoResult => ParsedResponse::NoResult,
            ParsedResponse::Result { result, result_description, detail } => ParsedResponse::Result {
                result: *result,
                result_description: result_description.clone(),
                detail: detail.duplicate(),
            },
        }
    }

    /// The movement counter that a height response reports.
    pub fn movement_counter(&self) -> (c: Option<u32>)
        ensures
            c == (match self@ {
                ParsedView::Result { detail: DetailView::Height { movement_counter, .. }, .. } => Some(
                    movement_counter,
                ),
                _ => None,
            }),
    {
        match self {
            ParsedResponse::Result { detail: ResponseDetail::Height { movement_counter, .. }, .. } => Some(
                *movement_counter,
            ),
            _ => None,
        }
    }

    /// The height that a height response reports.
    pub fn height(&self) -> (h: Option<u16>)
        ensures
            h == (match self@ {
                ParsedView::Result { detail: DetailView::Height { height, .. }, .. } => Some(height),
                _ => None,
            }),
    {
        match self {
            ParsedResponse::Result { detail: ResponseDetail::Height { height, .. }, .. } => Some(
                *height,
            ),
            _ => None,
        }
    }
}

// ---------------------------------------------------------------------------
// Laws of response parsing
// ---------------------------------------------------------------------------

/// The unsigned little-endian value of the `k` bytes at `offset`.
pub open spec fn le_value(p: Seq<u8>, offset: int, k: nat) -> int
    decreases k,
{
    if k == 0 {
        0
    } else {
        p[offset] as int + 256 * le_value(p, offset + 1, (k - 1) as nat)
    }
}

proof fn lemma_le_values(p: Seq<u8>, o: int)
    ensures
        spec_u16_le(p, o) as int == le_value(p, o, 2),
        spec_u32_le(p, o) as int == le_value(p, o, 4),
        spec_u64_le(p, o) as int == le_value(p, o, 8),
{
    reveal_with_fuel(le_value, 9);
    assert(le_value(p, o + 4, 4) == p[o + 4] as int + 256 * p[o + 5] as int + 65536 * p[o + 6] as int
        + 16777216 * p[o + 7] as int);
}

proof fn lemma_packed20(p: Seq<u8>, o: int, nibble: u8)
    requires
        nibble < 16,
    ensures
        packed20(p, o, nibble) as int == le_value(p, o, 2) + 65536 * nibble as int,
{
    lemma_le_values(p, o);
    let x = spec_u16_le(p, o);
    assert(((x as u32) | ((nibble as u32) << 16u32)) as u32 == (x as u32) + 65536 * (nibble as u32))
        by (bit_vector)
        requires
            nibble < 16,
    ;
}

proof fn lemma_nibbles(b: u8)
    ensures
        (b & 0x0fu8) as int == b as int % 16,
        (b >> 4u8) as int == b as int / 16,
        b & 0x0fu8 < 16,
        b >> 4u8 < 16,
{
    assert((b & 0x0fu8) as int == b as int % 16 && (b >> 4u8) as int == b as int / 16 && b
        & 0x0fu8 < 16 && b >> 4u8 < 16) by (bit_vector);
}

/// What a response payload says, field by field, for the commands whose
/// responses carry numbers: an empty payload has no result; otherwise byte 0
/// is the result, and each number is the little-endian value of its bytes
/// (height: bytes 1-2 and counter 3-6; occupancy: flag 1, time 2-5; firmware:
/// version 1-4, dirty flag 5; serial: product 1-2, variant 3-4, serial 5-12;
/// port input: the announced count and as many 16-bit values from byte 2 as
/// the payload holds; statistics counters at their offsets, the 20-bit ones
/// with a nibble of byte 67 or 68 on top; the handset wrapper's bytes 1-3).
pub proof fn lemma_response_fields(p: Seq<u8>)
    ensures
        p.len() == 0 ==> forall|c: u8| spec_parse_response(c, p) == ParsedView::NoResult,
        p.len() > 0 ==> forall|c: u8| #![trigger spec_parse_response(c, p)]
            spec_parse_response(c, p) matches ParsedView::Result { result, .. } && result == p[0],
        p.len() >= 7 ==> (spec_parse_response(0x08u8, p) matches ParsedView::Result {
            detail: DetailView::Height { height, movement_counter },
            ..
        } && height as int == le_value(p, 1, 2) && movement_counter as int == le_value(p, 3, 4)),
        p.len() >= 6 ==> (spec_parse_response(0x09u8, p) matches ParsedView::Result {
            detail: DetailView::Occupancy { occupied, occupation_time },
            ..
        } && occupied == (p[1] != 0) && occupation_time as int == le_value(p, 2, 4)),
        p.len() >= 4 ==> (spec_parse_response(0x11u8, p) matches ParsedView::Result {
            detail: DetailView::BleGadget { family, operation, selector, .. },
            ..
        } && family == p[1] && operation == p[2] && selector == p[3]),
        p.len() >= 6 ==> (spec_parse_response(0x1du8, p) matches ParsedView::Result {
            detail: DetailView::FirmwareId { version, dirty },
            ..
        } && version as int == le_value(p, 1, 4) && dirty == (p[5] != 0)),
        p.len() == 13 ==> (spec_parse_response(0x1cu8, p) matches ParsedView::Result {
            detail: DetailView::SerialNumber { product, variant, serial },
            ..
        } && product as int == le_value(p, 1, 2) && variant as int == le_value(p, 3, 2)
            && serial as int == le_value(p, 5, 8)),
        p.len() >= 2 ==> (spec_parse_response(0x27u8, p) matches ParsedView::Result {
            detail: DetailView::PortInput { count, values, complete },
            ..
        } && count == p[1] as usize && values.len() == (if p[1] as int <= (p.len() - 2) / 2 {
            p[1] as int
        } else {
            (p.len() - 2) / 2
        }) && (forall|i: int| 0 <= i < values.len() ==> #[trigger] values[i] as int == le_value(
            p,
            2 + 2 * i,
            2,
        )) && complete == (values.len() == p[1] as int)),
        p.len() >= 26 ==> (spec_parse_response(0x21u8, p) matches ParsedView::Result {
            detail: DetailView::TableStats { at2, at6, at10, at14, at22, .. },
            ..
        } && at2 as int == le_value(p, 2, 4) && at6 as int == le_value(p, 6, 4) && at10 as int
            == le_value(p, 10, 4) && at14 as int == le_value(p, 14, 4) && at22 as int == le_value(
            p,
            22,
            4,
        )),
        p.len() >= 69 ==> (spec_parse_response(0x22u8, p) matches ParsedView::Result {
            detail: DetailView::InterfaceStats {
                status_byte_at2,
                at3,
                at39,
                at43,
                at47,
                at51,
                at55,
                at59_low_nibble,
                at61_high_nibble,
                at63_low_nibble,
                at65_high_nibble,
                ..
            },
            ..
        } && status_byte_at2 == p[2] && at3 as int == le_value(p, 3, 4) && at39 as int == le_value(
            p,
            39,
            4,
        ) && at43 as int == le_value(p, 43, 4) && at47 as int == le_value(p, 47, 4) && at51 as int
            == le_value(p, 51, 4) && at55 as int == le_value(p, 55, 4) && at59_low_nibble as int
            == le_value(p, 59, 2) + 65536 * (p[67] as int % 16) && at61_high_nibble as int
            == le_value(p, 61, 2) + 65536 * (p[67] as int / 16) && at63_low_nibble as int
            == le_value(p, 63, 2) + 65536 * (p[68] as int % 16) && at65_high_nibble as int
            == le_value(p, 65, 2) + 65536 * (p[68] as int / 16)),
        p.len() >= 2 ==> (spec_parse_response(0x2bu8, p) matches ParsedView::Result {
            detail: DetailView::ConnectionInterface { interface },
            ..
        } && interface == p[1]),
        p.len() >= 4 ==> (spec_parse_response(0x19u8, p) matches ParsedView::Result {
            detail: DetailView::XcpWrapper {
                subcommand,
                expected_wrapped_length,
                marker,
                wrapped_length_matches,
                ..
            },
            ..
        } && subcommand == p[1] && expected_wrapped_length == p[2] && marker == p[3]
            && wrapped_length_matches == (p.len() == p[2] as int + 1)),
{
    lemma_le_values(p, 1);
    lemma_le_values(p, 2);
    lemma_le_values(p, 3);
    lemma_le_values(p, 5);
    lemma_le_values(p, 6);
    lemma_le_values(p, 10);
    lemma_le_values(p, 14);
    lemma_le_values(p, 22);
    lemma_le_values(p, 39);
    lemma_le_values(p, 43);
    lemma_le_values(p, 47);
    lemma_le_values(p, 51);
    lemma_le_values(p, 55);
    if p.len() >= 69 {
        lemma_nibbles(p[67]);
        lemma_nibbles(p[68]);
        lemma_packed20(p, 59, p[67] & 0x0fu8);
        lemma_packed20(p, 61, p[67] >> 4u8);
        lemma_packed20(p, 63, p[68] & 0x0fu8);
        lemma_packed20(p, 65, p[68] >> 4u8);
    }
    if p.len() >= 2 {
        let vs = port_values(p);
        assert forall|i: int| 0 <= i < vs.len() implies #[trigger] vs[i] as int == le_value(
            p,
            2 + 2 * i,
            2,
        ) by {
            lemma_le_values(p, 2 + 2 * i);
        }
    }
}

} // verus!
