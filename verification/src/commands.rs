use vstd::prelude::*;

use crate::text::str_eq;

verus! {

pub const COMMAND_HEIGHT: u8 = 0x08;
pub const COMMAND_OCCUPANCY: u8 = 0x09;
pub const COMMAND_LED: u8 = 0x0a;
pub const COMMAND_BLE_GADGET: u8 = 0x11;
pub const COMMAND_HANDSET: u8 = 0x19;
pub const COMMAND_BUTTONS_BIND: u8 = 0x1a;
pub const COMMAND_LED_BIND: u8 = 0x1b;
pub const COMMAND_SERIAL_NUMBER: u8 = 0x1c;
pub const COMMAND_FIRMWARE_ID: u8 = 0x1d;
pub const COMMAND_TABLE_STATS: u8 = 0x21;
pub const COMMAND_INTERFACE_STATS: u8 = 0x22;
pub const COMMAND_PORT_INPUT: u8 = 0x27;
pub const COMMAND_CONNECTION_INTERFACE: u8 = 0x2b;
pub const COMMAND_HANDSET_PROTOCOL: u8 = 0x30;

/// An argument of a named command.
#[derive(Debug, Clone)]
pub enum CommandArg {
    Number(u64),
    Text(String),
    Bytes(Vec<u8>),
}

/// What an argument holds.
pub enum ArgView {
    Number(u64),
    Text(Seq<char>),
    Bytes(Seq<u8>),
}

impl View for CommandArg {
    type V = ArgView;

    open spec fn view(&self) -> ArgView {
        match self {
            CommandArg::Number(n) => ArgView::Number(*n),
            CommandArg::Text(t) => ArgView::Text(t@),
            CommandArg::Bytes(b) => ArgView::Bytes(b@),
        }
    }
}

/// The arguments as values.
pub open spec fn args_view(args: Seq<CommandArg>) -> Seq<ArgView> {
    args.map_values(|a: CommandArg| a@)
}

/// Errors of command encoding.
#[derive(Debug, Clone, PartialEq, Eq)]
pub enum CommandError {
    UnknownCommand(String),
    MissingNumber(String),
    InvalidU8(u64),
    InvalidU16(u64),
    StringTooLong { max: usize },
}

/// What an error holds.
pub enum CommandErrorView {
    UnknownCommand(Seq<char>),
    MissingNumber(Seq<char>),
    InvalidU8(u64),
    InvalidU16(u64),
    StringTooLong { max: usize },
}

impl View for CommandError {
    type V = CommandErrorView;

    open spec fn view(&self) -> CommandErrorView {
        match self {
            CommandError::UnknownCommand(s) => CommandErrorView::UnknownCommand(s@),
            CommandError::MissingNumber(s) => CommandErrorView::MissingNumber(s@),
            CommandError::InvalidU8(v) => CommandErrorView::InvalidU8(*v),
            CommandError::InvalidU16(v) => CommandErrorView::InvalidU16(*v),
            CommandError::StringTooLong { max } => CommandErrorView::StringTooLong { max: *max },
        }
    }
}

/// A result of encoding, as values.
pub open spec fn bytes_result_view(r: Result<Vec<u8>, CommandError>) -> Result<
    Seq<u8>,
    CommandErrorView,
> {
    match r {
        Ok(v) => Ok(v@),
        Err(e) => Err(e@),
    }
}

/// A result of `command_payload`, as values.
pub open spec fn payload_result_view(r: Result<(u8, Vec<u8>), CommandError>) -> Result<
    (u8, Seq<u8>),
    CommandErrorView,
> {
    match r {
        Ok((c, v)) => Ok((c, v@)),
        Err(e) => Err(e@),
    }
}

// ---------------------------------------------------------------------------
// Argument access and range checks
// ---------------------------------------------------------------------------

/// The number at `index`, if that argument is a number.
pub open spec fn spec_number(args: Seq<ArgView>, index: int) -> Option<u64> {
    if 0 <= index < args.len() {
        match args[index] {
            ArgView::Number(n) => Some(n),
            _ => None,
        }
    } else {
        None
    }
}

/// The number at `index`, or `default`.
pub open spec fn number_or(args: Seq<ArgView>, index: int, default: u64) -> u64 {
    match spec_number(args, index) {
        Some(n) => n,
        None => default,
    }
}

/// The bytes at `index`, if that argument is bytes.
pub open spec fn spec_bytes(args: Seq<ArgView>, index: int) -> Option<Seq<u8>> {
    if 0 <= index < args.len() {
        match args[index] {
            ArgView::Bytes(b) => Some(b),
            _ => None,
        }
    } else {
        None
    }
}

/// The bytes at `index`, or none.
pub open spec fn bytes_or_empty(args: Seq<ArgView>, index: int) -> Seq<u8> {
    match spec_bytes(args, index) {
        Some(b) => b,
        None => Seq::empty(),
    }
}

pub open spec fn spec_u8_value(value: u64) -> Result<u8, CommandErrorView> {
    if value <= 0xff {
        Ok(value as u8)
    } else {
        Err(CommandErrorView::InvalidU8(value))
    }
}

/// The little-endian bytes of a value that fits in 16 bits.
pub open spec fn spec_u16le(value: u64) -> Result<Seq<u8>, CommandErrorView> {
    if value <= 0xffff {
        Ok(seq![(value % 256) as u8, (value / 256) as u8])
    } else {
        Err(CommandErrorView::InvalidU16(value))
    }
}

fn number(args: &[CommandArg], index: usize) -> (r: Option<u64>)
    ensures
        r == spec_number(args_view(args@), index as int),
{
    if index < args.len() {
        match &args[index] {
            CommandArg::Number(value) => Some(*value),
            _ => None,
        }
    } else {
        None
    }
}

fn number_or_default(args: &[CommandArg], index: usize, default: u64) -> (r: u64)
    ensures
        r == number_or(args_view(args@), index as int, default),
{
    match number(args, index) {
        Some(n) => n,
        None => default,
    }
}

fn bytes(args: &[CommandArg], index: usize) -> (r: Option<Vec<u8>>)
    ensures
        match r {
            Some(v) => spec_bytes(args_view(args@), index as int) == Some(v@),
            None => spec_bytes(args_view(args@), index as int) is None,
        },
{
    if index < args.len() {
        match &args[index] {
            CommandArg::Bytes(value) => Some(value.clone()),
            _ => None,
        }
    } else {
        None
    }
}

fn bytes_or_default(args: &[CommandArg], index: usize) -> (r: Vec<u8>)
    ensures
        r@ == bytes_or_empty(args_view(args@), index as int),
{
    match bytes(args, index) {
        Some(v) => v,
        None => Vec::new(),
    }
}

fn u8_value(value: u64) -> (r: Result<u8, CommandError>)
    ensures
        match r {
            Ok(b) => spec_u8_value(value) == Ok::<u8, CommandErrorView>(b),
            Err(e) => spec_u8_value(value) == Err::<u8, CommandErrorView>(e@),
        },
{
    if value <= 0xff {
        Ok(value as u8)
    } else {
        Err(CommandError::InvalidU8(value))
    }
}

fn u16le(value: u64) -> (r: Result<[u8; 2], CommandError>)
    ensures
        match r {
            Ok(b) => spec_u16le(value) == Ok::<Seq<u8>, CommandErrorView>(b@),
            Err(e) => spec_u16le(value) == Err::<Seq<u8>, CommandErrorView>(e@),
        },
{
    if value <= 0xffff {
        let out: [u8; 2] = [(value % 256) as u8, (value / 256) as u8];
        assert(out@ =~= seq![(value % 256) as u8, (value / 256) as u8]);
        Ok(out)
    } else {
        Err(CommandError::InvalidU16(value))
    }
}

/// Appends `chunk` to `out`.
fn append_bytes(out: &mut Vec<u8>, chunk: &[u8])
    ensures
        final(out)@ == old(out)@ + chunk@,
{
    let mut i: usize = 0;
    while i < chunk.len()
        invariant
            i <= chunk.len(),
            out@ == old(out)@ + chunk@.take(i as int),
        decreases chunk.len() - i,
    {
        out.push(chunk[i]);
        i = i + 1;
        proof {
            assert(old(out)@ + chunk@.take(i as int) =~= (old(out)@ + chunk@.take(i - 1)).push(
                chunk@[i - 1],
            ));
        }
    }
    assert(chunk@.take(chunk.len() as int) =~= chunk@);
}

/// The chunks one after another.
pub open spec fn concat_chunks(chunks: Seq<Seq<u8>>) -> Seq<u8>
    decreases chunks.len(),
{
    if chunks.len() == 0 {
        Seq::empty()
    } else {
        concat_chunks(chunks.drop_last()) + chunks.last()
    }
}

proof fn lemma_concat_chunks(chunks: Seq<Seq<u8>>)
    ensures
        chunks.len() == 1 ==> concat_chunks(chunks) == chunks[0],
        chunks.len() == 2 ==> concat_chunks(chunks) == chunks[0] + chunks[1],
        chunks.len() == 3 ==> concat_chunks(chunks) == chunks[0] + chunks[1] + chunks[2],
        chunks.len() == 4 ==> concat_chunks(chunks) == chunks[0] + chunks[1] + chunks[2]
            + chunks[3],
        chunks.len() == 5 ==> concat_chunks(chunks) == chunks[0] + chunks[1] + chunks[2]
            + chunks[3] + chunks[4],
    decreases chunks.len(),
{
    if chunks.len() > 0 {
        let prev = chunks.drop_last();
        lemma_concat_chunks(prev);
        if chunks.len() == 1 {
            assert(concat_chunks(prev) =~= Seq::<u8>::empty());
            assert(concat_chunks(chunks) =~= chunks[0]);
        }
    }
}

/// Writes the byte chunks one after another.
fn concat_bytes(chunks: &[&[u8]]) -> (out: Vec<u8>)
    ensures
        out@ == concat_chunks(chunks@.map_values(|c: &[u8]| c@)),
{
    let ghost views = chunks@.map_values(|c: &[u8]| c@);
    let mut out: Vec<u8> = Vec::new();
    let mut i: usize = 0;
    while i < chunks.len()
        invariant
            i <= chunks.len(),
            views == chunks@.map_values(|c: &[u8]| c@),
            out@ == concat_chunks(views.take(i as int)),
        decreases chunks.len() - i,
    {
        append_bytes(&mut out, chunks[i]);
        proof {
            assert(views.take(i + 1).drop_last() =~= views.take(i as int));
        }
        i = i + 1;
    }
    assert(views.take(chunks.len() as int) =~= views);
    out
}

// ---------------------------------------------------------------------------
// Payload builders
// ---------------------------------------------------------------------------

/// The LED byte for an on or off request, with or without the mode flag.
pub open spec fn led_byte(on: bool, mode_enabled: bool) -> u8 {
    if on {
        if mode_enabled {
            0xfeu8
        } else {
            0xffu8
        }
    } else if mode_enabled {
        0x01u8
    } else {
        0x00u8
    }
}

/// The LED payload: two bytes, `0x7f` (unchanged) unless bit 1 (first byte) or
/// bit 0 (second byte) of the mask selects the LED.
pub open spec fn spec_led_payload(mask: u64, mode: u64, on: bool) -> Result<
    Seq<u8>,
    CommandErrorView,
> {
    match spec_u8_value(mask) {
        Err(e) => Err(e),
        Ok(selected) => match spec_u8_value(mode) {
            Err(e) => Err(e),
            Ok(m) => {
                let v = led_byte(on, m != 0);
                Ok(
                    seq![
                        if selected & 0x02u8 != 0 { v } else { 0x7fu8 },
                        if selected & 0x01u8 != 0 { v } else { 0x7fu8 },
                    ],
                )
            },
        },
    }
}

fn led_payload(mask: u64, mode: u64, on: bool) -> (r: Result<Vec<u8>, CommandError>)
    ensures
        bytes_result_view(r) == spec_led_payload(mask, mode, on),
{
    let selected = u8_value(mask)?;
    let mode_enabled = u8_value(mode)? != 0;
    let mut payload: Vec<u8> = vec![0x7f, 0x7f];
    if selected & 0x02 != 0 {
        let v = if on {
            if mode_enabled {
                0xfe
            } else {
                0xff
            }
        } else if mode_enabled {
            0x01
        } else {
            0x00
        };
        payload.set(0, v);
    }
    if selected & 0x01 != 0 {
        let v = if on {
            if mode_enabled {
                0xfe
            } else {
                0xff
            }
        } else if mode_enabled {
            0x01
        } else {
            0x00
        };
        payload.set(1, v);
    }
    assert(payload@ =~= spec_led_payload(mask, mode, on)->Ok_0);
    Ok(payload)
}

/// The text at `index`, or empty if that argument is not text.
pub open spec fn text_or_empty(args: Seq<ArgView>, index: int) -> Seq<char> {
    if 0 <= index < args.len() {
        match args[index] {
            ArgView::Text(t) => t,
            _ => Seq::empty(),
        }
    } else {
        Seq::empty()
    }
}

/// The UTF-8 bytes of the text argument at `index` (empty if it is not text),
/// refused when longer than `max`.
pub open spec fn spec_ascii_arg(args: Seq<ArgView>, index: int, max: usize) -> Result<
    Seq<u8>,
    CommandErrorView,
> {
    let bytes = vstd::utf8::encode_utf8(text_or_empty(args, index));
    if bytes.len() > max {
        Err(CommandErrorView::StringTooLong { max })
    } else {
        Ok(bytes)
    }
}

fn ascii_arg(args: &[CommandArg], index: usize, max: usize) -> (r: Result<Vec<u8>, CommandError>)
    ensures
        bytes_result_view(r) == spec_ascii_arg(args_view(args@), index as int, max),
{
    let text: &str = if index < args.len() {
        match &args[index] {
            CommandArg::Text(value) => value.as_str(),
            _ => "",
        }
    } else {
        ""
    };
    proof {
        reveal_strlit("");
        assert(""@ =~= Seq::<char>::empty());
    }
    let bytes = vstd::slice::slice_to_vec(text.as_bytes());
    if bytes.len() > max {
        return Err(CommandError::StringTooLong { max });
    }
    Ok(bytes)
}

/// The handset wrapper for an XCP request: marker `0x02`, the relaxed flag,
/// the expected response length plus three, the request length, the request.
pub open spec fn spec_xcp_wrapper(request: Seq<u8>, response_bytes: u64, relaxed: u64) -> Result<
    Seq<u8>,
    CommandErrorView,
> {
    match spec_u8_value(relaxed) {
        Err(e) => Err(e),
        Ok(r) => match spec_u8_value((response_bytes + 3) as u64) {
            Err(e) => Err(e),
            Ok(l) => match spec_u8_value(request.len() as u64) {
                Err(e) => Err(e),
                Ok(n) => Ok(seq![0x02u8, r & 0x01u8, l, n] + request),
            },
        },
    }
}

/// The inputs on which the wrapper's length arithmetic does not overflow.
pub open spec fn xcp_wrapper_ok(response_bytes: u64, relaxed: u64) -> bool {
    relaxed <= 0xff ==> response_bytes + 3 <= u64::MAX
}

fn xcp_wrapper(request: &[u8], response_bytes: u64, relaxed: u64) -> (r: Result<
    Vec<u8>,
    CommandError,
>)
    requires
        xcp_wrapper_ok(response_bytes, relaxed),
    ensures
        bytes_result_view(r) == spec_xcp_wrapper(request@, response_bytes, relaxed),
{
    let r = u8_value(relaxed)? & 0x01;
    let l = u8_value(response_bytes + 3)?;
    let n = u8_value(request.len() as u64)?;
    let head: [u8; 4] = [0x02, r, l, n];
    let chunks: [&[u8]; 2] = [head.as_slice(), request];
    let out = concat_bytes(chunks.as_slice());
    proof {
        let views = chunks@.map_values(|c: &[u8]| c@);
        assert(views =~= seq![head@, request@]);
        lemma_concat_chunks(views);
        assert(head@ =~= seq![0x02u8, r, l, n]);
    }
    Ok(out)
}

/// The raw drive-to-group XCP request: a fixed prefix, the group, a zero, the
/// pulse count high byte then low byte, and a checksum.
pub open spec fn spec_xcp_drive_to_group_raw(group: u64, pulses: u64) -> Result<
    Seq<u8>,
    CommandErrorView,
> {
    match spec_u8_value(group) {
        Err(e) => Err(e),
        Ok(g) => match spec_u16le(pulses) {
            Err(e) => Err(e),
            Ok(p) => Ok(seq![0xc7u8, 0x96u8, 0x5fu8, g, 0x00u8, p[1], p[0], g ^ p[1] ^ p[0] ^ 0xc9u8]),
        },
    }
}

fn xcp_drive_to_group_raw(group: u64, pulses: u64) -> (r: Result<Vec<u8>, CommandError>)
    ensures
        bytes_result_view(r) == spec_xcp_drive_to_group_raw(group, pulses),
{
    let g = u8_value(group)?;
    let p = u16le(pulses)?;
    let pulse_low = p[0];
    let pulse_high = p[1];
    let checksum = g ^ pulse_high ^ pulse_low ^ 0xc9;
    let out = vec![0xc7, 0x96, 0x5f, g, 0x00, pulse_high, pulse_low, checksum];
    assert(out@ =~= spec_xcp_drive_to_group_raw(group, pulses)->Ok_0);
    Ok(out)
}


// ---------------------------------------------------------------------------
// Named commands
// ---------------------------------------------------------------------------

pub open spec fn with_command(command: u8, r: Result<Seq<u8>, CommandErrorView>) -> Result<
    (u8, Seq<u8>),
    CommandErrorView,
> {
    match r {
        Ok(p) => Ok((command, p)),
        Err(e) => Err(e),
    }
}

pub open spec fn with_prefix(prefix: Seq<u8>, r: Result<Seq<u8>, CommandErrorView>) -> Result<
    Seq<u8>,
    CommandErrorView,
> {
    match r {
        Ok(p) => Ok(prefix + p),
        Err(e) => Err(e),
    }
}

pub open spec fn one_byte(r: Result<u8, CommandErrorView>) -> Result<Seq<u8>, CommandErrorView> {
    match r {
        Ok(b) => Ok(seq![b]),
        Err(e) => Err(e),
    }
}

/// The payload of `handset-command`: subcommand, relaxed flag and, when data
/// is given, packet type, data length and data.
pub open spec fn spec_handset_command(args: Seq<ArgView>) -> Result<Seq<u8>, CommandErrorView> {
    match spec_u8_value(number_or(args, 0, 0)) {
        Err(e) => Err(e),
        Ok(sub) => match spec_u8_value(number_or(args, 1, 0)) {
            Err(e) => Err(e),
            Ok(rel) => match spec_u8_value(number_or(args, 2, 0)) {
                Err(e) => Err(e),
                Ok(pt) => {
                    let data = bytes_or_empty(args, 3);
                    if data.len() == 0 {
                        Ok(seq![sub, rel & 0x01u8])
                    } else {
                        match spec_u8_value(data.len() as u64) {
                            Err(e) => Err(e),
                            Ok(l) => Ok(seq![sub, rel & 0x01u8, pt, l] + data),
                        }
                    }
                },
            },
        },
    }
}

/// The payload of `xcp-command`: the data argument wrapped for the handset.
pub open spec fn spec_xcp_command(args: Seq<ArgView>) -> Result<Seq<u8>, CommandErrorView> {
    spec_xcp_wrapper(bytes_or_empty(args, 1), number_or(args, 2, 0), number_or(args, 0, 0))
}

/// The payload of `ble-gadget-read`: the two 16-bit arguments after a fixed prefix.
pub open spec fn spec_ble_gadget_read(args: Seq<ArgView>) -> Result<Seq<u8>, CommandErrorView> {
    match spec_u16le(number_or(args, 0, 0)) {
        Err(e) => Err(e),
        Ok(a) => match spec_u16le(number_or(args, 1, 0)) {
            Err(e) => Err(e),
            Ok(b) => Ok(seq![0x02u8, 0x01u8, 0x0eu8] + a + b),
        },
    }
}

/// The payload of `ble-gadget-write`: the two 16-bit arguments, the data length
/// and the data after a fixed prefix.
pub open spec fn spec_ble_gadget_write(args: Seq<ArgView>) -> Result<Seq<u8>, CommandErrorView> {
    let data = bytes_or_empty(args, 2);
    match spec_u16le(number_or(args, 0, 0)) {
        Err(e) => Err(e),
        Ok(a) => match spec_u16le(number_or(args, 1, 0)) {
            Err(e) => Err(e),
            Ok(b) => match spec_u8_value(data.len() as u64) {
                Err(e) => Err(e),
                Ok(l) => Ok(seq![0x02u8, 0x00u8, 0x0eu8] + a + b + seq![l] + data),
            },
        },
    }
}

/// The payload of `get-interface-stats`: the port and the reset flag (low bit).
pub open spec fn spec_interface_stats(args: Seq<ArgView>) -> Result<Seq<u8>, CommandErrorView> {
    match spec_u8_value(number_or(args, 0, 0)) {
        Err(e) => Err(e),
        Ok(a) => match spec_u8_value(number_or(args, 1, 0)) {
            Err(e) => Err(e),
            Ok(b) => Ok(seq![a, b & 0x01u8]),
        },
    }
}

/// The payload of `xcp-init-calibration-records`: eight response bytes per
/// group (saturating at 255).
pub open spec fn spec_calibration_records(args: Seq<ArgView>) -> Result<
    Seq<u8>,
    CommandErrorView,
> {
    match spec_u8_value(number_or(args, 0, 2)) {
        Err(e) => Err(e),
        Ok(g) => {
            let rb: u8 = if g * 8 > 255 {
                255u8
            } else {
                (g * 8) as u8
            };
            spec_xcp_wrapper(
                seq![0xf4u8, rb, 0x00u8, 0x02u8, 0x69u8, 0x00u8, 0x00u8, 0x00u8],
                rb as u64,
                0,
            )
        },
    }
}

/// The payload of the drive commands: direction byte and 16-bit tick count.
pub open spec fn spec_drive(direction: u8, args: Seq<ArgView>) -> Result<Seq<u8>, CommandErrorView> {
    with_prefix(seq![direction], spec_u16le(number_or(args, 0, 1)))
}

/// The command byte and payload for a named command, or the error that the
/// name or its arguments give.
pub open spec fn spec_command_payload(name: Seq<char>, args: Seq<ArgView>) -> Result<
    (u8, Seq<u8>),
    CommandErrorView,
> {
    if name == "get-height"@ {
        Ok((COMMAND_HEIGHT, seq![0x00u8, 0x00u8, 0x00u8]))
    } else if name == "drive-up"@ {
        with_command(COMMAND_HEIGHT, spec_drive(0x01u8, args))
    } else if name == "drive-down"@ {
        with_command(COMMAND_HEIGHT, spec_drive(0xffu8, args))
    } else if name == "drive-to"@ {
        match spec_number(args, 0) {
            None => Err(CommandErrorView::MissingNumber("drive-to"@)),
            Some(n) => with_command(
                COMMAND_HEIGHT,
                with_prefix(seq![0x00u8, 0x00u8, 0x00u8], spec_u16le(n)),
            ),
        }
    } else if name == "get-occupancy"@ {
        Ok((COMMAND_OCCUPANCY, seq![0x00u8]))
    } else if name == "led-on"@ {
        with_command(
            COMMAND_LED,
            spec_led_payload(number_or(args, 0, 0), number_or(args, 1, 0), true),
        )
    } else if name == "led-off"@ {
        with_command(
            COMMAND_LED,
            spec_led_payload(number_or(args, 0, 0), number_or(args, 1, 0), false),
        )
    } else if name == "led-bind"@ {
        with_command(COMMAND_LED_BIND, one_byte(spec_u8_value(number_or(args, 0, 1))))
    } else if name == "buttons-bind"@ {
        with_command(COMMAND_BUTTONS_BIND, one_byte(spec_u8_value(number_or(args, 0, 1))))
    } else if name == "all-buttons-bind"@ {
        match spec_u8_value(number_or(args, 0, 1)) {
            Err(e) => Err(e),
            Ok(b) => Ok((COMMAND_BUTTONS_BIND, seq![b, b])),
        }
    } else if name == "get-serial-number"@ {
        Ok((COMMAND_SERIAL_NUMBER, seq![0x00u8]))
    } else if name == "get-fw-id"@ {
        with_command(COMMAND_FIRMWARE_ID, one_byte(spec_u8_value(number_or(args, 0, 0))))
    } else if name == "get-table-stats"@ {
        Ok((COMMAND_TABLE_STATS, seq![0x00u8]))
    } else if name == "get-interface-stats"@ {
        with_command(COMMAND_INTERFACE_STATS, spec_interface_stats(args))
    } else if name == "get-port-input"@ {
        Ok((COMMAND_PORT_INPUT, seq![0x00u8]))
    } else if name == "get-conn-interface"@ {
        Ok((COMMAND_CONNECTION_INTERFACE, seq![0x00u8]))
    } else if name == "handset-protocol"@ {
        with_command(COMMAND_HANDSET_PROTOCOL, one_byte(spec_u8_value(number_or(args, 0, 0))))
    } else if name == "handset-command"@ {
        with_command(COMMAND_HANDSET, spec_handset_command(args))
    } else if name == "xcp-command"@ {
        with_command(COMMAND_HANDSET, spec_xcp_command(args))
    } else if name == "xcp-group-heights"@ {
        with_command(
            COMMAND_HANDSET,
            spec_xcp_wrapper(seq![0xf4u8, 0x0au8, 0x00u8, 0x02u8, 0x00u8, 0x45u8, 0x00u8, 0x00u8], 10, 0),
        )
    } else if name == "xcp-init-group-count"@ {
        with_command(
            COMMAND_HANDSET,
            spec_xcp_wrapper(seq![0xf4u8, 0x01u8, 0x00u8, 0x02u8, 0x00u8, 0x6au8, 0x00u8, 0x00u8], 1, 0),
        )
    } else if name == "xcp-init-channel-map"@ {
        with_command(
            COMMAND_HANDSET,
            spec_xcp_wrapper(seq![0xf4u8, 0x0au8, 0x00u8, 0x02u8, 0x00u8, 0x6du8, 0x00u8, 0x00u8], 10, 0),
        )
    } else if name == "xcp-init-calibration-records"@ {
        with_command(COMMAND_HANDSET, spec_calibration_records(args))
    } else if name == "xcp-drive-to-group-raw"@ {
        with_command(
            COMMAND_HANDSET,
            with_prefix(
                seq![0x02u8, 0x00u8, 0x03u8, 0x08u8],
                spec_xcp_drive_to_group_raw(number_or(args, 0, 0), number_or(args, 1, 0)),
            ),
        )
    } else if name == "ble-set-name"@ {
        with_command(
            COMMAND_BLE_GADGET,
            with_prefix(seq![0x01u8, 0x07u8, 0x0eu8], spec_ascii_arg(args, 0, 16)),
        )
    } else if name == "ble-set-key"@ {
        with_command(
            COMMAND_BLE_GADGET,
            with_prefix(seq![0x01u8, 0x09u8, 0x0eu8], spec_ascii_arg(args, 0, 6)),
        )
    } else if name == "ble-gadget-read"@ {
        with_command(COMMAND_BLE_GADGET, spec_ble_gadget_read(args))
    } else if name == "ble-gadget-write"@ {
        with_command(COMMAND_BLE_GADGET, spec_ble_gadget_write(args))
    } else {
        Err(CommandErrorView::UnknownCommand(name))
    }
}

/// The arguments on which encoding does not overflow: for `xcp-command`, a
/// response length of at most `u64::MAX - 3` when the relaxed flag is a byte.
pub open spec fn command_args_ok(name: Seq<char>, args: Seq<ArgView>) -> bool {
    name == "xcp-command"@ ==> xcp_wrapper_ok(number_or(args, 2, 0), number_or(args, 0, 0))
}

fn concat2(a: &[u8], b: &[u8]) -> (out: Vec<u8>)
    ensures
        out@ == a@ + b@,
{
    let chunks: [&[u8]; 2] = [a, b];
    let out = concat_bytes(chunks.as_slice());
    proof {
        let views = chunks@.map_values(|c: &[u8]| c@);
        assert(views =~= seq![a@, b@]);
        lemma_concat_chunks(views);
    }
    out
}

fn concat3(a: &[u8], b: &[u8], c: &[u8]) -> (out: Vec<u8>)
    ensures
        out@ == a@ + b@ + c@,
{
    let chunks: [&[u8]; 3] = [a, b, c];
    let out = concat_bytes(chunks.as_slice());
    proof {
        let views = chunks@.map_values(|c: &[u8]| c@);
        assert(views =~= seq![a@, b@, c@]);
        lemma_concat_chunks(views);
    }
    out
}

fn concat5(a: &[u8], b: &[u8], c: &[u8], d: &[u8], e: &[u8]) -> (out: Vec<u8>)
    ensures
        out@ == a@ + b@ + c@ + d@ + e@,
{
    let chunks: [&[u8]; 5] = [a, b, c, d, e];
    let out = concat_bytes(chunks.as_slice());
    proof {
        let views = chunks@.map_values(|c: &[u8]| c@);
        assert(views =~= seq![a@, b@, c@, d@, e@]);
        lemma_concat_chunks(views);
    }
    out
}

fn handset_command(args: &[CommandArg]) -> (r: Result<(u8, Vec<u8>), CommandError>)
    ensures
        payload_result_view(r) == with_command(COMMAND_HANDSET, spec_handset_command(args_view(args@))),
{
    let subcommand = u8_value(number_or_default(args, 0, 0))?;
    let relaxed = u8_value(number_or_default(args, 1, 0))? & 0x01;
    let packet_type = u8_value(number_or_default(args, 2, 0))?;
    let data = bytes_or_default(args, 3);
    let payload = if data.len() == 0 {
        let p = vec![subcommand, relaxed];
        assert(p@ =~= seq![subcommand, relaxed]);
        p
    } else {
        let l = u8_value(data.len() as u64)?;
        let head: [u8; 4] = [subcommand, relaxed, packet_type, l];
        assert(head@ =~= seq![subcommand, relaxed, packet_type, l]);
        concat2(head.as_slice(), data.as_slice())
    };
    Ok((COMMAND_HANDSET, payload))
}

fn xcp_command(args: &[CommandArg]) -> (r: Result<(u8, Vec<u8>), CommandError>)
    requires
        xcp_wrapper_ok(number_or(args_view(args@), 2, 0), number_or(args_view(args@), 0, 0)),
    ensures
        payload_result_view(r) == with_command(COMMAND_HANDSET, spec_xcp_command(args_view(args@))),
{
    let relaxed = number_or_default(args, 0, 0);
    let data = bytes_or_default(args, 1);
    let response_length = number_or_default(args, 2, 0);
    Ok((COMMAND_HANDSET, xcp_wrapper(data.as_slice(), response_length, relaxed)?))
}

fn fixed_xcp(request: [u8; 8], response_bytes: u64) -> (r: Result<(u8, Vec<u8>), CommandError>)
    requires
        response_bytes <= 0xff,
    ensures
        payload_result_view(r) == with_command(
            COMMAND_HANDSET,
            spec_xcp_wrapper(request@, response_bytes, 0),
        ),
{
    Ok((COMMAND_HANDSET, xcp_wrapper(request.as_slice(), response_bytes, 0)?))
}

fn drive(direction: u8, args: &[CommandArg]) -> (r: Result<(u8, Vec<u8>), CommandError>)
    ensures
        payload_result_view(r) == with_command(COMMAND_HEIGHT, spec_drive(direction, args_view(args@))),
{
    let head: [u8; 1] = [direction];
    assert(head@ =~= seq![direction]);
    let ticks = u16le(number_or_default(args, 0, 1))?;
    Ok((COMMAND_HEIGHT, concat2(head.as_slice(), ticks.as_slice())))
}

fn drive_to(args: &[CommandArg]) -> (r: Result<(u8, Vec<u8>), CommandError>)
    ensures
        payload_result_view(r) == (match spec_number(args_view(args@), 0) {
            None => Err(CommandErrorView::MissingNumber("drive-to"@)),
            Some(n) => with_command(
                COMMAND_HEIGHT,
                with_prefix(seq![0x00u8, 0x00u8, 0x00u8], spec_u16le(n)),
            ),
        }),
{
    let head: [u8; 3] = [0x00, 0x00, 0x00];
    assert(head@ =~= seq![0x00u8, 0x00u8, 0x00u8]);
    let target = match number(args, 0) {
        Some(n) => n,
        None => {
            return Err(CommandError::MissingNumber(String::from_str("drive-to")));
        },
    };
    let height = u16le(target)?;
    Ok((COMMAND_HEIGHT, concat2(head.as_slice(), height.as_slice())))
}

fn single_byte_command(command: u8, value: u64) -> (r: Result<(u8, Vec<u8>), CommandError>)
    ensures
        payload_result_view(r) == with_command(command, one_byte(spec_u8_value(value))),
{
    let b = u8_value(value)?;
    let p = vec![b];
    assert(p@ =~= seq![b]);
    Ok((command, p))
}

fn fixed_command(command: u8, payload: &[u8]) -> (r: Result<(u8, Vec<u8>), CommandError>)
    ensures
        payload_result_view(r) == Ok::<(u8, Seq<u8>), CommandErrorView>((command, payload@)),
{
    Ok((command, vstd::slice::slice_to_vec(payload)))
}

fn led_command(args: &[CommandArg], on: bool) -> (r: Result<(u8, Vec<u8>), CommandError>)
    ensures
        payload_result_view(r) == with_command(
            COMMAND_LED,
            spec_led_payload(number_or(args_view(args@), 0, 0), number_or(args_view(args@), 1, 0), on),
        ),
{
    Ok(
        (
            COMMAND_LED,
            led_payload(number_or_default(args, 0, 0), number_or_default(args, 1, 0), on)?,
        ),
    )
}

fn interface_stats(args: &[CommandArg]) -> (r: Result<(u8, Vec<u8>), CommandError>)
    ensures
        payload_result_view(r) == with_command(COMMAND_INTERFACE_STATS, spec_interface_stats(args_view(args@))),
{
    let port = u8_value(number_or_default(args, 0, 0))?;
    let reset = u8_value(number_or_default(args, 1, 0))? & 0x01;
    let p = vec![port, reset];
    assert(p@ =~= seq![port, reset]);
    Ok((COMMAND_INTERFACE_STATS, p))
}

fn calibration_records(args: &[CommandArg]) -> (r: Result<(u8, Vec<u8>), CommandError>)
    ensures
        payload_result_view(r) == with_command(COMMAND_HANDSET, spec_calibration_records(args_view(args@))),
{
    let group_count = u8_value(number_or_default(args, 0, 2))?;
    let response_bytes: u8 = if group_count > 31 {
        255
    } else {
        group_count * 8
    };
    let request: [u8; 8] = [0xf4, response_bytes, 0x00, 0x02, 0x69, 0x00, 0x00, 0x00];
    assert(request@ =~= seq![0xf4u8, response_bytes, 0x00u8, 0x02u8, 0x69u8, 0x00u8, 0x00u8, 0x00u8]);
    Ok((COMMAND_HANDSET, xcp_wrapper(request.as_slice(), response_bytes as u64, 0)?))
}

fn drive_to_group_raw(args: &[CommandArg]) -> (r: Result<(u8, Vec<u8>), CommandError>)
    ensures
        payload_result_view(r) == with_command(
            COMMAND_HANDSET,
            with_prefix(
                seq![0x02u8, 0x00u8, 0x03u8, 0x08u8],
                spec_xcp_drive_to_group_raw(number_or(args_view(args@), 0, 0), number_or(args_view(args@), 1, 0)),
            ),
        ),
{
    let head: [u8; 4] = [0x02, 0x00, 0x03, 0x08];
    assert(head@ =~= seq![0x02u8, 0x00u8, 0x03u8, 0x08u8]);
    let raw = xcp_drive_to_group_raw(number_or_default(args, 0, 0), number_or_default(args, 1, 0))?;
    Ok((COMMAND_HANDSET, concat2(head.as_slice(), raw.as_slice())))
}

fn ble_text(args: &[CommandArg], selector: u8, max: usize) -> (r: Result<(u8, Vec<u8>), CommandError>)
    ensures
        payload_result_view(r) == with_command(
            COMMAND_BLE_GADGET,
            with_prefix(seq![0x01u8, selector, 0x0eu8], spec_ascii_arg(args_view(args@), 0, max)),
        ),
{
    let head: [u8; 3] = [0x01, selector, 0x0e];
    assert(head@ =~= seq![0x01u8, selector, 0x0eu8]);
    let text = ascii_arg(args, 0, max)?;
    Ok((COMMAND_BLE_GADGET, concat2(head.as_slice(), text.as_slice())))
}

fn ble_gadget_read(args: &[CommandArg]) -> (r: Result<(u8, Vec<u8>), CommandError>)
    ensures
        payload_result_view(r) == with_command(COMMAND_BLE_GADGET, spec_ble_gadget_read(args_view(args@))),
{
    let head: [u8; 3] = [0x02, 0x01, 0x0e];
    assert(head@ =~= seq![0x02u8, 0x01u8, 0x0eu8]);
    let a = u16le(number_or_default(args, 0, 0))?;
    let b = u16le(number_or_default(args, 1, 0))?;
    Ok((COMMAND_BLE_GADGET, concat3(head.as_slice(), a.as_slice(), b.as_slice())))
}

fn ble_gadget_write(args: &[CommandArg]) -> (r: Result<(u8, Vec<u8>), CommandError>)
    ensures
        payload_result_view(r) == with_command(COMMAND_BLE_GADGET, spec_ble_gadget_write(args_view(args@))),
{
    let data = bytes_or_default(args, 2);
    let head: [u8; 3] = [0x02, 0x00, 0x0e];
    assert(head@ =~= seq![0x02u8, 0x00u8, 0x0eu8]);
    let a = u16le(number_or_default(args, 0, 0))?;
    let b = u16le(number_or_default(args, 1, 0))?;
    let l: [u8; 1] = [u8_value(data.len() as u64)?];
    assert(l@ =~= seq![l[0]]);
    Ok((
        COMMAND_BLE_GADGET,
        concat5(head.as_slice(), a.as_slice(), b.as_slice(), l.as_slice(), data.as_slice()),
    ))
}

/// The command byte and payload for a named command.
pub fn command_payload(name: &str, args: &[CommandArg]) -> (r: Result<(u8, Vec<u8>), CommandError>)
    requires
        command_args_ok(name@, args_view(args@)),
    ensures
        payload_result_view(r) == spec_command_payload(name@, args_view(args@)),
{
    let zero3: [u8; 3] = [0x00, 0x00, 0x00];
    let zero1: [u8; 1] = [0x00];
    assert(zero3@ =~= seq![0x00u8, 0x00u8, 0x00u8]);
    assert(zero1@ =~= seq![0x00u8]);
    if str_eq(name, "get-height") {
        fixed_command(COMMAND_HEIGHT, zero3.as_slice())
    } else if str_eq(name, "drive-up") {
        drive(0x01, args)
    } else if str_eq(name, "drive-down") {
        drive(0xff, args)
    } else if str_eq(name, "drive-to") {
        drive_to(args)
    } else if str_eq(name, "get-occupancy") {
        fixed_command(COMMAND_OCCUPANCY, zero1.as_slice())
    } else if str_eq(name, "led-on") {
        led_command(args, true)
    } else if str_eq(name, "led-off") {
        led_command(args, false)
    } else if str_eq(name, "led-bind") {
        single_byte_command(COMMAND_LED_BIND, number_or_default(args, 0, 1))
    } else if str_eq(name, "buttons-bind") {
        single_byte_command(COMMAND_BUTTONS_BIND, number_or_default(args, 0, 1))
    } else if str_eq(name, "all-buttons-bind") {
        let bind = u8_value(number_or_default(args, 0, 1))?;
        let p = vec![bind, bind];
        assert(p@ =~= seq![bind, bind]);
        Ok((COMMAND_BUTTONS_BIND, p))
    } else if str_eq(name, "get-serial-number") {
        fixed_command(COMMAND_SERIAL_NUMBER, zero1.as_slice())
    } else if str_eq(name, "get-fw-id") {
        single_byte_command(COMMAND_FIRMWARE_ID, number_or_default(args, 0, 0))
    } else if str_eq(name, "get-table-stats") {
        fixed_command(COMMAND_TABLE_STATS, zero1.as_slice())
    } else if str_eq(name, "get-interface-stats") {
        interface_stats(args)
    } else if str_eq(name, "get-port-input") {
        fixed_command(COMMAND_PORT_INPUT, zero1.as_slice())
    } else if str_eq(name, "get-conn-interface") {
        fixed_command(COMMAND_CONNECTION_INTERFACE, zero1.as_slice())
    } else if str_eq(name, "handset-protocol") {
        single_byte_command(COMMAND_HANDSET_PROTOCOL, number_or_default(args, 0, 0))
    } else if str_eq(name, "handset-command") {
        handset_command(args)
    } else if str_eq(name, "xcp-command") {
        xcp_command(args)
    } else if str_eq(name, "xcp-group-heights") {
        let req: [u8; 8] = [0xf4, 0x0a, 0x00, 0x02, 0x00, 0x45, 0x00, 0x00];
        assert(req@ =~= seq![0xf4u8, 0x0au8, 0x00u8, 0x02u8, 0x00u8, 0x45u8, 0x00u8, 0x00u8]);
        fixed_xcp(req, 10)
    } else if str_eq(name, "xcp-init-group-count") {
        let req: [u8; 8] = [0xf4, 0x01, 0x00, 0x02, 0x00, 0x6a, 0x00, 0x00];
        assert(req@ =~= seq![0xf4u8, 0x01u8, 0x00u8, 0x02u8, 0x00u8, 0x6au8, 0x00u8, 0x00u8]);
        fixed_xcp(req, 1)
    } else if str_eq(name, "xcp-init-channel-map") {
        let req: [u8; 8] = [0xf4, 0x0a, 0x00, 0x02, 0x00, 0x6d, 0x00, 0x00];
        assert(req@ =~= seq![0xf4u8, 0x0au8, 0x00u8, 0x02u8, 0x00u8, 0x6du8, 0x00u8, 0x00u8]);
        fixed_xcp(req, 10)
    } else if str_eq(name, "xcp-init-calibration-records") {
        calibration_records(args)
    } else if str_eq(name, "xcp-drive-to-group-raw") {
        drive_to_group_raw(args)
    } else if str_eq(name, "ble-set-name") {
        ble_text(args, 0x07, 16)
    } else if str_eq(name, "ble-set-key") {
        ble_text(args, 0x09, 6)
    } else if str_eq(name, "ble-gadget-read") {
        ble_gadget_read(args)
    } else if str_eq(name, "ble-gadget-write") {
        ble_gadget_write(args)
    } else {
        Err(CommandError::UnknownCommand(String::from_str(name)))
    }
}


/// The commands that only read state from the desk.
pub open spec fn read_only_names() -> Seq<Seq<char>> {
    seq![
        "get-height"@,
        "get-occupancy"@,
        "get-serial-number"@,
        "get-fw-id"@,
        "get-table-stats"@,
        "get-interface-stats"@,
        "get-port-input"@,
        "get-conn-interface"@,
        "xcp-init-group-count"@,
        "xcp-init-channel-map"@,
        "xcp-init-calibration-records"@,
        "xcp-group-heights"@,
    ]
}

/// The names of the commands that only read state from the desk.
pub fn read_only_commands() -> (names: Vec<&'static str>)
    ensures
        names@.map_values(|s: &str| s@) == read_only_names(),
{
    let names: Vec<&'static str> = vec![
        "get-height",
        "get-occupancy",
        "get-serial-number",
        "get-fw-id",
        "get-table-stats",
        "get-interface-stats",
        "get-port-input",
        "get-conn-interface",
        "xcp-init-group-count",
        "xcp-init-channel-map",
        "xcp-init-calibration-records",
        "xcp-group-heights",
    ];
    assert(names@.map_values(|s: &str| s@) =~= read_only_names());
    names
}

/// Whether `name` is among `names`.
pub fn contains_name(names: &Vec<&'static str>, name: &str) -> (r: bool)
    ensures
        r == names@.map_values(|s: &str| s@).contains(name@),
{
    let ghost views = names@.map_values(|s: &str| s@);
    let mut i: usize = 0;
    while i < names.len()
        invariant
            i <= names.len(),
            views == names@.map_values(|s: &str| s@),
            forall|j: int| 0 <= j < i ==> views[j] != name@,
        decreases names.len() - i,
    {
        if str_eq(names[i], name) {
            assert(views[i as int] == name@);
            return true;
        }
        i = i + 1;
    }
    false
}

// ---------------------------------------------------------------------------
// Laws of argument reading
// ---------------------------------------------------------------------------

/// The kinds of argument.
pub enum ArgKind {
    Number,
    Text,
    Bytes,
}

/// The kind of an argument.
pub open spec fn kind_of(a: ArgView) -> ArgKind {
    match a {
        ArgView::Number(_) => ArgKind::Number,
        ArgView::Text(_) => ArgKind::Text,
        ArgView::Bytes(_) => ArgKind::Bytes,
    }
}

/// The argument at `i` when it is there and of kind `k`.
pub open spec fn reading(args: Seq<ArgView>, i: int, k: ArgKind) -> Option<ArgView> {
    if 0 <= i < args.len() && kind_of(args[i]) == k {
        Some(args[i])
    } else {
        None
    }
}

/// Numbers at positions `0 .. n`.
pub open spec fn numbers_below(i: int, n: int) -> Option<ArgKind> {
    if 0 <= i < n {
        Some(ArgKind::Number)
    } else {
        None
    }
}

/// The kind of argument that the named command reads at position `i`, if it
/// reads that position at all.
pub open spec fn arg_kind(name: Seq<char>, i: int) -> Option<ArgKind> {
    if name == "get-height"@ {
        None
    } else if name == "drive-up"@ {
        numbers_below(i, 1)
    } else if name == "drive-down"@ {
        numbers_below(i, 1)
    } else if name == "drive-to"@ {
        numbers_below(i, 1)
    } else if name == "get-occupancy"@ {
        None
    } else if name == "led-on"@ {
        numbers_below(i, 2)
    } else if name == "led-off"@ {
        numbers_below(i, 2)
    } else if name == "led-bind"@ {
        numbers_below(i, 1)
    } else if name == "buttons-bind"@ {
        numbers_below(i, 1)
    } else if name == "all-buttons-bind"@ {
        numbers_below(i, 1)
    } else if name == "get-serial-number"@ {
        None
    } else if name == "get-fw-id"@ {
        numbers_below(i, 1)
    } else if name == "get-table-stats"@ {
        None
    } else if name == "get-interface-stats"@ {
        numbers_below(i, 2)
    } else if name == "get-port-input"@ {
        None
    } else if name == "get-conn-interface"@ {
        None
    } else if name == "handset-protocol"@ {
        numbers_below(i, 1)
    } else if name == "handset-command"@ {
        if i == 3 {
            Some(ArgKind::Bytes)
        } else {
            numbers_below(i, 3)
        }
    } else if name == "xcp-command"@ {
        if i == 1 {
            Some(ArgKind::Bytes)
        } else {
            numbers_below(i, 3)
        }
    } else if name == "xcp-group-heights"@ {
        None
    } else if name == "xcp-init-group-count"@ {
        None
    } else if name == "xcp-init-channel-map"@ {
        None
    } else if name == "xcp-init-calibration-records"@ {
        numbers_below(i, 1)
    } else if name == "xcp-drive-to-group-raw"@ {
        numbers_below(i, 2)
    } else if name == "ble-set-name"@ {
        if i == 0 {
            Some(ArgKind::Text)
        } else {
            None
        }
    } else if name == "ble-set-key"@ {
        if i == 0 {
            Some(ArgKind::Text)
        } else {
            None
        }
    } else if name == "ble-gadget-read"@ {
        numbers_below(i, 2)
    } else if name == "ble-gadget-write"@ {
        if i == 2 {
            Some(ArgKind::Bytes)
        } else {
            numbers_below(i, 2)
        }
    } else {
        None
    }
}

/// Two argument lists read the same for the named command: at every position
/// the command reads, the argument of the kind it reads is the same (or
/// missing from both).
pub open spec fn read_alike(name: Seq<char>, a: Seq<ArgView>, b: Seq<ArgView>) -> bool {
    forall|i: int, k: ArgKind| arg_kind(name, i) == Some(k) ==> #[trigger] reading(a, i, k) == reading(b, i, k)
}

proof fn lemma_read_alike_at(name: Seq<char>, a: Seq<ArgView>, b: Seq<ArgView>, i: int)
    requires
        read_alike(name, a, b),
    ensures
        arg_kind(name, i) == Some(ArgKind::Number) ==> spec_number(a, i) == spec_number(b, i),
        arg_kind(name, i) == Some(ArgKind::Bytes) ==> spec_bytes(a, i) == spec_bytes(b, i),
        arg_kind(name, i) == Some(ArgKind::Text) ==> text_or_empty(a, i) == text_or_empty(b, i),
{
    if arg_kind(name, i) == Some(ArgKind::Number) {
        assert(reading(a, i, ArgKind::Number) == reading(b, i, ArgKind::Number));
    }
    if arg_kind(name, i) == Some(ArgKind::Bytes) {
        assert(reading(a, i, ArgKind::Bytes) == reading(b, i, ArgKind::Bytes));
    }
    if arg_kind(name, i) == Some(ArgKind::Text) {
        assert(reading(a, i, ArgKind::Text) == reading(b, i, ArgKind::Text));
    }
}

/// A command's payload depends on its arguments only through what it reads:
/// at each position it reads, the argument of the expected kind, a missing
/// argument and one of another kind reading alike (as absent).
pub proof fn lemma_payload_reads_only_expected_kinds(name: Seq<char>, a: Seq<ArgView>, b: Seq<ArgView>)
    requires
        read_alike(name, a, b),
    ensures
        spec_command_payload(name, a) == spec_command_payload(name, b),
{
    lemma_read_alike_at(name, a, b, 0);
    lemma_read_alike_at(name, a, b, 1);
    lemma_read_alike_at(name, a, b, 2);
    lemma_read_alike_at(name, a, b, 3);
}

/// An argument of a kind that the command does not read at its position
/// counts as absent: any two such arguments give the same payload, and as the
/// last argument one gives the payload of the list without it.
pub proof fn lemma_wrong_kind_is_absent(
    name: Seq<char>,
    a: Seq<ArgView>,
    i: int,
    x: ArgView,
    y: ArgView,
)
    requires
        0 <= i < a.len(),
        arg_kind(name, i) matches Some(k) ==> kind_of(x) != k && kind_of(y) != k,
    ensures
        spec_command_payload(name, a.update(i, x)) == spec_command_payload(name, a.update(i, y)),
        i == a.len() - 1 ==> spec_command_payload(name, a.update(i, x)) == spec_command_payload(
            name,
            a.take(i),
        ),
{
    let ax = a.update(i, x);
    let ay = a.update(i, y);
    assert forall|j: int, k: ArgKind| arg_kind(name, j) == Some(k) implies #[trigger] reading(
        ax,
        j,
        k,
    ) == reading(ay, j, k) by {
        if j != i && 0 <= j < a.len() {
            assert(ax[j] == ay[j]);
        }
    }
    lemma_payload_reads_only_expected_kinds(name, ax, ay);
    if i == a.len() - 1 {
        let t = a.take(i);
        assert forall|j: int, k: ArgKind| arg_kind(name, j) == Some(k) implies #[trigger] reading(
            ax,
            j,
            k,
        ) == reading(t, j, k) by {
            if 0 <= j < i {
                assert(ax[j] == t[j]);
            }
        }
        lemma_payload_reads_only_expected_kinds(name, ax, t);
    }
}

// ---------------------------------------------------------------------------
// Laws of the payloads
// ---------------------------------------------------------------------------

proof fn lemma_mask_bits(s: u8)
    ensures
        (s & 0x02u8 != 0) == ((s as int / 2) % 2 == 1),
        (s & 0x01u8 != 0) == (s as int % 2 == 1),
{
    assert((s & 0x02u8 != 0) == ((s / 2) % 2 == 1)) by (bit_vector);
    assert((s & 0x01u8 != 0) == (s % 2 == 1)) by (bit_vector);
}

/// The LED commands: `led-on` and `led-off` take a mask and a mode. A mask or
/// mode above 255 is refused (the mask first). Otherwise the payload (command
/// `0x0a`) has two bytes, the first for mask bit 1 and the second for mask bit
/// 0: an unselected LED gets `0x7f`; a selected one gets `0xfe` (mode
/// non-zero) or `0xff` (mode zero) when switched on, and `0x01` (mode
/// non-zero) or `0x00` (mode zero) when switched off.
pub proof fn lemma_led_payload(mask: u64, mode: u64)
    ensures
        ({
            let args = seq![ArgView::Number(mask), ArgView::Number(mode)];
            let selected_first = (mask as int / 2) % 2 == 1;
            let selected_second = mask as int % 2 == 1;
            let on_byte: u8 = if mode != 0 { 0xfe } else { 0xff };
            let off_byte: u8 = if mode != 0 { 0x01 } else { 0x00 };
            &&& mask > 255 ==> spec_command_payload("led-on"@, args) == Err::<(u8, Seq<u8>), _>(
                CommandErrorView::InvalidU8(mask),
            ) && spec_command_payload("led-off"@, args) == Err::<(u8, Seq<u8>), _>(
                CommandErrorView::InvalidU8(mask),
            )
            &&& mask <= 255 && mode > 255 ==> spec_command_payload("led-on"@, args) == Err::<
                (u8, Seq<u8>),
                _,
            >(CommandErrorView::InvalidU8(mode)) && spec_command_payload("led-off"@, args) == Err::<
                (u8, Seq<u8>),
                _,
            >(CommandErrorView::InvalidU8(mode))
            &&& mask <= 255 && mode <= 255 ==> spec_command_payload("led-on"@, args) == Ok::<
                _,
                CommandErrorView,
            >(
                (
                    0x0au8,
                    seq![
                        if selected_first { on_byte } else { 0x7fu8 },
                        if selected_second { on_byte } else { 0x7fu8 },
                    ],
                ),
            ) && spec_command_payload("led-off"@, args) == Ok::<_, CommandErrorView>(
                (
                    0x0au8,
                    seq![
                        if selected_first { off_byte } else { 0x7fu8 },
                        if selected_second { off_byte } else { 0x7fu8 },
                    ],
                ),
            )
        }),
{
    reveal_strlit("get-height");
    reveal_strlit("drive-up");
    reveal_strlit("drive-down");
    reveal_strlit("drive-to");
    reveal_strlit("get-occupancy");
    reveal_strlit("led-on");
    reveal_strlit("led-off");
    reveal_strlit("led-bind");
    reveal_strlit("buttons-bind");
    reveal_strlit("all-buttons-bind");
    reveal_strlit("get-serial-number");
    reveal_strlit("get-fw-id");
    reveal_strlit("get-table-stats");
    reveal_strlit("get-interface-stats");
    reveal_strlit("get-port-input");
    reveal_strlit("get-conn-interface");
    reveal_strlit("handset-protocol");
    reveal_strlit("handset-command");
    reveal_strlit("xcp-command");
    reveal_strlit("xcp-group-heights");
    reveal_strlit("xcp-init-group-count");
    reveal_strlit("xcp-init-channel-map");
    reveal_strlit("xcp-init-calibration-records");
    reveal_strlit("xcp-drive-to-group-raw");
    reveal_strlit("ble-set-name");
    reveal_strlit("ble-set-key");
    reveal_strlit("ble-gadget-read");
    reveal_strlit("ble-gadget-write");
    assert("led-on"@.len() != "get-height"@.len());
    assert("led-on"@.len() != "drive-up"@.len());
    assert("led-on"@.len() != "drive-down"@.len());
    assert("led-on"@.len() != "drive-to"@.len());
    assert("led-on"@.len() != "get-occupancy"@.len());
    assert("led-off"@.len() != "get-height"@.len());
    assert("led-off"@.len() != "drive-up"@.len());
    assert("led-off"@.len() != "drive-down"@.len());
    assert("led-off"@.len() != "drive-to"@.len());
    assert("led-off"@.len() != "get-occupancy"@.len());
    assert("led-off"@.len() != "led-on"@.len());
    if mask <= 255 {
        lemma_mask_bits(mask as u8);
    }
    let args = seq![ArgView::Number(mask), ArgView::Number(mode)];
    assert(spec_number(args, 0) == Some(mask));
    assert(spec_number(args, 1) == Some(mode));
}

/// The drive commands: `drive-up` and `drive-down` send (command `0x08`) the
/// direction byte `0x01` or `0xff` and a 16-bit tick count, little-endian,
/// defaulting to one tick; `drive-to` sends three zero bytes and the 16-bit
/// target and needs a number. Counts above 65535 are refused.
pub proof fn lemma_drive_payloads(n: u64)
    ensures
        ({
            let args = seq![ArgView::Number(n)];
            let lo = (n % 256) as u8;
            let hi = (n / 256) as u8;
            &&& n <= 65535 ==> spec_command_payload("drive-up"@, args) == Ok::<_, CommandErrorView>(
                (0x08u8, seq![0x01u8, lo, hi]),
            )
            &&& n <= 65535 ==> spec_command_payload("drive-down"@, args) == Ok::<_, CommandErrorView>(
                (0x08u8, seq![0xffu8, lo, hi]),
            )
            &&& n <= 65535 ==> spec_command_payload("drive-to"@, args) == Ok::<_, CommandErrorView>(
                (0x08u8, seq![0x00u8, 0x00u8, 0x00u8, lo, hi]),
            )
            &&& n > 65535 ==> spec_command_payload("drive-up"@, args) == Err::<(u8, Seq<u8>), _>(
                CommandErrorView::InvalidU16(n),
            ) && spec_command_payload("drive-down"@, args) == Err::<(u8, Seq<u8>), _>(
                CommandErrorView::InvalidU16(n),
            ) && spec_command_payload("drive-to"@, args) == Err::<(u8, Seq<u8>), _>(
                CommandErrorView::InvalidU16(n),
            )
            &&& spec_command_payload("drive-up"@, Seq::empty()) == Ok::<_, CommandErrorView>(
                (0x08u8, seq![0x01u8, 0x01u8, 0x00u8]),
            )
            &&& spec_command_payload("drive-to"@, Seq::empty()) == Err::<(u8, Seq<u8>), _>(
                CommandErrorView::MissingNumber("drive-to"@),
            )
        }),
{
    reveal_strlit("get-height");
    reveal_strlit("drive-up");
    reveal_strlit("drive-down");
    reveal_strlit("drive-to");
    reveal_strlit("get-occupancy");
    reveal_strlit("led-on");
    reveal_strlit("led-off");
    reveal_strlit("led-bind");
    reveal_strlit("buttons-bind");
    reveal_strlit("all-buttons-bind");
    reveal_strlit("get-serial-number");
    reveal_strlit("get-fw-id");
    reveal_strlit("get-table-stats");
    reveal_strlit("get-interface-stats");
    reveal_strlit("get-port-input");
    reveal_strlit("get-conn-interface");
    reveal_strlit("handset-protocol");
    reveal_strlit("handset-command");
    reveal_strlit("xcp-command");
    reveal_strlit("xcp-group-heights");
    reveal_strlit("xcp-init-group-count");
    reveal_strlit("xcp-init-channel-map");
    reveal_strlit("xcp-init-calibration-records");
    reveal_strlit("xcp-drive-to-group-raw");
    reveal_strlit("ble-set-name");
    reveal_strlit("ble-set-key");
    reveal_strlit("ble-gadget-read");
    reveal_strlit("ble-gadget-write");
    assert("drive-up"@.len() != "get-height"@.len());
    assert("drive-down"@[0] != "get-height"@[0]);
    assert("drive-down"@.len() != "drive-up"@.len());
    assert("drive-to"@.len() != "get-height"@.len());
    assert("drive-to"@[6] != "drive-up"@[6]);
    assert("drive-to"@.len() != "drive-down"@.len());
    let args = seq![ArgView::Number(n)];
    assert(spec_number(args, 0) == Some(n));
    assert(seq![0x00u8, 0x00u8, 0x00u8] + seq![lo_of(n), hi_of(n)] =~= seq![0x00u8, 0x00u8, 0x00u8, lo_of(n), hi_of(n)]);
    assert(seq![0x01u8] + seq![lo_of(n), hi_of(n)] =~= seq![0x01u8, lo_of(n), hi_of(n)]);
    assert(seq![0xffu8] + seq![lo_of(n), hi_of(n)] =~= seq![0xffu8, lo_of(n), hi_of(n)]);
    assert(seq![0x01u8] + seq![1u8, 0u8] =~= seq![0x01u8, 0x01u8, 0x00u8]);
}

spec fn lo_of(n: u64) -> u8 {
    (n % 256) as u8
}

spec fn hi_of(n: u64) -> u8 {
    (n / 256) as u8
}

/// The handset wrapper and the BLE gadget commands: `xcp-command` with a
/// relaxed flag `r`, request bytes `d` and response length `l` sends (command
/// `0x19`) `0x02`, the low bit of `r`, `l + 3`, the length of `d`, then `d`;
/// `handset-command` with subcommand, relaxed flag, pass-through byte and data
/// sends the subcommand and the flag's low bit, then (with data) the
/// pass-through byte, the data length and the data; `ble-gadget-read` sends
/// (command `0x11`) `02 01 0e` and its two 16-bit arguments little-endian;
/// `get-interface-stats` sends (command `0x22`) the port and the reset flag's
/// low bit.
pub proof fn lemma_wrapped_payloads(r: u64, d: Seq<u8>, l: u64, sub: u64, pt: u64, a: u64, b: u64)
    ensures
        r <= 255 && l + 3 <= 255 && d.len() <= 255 ==> spec_command_payload(
            "xcp-command"@,
            seq![ArgView::Number(r), ArgView::Bytes(d), ArgView::Number(l)],
        ) == Ok::<_, CommandErrorView>(
            (0x19u8, seq![0x02u8, (r % 2) as u8, (l + 3) as u8, d.len() as u8] + d),
        ),
        sub <= 255 && r <= 255 && pt <= 255 && 0 < d.len() <= 255 ==> spec_command_payload(
            "handset-command"@,
            seq![ArgView::Number(sub), ArgView::Number(r), ArgView::Number(pt), ArgView::Bytes(d)],
        ) == Ok::<_, CommandErrorView>(
            (0x19u8, seq![sub as u8, (r % 2) as u8, pt as u8, d.len() as u8] + d),
        ),
        sub <= 255 && r <= 255 && pt <= 255 ==> spec_command_payload(
            "handset-command"@,
            seq![ArgView::Number(sub), ArgView::Number(r), ArgView::Number(pt)],
        ) == Ok::<_, CommandErrorView>((0x19u8, seq![sub as u8, (r % 2) as u8])),
        a <= 65535 && b <= 65535 ==> spec_command_payload(
            "ble-gadget-read"@,
            seq![ArgView::Number(a), ArgView::Number(b)],
        ) == Ok::<_, CommandErrorView>(
            (
                0x11u8,
                seq![0x02u8, 0x01u8, 0x0eu8, (a % 256) as u8, (a / 256) as u8, (b % 256) as u8, (b / 256) as u8],
            ),
        ),
        a <= 255 && b <= 255 ==> spec_command_payload(
            "get-interface-stats"@,
            seq![ArgView::Number(a), ArgView::Number(b)],
        ) == Ok::<_, CommandErrorView>((0x22u8, seq![a as u8, (b % 2) as u8])),
{
    reveal_strlit("get-height");
    reveal_strlit("drive-up");
    reveal_strlit("drive-down");
    reveal_strlit("drive-to");
    reveal_strlit("get-occupancy");
    reveal_strlit("led-on");
    reveal_strlit("led-off");
    reveal_strlit("led-bind");
    reveal_strlit("buttons-bind");
    reveal_strlit("all-buttons-bind");
    reveal_strlit("get-serial-number");
    reveal_strlit("get-fw-id");
    reveal_strlit("get-table-stats");
    reveal_strlit("get-interface-stats");
    reveal_strlit("get-port-input");
    reveal_strlit("get-conn-interface");
    reveal_strlit("handset-protocol");
    reveal_strlit("handset-command");
    reveal_strlit("xcp-command");
    reveal_strlit("xcp-group-heights");
    reveal_strlit("xcp-init-group-count");
    reveal_strlit("xcp-init-channel-map");
    reveal_strlit("xcp-init-calibration-records");
    reveal_strlit("xcp-drive-to-group-raw");
    reveal_strlit("ble-set-name");
    reveal_strlit("ble-set-key");
    reveal_strlit("ble-gadget-read");
    reveal_strlit("ble-gadget-write");
    assert("xcp-command"@.len() != "get-height"@.len());
    assert("xcp-command"@.len() != "drive-up"@.len());
    assert("xcp-command"@.len() != "drive-down"@.len());
    assert("xcp-command"@.len() != "drive-to"@.len());
    assert("xcp-command"@.len() != "get-occupancy"@.len());
    assert("xcp-command"@.len() != "led-on"@.len());
    assert("xcp-command"@.len() != "led-off"@.len());
    assert("xcp-command"@.len() != "led-bind"@.len());
    assert("xcp-command"@.len() != "buttons-bind"@.len());
    assert("xcp-command"@.len() != "all-buttons-bind"@.len());
    assert("xcp-command"@.len() != "get-serial-number"@.len());
    assert("xcp-command"@.len() != "get-fw-id"@.len());
    assert("xcp-command"@.len() != "get-table-stats"@.len());
    assert("xcp-command"@.len() != "get-interface-stats"@.len());
    assert("xcp-command"@.len() != "get-port-input"@.len());
    assert("xcp-command"@.len() != "get-conn-interface"@.len());
    assert("xcp-command"@.len() != "handset-protocol"@.len());
    assert("xcp-command"@.len() != "handset-command"@.len());
    assert("handset-command"@.len() != "get-height"@.len());
    assert("handset-command"@.len() != "drive-up"@.len());
    assert("handset-command"@.len() != "drive-down"@.len());
    assert("handset-command"@.len() != "drive-to"@.len());
    assert("handset-command"@.len() != "get-occupancy"@.len());
    assert("handset-command"@.len() != "led-on"@.len());
    assert("handset-command"@.len() != "led-off"@.len());
    assert("handset-command"@.len() != "led-bind"@.len());
    assert("handset-command"@.len() != "buttons-bind"@.len());
    assert("handset-command"@.len() != "all-buttons-bind"@.len());
    assert("handset-command"@.len() != "get-serial-number"@.len());
    assert("handset-command"@.len() != "get-fw-id"@.len());
    assert("handset-command"@[0] != "get-table-stats"@[0]);
    assert("handset-command"@.len() != "get-interface-stats"@.len());
    assert("handset-command"@.len() != "get-port-input"@.len());
    assert("handset-command"@.len() != "get-conn-interface"@.len());
    assert("handset-command"@.len() != "handset-protocol"@.len());
    assert("ble-gadget-read"@.len() != "get-height"@.len());
    assert("ble-gadget-read"@.len() != "drive-up"@.len());
    assert("ble-gadget-read"@.len() != "drive-down"@.len());
    assert("ble-gadget-read"@.len() != "drive-to"@.len());
    assert("ble-gadget-read"@.len() != "get-occupancy"@.len());
    assert("ble-gadget-read"@.len() != "led-on"@.len());
    assert("ble-gadget-read"@.len() != "led-off"@.len());
    assert("ble-gadget-read"@.len() != "led-bind"@.len());
    assert("ble-gadget-read"@.len() != "buttons-bind"@.len());
    assert("ble-gadget-read"@.len() != "all-buttons-bind"@.len());
    assert("ble-gadget-read"@.len() != "get-serial-number"@.len());
    assert("ble-gadget-read"@.len() != "get-fw-id"@.len());
    assert("ble-gadget-read"@[0] != "get-table-stats"@[0]);
    assert("ble-gadget-read"@.len() != "get-interface-stats"@.len());
    assert("ble-gadget-read"@.len() != "get-port-input"@.len());
    assert("ble-gadget-read"@.len() != "get-conn-interface"@.len());
    assert("ble-gadget-read"@.len() != "handset-protocol"@.len());
    assert("ble-gadget-read"@[0] != "handset-command"@[0]);
    assert("ble-gadget-read"@.len() != "xcp-command"@.len());
    assert("ble-gadget-read"@.len() != "xcp-group-heights"@.len());
    assert("ble-gadget-read"@.len() != "xcp-init-group-count"@.len());
    assert("ble-gadget-read"@.len() != "xcp-init-channel-map"@.len());
    assert("ble-gadget-read"@.len() != "xcp-init-calibration-records"@.len());
    assert("ble-gadget-read"@.len() != "xcp-drive-to-group-raw"@.len());
    assert("ble-gadget-read"@.len() != "ble-set-name"@.len());
    assert("ble-gadget-read"@.len() != "ble-set-key"@.len());
    assert("get-interface-stats"@.len() != "get-height"@.len());
    assert("get-interface-stats"@.len() != "drive-up"@.len());
    assert("get-interface-stats"@.len() != "drive-down"@.len());
    assert("get-interface-stats"@.len() != "drive-to"@.len());
    assert("get-interface-stats"@.len() != "get-occupancy"@.len());
    assert("get-interface-stats"@.len() != "led-on"@.len());
    assert("get-interface-stats"@.len() != "led-off"@.len());
    assert("get-interface-stats"@.len() != "led-bind"@.len());
    assert("get-interface-stats"@.len() != "buttons-bind"@.len());
    assert("get-interface-stats"@.len() != "all-buttons-bind"@.len());
    assert("get-interface-stats"@.len() != "get-serial-number"@.len());
    assert("get-interface-stats"@.len() != "get-fw-id"@.len());
    assert("get-interface-stats"@.len() != "get-table-stats"@.len());
    let x = seq![ArgView::Number(r), ArgView::Bytes(d), ArgView::Number(l)];
    assert(spec_number(x, 0) == Some(r) && spec_bytes(x, 1) == Some(d) && spec_number(x, 2) == Some(l));
    let h = seq![ArgView::Number(sub), ArgView::Number(r), ArgView::Number(pt), ArgView::Bytes(d)];
    assert(spec_number(h, 0) == Some(sub) && spec_number(h, 1) == Some(r) && spec_number(h, 2)
        == Some(pt) && spec_bytes(h, 3) == Some(d));
    let h3 = seq![ArgView::Number(sub), ArgView::Number(r), ArgView::Number(pt)];
    assert(spec_number(h3, 0) == Some(sub) && spec_number(h3, 1) == Some(r) && spec_bytes(h3, 3)
        is None);
    let g = seq![ArgView::Number(a), ArgView::Number(b)];
    assert(spec_number(g, 0) == Some(a) && spec_number(g, 1) == Some(b));
    if r <= 255 {
        let rb = r as u8;
        assert((rb & 0x01u8) as int == rb as int % 2) by (bit_vector);
    }
    if b <= 255 {
        let bb = b as u8;
        assert((bb & 0x01u8) as int == bb as int % 2) by (bit_vector);
    }
    assert(seq![0x02u8, 0x01u8, 0x0eu8] + seq![(a % 256) as u8, (a / 256) as u8] + seq![
        (b % 256) as u8,
        (b / 256) as u8,
    ] =~= seq![0x02u8, 0x01u8, 0x0eu8, (a % 256) as u8, (a / 256) as u8, (b % 256) as u8, (b / 256) as u8]);
}

} // verus!
