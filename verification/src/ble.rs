use std::time::Duration;

use vstd::prelude::*;

use crate::commands::{
    bytes_or_empty, spec_ascii_arg, spec_ble_gadget_write, spec_handset_command, spec_xcp_command,
    args_view, command_payload, contains_name, payload_result_view, read_only_commands,
    read_only_names, spec_command_payload, ArgView, CommandArg, CommandError, CommandErrorView,
};
use crate::protocol::{
    encode_packet_with_nonce, random_nonce, spec_decode_slip_stream, spec_encode_packet,
    DecodeFrameView, ProtocolError, decode_slip_stream, frames_view,
};
use crate::response::{DetailView, ParsedResponse, ParsedView, ResponseDetail};
use crate::slip::{slip_encode, spec_slip_encode};
use crate::text::{hex_encode, hex_lower, hex_prefixed, spec_hex_prefixed, str_eq};

verus! {

/// The name prefix of LOGIClink desks.
pub const DEFAULT_DEVICE_NAME_PREFIX: &'static str = "LOGIClink";

/// What a guarded query asks for.
#[derive(Debug)]
pub struct QueryOptions {
    pub device_name: Option<String>,
    pub query: String,
    pub args: Vec<CommandArg>,
    pub characteristic: String,
    pub scan_timeout: Duration,
    pub connect_timeout: Duration,
    pub response_window: Duration,
    pub allow_motion: bool,
}

/// A height reading and when it arrived.
#[derive(Debug, Clone)]
pub struct HeightSample {
    pub received_at_ms: u128,
    pub height: i64,
}

/// Errors of the desk session that the library decides.
#[derive(Debug, Clone)]
pub enum BleError {
    QueryNotReadOnly(String),
    InterfaceStatsResetRefused,
    NoAdapters,
    NotDiscovered { device_name: String, timeout_ms: u128 },
    MultipleDevices(String),
    MissingDeviceName,
    HeightMonitorAlreadyStarted,
    ServiceNotFound(String),
    CharacteristicNotFound(String),
    Command(CommandError),
    Protocol(ProtocolError),
    Timeout(String),
}

// ---------------------------------------------------------------------------
// The read-only guard
// ---------------------------------------------------------------------------

/// The commands that move the desk.
pub open spec fn motion_names() -> Seq<Seq<char>> {
    seq!["drive-up"@, "drive-down"@, "drive-to"@]
}

/// The outcome of the guard: `None` when the query may run, otherwise the error.
/// A query may run when it only reads, or when it moves the desk and motion is
/// allowed; `get-interface-stats` may not ask for a reset (second argument
/// other than absent or the number 0).
pub open spec fn spec_guard(query: Seq<char>, args: Seq<ArgView>, allow_motion: bool) -> Option<
    GuardRefusal,
> {
    let is_read_only = read_only_names().contains(query);
    let is_allowed_motion = allow_motion && motion_names().contains(query);
    if !(is_read_only || is_allowed_motion) {
        Some(GuardRefusal::NotReadOnly)
    } else if query == "get-interface-stats"@ {
        if args.len() <= 1 || args[1] == ArgView::Number(0) {
            None
        } else {
            Some(GuardRefusal::ResetRefused)
        }
    } else {
        None
    }
}

/// Why the guard refuses a query.
pub enum GuardRefusal {
    NotReadOnly,
    ResetRefused,
}

/// The guard lets a query through only when it is one of the read-only
/// commands, or motion is allowed and it is `drive-up`, `drive-down` or
/// `drive-to`. Without motion allowed, each of the three motion commands is
/// refused as not read-only, whatever its arguments. A read-only query other
/// than `get-interface-stats` always passes, and `get-interface-stats` passes
/// exactly when its second argument is absent or the number 0.
pub proof fn lemma_guard_blocks_motion(query: Seq<char>, args: Seq<ArgView>, allow_motion: bool)
    ensures
        spec_guard(query, args, allow_motion) is None ==> read_only_names().contains(query) || (
        allow_motion && (query == "drive-up"@ || query == "drive-down"@ || query == "drive-to"@)),
        !allow_motion && (query == "drive-up"@ || query == "drive-down"@ || query == "drive-to"@)
            ==> spec_guard(query, args, allow_motion) == Some(GuardRefusal::NotReadOnly),
        allow_motion && (query == "drive-up"@ || query == "drive-down"@ || query == "drive-to"@)
            ==> spec_guard(query, args, allow_motion) is None,
        read_only_names().contains(query) && query != "get-interface-stats"@ ==> spec_guard(
            query,
            args,
            allow_motion,
        ) is None,
        query == "get-interface-stats"@ ==> (spec_guard(query, args, allow_motion) is None <==> (
        args.len() <= 1 || args[1] == ArgView::Number(0))),
        query == "get-interface-stats"@ && !(args.len() <= 1 || args[1] == ArgView::Number(0))
            ==> spec_guard(query, args, allow_motion) == Some(GuardRefusal::ResetRefused),
{
    reveal_strlit("drive-up");
    reveal_strlit("drive-down");
    reveal_strlit("drive-to");
    reveal_strlit("get-height");
    reveal_strlit("get-occupancy");
    reveal_strlit("get-serial-number");
    reveal_strlit("get-fw-id");
    reveal_strlit("get-table-stats");
    reveal_strlit("get-interface-stats");
    reveal_strlit("get-port-input");
    reveal_strlit("get-conn-interface");
    reveal_strlit("xcp-init-group-count");
    reveal_strlit("xcp-init-channel-map");
    reveal_strlit("xcp-init-calibration-records");
    reveal_strlit("xcp-group-heights");
    let names = read_only_names();
    assert(!names.contains("drive-up"@)) by {
        assert forall|i: int| 0 <= i < names.len() implies names[i] != "drive-up"@ by {
            assert(names[i].len() != "drive-up"@.len());
        }
    }
    assert(!names.contains("drive-to"@)) by {
        assert forall|i: int| 0 <= i < names.len() implies names[i] != "drive-to"@ by {
            assert(names[i].len() != "drive-to"@.len());
        }
    }
    assert(!names.contains("drive-down"@)) by {
        assert forall|i: int| 0 <= i < names.len() implies names[i] != "drive-down"@ by {
            if names[i].len() == "drive-down"@.len() {
                assert(names[i][0] != "drive-down"@[0]);
            }
        }
    }
    assert(motion_names().contains("drive-up"@)) by {
        assert(motion_names()[0] == "drive-up"@);
    }
    assert(motion_names().contains("drive-down"@)) by {
        assert(motion_names()[1] == "drive-down"@);
    }
    assert(motion_names().contains("drive-to"@)) by {
        assert(motion_names()[2] == "drive-to"@);
    }
    if motion_names().contains(query) {
        let i = choose|i: int| 0 <= i < motion_names().len() && motion_names()[i] == query;
        assert(i == 0 || i == 1 || i == 2);
    }
}

/// Refuses queries that could move the desk (unless motion is allowed) and
/// interface-statistics queries that would reset counters.
pub fn validate_read_only_query(options: &QueryOptions) -> (r: Result<(), BleError>)
    ensures
        match spec_guard(options.query@, args_view(options.args@), options.allow_motion) {
            None => r is Ok,
            Some(GuardRefusal::NotReadOnly) => r matches Err(BleError::QueryNotReadOnly(q)) && q@
                == options.query@,
            Some(GuardRefusal::ResetRefused) => r matches Err(
                BleError::InterfaceStatsResetRefused,
            ),
        },
{
    let motion_commands: Vec<&'static str> = vec!["drive-up", "drive-down", "drive-to"];
    assert(motion_commands@.map_values(|s: &str| s@) =~= motion_names());
    let query = options.query.as_str();
    let is_read_only = contains_name(&read_only_commands(), query);
    let is_allowed_motion = options.allow_motion && contains_name(&motion_commands, query);
    if !(is_read_only || is_allowed_motion) {
        return Err(BleError::QueryNotReadOnly(options.query.clone()));
    }
    if str_eq(query, "get-interface-stats") {
        if options.args.len() > 1 {
            match &options.args[1] {
                CommandArg::Number(n) => {
                    if *n != 0 {
                        return Err(BleError::InterfaceStatsResetRefused);
                    }
                },
                _ => {
                    return Err(BleError::InterfaceStatsResetRefused);
                },
            }
        }
    }
    Ok(())
}

// ---------------------------------------------------------------------------
// Device discovery
// ---------------------------------------------------------------------------

/// Whether `needle` occurs in `hay`.
pub open spec fn contains_text(hay: Seq<char>, needle: Seq<char>) -> bool {
    exists|i: int| 0 <= i <= hay.len() - needle.len() && #[trigger] hay.subrange(i, i + needle.len()) == needle
}

fn text_contains(hay: &str, needle: &str) -> (r: bool)
    ensures
        r == contains_text(hay@, needle@),
{
    let n = hay.unicode_len();
    let m = needle.unicode_len();
    if m > n {
        return false;
    }
    let last = n - m;
    let mut i: usize = 0;
    while i < last
        invariant
            n == hay@.len(),
            m == needle@.len(),
            last == n - m,
            i <= last,
            forall|j: int| 0 <= j < i ==> #[trigger] hay@.subrange(j, j + m) != needle@,
        decreases last - i,
    {
        if str_eq(hay.substring_char(i, i + m), needle) {
            return true;
        }
        i = i + 1;
    }
    let found = str_eq(hay.substring_char(last, n), needle);
    proof {
        if found {
            assert(hay@.subrange(last as int, last + m) == needle@);
        }
        if !found {
            assert forall|j: int| 0 <= j <= hay@.len() - needle@.len() implies #[trigger] hay@.subrange(
                j,
                j + needle@.len(),
            ) != needle@ by {
                if j < last {
                } else {
                    assert(j == last);
                }
            }
        }
    }
    found
}

/// Whether a desk advertised under `local_name` is the one asked for: the given
/// name exactly, or, without one, any name containing the prefix.
pub open spec fn spec_name_matches(local_name: Seq<char>, device_name: Option<Seq<char>>) -> bool {
    match device_name {
        Some(d) => local_name == d,
        None => contains_text(local_name, DEFAULT_DEVICE_NAME_PREFIX@),
    }
}

/// A desk asked for by name matches exactly that advertised name; without a
/// name, any advertised name containing `LOGIClink` matches. A desk not found
/// without a name is reported as `LOGIClink device`.
pub proof fn lemma_name_matching(local: Seq<char>, wanted: Seq<char>)
    ensures
        spec_name_matches(local, Some(wanted)) <==> local == wanted,
        spec_name_matches(local, None) <==> exists|i: int|
            0 <= i <= local.len() - 9 && #[trigger] local.subrange(i, i + 9) == "LOGIClink"@,
        DEFAULT_DEVICE_NAME_PREFIX@ + " device"@ == "LOGIClink device"@,
{
    reveal_strlit("LOGIClink");
    reveal_strlit(" device");
    reveal_strlit("LOGIClink device");
    assert(DEFAULT_DEVICE_NAME_PREFIX@.len() == 9);
    assert(DEFAULT_DEVICE_NAME_PREFIX@ + " device"@ =~= "LOGIClink device"@);
}

/// Decides whether an advertised name is the desk asked for. A matching desk
/// with an empty name is an error.
pub fn matching_device_name(local_name: Option<String>, device_name: Option<&str>) -> (r: Result<
    Option<String>,
    BleError,
>)
    ensures
        ({
            let local = match local_name {
                Some(s) => s@,
                None => Seq::empty(),
            };
            let wanted = match device_name {
                Some(d) => Some(d@),
                None => None,
            };
            if !spec_name_matches(local, wanted) {
                r matches Ok(None)
            } else if local.len() == 0 {
                r matches Err(BleError::MissingDeviceName)
            } else {
                r matches Ok(Some(s)) && s@ == local
            }
        }),
{
    let local_name = match local_name {
        Some(s) => s,
        None => String::new(),
    };
    let matches = match device_name {
        Some(d) => str_eq(local_name.as_str(), d),
        None => text_contains(local_name.as_str(), DEFAULT_DEVICE_NAME_PREFIX),
    };
    if matches {
        if local_name.as_str().unicode_len() == 0 {
            return Err(BleError::MissingDeviceName);
        }
        return Ok(Some(local_name));
    }
    Ok(None)
}

/// The items joined by a separator.
pub open spec fn seq_join(items: Seq<Seq<char>>, sep: Seq<char>) -> Seq<char>
    decreases items.len(),
{
    if items.len() == 0 {
        Seq::empty()
    } else if items.len() == 1 {
        items[0]
    } else {
        seq_join(items.drop_last(), sep) + sep + items.last()
    }
}

/// The contents of a list of strings.
pub open spec fn strings_view(items: Seq<String>) -> Seq<Seq<char>> {
    items.map_values(|s: String| s@)
}

/// Joins the strings with a separator.
pub fn join_strings(items: &Vec<String>, sep: &str) -> (r: String)
    ensures
        r@ == seq_join(strings_view(items@), sep@),
{
    let ghost views = strings_view(items@);
    let mut out = String::new();
    let mut i: usize = 0;
    while i < items.len()
        invariant
            i <= items.len(),
            views == strings_view(items@),
            out@ == seq_join(views.take(i as int), sep@),
        decreases items.len() - i,
    {
        if i != 0 {
            out.append(sep);
        }
        out.append(items[i].as_str());
        proof {
            assert(views.take(i + 1).drop_last() =~= views.take(i as int));
            if i == 0 {
                assert(seq_join(views.take(0), sep@) =~= Seq::<char>::empty());
                assert(out@ =~= views[0]);
            }
        }
        i = i + 1;
    }
    assert(views.take(items.len() as int) =~= views);
    out
}

/// One decision of the scan: use a found desk, fail, or keep scanning.
pub enum ScanDecision {
    Use(usize),
    Fail(BleError),
    Wait,
}

/// What one pass over the discovered desks decides: with a name asked for, the
/// first match; without one, the only match, or an error naming all matches;
/// otherwise, past the deadline, an error, and before it, another pass.
pub fn scan_decision(
    names: &Vec<String>,
    device_name: Option<&str>,
    past_deadline: bool,
    timeout_ms: u128,
) -> (d: ScanDecision)
    ensures
        device_name is Some && names.len() > 0 ==> d matches ScanDecision::Use(0),
        device_name is None && names.len() == 1 ==> d matches ScanDecision::Use(0),
        device_name is None && names.len() > 1 ==> (d matches ScanDecision::Fail(
            BleError::MultipleDevices(s),
        ) && s@ == seq_join(strings_view(names@), ", "@)),
        names.len() == 0 ==> (if past_deadline {
            (d matches ScanDecision::Fail(BleError::NotDiscovered { device_name: n, timeout_ms: t })
                && t == timeout_ms && n@ == (match device_name {
                Some(x) => x@,
                None => DEFAULT_DEVICE_NAME_PREFIX@ + " device"@,
            }))
        } else {
            d is Wait
        }),
{
    if device_name.is_some() {
        if names.len() > 0 {
            return ScanDecision::Use(0);
        }
    } else if names.len() == 1 {
        return ScanDecision::Use(0);
    } else if names.len() > 1 {
        return ScanDecision::Fail(BleError::MultipleDevices(join_strings(names, ", ")));
    }
    if past_deadline {
        let name = match device_name {
            Some(d) => String::from_str(d),
            None => String::from_str(DEFAULT_DEVICE_NAME_PREFIX).concat(" device"),
        };
        return ScanDecision::Fail(BleError::NotDiscovered { device_name: name, timeout_ms });
    }
    ScanDecision::Wait
}


// ---------------------------------------------------------------------------
// Requests
// ---------------------------------------------------------------------------

/// A request ready to be written: the command byte and nonce, the SLIP frame,
/// and their text forms.
#[derive(Debug, Clone)]
pub struct Request {
    pub command: u8,
    pub nonce: [u8; 2],
    pub frame: Vec<u8>,
    pub requested_command: String,
    pub requested_nonce: String,
    pub wrote: String,
}

/// Byte arguments that a `Vec` can hold.
pub open spec fn args_fit(args: Seq<ArgView>) -> bool {
    forall|i: int| 0 <= i < args.len() ==> (#[trigger] args[i] matches ArgView::Bytes(b) ==> b.len() <= usize::MAX)
}

proof fn lemma_args_fit(args: Seq<CommandArg>)
    ensures
        args_fit(args_view(args)),
{
    assert forall|i: int| 0 <= i < args_view(args).len() implies (#[trigger] args_view(args)[i] matches ArgView::Bytes(b) ==> b.len() <= usize::MAX) by {
        let a = args[i];
        match a {
            CommandArg::Bytes(v) => {
                assert(v@.len() == v.len());
            },
            _ => {},
        }
    }
}

proof fn lemma_handset_fits(args: Seq<ArgView>)
    requires
        args_fit(args),
    ensures
        spec_handset_command(args) matches Ok(p) ==> p.len() <= 259,
{
    assert(bytes_or_empty(args, 3).len() <= usize::MAX);
}

proof fn lemma_xcp_fits(args: Seq<ArgView>)
    requires
        args_fit(args),
    ensures
        spec_xcp_command(args) matches Ok(p) ==> p.len() <= 259,
{
    assert(bytes_or_empty(args, 1).len() <= usize::MAX);
}

proof fn lemma_gadget_write_fits(args: Seq<ArgView>)
    requires
        args_fit(args),
    ensures
        spec_ble_gadget_write(args) matches Ok(p) ==> p.len() <= 263,
{
    assert(bytes_or_empty(args, 2).len() <= usize::MAX);
}

/// Every payload that `command_payload` gives fits in a packet.
#[verifier::rlimit(40)]
pub proof fn lemma_payload_fits(name: Seq<char>, args: Seq<ArgView>)
    requires
        args_fit(args),
    ensures
        spec_command_payload(name, args) matches Ok((c, p)) ==> p.len() <= 300,
{
    lemma_handset_fits(args);
    lemma_xcp_fits(args);
    lemma_gadget_write_fits(args);
}

/// What `build_request` gives for a query, its arguments and a nonce.
pub open spec fn request_matches(
    r: Result<Request, BleError>,
    query: Seq<char>,
    args: Seq<ArgView>,
    nonce: Seq<u8>,
) -> bool {
    match spec_command_payload(query, args) {
        Err(e) => r matches Err(BleError::Command(ce)) && ce@ == e,
        Ok((c, p)) => r matches Ok(req) && req.command == c && req.nonce@ == nonce && req.frame@
            == spec_slip_encode(spec_encode_packet(c, p, nonce)) && req.requested_command@
            == spec_hex_prefixed(c) && req.requested_nonce@ == hex_lower(nonce) && req.wrote@
            == hex_lower(req.frame@),
    }
}

/// Encodes a named command with the given nonce into a SLIP-framed packet.
pub fn build_request(query: &str, args: &[CommandArg], nonce: [u8; 2]) -> (r: Result<
    Request,
    BleError,
>)
    requires
        crate::commands::command_args_ok(query@, args_view(args@)),
    ensures
        request_matches(r, query@, args_view(args@), nonce@),
{
    let (command, payload) = match command_payload(query, args) {
        Ok(cp) => cp,
        Err(e) => {
            return Err(BleError::Command(e));
        },
    };
    proof {
        lemma_args_fit(args@);
        lemma_payload_fits(query@, args_view(args@));
    }
    let packet = encode_packet_with_nonce(command, payload.as_slice(), nonce);
    let frame = slip_encode(packet.as_slice());
    let requested_command = hex_prefixed(command);
    let requested_nonce = hex_encode(nonce.as_slice());
    let wrote = hex_encode(frame.as_slice());
    Ok(Request { command, nonce, frame, requested_command, requested_nonce, wrote })
}

/// Encodes a named command with a random nonce into a SLIP-framed packet.
pub fn build_request_random(query: &str, args: &[CommandArg]) -> (r: Result<Request, BleError>)
    requires
        crate::commands::command_args_ok(query@, args_view(args@)),
    ensures
        exists|nonce: Seq<u8>| nonce.len() == 2 && #[trigger] request_matches(r, query@, args_view(args@), nonce),
{
    let nonce = random_nonce();
    build_request(query, args, nonce)
}

// ---------------------------------------------------------------------------
// Notifications
// ---------------------------------------------------------------------------

/// A decoded notification: one record per frame, or one error record.
#[derive(Debug, Clone)]
pub enum NotificationRecord {
    Frame {
        raw_notification: String,
        raw_packet: String,
        command: String,
        command_name: String,
        status: u8,
        nonce: String,
        payload: String,
        parsed: ParsedResponse,
        trailing_remainder: String,
        received_at_ms: Option<u128>,
    },
    Error { raw_notification: String, error: ProtocolError, received_at_ms: Option<u128> },
}

/// What a record holds.
pub enum RecordView {
    Frame {
        raw_notification: Seq<char>,
        raw_packet: Seq<char>,
        command: Seq<char>,
        command_name: Seq<char>,
        status: u8,
        nonce: Seq<char>,
        payload: Seq<char>,
        parsed: ParsedView,
        trailing_remainder: Seq<char>,
        received_at_ms: Option<u128>,
    },
    Error { raw_notification: Seq<char>, error: ProtocolError, received_at_ms: Option<u128> },
}

impl View for NotificationRecord {
    type V = RecordView;

    open spec fn view(&self) -> RecordView {
        match self {
            NotificationRecord::Frame {
                raw_notification,
                raw_packet,
                command,
                command_name,
                status,
                nonce,
                payload,
                parsed,
                trailing_remainder,
                received_at_ms,
            } => RecordView::Frame {
                raw_notification: raw_notification@,
                raw_packet: raw_packet@,
                command: command@,
                command_name: command_name@,
                status: *status,
                nonce: nonce@,
                payload: payload@,
                parsed: parsed@,
                trailing_remainder: trailing_remainder@,
                received_at_ms: *received_at_ms,
            },
            NotificationRecord::Error { raw_notification, error, received_at_ms } => RecordView::Error {
                raw_notification: raw_notification@,
                error: *error,
                received_at_ms: *received_at_ms,
            },
        }
    }
}

impl NotificationRecord {
    /// A copy with the same contents.
    pub fn duplicate(&self) -> (c: NotificationRecord)
        ensures
            c@ == self@,
    {
        match self {
            NotificationRecord::Frame {
                raw_notification,
                raw_packet,
                command,
                command_name,
                status,
                nonce,
                payload,
                parsed,
                trailing_remainder,
                received_at_ms,
            } => NotificationRecord::Frame {
                raw_notification: raw_notification.clone(),
                raw_packet: raw_packet.clone(),
                command: command.clone(),
                command_name: command_name.clone(),
                status: *status,
                nonce: nonce.clone(),
                payload: payload.clone(),
                parsed: parsed.duplicate(),
                trailing_remainder: trailing_remainder.clone(),
                received_at_ms: *received_at_ms,
            },
            NotificationRecord::Error { raw_notification, error, received_at_ms } => NotificationRecord::Error {
                raw_notification: raw_notification.clone(),
                error: error.duplicate(),
                received_at_ms: *received_at_ms,
            },
        }
    }
}

/// The records' contents.
pub open spec fn records_view(v: Seq<NotificationRecord>) -> Seq<RecordView> {
    v.map_values(|r: NotificationRecord| r@)
}

/// The record of one decoded frame of a notification.
pub open spec fn frame_record(
    notification: Seq<u8>,
    f: DecodeFrameView,
    remainder: Seq<u8>,
    at: Option<u128>,
) -> RecordView {
    RecordView::Frame {
        raw_notification: hex_lower(notification),
        raw_packet: hex_lower(f.raw_packet),
        command: f.command_hex,
        command_name: f.command_name,
        status: f.status,
        nonce: f.nonce,
        payload: hex_lower(f.payload),
        parsed: f.parsed,
        trailing_remainder: hex_lower(remainder),
        received_at_ms: at,
    }
}

/// The records of one notification: one per decoded frame, or one error record
/// when the stream does not decode.
pub open spec fn spec_decode_notification(n: Seq<u8>, at: Option<u128>) -> Seq<RecordView> {
    match spec_decode_slip_stream(n) {
        Ok((frames, remainder)) => frames.map_values(
            |f: DecodeFrameView| frame_record(n, f, remainder, at),
        ),
        Err(e) => seq![RecordView::Error { raw_notification: hex_lower(n), error: e, received_at_ms: at }],
    }
}

/// Decodes one notification into records, each stamped with `received_at_ms`.
pub fn decode_notification(notification: &[u8], received_at_ms: Option<u128>) -> (r: Vec<
    NotificationRecord,
>)
    ensures
        records_view(r@) == spec_decode_notification(notification@, received_at_ms),
{
    let raw_notification = hex_encode(notification);
    match decode_slip_stream(notification) {
        Ok(decoded) => {
            let ghost all = frames_view(decoded.frames@);
            let remainder = hex_encode(decoded.remainder.as_slice());
            let mut frames = decoded.frames;
            let mut out: Vec<NotificationRecord> = Vec::new();
            let ghost mut done: int = 0;
            while frames.len() > 0
                invariant
                    0 <= done <= all.len(),
                    frames_view(frames@) == all.subrange(done, all.len() as int),
                    raw_notification@ == hex_lower(notification@),
                    remainder@ == hex_lower(decoded.remainder@),
                    records_view(out@) == all.take(done).map_values(
                        |f: DecodeFrameView| frame_record(notification@, f, decoded.remainder@, received_at_ms),
                    ),
                decreases frames.len(),
            {
                let ghost old_frames = frames@;
                proof {
                    assert(frames_view(old_frames).len() == old_frames.len());
                    assert(frames_view(old_frames)[0] == old_frames[0]@);
                }
                let frame = frames.remove(0);
                proof {
                    assert(frame@ == all[done]);
                }
                let record = NotificationRecord::Frame {
                    raw_notification: raw_notification.clone(),
                    raw_packet: hex_encode(frame.raw_packet.as_slice()),
                    command: frame.command_hex,
                    command_name: frame.command_name,
                    status: frame.status,
                    nonce: frame.nonce,
                    payload: hex_encode(frame.payload.as_slice()),
                    parsed: frame.parsed,
                    trailing_remainder: remainder.clone(),
                    received_at_ms,
                };
                let ghost before = out@;
                out.push(record);
                proof {
                    assert(records_view(out@) =~= records_view(before).push(record@));
                    assert(all.take(done + 1) =~= all.take(done).push(all[done]));
                    done = done + 1;
                    assert(records_view(out@) =~= all.take(done).map_values(
                        |f: DecodeFrameView| frame_record(notification@, f, decoded.remainder@, received_at_ms),
                    ));
                    assert(frames@ =~= old_frames.subrange(1, old_frames.len() as int));
                    assert forall|k: int| 0 <= k < frames@.len() implies #[trigger] frames_view(frames@)[k]
                        == all.subrange(done, all.len() as int)[k] by {
                        assert(frames_view(frames@)[k] == frames@[k]@);
                        assert(frames@[k] == old_frames[k + 1]);
                        assert(frames_view(old_frames)[k + 1] == old_frames[k + 1]@);
                    }
                    assert(frames_view(frames@) =~= all.subrange(done, all.len() as int));
                }
            }
            proof {
                assert(all.take(done) =~= all);
            }
            out
        },
        Err(error) => {
            let out = vec![NotificationRecord::Error { raw_notification, error, received_at_ms }];
            assert(records_view(out@) =~= spec_decode_notification(notification@, received_at_ms));
            out
        },
    }
}


/// The records of notifications received one after another.
pub open spec fn spec_decode_notifications(ns: Seq<Seq<u8>>) -> Seq<RecordView>
    decreases ns.len(),
{
    if ns.len() == 0 {
        Seq::empty()
    } else {
        spec_decode_notifications(ns.drop_last()) + spec_decode_notification(ns.last(), None)
    }
}

/// The records of notifications with their receive times.
pub open spec fn spec_decode_timed_notifications(ns: Seq<(Seq<u8>, u128)>) -> Seq<RecordView>
    decreases ns.len(),
{
    if ns.len() == 0 {
        Seq::empty()
    } else {
        spec_decode_timed_notifications(ns.drop_last()) + spec_decode_notification(
            ns.last().0,
            Some(ns.last().1),
        )
    }
}

fn append_records(out: &mut Vec<NotificationRecord>, more: Vec<NotificationRecord>)
    ensures
        records_view(final(out)@) == records_view(old(out)@) + records_view(more@),
{
    let mut more = more;
    let ghost all = records_view(more@);
    let ghost start = records_view(out@);
    let ghost mut done: int = 0;
    while more.len() > 0
        invariant
            0 <= done <= all.len(),
            records_view(more@) == all.subrange(done, all.len() as int),
            records_view(out@) == start + all.take(done),
        decreases more.len(),
    {
        let ghost old_more = more@;
        proof {
            assert(records_view(old_more).len() == old_more.len());
            assert(records_view(old_more)[0] == old_more[0]@);
            assert(all.subrange(done, all.len() as int)[0] == all[done]);
        }
        let r = more.remove(0);
        let ghost before = out@;
        out.push(r);
        proof {
            assert(records_view(out@) =~= records_view(before).push(r@));
            assert(all.take(done + 1) =~= all.take(done).push(all[done]));
            done = done + 1;
            assert(records_view(out@) =~= start + all.take(done));
            assert forall|k: int| 0 <= k < more@.len() implies #[trigger] records_view(more@)[k]
                == all.subrange(done, all.len() as int)[k] by {
                assert(more@[k] == old_more[k + 1]);
                assert(records_view(old_more)[k + 1] == old_more[k + 1]@);
            }
            assert(records_view(more@) =~= all.subrange(done, all.len() as int));
        }
    }
    proof {
        assert(all.take(done) =~= all);
    }
}

/// Decodes notifications received one after another.
pub fn decode_notifications(notifications: &Vec<Vec<u8>>) -> (r: Vec<NotificationRecord>)
    ensures
        records_view(r@) == spec_decode_notifications(crate::slip::vecs_view(notifications@)),
{
    let ghost ns = crate::slip::vecs_view(notifications@);
    let mut out: Vec<NotificationRecord> = Vec::new();
    let mut i: usize = 0;
    assert(records_view(out@) =~= Seq::<RecordView>::empty());
    while i < notifications.len()
        invariant
            i <= notifications.len(),
            ns == crate::slip::vecs_view(notifications@),
            records_view(out@) == spec_decode_notifications(ns.take(i as int)),
        decreases notifications.len() - i,
    {
        let more = decode_notification(notifications[i].as_slice(), None);
        append_records(&mut out, more);
        proof {
            assert(ns.take(i + 1).drop_last() =~= ns.take(i as int));
        }
        i = i + 1;
    }
    assert(ns.take(notifications.len() as int) =~= ns);
    out
}

/// The notifications with their receive times, as values.
pub open spec fn timed_view(v: Seq<(Vec<u8>, u128)>) -> Seq<(Seq<u8>, u128)> {
    v.map_values(|p: (Vec<u8>, u128)| (p.0@, p.1))
}

/// Decodes notifications, stamping each record with its notification's receive time.
pub fn decode_timed_notifications(notifications: &Vec<(Vec<u8>, u128)>) -> (r: Vec<
    NotificationRecord,
>)
    ensures
        records_view(r@) == spec_decode_timed_notifications(timed_view(notifications@)),
{
    let ghost ns = timed_view(notifications@);
    let mut out: Vec<NotificationRecord> = Vec::new();
    let mut i: usize = 0;
    assert(records_view(out@) =~= Seq::<RecordView>::empty());
    while i < notifications.len()
        invariant
            i <= notifications.len(),
            ns == timed_view(notifications@),
            records_view(out@) == spec_decode_timed_notifications(ns.take(i as int)),
        decreases notifications.len() - i,
    {
        let (bytes, at) = &notifications[i];
        let more = decode_notification(bytes.as_slice(), Some(*at));
        append_records(&mut out, more);
        proof {
            assert(ns.take(i + 1).drop_last() =~= ns.take(i as int));
        }
        i = i + 1;
    }
    assert(ns.take(notifications.len() as int) =~= ns);
    out
}

// ---------------------------------------------------------------------------
// Matching responses to requests
// ---------------------------------------------------------------------------

/// Whether a record is a frame of the given command (as `0x..` text).
pub open spec fn record_has_command(r: RecordView, command: Seq<char>) -> bool {
    r matches RecordView::Frame { command: c, .. } && c == command
}

/// Whether a record is a frame of the given command and nonce (as text).
pub open spec fn record_answers(r: RecordView, command: Seq<char>, nonce: Seq<char>) -> bool {
    r matches RecordView::Frame { command: c, nonce: n, .. } && c == command && n == nonce
}

pub fn record_matches_command(r: &NotificationRecord, command: &str) -> (b: bool)
    ensures
        b == record_has_command(r@, command@),
{
    match r {
        NotificationRecord::Frame { command: c, .. } => str_eq(c.as_str(), command),
        NotificationRecord::Error { .. } => false,
    }
}

pub fn record_matches_request(r: &NotificationRecord, command: &str, nonce: &str) -> (b: bool)
    ensures
        b == record_answers(r@, command@, nonce@),
{
    match r {
        NotificationRecord::Frame { command: c, nonce: n, .. } => str_eq(c.as_str(), command)
            && str_eq(n.as_str(), nonce),
        NotificationRecord::Error { .. } => false,
    }
}

/// The records for which the test (by command and nonce when `nonce` is given,
/// by command alone otherwise) comes out as `want`, in order.
pub open spec fn select_records(
    v: Seq<RecordView>,
    command: Seq<char>,
    nonce: Option<Seq<char>>,
    want: bool,
) -> Seq<RecordView>
    decreases v.len(),
{
    if v.len() == 0 {
        Seq::empty()
    } else {
        let prev = select_records(v.drop_last(), command, nonce, want);
        let r = v.last();
        let hit = match nonce {
            Some(n) => record_answers(r, command, n),
            None => record_has_command(r, command),
        };
        if hit == want {
            prev.push(r)
        } else {
            prev
        }
    }
}

fn select(
    v: &Vec<NotificationRecord>,
    command: &str,
    nonce: Option<&str>,
    want: bool,
) -> (r: Vec<NotificationRecord>)
    ensures
        records_view(r@) == select_records(
            records_view(v@),
            command@,
            match nonce {
                Some(n) => Some(n@),
                None => None,
            },
            want,
        ),
{
    let ghost all = records_view(v@);
    let ghost nv: Option<Seq<char>> = match nonce {
        Some(n) => Some(n@),
        None => None,
    };
    let mut out: Vec<NotificationRecord> = Vec::new();
    let mut i: usize = 0;
    assert(records_view(out@) =~= Seq::<RecordView>::empty());
    while i < v.len()
        invariant
            i <= v.len(),
            all == records_view(v@),
            nv == (match nonce {
                Some(n) => Some(n@),
                None => None::<Seq<char>>,
            }),
            records_view(out@) == select_records(all.take(i as int), command@, nv, want),
        decreases v.len() - i,
    {
        let hit = match nonce {
            Some(n) => record_matches_request(&v[i], command, n),
            None => record_matches_command(&v[i], command),
        };
        proof {
            assert(all.take(i + 1).drop_last() =~= all.take(i as int));
            assert(all.take(i + 1).last() == v@[i as int]@);
        }
        if hit == want {
            let ghost before = out@;
            let copy = v[i].duplicate();
            out.push(copy);
            proof {
                assert(records_view(out@) =~= records_view(before).push(copy@));
            }
        }
        i = i + 1;
    }
    assert(all.take(v.len() as int) =~= all);
    out
}

/// The outcome of a query: what was sent, what came back, and which
/// notifications answer the request.
#[derive(Debug, Clone)]
pub struct QueryResult {
    pub device_name: String,
    pub query: String,
    pub characteristic: String,
    pub wrote: String,
    pub requested_command: String,
    pub requested_nonce: String,
    pub match_kind: String,
    pub matched_notifications: Vec<NotificationRecord>,
    pub other_notifications: Vec<NotificationRecord>,
    pub notifications: Vec<NotificationRecord>,
}

/// How the answers to a request are chosen: frames with its command and nonce;
/// failing those, frames with its command; failing those, none. The other
/// notifications are the rest, by the same test.
pub open spec fn spec_match(decoded: Seq<RecordView>, command: Seq<char>, nonce: Seq<char>) -> (
    Seq<RecordView>,
    Seq<char>,
    Seq<RecordView>,
) {
    let exact = select_records(decoded, command, Some(nonce), true);
    let by_command = select_records(decoded, command, None, true);
    if exact.len() > 0 {
        (exact, "command-and-nonce"@, select_records(decoded, command, Some(nonce), false))
    } else if by_command.len() > 0 {
        (by_command, "command-only-fallback"@, select_records(decoded, command, None, false))
    } else {
        (Seq::empty(), "none"@, select_records(decoded, command, None, false))
    }
}

/// Assembles the outcome of a query from the request and the decoded notifications.
pub fn query_result(
    device_name: String,
    query: String,
    characteristic: String,
    request: &Request,
    decoded: Vec<NotificationRecord>,
) -> (r: QueryResult)
    ensures
        r.device_name == device_name,
        r.query == query,
        r.characteristic == characteristic,
        r.wrote@ == request.wrote@,
        r.requested_command@ == request.requested_command@,
        r.requested_nonce@ == request.requested_nonce@,
        (records_view(r.matched_notifications@), r.match_kind@, records_view(
            r.other_notifications@,
        )) == spec_match(records_view(decoded@), request.requested_command@, request.requested_nonce@),
        records_view(r.notifications@) == records_view(decoded@),
{
    let command = request.requested_command.as_str();
    let nonce = request.requested_nonce.as_str();
    let exact = select(&decoded, command, Some(nonce), true);
    let by_command = select(&decoded, command, None, true);
    let (matched, kind, others) = if exact.len() > 0 {
        let others = select(&decoded, command, Some(nonce), false);
        (exact, "command-and-nonce", others)
    } else if by_command.len() > 0 {
        let others = select(&decoded, command, None, false);
        (by_command, "command-only-fallback", others)
    } else {
        let others = select(&decoded, command, None, false);
        let none: Vec<NotificationRecord> = Vec::new();
        assert(records_view(none@) =~= Seq::<RecordView>::empty());
        (none, "none", others)
    };
    QueryResult {
        device_name,
        query,
        characteristic,
        wrote: request.wrote.clone(),
        requested_command: request.requested_command.clone(),
        requested_nonce: request.requested_nonce.clone(),
        match_kind: String::from_str(kind),
        matched_notifications: matched,
        other_notifications: others,
        notifications: decoded,
    }
}

/// The test that `select_records` applies to one record.
pub open spec fn record_hit(r: RecordView, command: Seq<char>, nonce: Option<Seq<char>>) -> bool {
    match nonce {
        Some(n) => record_answers(r, command, n),
        None => record_has_command(r, command),
    }
}

proof fn lemma_select_split(v: Seq<RecordView>, command: Seq<char>, nonce: Option<Seq<char>>)
    ensures
        select_records(v, command, nonce, true).len() + select_records(v, command, nonce, false).len()
            == v.len(),
        forall|i: int|
            0 <= i < select_records(v, command, nonce, true).len() ==> record_hit(
                #[trigger] select_records(v, command, nonce, true)[i],
                command,
                nonce,
            ),
        forall|i: int|
            0 <= i < select_records(v, command, nonce, false).len() ==> !record_hit(
                #[trigger] select_records(v, command, nonce, false)[i],
                command,
                nonce,
            ),
        (exists|k: int| 0 <= k < v.len() && record_hit(#[trigger] v[k], command, nonce))
            ==> select_records(v, command, nonce, true).len() > 0,
    decreases v.len(),
{
    if v.len() > 0 {
        let w = v.drop_last();
        lemma_select_split(w, command, nonce);
        if exists|k: int| 0 <= k < v.len() && record_hit(#[trigger] v[k], command, nonce) {
            let k = choose|k: int| 0 <= k < v.len() && record_hit(#[trigger] v[k], command, nonce);
            if k < v.len() - 1 {
                assert(w[k] == v[k]);
            }
        }
    }
}

/// Matching splits the decoded notifications: every one lands either among
/// the answers or among the others; the answers all carry the request's
/// command (and its nonce, for an exact match) and the others do not; and
/// when some notification carries both the command and the nonce, the match
/// is exact.
pub proof fn lemma_match_partitions(decoded: Seq<RecordView>, command: Seq<char>, nonce: Seq<char>)
    ensures
        ({
            let (matched, kind, others) = spec_match(decoded, command, nonce);
            &&& matched.len() + others.len() == decoded.len()
            &&& kind == "command-and-nonce"@ ==> (forall|i: int|
                0 <= i < matched.len() ==> record_answers(#[trigger] matched[i], command, nonce))
                && (forall|i: int|
                0 <= i < others.len() ==> !record_answers(#[trigger] others[i], command, nonce))
            &&& kind != "command-and-nonce"@ ==> (forall|i: int|
                0 <= i < matched.len() ==> record_has_command(#[trigger] matched[i], command))
                && (forall|i: int|
                0 <= i < others.len() ==> !record_has_command(#[trigger] others[i], command))
            &&& (exists|k: int| 0 <= k < decoded.len() && record_answers(#[trigger] decoded[k], command, nonce))
                ==> kind == "command-and-nonce"@
        }),
{
    lemma_select_split(decoded, command, Some(nonce));
    lemma_select_split(decoded, command, None);
    reveal_strlit("command-and-nonce");
    reveal_strlit("command-only-fallback");
    reveal_strlit("none");
    assert("command-only-fallback"@.len() != "command-and-nonce"@.len());
    assert("none"@.len() != "command-and-nonce"@.len());
    if exists|k: int| 0 <= k < decoded.len() && record_answers(#[trigger] decoded[k], command, nonce) {
        let k = choose|k: int| 0 <= k < decoded.len() && record_answers(#[trigger] decoded[k], command, nonce);
        assert(record_hit(decoded[k], command, Some(nonce)));
    }
    if select_records(decoded, command, Some(nonce), true).len() == 0
        && select_records(decoded, command, None, true).len() == 0 {
        assert forall|k: int| 0 <= k < decoded.len() implies !record_has_command(
            #[trigger] decoded[k],
            command,
        ) by {
            if record_has_command(decoded[k], command) {
                assert(record_hit(decoded[k], command, None));
            }
        }
    }
}

/// Whether a notification holds a frame that answers the request with the
/// given command byte and nonce.
pub open spec fn spec_notification_answers(n: Seq<u8>, command: u8, nonce: Seq<u8>) -> bool {
    match spec_decode_slip_stream(n) {
        Err(_) => false,
        Ok((frames, _)) => exists|i: int|
            0 <= i < frames.len() && (#[trigger] frames[i]).command == command && frames[i].nonce
                == hex_lower(nonce),
    }
}

/// Whether a notification answers the request with the given command and nonce.
pub fn notification_matches_request(notification: &[u8], command: u8, nonce: [u8; 2]) -> (b: bool)
    ensures
        b == spec_notification_answers(notification@, command, nonce@),
{
    let nonce_text = hex_encode(nonce.as_slice());
    match decode_slip_stream(notification) {
        Ok(decoded) => {
            let ghost fs = frames_view(decoded.frames@);
            let mut i: usize = 0;
            while i < decoded.frames.len()
                invariant
                    i <= decoded.frames.len(),
                    fs == frames_view(decoded.frames@),
                    spec_decode_slip_stream(notification@) matches Ok((frames, _)) && frames == fs,
                    nonce_text@ == hex_lower(nonce@),
                    forall|j: int| 0 <= j < i ==> !((#[trigger] fs[j]).command == command && fs[j].nonce == hex_lower(nonce@)),
                decreases decoded.frames.len() - i,
            {
                let f = &decoded.frames[i];
                proof {
                    assert(fs[i as int] == f@);
                }
                if f.command == command && str_eq(f.nonce.as_str(), nonce_text.as_str()) {
                    return true;
                }
                i = i + 1;
            }
            false
        },
        Err(_) => false,
    }
}

/// The height that a record reports, if it is a height response.
pub open spec fn spec_record_height(r: RecordView) -> Option<i64> {
    match r {
        RecordView::Frame { parsed: ParsedView::Result { detail: DetailView::Height { height, .. }, .. }, .. } => Some(height as i64),
        _ => None,
    }
}

/// The height that a notification record reports, if any.
pub fn notification_height(r: &NotificationRecord) -> (h: Option<i64>)
    ensures
        h == spec_record_height(r@),
{
    match r {
        NotificationRecord::Frame { parsed, .. } => match parsed.height() {
            Some(height) => Some(height as i64),
            None => None,
        },
        NotificationRecord::Error { .. } => None,
    }
}

/// The samples from `index` on, and the index after the last sample.
pub fn samples_since(samples: &Vec<HeightSample>, index: usize) -> (r: (usize, Vec<HeightSample>))
    ensures
        r.0 == samples.len(),
        r.1@.len() == (if index <= samples.len() { samples.len() - index } else { 0 }),
        forall|k: int| 0 <= k < r.1@.len() ==> (#[trigger] r.1@[k]).height == samples@[index + k].height
            && r.1@[k].received_at_ms == samples@[index + k].received_at_ms,
{
    let next_index = samples.len();
    let mut out: Vec<HeightSample> = Vec::new();
    if index <= samples.len() {
        let mut i = index;
        while i < samples.len()
            invariant
                index <= i <= samples.len(),
                out@.len() == i - index,
                forall|k: int| 0 <= k < out@.len() ==> (#[trigger] out@[k]).height == samples@[index + k].height
                    && out@[k].received_at_ms == samples@[index + k].received_at_ms,
            decreases samples.len() - i,
        {
            let s = &samples[i];
            out.push(HeightSample { received_at_ms: s.received_at_ms, height: s.height });
            i = i + 1;
        }
    }
    (next_index, out)
}

} // verus!
