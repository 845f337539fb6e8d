use rand::RngCore;
use vstd::prelude::*;

use crate::response::{parse_response, spec_parse_response, ParsedResponse, ParsedView};
use crate::slip::{
    encode_frames, lemma_extract_encoded_frames, spec_extract_slip_frames, spec_slip_encode,
};
use crate::text::{hex_encode, hex_lower, hex_prefixed, spec_hex_prefixed, str_eq};
use crate::xxtea::{
    lemma_xxtea_roundtrip, pad4, padded_len, spec_xxtea_decrypt, spec_xxtea_encrypt, xxtea_len_ok,
};

pub use crate::slip::{extract_slip_frames, slip_decode, slip_encode};
pub use crate::xxtea::{xxtea_decrypt, xxtea_encrypt};

verus! {

/// The LOGIClink GATT service.
pub const GATT_SERVICE: &'static str = "b9934c435c91462b80a130fccc29d758";

/// The characteristic that the app protocol uses.
pub const APP_CHARACTERISTIC: &'static str = "b9934c445c91462b80a130fccc29d758";

/// The second vendor characteristic.
pub const EXTRA_CHARACTERISTIC: &'static str = "b9934c455c91462b80a130fccc29d758";

/// Errors of characteristic selection and packet decoding.
#[derive(Debug, Clone, PartialEq, Eq)]
pub enum ProtocolError {
    UnknownCharacteristic(String),
    InvalidNonce,
    PacketTooShort,
    DecryptedPacketTooShort { len: usize },
    EncryptedLengthMismatch { header: usize, actual: usize },
    PayloadLengthMismatch { payload_len: usize, plain_len: usize },
    CrcMismatch { header: u16, actual: u16 },
}

/// A decoded packet.
#[derive(Debug, Clone)]
pub struct Packet {
    pub command: u8,
    pub status: u8,
    pub nonce: [u8; 2],
    pub payload: Vec<u8>,
    pub plain: Vec<u8>,
}

/// What a packet holds, as mathematical values.
pub struct PacketView {
    pub command: u8,
    pub status: u8,
    pub nonce: Seq<u8>,
    pub payload: Seq<u8>,
    pub plain: Seq<u8>,
}

impl View for Packet {
    type V = PacketView;

    open spec fn view(&self) -> PacketView {
        PacketView {
            command: self.command,
            status: self.status,
            nonce: self.nonce@,
            payload: self.payload@,
            plain: self.plain@,
        }
    }
}

/// One shift of the CRC-16/CCITT-FALSE register (polynomial 0x1021).
pub open spec fn crc_bit_step(crc: u16) -> u16 {
    if crc & 0x8000u16 != 0 {
        ((crc << 1u16) ^ 0x1021u16) as u16
    } else {
        (crc << 1u16) as u16
    }
}

/// The register after `n` shifts.
pub open spec fn crc_bits(crc: u16, n: nat) -> u16
    decreases n,
{
    if n == 0 {
        crc
    } else {
        crc_bit_step(crc_bits(crc, (n - 1) as nat))
    }
}

/// The register after feeding one byte, most significant bit first.
pub open spec fn crc_byte_step(crc: u16, byte: u8) -> u16 {
    crc_bits((crc ^ ((byte as u16) << 8u16)) as u16, 8)
}

/// CRC-16/CCITT-FALSE: initial value 0xffff, no reflection, no final xor.
pub open spec fn spec_crc16(bytes: Seq<u8>) -> u16
    decreases bytes.len(),
{
    if bytes.len() == 0 {
        0xffffu16
    } else {
        crc_byte_step(spec_crc16(bytes.drop_last()), bytes.last())
    }
}

proof fn lemma_crc_residue_register(c: u16)
    ensures
        crc_byte_step(crc_byte_step(c, (c >> 8u16) as u8), (c & 0xffu16) as u8) == 0,
{
    reveal_with_fuel(crc_bits, 9);
    let x0 = (c ^ ((((c >> 8u16) as u8) as u16) << 8u16)) as u16;
    let x1 = crc_bit_step(x0);
    let x2 = crc_bit_step(x1);
    let x3 = crc_bit_step(x2);
    let x4 = crc_bit_step(x3);
    let x5 = crc_bit_step(x4);
    let x6 = crc_bit_step(x5);
    let x7 = crc_bit_step(x6);
    let x8 = crc_bit_step(x7);
    assert(crc_byte_step(c, (c >> 8u16) as u8) == x8);
    let y0 = (x8 ^ ((((c & 0xffu16) as u8) as u16) << 8u16)) as u16;
    let y1 = crc_bit_step(y0);
    let y2 = crc_bit_step(y1);
    let y3 = crc_bit_step(y2);
    let y4 = crc_bit_step(y3);
    let y5 = crc_bit_step(y4);
    let y6 = crc_bit_step(y5);
    let y7 = crc_bit_step(y6);
    let y8 = crc_bit_step(y7);
    assert(crc_byte_step(x8, (c & 0xffu16) as u8) == y8);
    assert(y8 == 0) by (bit_vector)
        requires
            x0 == (c ^ ((((c >> 8u16) as u8) as u16) << 8u16)) as u16,
            x1 == crc_bit_step(x0),
            x2 == crc_bit_step(x1),
            x3 == crc_bit_step(x2),
            x4 == crc_bit_step(x3),
            x5 == crc_bit_step(x4),
            x6 == crc_bit_step(x5),
            x7 == crc_bit_step(x6),
            x8 == crc_bit_step(x7),
            y0 == (x8 ^ ((((c & 0xffu16) as u8) as u16) << 8u16)) as u16,
            y1 == crc_bit_step(y0),
            y2 == crc_bit_step(y1),
            y3 == crc_bit_step(y2),
            y4 == crc_bit_step(y3),
            y5 == crc_bit_step(y4),
            y6 == crc_bit_step(y5),
            y7 == crc_bit_step(y6),
            y8 == crc_bit_step(y7),
    ;
}

/// Appending a message's checksum to it, most significant byte first, gives a
/// message whose checksum is zero.
pub proof fn lemma_crc_residue(m: Seq<u8>)
    ensures
        spec_crc16(
            m + seq![(spec_crc16(m) >> 8u16) as u8, (spec_crc16(m) & 0xffu16) as u8],
        ) == 0,
{
    let c = spec_crc16(m);
    let hi = (c >> 8u16) as u8;
    let lo = (c & 0xffu16) as u8;
    let s = m + seq![hi, lo];
    assert(s.drop_last() =~= m.push(hi));
    assert(m.push(hi).drop_last() =~= m);
    assert(spec_crc16(m.push(hi)) == crc_byte_step(c, hi));
    assert(spec_crc16(s) == crc_byte_step(crc_byte_step(c, hi), lo));
    lemma_crc_residue_register(c);
}

/// The table-free CRC-16/CCITT update for polynomial `0x1021`:
/// `x = (crc >> 8) ^ byte; x ^= x >> 4; crc = (crc << 8) ^ (x << 12) ^ (x << 5) ^ x`.
pub open spec fn ccitt_update(crc: u16, byte: u8) -> u16 {
    let x0 = (((crc >> 8u16) as u8) ^ byte) as u8;
    let x = (x0 ^ (x0 >> 4u8)) as u8;
    ((crc << 8u16) ^ ((x as u16) << 12u16) ^ ((x as u16) << 5u16) ^ (x as u16)) as u16
}

proof fn lemma_byte_step_is_ccitt_update(c: u16, b: u8)
    ensures
        crc_byte_step(c, b) == ccitt_update(c, b),
{
    reveal_with_fuel(crc_bits, 9);
    let x0 = (c ^ ((b as u16) << 8u16)) as u16;
    let x1 = crc_bit_step(x0);
    let x2 = crc_bit_step(x1);
    let x3 = crc_bit_step(x2);
    let x4 = crc_bit_step(x3);
    let x5 = crc_bit_step(x4);
    let x6 = crc_bit_step(x5);
    let x7 = crc_bit_step(x6);
    let x8 = crc_bit_step(x7);
    assert(crc_byte_step(c, b) == x8);
    let r = ccitt_update(c, b);
    assert(x8 == r) by (bit_vector)
        requires
            x0 == (c ^ ((b as u16) << 8u16)) as u16,
            x1 == crc_bit_step(x0),
            x2 == crc_bit_step(x1),
            x3 == crc_bit_step(x2),
            x4 == crc_bit_step(x3),
            x5 == crc_bit_step(x4),
            x6 == crc_bit_step(x5),
            x7 == crc_bit_step(x6),
            x8 == crc_bit_step(x7),
            r == ccitt_update(c, b),
    ;
}

/// The checksum is CRC-16/CCITT-FALSE: it starts from `0xffff` and takes in
/// each byte in turn by the table-free update for polynomial `0x1021`.
pub proof fn lemma_crc_is_ccitt_false(m: Seq<u8>, b: u8)
    ensures
        spec_crc16(Seq::empty()) == 0xffffu16,
        spec_crc16(m.push(b)) == ccitt_update(spec_crc16(m), b),
{
    assert(m.push(b).drop_last() =~= m);
    lemma_byte_step_is_ccitt_update(spec_crc16(m), b);
}

/// Computes the CRC-16/CCITT-FALSE checksum of `bytes`.
pub fn crc16_ccitt_false(bytes: &[u8]) -> (crc: u16)
    ensures
        crc == spec_crc16(bytes@),
{
    let mut crc: u16 = 0xffff;
    let mut i: usize = 0;
    while i < bytes.len()
        invariant
            i <= bytes.len(),
            crc == spec_crc16(bytes@.take(i as int)),
        decreases bytes.len() - i,
    {
        let byte = bytes[i];
        let start: u16 = crc ^ ((byte as u16) << 8u16);
        crc = start;
        let mut j: u32 = 0;
        while j < 8
            invariant
                j <= 8,
                crc == crc_bits(start, j as nat),
            decreases 8 - j,
        {
            crc = if crc & 0x8000 != 0 {
                (crc << 1u16) ^ 0x1021
            } else {
                crc << 1u16
            };
            j = j + 1;
        }
        proof {
            assert(bytes@.take(i + 1).drop_last() =~= bytes@.take(i as int));
        }
        i = i + 1;
    }
    proof {
        assert(bytes@.take(bytes.len() as int) =~= bytes@);
    }
    crc
}


// ---------------------------------------------------------------------------
// Packets
// ---------------------------------------------------------------------------

/// The checksum field of a packet header (bytes 2 and 3, little-endian).
pub open spec fn header_crc(raw: Seq<u8>) -> u16 {
    ((raw[2] as u16) | ((raw[3] as u16) << 8u16)) as u16
}

/// The encrypted part of a packet.
pub open spec fn packet_body(raw: Seq<u8>) -> Seq<u8> {
    raw.subrange(4, raw.len() as int)
}

/// The error that decoding `raw` gives, if any, in the order the checks are made.
pub open spec fn packet_error(raw: Seq<u8>) -> Option<ProtocolError> {
    if raw.len() < 8 {
        Some(ProtocolError::PacketTooShort)
    } else {
        let encrypted_len = raw[0] as int + 4;
        let body = packet_body(raw);
        let plain = spec_xxtea_decrypt(body);
        if body.len() != encrypted_len {
            Some(
                ProtocolError::EncryptedLengthMismatch {
                    header: encrypted_len as usize,
                    actual: body.len() as usize,
                },
            )
        } else if spec_crc16(body) != header_crc(raw) {
            Some(ProtocolError::CrcMismatch { header: header_crc(raw), actual: spec_crc16(body) })
        } else if plain.len() < 4 {
            Some(ProtocolError::DecryptedPacketTooShort { len: plain.len() as usize })
        } else if plain.len() < 4 + raw[1] {
            Some(
                ProtocolError::PayloadLengthMismatch {
                    payload_len: raw[1] as usize,
                    plain_len: plain.len() as usize,
                },
            )
        } else {
            None
        }
    }
}

proof fn lemma_header_crc_value(raw: Seq<u8>)
    requires
        raw.len() >= 4,
    ensures
        header_crc(raw) as int == raw[2] as int + 256 * raw[3] as int,
{
    let a = raw[2];
    let b = raw[3];
    assert(((a as u16) | ((b as u16) << 8u16)) as u16 == (a as u16) + 256 * (b as u16)) by (bit_vector);
}

/// A packet is accepted only when its header is consistent with its body:
/// byte 0 plus four is the length of the encrypted part, the checksum of the
/// encrypted part equals the whole 16-bit little-endian value of bytes 2 and 3,
/// and the decrypted part holds the four header bytes and as many payload
/// bytes as byte 1 says. A packet whose checksum field differs from the
/// checksum of its body is refused with both values.
pub proof fn lemma_decode_checks_header(raw: Seq<u8>)
    ensures
        packet_error(raw) is None ==> {
            &&& raw.len() >= 8
            &&& raw.len() == raw[0] as int + 8
            &&& spec_crc16(raw.subrange(4, raw.len() as int)) as int == raw[2] as int + 256
                * raw[3] as int
            &&& spec_xxtea_decrypt(raw.subrange(4, raw.len() as int)).len() >= 4 + raw[1] as int
        },
        raw.len() >= 8 && raw.len() == raw[0] as int + 8 && spec_crc16(
            raw.subrange(4, raw.len() as int),
        ) as int != raw[2] as int + 256 * raw[3] as int ==> packet_error(raw) == Some(
            ProtocolError::CrcMismatch {
                header: (raw[2] as int + 256 * raw[3] as int) as u16,
                actual: spec_crc16(raw.subrange(4, raw.len() as int)),
            },
        ),
{
    if raw.len() >= 4 {
        lemma_header_crc_value(raw);
    }
}

/// The packet that `raw` decodes to when `packet_error(raw)` is `None`.
pub open spec fn packet_decoded(raw: Seq<u8>) -> PacketView {
    let plain = spec_xxtea_decrypt(packet_body(raw));
    PacketView {
        command: plain[0],
        status: plain[1],
        nonce: seq![plain[2], plain[3]],
        payload: plain.subrange(4, 4 + raw[1] as int),
        plain: plain,
    }
}

/// The plaintext of a request: command, a zero status byte, the nonce, the payload.
pub open spec fn request_plain(command: u8, payload: Seq<u8>, nonce: Seq<u8>) -> Seq<u8> {
    seq![command, 0u8, nonce[0], nonce[1]] + payload
}

/// The wire form of a request packet: encrypted length minus four, payload
/// length, checksum of the encrypted bytes (little-endian), encrypted bytes.
/// Both lengths are taken modulo 256.
pub open spec fn spec_encode_packet(command: u8, payload: Seq<u8>, nonce: Seq<u8>) -> Seq<u8> {
    let encrypted = spec_xxtea_encrypt(request_plain(command, payload, nonce));
    let crc = spec_crc16(encrypted);
    seq![
        ((encrypted.len() - 4) % 256) as u8,
        (payload.len() % 256) as u8,
        (crc & 0xffu16) as u8,
        (crc >> 8u16) as u8,
    ] + encrypted
}

/// The layout of a request packet: byte 0 is the encrypted length minus four
/// and byte 1 the payload length (both modulo 256), bytes 2 and 3 hold the
/// CRC of the encrypted part little-endian, and the rest is the XXTEA
/// encryption of the command, a zero status byte, the two nonce bytes and the
/// payload. A packet that decodes gives the command, status and nonce from the
/// first four decrypted bytes and the payload from the next `raw[1]` bytes.
pub proof fn lemma_packet_layout(command: u8, payload: Seq<u8>, nonce: Seq<u8>, raw: Seq<u8>)
    requires
        nonce.len() == 2,
    ensures
        ({
            let pk = spec_encode_packet(command, payload, nonce);
            let enc = spec_xxtea_encrypt(seq![command, 0u8, nonce[0], nonce[1]] + payload);
            &&& pk.len() == enc.len() + 4
            &&& pk[0] as int == (enc.len() - 4) % 256
            &&& pk[1] as int == payload.len() % 256
            &&& pk[2] as int + 256 * pk[3] as int == spec_crc16(enc) as int
            &&& pk.subrange(4, pk.len() as int) == enc
        }),
        packet_error(raw) is None ==> ({
            let plain = spec_xxtea_decrypt(raw.subrange(4, raw.len() as int));
            let d = packet_decoded(raw);
            &&& d.command == plain[0]
            &&& d.status == plain[1]
            &&& d.nonce == seq![plain[2], plain[3]]
            &&& d.payload == plain.subrange(4, 4 + raw[1] as int)
            &&& d.payload.len() == raw[1] as int
        }),
{
    let plain = seq![command, 0u8, nonce[0], nonce[1]] + payload;
    assert(request_plain(command, payload, nonce) =~= plain);
    let enc = spec_xxtea_encrypt(plain);
    lemma_xxtea_roundtrip(plain);
    let c = spec_crc16(enc);
    assert(((c & 0xffu16) as u8) as int + 256 * ((c >> 8u16) as u8) as int == c as int) by (bit_vector);
    let pk = spec_encode_packet(command, payload, nonce);
    assert(pk.subrange(4, pk.len() as int) =~= enc);
}

/// The payload lengths that `encode_packet` accepts.
pub open spec fn payload_len_ok(len: nat) -> bool {
    xxtea_len_ok(len + 4)
}

/// Encodes a request packet with the given nonce.
pub fn encode_packet_with_nonce(command: u8, payload: &[u8], nonce: [u8; 2]) -> (packet: Vec<u8>)
    requires
        payload_len_ok(payload.len() as nat),
    ensures
        packet@ == spec_encode_packet(command, payload@, nonce@),
{
    let mut plain: Vec<u8> = Vec::new();
    plain.push(command);
    plain.push(0x00);
    plain.push(nonce[0]);
    plain.push(nonce[1]);
    let mut i: usize = 0;
    while i < payload.len()
        invariant
            i <= payload.len(),
            plain@ =~= request_plain(command, payload@, nonce@).take(4 + i),
        decreases payload.len() - i,
    {
        plain.push(payload[i]);
        i = i + 1;
    }
    assert(plain@ =~= request_plain(command, payload@, nonce@));
    let encrypted = xxtea_encrypt(plain.as_slice());
    proof {
        lemma_xxtea_roundtrip(plain@);
    }
    let crc = crc16_ccitt_false(encrypted.as_slice());
    let mut out: Vec<u8> = Vec::new();
    out.push(((encrypted.len() - 4) % 256) as u8);
    out.push((payload.len() % 256) as u8);
    out.push((crc & 0xff) as u8);
    out.push((crc >> 8u16) as u8);
    let mut j: usize = 0;
    while j < encrypted.len()
        invariant
            j <= encrypted.len(),
            out@.len() == 4 + j,
            out@ =~= spec_encode_packet(command, payload@, nonce@).take(4 + j),
            encrypted@ == spec_xxtea_encrypt(request_plain(command, payload@, nonce@)),
            crc == spec_crc16(encrypted@),
        decreases encrypted.len() - j,
    {
        out.push(encrypted[j]);
        j = j + 1;
    }
    assert(out@ =~= spec_encode_packet(command, payload@, nonce@));
    out
}

/// Two bytes from the system's random number generator.
#[verifier::external_body]
pub(crate) fn random_nonce() -> (nonce: [u8; 2]) {
    let mut bytes = [0_u8; 2];
    rand::thread_rng().fill_bytes(&mut bytes);
    bytes
}

/// Encodes a request packet; without a nonce, a random one is drawn.
pub fn encode_packet(command: u8, payload: &[u8], nonce: Option<[u8; 2]>) -> (packet: Vec<u8>)
    requires
        payload_len_ok(payload.len() as nat),
    ensures
        nonce matches Some(n) ==> packet@ == spec_encode_packet(command, payload@, n@),
        nonce is None ==> exists|n: Seq<u8>|
            n.len() == 2 && packet@ == #[trigger] spec_encode_packet(command, payload@, n),
{
    let nonce = match nonce {
        Some(n) => n,
        None => random_nonce(),
    };
    encode_packet_with_nonce(command, payload, nonce)
}

/// Decodes a packet: checks the length and checksum fields, decrypts, and splits
/// the plaintext into command, status, nonce and payload.
pub fn decode_packet(raw_packet: &[u8]) -> (res: Result<Packet, ProtocolError>)
    ensures
        match packet_error(raw_packet@) {
            Some(e) => res == Err::<Packet, ProtocolError>(e),
            None => res matches Ok(p) && p@ == packet_decoded(raw_packet@),
        },
{
    if raw_packet.len() < 8 {
        return Err(ProtocolError::PacketTooShort);
    }
    let encrypted_len = raw_packet[0] as usize + 4;
    let payload_len = raw_packet[1] as usize;
    let crc: u16 = (raw_packet[2] as u16) | ((raw_packet[3] as u16) << 8u16);
    let encrypted = &raw_packet[4..raw_packet.len()];
    if encrypted.len() != encrypted_len {
        return Err(
            ProtocolError::EncryptedLengthMismatch { header: encrypted_len, actual: encrypted.len() },
        );
    }
    let actual_crc = crc16_ccitt_false(encrypted);
    if actual_crc != crc {
        return Err(ProtocolError::CrcMismatch { header: crc, actual: actual_crc });
    }
    let plain = xxtea_decrypt(encrypted);
    if plain.len() < 4 {
        return Err(ProtocolError::DecryptedPacketTooShort { len: plain.len() });
    }
    let required_plain_len = 4 + payload_len;
    if plain.len() < required_plain_len {
        return Err(
            ProtocolError::PayloadLengthMismatch { payload_len, plain_len: plain.len() },
        );
    }
    let payload = vstd::slice::slice_to_vec(&plain.as_slice()[4..required_plain_len]);
    let nonce: [u8; 2] = [plain[2], plain[3]];
    assert(nonce@ =~= seq![plain@[2], plain@[3]]);
    Ok(Packet { command: plain[0], status: plain[1], nonce, payload, plain })
}

/// Decoding an encoded request gives back its command, nonce and payload, with a
/// zero status, for every payload of at most 252 bytes.
pub proof fn lemma_packet_roundtrip(command: u8, payload: Seq<u8>, nonce: Seq<u8>)
    requires
        nonce.len() == 2,
        payload.len() <= 252,
    ensures
        packet_error(spec_encode_packet(command, payload, nonce)) is None,
        packet_decoded(spec_encode_packet(command, payload, nonce)) == (PacketView {
            command,
            status: 0u8,
            nonce,
            payload,
            plain: pad4(request_plain(command, payload, nonce)),
        }),
{
    let plain = request_plain(command, payload, nonce);
    let encrypted = spec_xxtea_encrypt(plain);
    let raw = spec_encode_packet(command, payload, nonce);
    lemma_xxtea_roundtrip(plain);
    let crc = spec_crc16(encrypted);
    assert(packet_body(raw) =~= encrypted);
    assert(header_crc(raw) == crc) by {
        assert((((crc & 0xffu16) as u8) as u16 | ((((crc >> 8u16) as u8) as u16) << 8u16))
            == crc) by (bit_vector);
    }
    let padded = pad4(plain);
    assert(padded.subrange(4, 4 + payload.len() as int) =~= payload);
    assert(seq![padded[2], padded[3]] =~= nonce);
}

// ---------------------------------------------------------------------------
// Command names and characteristics
// ---------------------------------------------------------------------------

/// The name of a command byte.
pub open spec fn spec_command_name(command: u8) -> Seq<char> {
    if command == 0x08 {
        "height/motion"@
    } else if command == 0x09 {
        "occupancy"@
    } else if command == 0x0a {
        "led"@
    } else if command == 0x11 {
        "ble-gadget"@
    } else if command == 0x19 {
        "handset"@
    } else if command == 0x1a {
        "buttons-bind"@
    } else if command == 0x1b {
        "led-bind"@
    } else if command == 0x1c {
        "serial-number"@
    } else if command == 0x1d {
        "firmware-id"@
    } else if command == 0x1f {
        "dispatch-data"@
    } else if command == 0x21 {
        "table-stats"@
    } else if command == 0x22 {
        "interface-stats"@
    } else if command == 0x27 {
        "port-input"@
    } else if command == 0x2b {
        "connection-interface"@
    } else if command == 0x30 {
        "handset-protocol"@
    } else {
        "unknown"@
    }
}

/// Names a command byte.
pub fn command_name(command: u8) -> (name: &'static str)
    ensures
        name@ == spec_command_name(command),
{
    match command {
        0x08 => "height/motion",
        0x09 => "occupancy",
        0x0a => "led",
        0x11 => "ble-gadget",
        0x19 => "handset",
        0x1a => "buttons-bind",
        0x1b => "led-bind",
        0x1c => "serial-number",
        0x1d => "firmware-id",
        0x1f => "dispatch-data",
        0x21 => "table-stats",
        0x22 => "interface-stats",
        0x27 => "port-input",
        0x2b => "connection-interface",
        0x30 => "handset-protocol",
        _ => "unknown",
    }
}

/// A character with ASCII letters `A` to `Z` mapped to `a` to `z`.
pub open spec fn ascii_lower_char(c: char) -> char {
    if 'A' <= c && c <= 'Z' {
        ((c as u32) + 32) as char
    } else {
        c
    }
}

/// The text with ASCII letters in lower case and every other character unchanged.
pub open spec fn ascii_lower(s: Seq<char>) -> Seq<char> {
    s.map_values(|c: char| ascii_lower_char(c))
}

proof fn lemma_char_from_code(a: char, b: char)
    requires
        a as u32 == b as u32,
    ensures
        a == b,
{
}

/// The lowercase ASCII letters, in order.
pub const LOWER_LETTERS: &'static str = "abcdefghijklmnopqrstuvwxyz";

/// The text with ASCII letters `A` to `Z` in lower case.
fn to_ascii_lowercase(s: &str) -> (r: String)
    ensures
        r@ == ascii_lower(s@),
{
    proof {
        reveal_strlit("abcdefghijklmnopqrstuvwxyz");
    }
    let letters = LOWER_LETTERS;
    assert(forall|k: int| 0 <= k < 26 ==> (#[trigger] letters@[k]) as u32 == k + 97);
    let n = s.unicode_len();
    let mut out = String::new();
    let mut i: usize = 0;
    while i < n
        invariant
            n == s@.len(),
            i <= n,
            letters@.len() == 26,
            forall|k: int| 0 <= k < 26 ==> (#[trigger] letters@[k]) as u32 == k + 97,
            out@ == ascii_lower(s@.take(i as int)),
        decreases n - i,
    {
        let c = s.get_char(i);
        let piece = if 'A' <= c && c <= 'Z' {
            let k = (c as u32 - 65) as usize;
            letters.substring_char(k, k + 1)
        } else {
            s.substring_char(i, i + 1)
        };
        proof {
            assert(piece@.len() == 1);
            if 'A' <= c && c <= 'Z' {
                let k = c as u32 - 65;
                assert(piece@[0] == letters@[k as int]);
                assert(piece@[0] as u32 == c as u32 + 32);
                assert(ascii_lower_char(c) as u32 == c as u32 + 32);
                lemma_char_from_code(piece@[0], ascii_lower_char(c));
            } else {
                assert(piece@[0] == s@[i as int]);
            }
            assert(piece@[0] == ascii_lower_char(c));
            assert(ascii_lower(s@.take(i + 1)) =~= ascii_lower(s@.take(i as int)) + piece@);
        }
        out.append(piece);
        i = i + 1;
    }
    proof {
        assert(s@.take(n as int) =~= s@);
    }
    out
}

/// An ASCII hexadecimal digit, in either case.
pub open spec fn is_hex_digit(c: char) -> bool {
    ('0' <= c && c <= '9') || ('a' <= c && c <= 'f') || ('A' <= c && c <= 'F')
}

/// Selector text that names a characteristic by its 128-bit UUID: 32 bytes,
/// all hexadecimal digits.
pub open spec fn is_uuid_text(s: Seq<char>) -> bool {
    &&& vstd::utf8::encode_utf8(s).len() == 32
    &&& forall|i: int| 0 <= i < s.len() ==> is_hex_digit(#[trigger] s[i])
}

/// The characteristic that a selector names: `app` or `c44` (or the app UUID),
/// `extra` or `c45` (or the extra UUID), any other UUID as lowercase hex; the
/// selector is matched without regard to ASCII case.
pub open spec fn spec_resolve_characteristic(selector: Seq<char>) -> Option<Seq<char>> {
    let normalized = ascii_lower(selector);
    if normalized == "app"@ || normalized == "c44"@ || normalized == APP_CHARACTERISTIC@ {
        Some(APP_CHARACTERISTIC@)
    } else if normalized == "extra"@ || normalized == "c45"@ || normalized
        == EXTRA_CHARACTERISTIC@ {
        Some(EXTRA_CHARACTERISTIC@)
    } else if is_uuid_text(normalized) {
        Some(normalized)
    } else {
        None
    }
}

proof fn lemma_ascii_lower_idempotent(s: Seq<char>)
    ensures
        ascii_lower(ascii_lower(s)) == ascii_lower(s),
{
    assert(ascii_lower(ascii_lower(s)) =~= ascii_lower(s));
}

proof fn lemma_ascii_lower_keeps(t: Seq<char>)
    requires
        forall|i: int| 0 <= i < t.len() ==> !('A' <= #[trigger] t[i] && t[i] <= 'Z'),
    ensures
        ascii_lower(t) == t,
{
    assert(ascii_lower(t) =~= t);
}

/// What the selectors name, in any ASCII case: `app` and `c44` the
/// characteristic `b9934c445c91462b80a130fccc29d758`, `extra` and `c45` the
/// characteristic `b9934c455c91462b80a130fccc29d758`; any other 32 hexadecimal
/// digits name that UUID in lower case; anything else names nothing.
pub proof fn lemma_selectors(selector: Seq<char>)
    ensures
        ascii_lower(selector) == "app"@ || ascii_lower(selector) == "c44"@ ==> spec_resolve_characteristic(
            selector,
        ) == Some("b9934c445c91462b80a130fccc29d758"@),
        ascii_lower(selector) == "extra"@ || ascii_lower(selector) == "c45"@ ==> spec_resolve_characteristic(
            selector,
        ) == Some("b9934c455c91462b80a130fccc29d758"@),
        spec_resolve_characteristic(selector) matches Some(r) ==> r.len() == 32 && forall|i: int|
            0 <= i < 32 ==> ('0' <= #[trigger] r[i] <= '9' || 'a' <= r[i] <= 'f'),
        selector.len() == 32 && (forall|i: int|
            0 <= i < 32 ==> ('0' <= #[trigger] selector[i] <= '9' || 'a' <= selector[i] <= 'f'
                || 'A' <= selector[i] <= 'F')) ==> spec_resolve_characteristic(selector) == Some(
            ascii_lower(selector),
        ),
        !(selector.len() == 32 || ascii_lower(selector) == "app"@ || ascii_lower(selector) == "c44"@
            || ascii_lower(selector) == "extra"@ || ascii_lower(selector) == "c45"@)
            ==> spec_resolve_characteristic(selector) is None,
{
    reveal_strlit("b9934c445c91462b80a130fccc29d758");
    reveal_strlit("b9934c455c91462b80a130fccc29d758");
    reveal_strlit("app");
    reveal_strlit("c44");
    reveal_strlit("extra");
    reveal_strlit("c45");
    let n = ascii_lower(selector);
    let app = APP_CHARACTERISTIC@;
    let extra = EXTRA_CHARACTERISTIC@;
    assert(app[7] != extra[7]);
    assert("c45"@[0] != "app"@[0] && "c45"@[2] != "c44"@[2]);
    assert("extra"@.len() != "app"@.len() && "extra"@.len() != "c44"@.len());
    assert(forall|i: int| 0 <= i < 32 ==> ('0' <= #[trigger] app[i] <= '9' || 'a' <= app[i] <= 'f'));
    assert(forall|i: int| 0 <= i < 32 ==> ('0' <= #[trigger] extra[i] <= '9' || 'a' <= extra[i] <= 'f'));
    assert(n.len() == selector.len());
    if forall|i: int| 0 <= i < n.len() ==> is_hex_digit(#[trigger] n[i]) {
        assert(vstd::utf8::is_ascii_chars(n));
        vstd::utf8::is_ascii_chars_encode_utf8(n);
        assert forall|i: int| 0 <= i < n.len() implies ('0' <= #[trigger] n[i] <= '9' || 'a' <= n[i]
            <= 'f') by {
            assert(n[i] == ascii_lower_char(selector[i]));
        }
    }
    if selector.len() == 32 && (forall|i: int|
        0 <= i < 32 ==> ('0' <= #[trigger] selector[i] <= '9' || 'a' <= selector[i] <= 'f'
            || 'A' <= selector[i] <= 'F')) {
        assert forall|i: int| 0 <= i < n.len() implies is_hex_digit(#[trigger] n[i]) by {
            assert(n[i] == ascii_lower_char(selector[i]));
        }
    }
}

/// Resolving the UUID that a selector resolves to gives that UUID again.
pub proof fn lemma_resolve_idempotent(selector: Seq<char>)
    ensures
        spec_resolve_characteristic(selector) matches Some(r) ==> spec_resolve_characteristic(r)
            == Some(r),
{
    reveal_strlit("b9934c445c91462b80a130fccc29d758");
    reveal_strlit("b9934c455c91462b80a130fccc29d758");
    let normalized = ascii_lower(selector);
    lemma_ascii_lower_idempotent(selector);
    let app = APP_CHARACTERISTIC@;
    let extra = EXTRA_CHARACTERISTIC@;
    assert(forall|i: int| 0 <= i < app.len() ==> !('A' <= #[trigger] app[i] && app[i] <= 'Z'));
    assert(forall|i: int| 0 <= i < extra.len() ==> !('A' <= #[trigger] extra[i] && extra[i] <= 'Z'));
    lemma_ascii_lower_keeps(app);
    lemma_ascii_lower_keeps(extra);
    reveal_strlit("app");
    reveal_strlit("c44");
    reveal_strlit("extra");
    reveal_strlit("c45");
    assert(app[7] != extra[7]);
    assert(app.len() != "app"@.len() && app.len() != "c44"@.len());
    assert(extra.len() != "extra"@.len() && extra.len() != "c45"@.len());
}

fn all_hex_digits(s: &str) -> (r: bool)
    ensures
        r == forall|i: int| 0 <= i < s@.len() ==> is_hex_digit(#[trigger] s@[i]),
{
    let n = s.unicode_len();
    let mut i: usize = 0;
    while i < n
        invariant
            n == s@.len(),
            i <= n,
            forall|j: int| 0 <= j < i ==> is_hex_digit(#[trigger] s@[j]),
        decreases n - i,
    {
        let c = s.get_char(i);
        if !(('0' <= c && c <= '9') || ('a' <= c && c <= 'f') || ('A' <= c && c <= 'F')) {
            assert(!is_hex_digit(s@[i as int]));
            return false;
        }
        i = i + 1;
    }
    true
}

/// Resolves a characteristic selector to the UUID text of a characteristic.
pub fn resolve_characteristic(selector: &str) -> (r: Result<String, ProtocolError>)
    ensures
        match spec_resolve_characteristic(selector@) {
            Some(uuid) => r matches Ok(s) && s@ == uuid,
            None => r matches Err(ProtocolError::UnknownCharacteristic(s)) && s@ == selector@,
        },
{
    let normalized = to_ascii_lowercase(selector);
    let value = normalized.as_str();
    if str_eq(value, "app") || str_eq(value, "c44") || str_eq(value, APP_CHARACTERISTIC) {
        Ok(String::from_str(APP_CHARACTERISTIC))
    } else if str_eq(value, "extra") || str_eq(value, "c45") || str_eq(value, EXTRA_CHARACTERISTIC) {
        Ok(String::from_str(EXTRA_CHARACTERISTIC))
    } else if value.as_bytes().len() == 32 && all_hex_digits(value) {
        Ok(normalized)
    } else {
        Err(ProtocolError::UnknownCharacteristic(String::from_str(selector)))
    }
}

// ---------------------------------------------------------------------------
// Decoding a notification stream
// ---------------------------------------------------------------------------

/// One decoded frame of a notification stream.
#[derive(Debug, Clone)]
pub struct DecodeFrame {
    pub raw_packet: Vec<u8>,
    pub command: u8,
    pub command_hex: String,
    pub command_name: String,
    pub status: u8,
    pub nonce: String,
    pub payload: Vec<u8>,
    pub parsed: ParsedResponse,
    pub plain: Vec<u8>,
}

/// What a decoded frame holds.
pub struct DecodeFrameView {
    pub raw_packet: Seq<u8>,
    pub command: u8,
    pub command_hex: Seq<char>,
    pub command_name: Seq<char>,
    pub status: u8,
    pub nonce: Seq<char>,
    pub payload: Seq<u8>,
    pub parsed: ParsedView,
    pub plain: Seq<u8>,
}

impl View for DecodeFrame {
    type V = DecodeFrameView;

    open spec fn view(&self) -> DecodeFrameView {
        DecodeFrameView {
            raw_packet: self.raw_packet@,
            command: self.command,
            command_hex: self.command_hex@,
            command_name: self.command_name@,
            status: self.status,
            nonce: self.nonce@,
            payload: self.payload@,
            parsed: self.parsed@,
            plain: self.plain@,
        }
    }
}

/// The decoded frames of a notification stream and the bytes of a frame left open.
#[derive(Debug, Clone)]
pub struct DecodeStream {
    pub frames: Vec<DecodeFrame>,
    pub remainder: Vec<u8>,
}

/// The frames' contents.
pub open spec fn frames_view(frames: Seq<DecodeFrame>) -> Seq<DecodeFrameView> {
    frames.map_values(|f: DecodeFrame| f@)
}

/// The decoded form of a raw packet that decodes without error.
#[verifier::opaque]
pub open spec fn frame_of(raw: Seq<u8>) -> DecodeFrameView {
    let p = packet_decoded(raw);
    DecodeFrameView {
        raw_packet: raw,
        command: p.command,
        command_hex: spec_hex_prefixed(p.command),
        command_name: spec_command_name(p.command),
        status: p.status,
        nonce: hex_lower(p.nonce),
        payload: p.payload,
        parsed: spec_parse_response(p.command, p.payload),
        plain: p.plain,
    }
}

/// The frames decoded in order; the first packet that does not decode gives the error.
pub open spec fn decode_frames(raws: Seq<Seq<u8>>) -> Result<Seq<DecodeFrameView>, ProtocolError>
    decreases raws.len(),
{
    if raws.len() == 0 {
        Ok(Seq::empty())
    } else {
        match decode_frames(raws.drop_last()) {
            Err(e) => Err(e),
            Ok(done) => match packet_error(raws.last()) {
                Some(e) => Err(e),
                None => Ok(done.push(frame_of(raws.last()))),
            },
        }
    }
}

/// A notification stream split into frames, each decoded as a packet.
pub open spec fn spec_decode_slip_stream(bytes: Seq<u8>) -> Result<
    (Seq<DecodeFrameView>, Seq<u8>),
    ProtocolError,
> {
    let (raws, remainder) = spec_extract_slip_frames(bytes);
    match decode_frames(raws) {
        Err(e) => Err(e),
        Ok(frames) => Ok((frames, remainder)),
    }
}

proof fn lemma_decode_frames_stops(raws: Seq<Seq<u8>>, k: int)
    requires
        0 <= k <= raws.len(),
        decode_frames(raws.take(k)) is Err,
    ensures
        decode_frames(raws) == decode_frames(raws.take(k)),
    decreases raws.len() - k,
{
    if k == raws.len() {
        assert(raws.take(k) =~= raws);
    } else {
        assert(raws.take(k + 1).drop_last() =~= raws.take(k));
        lemma_decode_frames_stops(raws, k + 1);
    }
}

fn decode_frame(raw_packet: Vec<u8>) -> (r: Result<DecodeFrame, ProtocolError>)
    ensures
        match packet_error(raw_packet@) {
            Some(e) => r == Err::<DecodeFrame, ProtocolError>(e),
            None => r matches Ok(f) && f@ == frame_of(raw_packet@),
        },
{
    reveal(frame_of);
    let packet = decode_packet(raw_packet.as_slice())?;
    let command_hex = hex_prefixed(packet.command);
    let command_name = String::from_str(command_name(packet.command));
    let nonce = hex_encode(packet.nonce.as_slice());
    let parsed = parse_response(packet.command, packet.payload.as_slice());
    Ok(DecodeFrame {
        raw_packet,
        command: packet.command,
        command_hex,
        command_name,
        status: packet.status,
        nonce,
        payload: packet.payload,
        parsed,
        plain: packet.plain,
    })
}

/// Splits a notification stream into SLIP frames and decodes each as a packet;
/// the first frame that does not decode gives the error.
pub fn decode_slip_stream(bytes: &[u8]) -> (r: Result<DecodeStream, ProtocolError>)
    ensures
        match spec_decode_slip_stream(bytes@) {
            Err(e) => r == Err::<DecodeStream, ProtocolError>(e),
            Ok((frames, remainder)) => r matches Ok(s) && frames_view(s.frames@) == frames
                && s.remainder@ == remainder,
        },
{
    let (frames, remainder) = extract_slip_frames(bytes);
    let ghost raws = crate::slip::vecs_view(frames@);
    let mut decoded: Vec<DecodeFrame> = Vec::new();
    let mut i: usize = 0;
    assert(raws.take(0) =~= Seq::<Seq<u8>>::empty());
    assert(frames_view(decoded@) =~= Seq::<DecodeFrameView>::empty());
    while i < frames.len()
        invariant
            i <= frames.len(),
            raws == crate::slip::vecs_view(frames@),
            (raws, remainder@) == spec_extract_slip_frames(bytes@),
            decode_frames(raws.take(i as int)) == Ok::<Seq<DecodeFrameView>, ProtocolError>(
                frames_view(decoded@),
            ),
        decreases frames.len() - i,
    {
        let raw_packet = vstd::slice::slice_to_vec(frames[i].as_slice());
        proof {
            assert(raws.take(i + 1).drop_last() =~= raws.take(i as int));
            assert(raws.take(i + 1).last() == raw_packet@);
        }
        let frame = match decode_frame(raw_packet) {
            Ok(f) => f,
            Err(e) => {
                proof {
                    let t = raws.take(i + 1);
                    assert(t.drop_last() =~= raws.take(i as int));
                    assert(packet_error(t.last()) == Some(e));
                    assert(decode_frames(t) == Err::<Seq<DecodeFrameView>, ProtocolError>(e));
                    lemma_decode_frames_stops(raws, i + 1);
                }
                return Err(e);
            },
        };
        let ghost before = decoded@;
        decoded.push(frame);
        proof {
            assert(frames_view(decoded@) =~= frames_view(before).push(frame@));
        }
        i = i + 1;
    }
    proof {
        assert(raws.take(frames.len() as int) =~= raws);
    }
    Ok(DecodeStream { frames: decoded, remainder })
}

/// Decoding the SLIP frame of an encoded request gives one frame with the
/// request's command, a zero status, its nonce (in hex) and its payload, and
/// nothing left over, for every payload of at most 252 bytes.
pub proof fn lemma_request_stream_roundtrip(command: u8, payload: Seq<u8>, nonce: Seq<u8>)
    requires
        nonce.len() == 2,
        payload.len() <= 252,
    ensures
        spec_decode_slip_stream(spec_slip_encode(spec_encode_packet(command, payload, nonce)))
            matches Ok((frames, remainder)) && frames.len() == 1 && remainder.len() == 0
            && frames[0].command == command && frames[0].status == 0 && frames[0].nonce
            == hex_lower(nonce) && frames[0].payload == payload,
{
    reveal(frame_of);
    let raw = spec_encode_packet(command, payload, nonce);
    lemma_packet_roundtrip(command, payload, nonce);
    let fs = seq![raw];
    assert(fs.drop_last() =~= Seq::<Seq<u8>>::empty());
    assert(encode_frames(fs.drop_last()) =~= Seq::<u8>::empty());
    assert(encode_frames(fs) =~= spec_slip_encode(raw));
    lemma_xxtea_roundtrip(request_plain(command, payload, nonce));
    assert(raw.len() >= 8);
    lemma_extract_encoded_frames(fs);
    assert(decode_frames(fs.drop_last()) == Ok::<Seq<DecodeFrameView>, ProtocolError>(Seq::empty()));
}

impl ProtocolError {
    /// A copy of the error.
    pub fn duplicate(&self) -> (c: ProtocolError)
        ensures
            c == *self,
    {
        match self {
            ProtocolError::UnknownCharacteristic(s) => ProtocolError::UnknownCharacteristic(s.clone()),
            ProtocolError::InvalidNonce => ProtocolError::InvalidNonce,
            ProtocolError::PacketTooShort => ProtocolError::PacketTooShort,
            ProtocolError::DecryptedPacketTooShort { len } => ProtocolError::DecryptedPacketTooShort {
                len: *len,
            },
            ProtocolError::EncryptedLengthMismatch { header, actual } => ProtocolError::EncryptedLengthMismatch {
                header: *header,
                actual: *actual,
            },
            ProtocolError::PayloadLengthMismatch { payload_len, plain_len } => ProtocolError::PayloadLengthMismatch {
                payload_len: *payload_len,
                plain_len: *plain_len,
            },
            ProtocolError::CrcMismatch { header, actual } => ProtocolError::CrcMismatch {
                header: *header,
                actual: *actual,
            },
        }
    }
}

} // verus!
