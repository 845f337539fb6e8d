use logiclink_desk::protocol::{
    command_name, crc16_ccitt_false, decode_packet, decode_slip_stream, encode_packet,
    encode_packet_with_nonce, extract_slip_frames, resolve_characteristic, slip_decode,
    slip_encode, xxtea_decrypt, xxtea_encrypt, ProtocolError, APP_CHARACTERISTIC,
    EXTRA_CHARACTERISTIC,
};
use logiclink_desk::response::{ParsedResponse, ResponseDetail};

#[test]
fn decode_packet_exposes_nonce() {
    let packet = encode_packet(0x08, &[0x00, 0x00, 0x00], Some([0x12, 0x34]));

    let decoded = decode_packet(&packet).unwrap();

    assert_eq!(decoded.command, 0x08);
    assert_eq!(decoded.nonce, [0x12, 0x34]);
    assert_eq!(decoded.payload, [0x00, 0x00, 0x00]);
}

#[test]
fn decode_packet_rejects_payload_length_beyond_decrypted_plaintext() {
    let mut packet = encode_packet(0x08, &[0x00, 0x00, 0x00], Some([0x12, 0x34]));
    packet[1] = 250;

    let error = decode_packet(&packet).unwrap_err();

    assert!(matches!(
        error,
        ProtocolError::PayloadLengthMismatch {
            payload_len: 250,
            ..
        }
    ));
}

#[test]
fn crc_matches_the_standard_check_value() {
    assert_eq!(crc16_ccitt_false(b"123456789"), 0x29b1);
    assert_eq!(crc16_ccitt_false(&[]), 0xffff);
}

#[test]
fn xxtea_decrypt_undoes_encrypt_with_zero_padding() {
    let plain: Vec<u8> = (0u8..23).collect();
    let encrypted = xxtea_encrypt(&plain);
    assert_eq!(encrypted.len(), 24);
    assert_ne!(&encrypted[..23], &plain[..]);
    let mut padded = plain.clone();
    padded.push(0);
    assert_eq!(xxtea_decrypt(&encrypted), padded);
}

#[test]
fn xxtea_leaves_a_single_word_unchanged() {
    assert_eq!(xxtea_encrypt(&[1, 2, 3]), vec![1, 2, 3, 0]);
    assert_eq!(xxtea_decrypt(&[9, 8, 7, 6]), vec![9, 8, 7, 6]);
}

#[test]
fn encoded_packet_layout() {
    let packet = encode_packet_with_nonce(0x08, &[0x00, 0x00, 0x00], [0x00, 0x00]);
    // seven plaintext bytes pad to two words
    assert_eq!(packet.len(), 12);
    assert_eq!(packet[0], 4);
    assert_eq!(packet[1], 3);
    let crc = crc16_ccitt_false(&packet[4..]);
    assert_eq!(packet[2], (crc & 0xff) as u8);
    assert_eq!(packet[3], (crc >> 8) as u8);
}

#[test]
fn random_nonce_packets_still_decode() {
    let packet = encode_packet(0x1c, &[0x00], None);
    let decoded = decode_packet(&packet).unwrap();
    assert_eq!(decoded.command, 0x1c);
    assert_eq!(decoded.status, 0);
    assert_eq!(decoded.payload, vec![0x00]);
}

#[test]
fn packet_roundtrip_for_long_payload() {
    let payload: Vec<u8> = (0..252u32).map(|i| (i * 7) as u8).collect();
    let packet = encode_packet(0x11, &payload, Some([0xab, 0xcd]));
    let decoded = decode_packet(&packet).unwrap();
    assert_eq!(decoded.command, 0x11);
    assert_eq!(decoded.nonce, [0xab, 0xcd]);
    assert_eq!(decoded.payload, payload);
}

#[test]
fn decode_packet_errors() {
    assert!(matches!(
        decode_packet(&[0; 7]).unwrap_err(),
        ProtocolError::PacketTooShort
    ));
    let mut packet = encode_packet(0x08, &[0x00, 0x00, 0x00], Some([0x12, 0x34]));
    packet.push(0);
    assert!(matches!(
        decode_packet(&packet).unwrap_err(),
        ProtocolError::EncryptedLengthMismatch {
            header: 8,
            actual: 9
        }
    ));
    let mut packet = encode_packet(0x08, &[0x00, 0x00, 0x00], Some([0x12, 0x34]));
    packet[2] ^= 0xff;
    assert!(matches!(
        decode_packet(&packet).unwrap_err(),
        ProtocolError::CrcMismatch { .. }
    ));
}

#[test]
fn slip_escapes_and_roundtrips() {
    let data = [0x01, 0xc0, 0x02, 0xdb, 0x03];
    let framed = slip_encode(&data);
    assert_eq!(framed, vec![0xc0, 0x01, 0xdb, 0xdc, 0x02, 0xdb, 0xdd, 0x03, 0xc0]);
    assert_eq!(slip_decode(&framed), data.to_vec());
}

#[test]
fn slip_decode_keeps_unknown_escapes() {
    assert_eq!(slip_decode(&[0xdb, 0x41, 0x42]), vec![0x41, 0x42]);
}

#[test]
fn extract_frames_from_stream() {
    let mut stream = slip_encode(&[1, 2]);
    stream.extend(slip_encode(&[0xc0]));
    stream.extend([0xc0, 9, 9]);
    let (frames, remainder) = extract_slip_frames(&stream);
    assert_eq!(frames, vec![vec![1, 2], vec![0xc0]]);
    assert_eq!(remainder, vec![9, 9]);
}

#[test]
fn extract_frames_ignores_bytes_before_first_delimiter() {
    let (frames, remainder) = extract_slip_frames(&[7, 7, 0xc0, 5, 0xc0]);
    assert_eq!(frames, vec![vec![5]]);
    assert!(remainder.is_empty());
}

#[test]
fn command_names() {
    assert_eq!(command_name(0x08), "height/motion");
    assert_eq!(command_name(0x1f), "dispatch-data");
    assert_eq!(command_name(0x99), "unknown");
}

#[test]
fn resolve_characteristic_selectors() {
    assert_eq!(resolve_characteristic("app").unwrap(), APP_CHARACTERISTIC);
    assert_eq!(resolve_characteristic("C44").unwrap(), APP_CHARACTERISTIC);
    assert_eq!(resolve_characteristic("Extra").unwrap(), EXTRA_CHARACTERISTIC);
    assert_eq!(
        resolve_characteristic("0123456789ABCDEF0123456789abcdef").unwrap(),
        "0123456789abcdef0123456789abcdef"
    );
    assert!(matches!(
        resolve_characteristic("nope").unwrap_err(),
        ProtocolError::UnknownCharacteristic(s) if s == "nope"
    ));
}

#[test]
fn decode_slip_stream_of_a_height_response() {
    let payload = [0x00, 0xe8, 0x03, 0x07, 0x00, 0x00, 0x00];
    let packet = encode_packet(0x08, &payload, Some([0x12, 0x34]));
    let mut stream = slip_encode(&packet);
    stream.extend([0xc0, 0x01]);
    let decoded = decode_slip_stream(&stream).unwrap();
    assert_eq!(decoded.frames.len(), 1);
    assert_eq!(decoded.remainder, vec![0x01]);
    let frame = &decoded.frames[0];
    assert_eq!(frame.raw_packet, packet);
    assert_eq!(frame.command, 0x08);
    assert_eq!(frame.command_hex, "0x08");
    assert_eq!(frame.command_name, "height/motion");
    assert_eq!(frame.nonce, "1234");
    assert_eq!(frame.payload, payload.to_vec());
    match &frame.parsed {
        ParsedResponse::Result {
            result,
            result_description,
            detail,
        } => {
            assert_eq!(*result, 0);
            assert_eq!(result_description, "ok");
            assert!(matches!(
                detail,
                ResponseDetail::Height {
                    height: 1000,
                    movement_counter: 7
                }
            ));
        }
        ParsedResponse::NoResult => panic!("expected a result"),
    }
}

#[test]
fn decode_slip_stream_reports_first_bad_frame() {
    let mut stream = slip_encode(&encode_packet(0x08, &[0], Some([0, 0])));
    stream.extend(slip_encode(&[1, 2, 3]));
    assert!(matches!(
        decode_slip_stream(&stream).unwrap_err(),
        ProtocolError::PacketTooShort
    ));
}

#[test]
fn crc_of_message_with_its_checksum_appended_is_zero() {
    for message in [&b""[..], &b"123456789"[..], &[0x00, 0xff, 0x10, 0x21][..]] {
        let c = crc16_ccitt_false(message);
        let mut with_crc = message.to_vec();
        with_crc.push((c >> 8) as u8);
        with_crc.push((c & 0xff) as u8);
        assert_eq!(crc16_ccitt_false(&with_crc), 0);
    }
    assert_eq!(crc16_ccitt_false(b"123456789"), 0x29b1);
}

#[test]
fn xxtea_encrypt_undoes_decrypt_on_whole_words() {
    let words: Vec<u8> = (0u8..16).collect();
    let decrypted = xxtea_decrypt(&words);
    assert_ne!(decrypted, words);
    assert_eq!(xxtea_encrypt(&decrypted), words);
    let four = [1u8, 2, 3, 4];
    assert_eq!(xxtea_encrypt(&xxtea_decrypt(&four)), four.to_vec());
    assert_eq!(xxtea_decrypt(&[1, 2, 3, 4, 5]).len(), 8);
    assert_eq!(xxtea_encrypt(&[1, 2, 3, 4, 5]).len(), 8);
}

#[test]
fn extract_frames_keeps_unfinished_remainder() {
    let mut stream = slip_encode(&[0x01, 0xc0, 0x02]);
    stream.extend(slip_encode(&[0xdb, 0x03]));
    stream.extend([0x04, 0x05]);
    let (frames, remainder) = extract_slip_frames(&stream);
    assert_eq!(frames, vec![vec![0x01, 0xc0, 0x02], vec![0xdb, 0x03]]);
    assert_eq!(remainder, vec![0x04, 0x05]);
}

#[test]
fn resolving_a_resolved_uuid_gives_it_back() {
    for selector in ["C44", "extra", "ABCDEFABCDEFABCDEFABCDEFABCDEF01"] {
        let r = resolve_characteristic(selector).unwrap();
        assert_eq!(resolve_characteristic(&r).unwrap(), r);
    }
    assert_eq!(
        resolve_characteristic("ABCDEFABCDEFABCDEFABCDEFABCDEF01").unwrap(),
        "abcdefabcdefabcdefabcdefabcdef01"
    );
}
