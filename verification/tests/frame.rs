use chirpy_core::config::Modulation;
use chirpy_core::frame::{
    assemble, bits_to_bytes, bytes_to_bits, decode, decode_with_checksum, encode, FrameError,
    MAX_PAYLOAD, SYNC_WORD, TRAINING_SEQUENCE,
};
use chirpy_core::rx::DecodeError;
use chirpy_core::text::{push_decimal, push_hex, push_signed};

#[test]
fn frame_roundtrip_empty() {
    let frame = encode(&[], Modulation::Bpsk).unwrap();
    let (decoded, consumed) = decode(&frame).unwrap();
    assert_eq!(decoded.payload, Vec::<u8>::new());
    assert_eq!(consumed, frame.len());
}

#[test]
fn roundtrip_payload() {
    let payload = b"hello world".to_vec();
    let frame = encode(&payload, Modulation::Bpsk).unwrap();
    let (decoded, _) = decode(&frame).unwrap();
    assert_eq!(decoded.payload, payload);
    assert_eq!(decoded.modulation, Modulation::Bpsk);
}

#[test]
fn detects_crc_error() {
    let mut frame = encode(b"abcd", Modulation::Bpsk).unwrap();
    let last = frame.len() - 1;
    frame[last] ^= 0x01;
    assert!(matches!(decode(&frame), Err(FrameError::BadCrc { .. })));
}

#[test]
fn detects_training_corruption() {
    let mut frame = encode(b"abcd", Modulation::Bpsk).unwrap();
    frame[3] ^= 0x80;
    assert!(matches!(decode(&frame), Err(FrameError::BadTraining)));
}

#[test]
fn bit_conversion_roundtrips() {
    let data = b"\x00\xff\xa5\x5a\x01";
    let bits = bytes_to_bits(data);
    assert_eq!(bits.len(), 5 * 8);
    let back = bits_to_bytes(&bits);
    assert_eq!(back.as_slice(), data);
}

#[test]
fn frame_has_the_documented_layout() {
    let frame = encode(b"hi", Modulation::Bpsk).unwrap();
    let mut expected = Vec::new();
    expected.extend_from_slice(&TRAINING_SEQUENCE);
    expected.extend_from_slice(&SYNC_WORD);
    expected.extend_from_slice(&[2, 0, 0]);
    expected.extend_from_slice(b"hi");
    // CRC-32/ISO-HDLC of the five bytes before it.
    expected.extend_from_slice(&CRC_OF_HI.to_le_bytes());
    assert_eq!(frame, expected);
    assert_eq!(assemble(b"hi", Modulation::Bpsk, CRC_OF_HI), Ok(expected));
}

const CRC_OF_HI: u32 = 0x25a89c2e;

#[test]
fn empty_frame_has_a_known_checksum() {
    let frame = encode(&[], Modulation::Bpsk).unwrap();
    assert_eq!(frame.len(), 27);
    assert_eq!(frame[23..], 0xff41_d912_u32.to_le_bytes());
}

#[test]
fn checksum_has_the_check_value_of_its_parameters() {
    // The register runs bit by bit over the same bytes as the frame's checksum.
    for payload in [&b"123456789"[..], b"", b"chirp"] {
        let frame = encode(payload, Modulation::Bpsk).unwrap();
        let mut register = 0xffff_ffff_u32;
        for &b in &frame[20..frame.len() - 4] {
            register ^= b as u32;
            for _ in 0..8 {
                let low = register & 1;
                register >>= 1;
                if low == 1 {
                    register ^= 0xedb8_8320;
                }
            }
        }
        assert_eq!(frame[frame.len() - 4..], (register ^ 0xffff_ffff).to_le_bytes());
    }
}

#[test]
fn largest_payload_roundtrips_and_a_larger_one_is_refused() {
    let payload = vec![0x5a; MAX_PAYLOAD];
    let frame = encode(&payload, Modulation::Bpsk).unwrap();
    assert_eq!(frame[20..22], [0xff, 0xff]);
    let (decoded, consumed) = decode(&frame).unwrap();
    assert_eq!(decoded.payload, payload);
    assert_eq!(consumed, MAX_PAYLOAD + 27);
    let larger = vec![0; MAX_PAYLOAD + 1];
    assert_eq!(
        encode(&larger, Modulation::Bpsk),
        Err(FrameError::PayloadTooLarge(65_536))
    );
}

#[test]
fn bytes_after_a_frame_are_left_alone() {
    let mut frame = encode(b"abc", Modulation::Bpsk).unwrap();
    let size = frame.len();
    frame.extend_from_slice(&[1, 2, 3]);
    let (decoded, consumed) = decode(&frame).unwrap();
    assert_eq!(decoded.payload, b"abc");
    assert_eq!(consumed, size);
}

#[test]
fn accepted_bytes_are_the_frame_of_their_payload() {
    let mut bytes = encode(b"once", Modulation::Bpsk).unwrap();
    bytes.push(0);
    let (decoded, consumed) = decode(&bytes).unwrap();
    assert_eq!(bytes[..consumed], encode(&decoded.payload, decoded.modulation).unwrap()[..]);
}

#[test]
fn every_cut_of_a_frame_is_refused() {
    let frame = encode(b"abcd", Modulation::Bpsk).unwrap();
    for n in 0..frame.len() {
        let e = decode(&frame[..n]).unwrap_err();
        if n < 27 {
            assert_eq!(e, FrameError::TooShort);
        } else {
            assert_eq!(e, FrameError::Truncated { expected: 31, actual: n });
        }
    }
}

#[test]
fn every_damaged_byte_is_noticed() {
    let frame = encode(b"abcd", Modulation::Bpsk).unwrap();
    for i in 0..frame.len() {
        let mut bytes = frame.clone();
        bytes[i] ^= 0x10;
        let e = decode(&bytes).unwrap_err();
        match i {
            0..=15 => assert_eq!(e, FrameError::BadTraining),
            16..=19 => assert_eq!(e, FrameError::BadSync),
            20 | 21 => assert!(matches!(e, FrameError::Truncated { .. })),
            22 => assert_eq!(e, FrameError::UnknownModulation(0x10)),
            _ => assert!(matches!(e, FrameError::BadCrc { .. })),
        }
    }
}

#[test]
fn given_checksum_decides() {
    let frame = encode(b"hi", Modulation::Bpsk).unwrap();
    assert!(decode_with_checksum(&frame, CRC_OF_HI).is_ok());
    assert!(matches!(
        decode_with_checksum(&frame, 1),
        Err(FrameError::BadCrc { expected: CRC_OF_HI, actual: 1 })
    ));
}

#[test]
fn bits_come_out_most_significant_first() {
    assert_eq!(bytes_to_bits(&[0xa1]), vec![1, 0, 1, 0, 0, 0, 0, 1]);
    assert_eq!(bits_to_bytes(&[1, 0, 1, 0, 0, 0, 0, 1, 1, 1, 1]), vec![0xa1]);
    assert_eq!(bits_to_bytes(&[0, 1, 0, 1, 0, 1, 0]), Vec::<u8>::new());
    // Only the lowest bit of each value counts.
    assert_eq!(bits_to_bytes(&[2, 3, 2, 3, 2, 3, 2, 255]), vec![0x55]);
}

#[test]
fn packed_bits_unpack_again() {
    let bits = [0, 1, 1, 1, 0, 0, 1, 0, 1, 1, 1, 1, 0, 0, 0, 1];
    assert_eq!(bytes_to_bits(&bits_to_bytes(&bits)), bits);
}

#[test]
fn frame_errors_say_what_went_wrong() {
    assert_eq!(
        FrameError::PayloadTooLarge(70_000).message(),
        "payload too large: 70000 bytes (max 65535)"
    );
    assert_eq!(FrameError::TooShort.message(), "frame too short to contain header");
    assert_eq!(
        FrameError::BadTraining.message(),
        "training preamble mismatch (equalizer likely failed to converge)"
    );
    assert_eq!(FrameError::BadSync.message(), "sync word mismatch");
    assert_eq!(FrameError::UnknownModulation(9).message(), "unknown modulation byte: 9");
    assert_eq!(
        FrameError::Truncated { expected: 31, actual: 30 }.message(),
        "payload truncated: header says 31 bytes, only 30 available"
    );
    assert_eq!(
        FrameError::BadCrc { expected: 0xab, actual: 0xdead_beef }.message(),
        "crc mismatch: expected 000000ab, computed deadbeef"
    );
}

#[test]
fn decode_errors_say_what_went_wrong() {
    assert_eq!(DecodeError::ChirpNotFound.message(), "chirp preamble not found");
    assert_eq!(DecodeError::Truncated.message(), "signal truncated after chirp");
    assert_eq!(
        DecodeError::from(FrameError::BadSync).message(),
        "frame error: sync word mismatch"
    );
    assert_eq!(DecodeError::from(FrameError::TooShort), DecodeError::Frame(FrameError::TooShort));
}

#[test]
fn modulation_has_a_name_and_a_byte() {
    assert_eq!(Modulation::Bpsk.bits_per_symbol(), 1);
    assert_eq!(Modulation::Bpsk.to_byte(), 0);
    assert_eq!(Modulation::from_byte(0), Some(Modulation::Bpsk));
    for b in 1..=255 {
        assert_eq!(Modulation::from_byte(b), None);
    }
    assert_eq!("bpsk".parse::<Modulation>(), Ok(Modulation::Bpsk));
    assert_eq!("BpSK".parse::<Modulation>(), Ok(Modulation::Bpsk));
    assert_eq!(
        "QPSK-Ä".parse::<Modulation>(),
        Err("unknown modulation: qpsk-Ä".to_string())
    );
}

#[test]
fn numbers_become_text() {
    let mut s = String::from("n=");
    push_decimal(&mut s, 0);
    push_signed(&mut s, 0);
    push_signed(&mut s, -120);
    push_signed(&mut s, i32::MIN);
    push_hex(&mut s, 0x1f, 3);
    push_decimal(&mut s, u64::MAX);
    assert_eq!(s, "n=0+0-120-214748364801f18446744073709551615");
}
