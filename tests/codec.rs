use dancepad_abi::codec::{check_checksum, read_content};
use dancepad_abi::framing::is_valid_frame;
use dancepad_abi::{Codec, Command, DeserializeError, Integrity, Response, SerializeError};

fn frame_of<P: Codec>(value: &P, integrity: Integrity) -> Vec<u8> {
    let mut buf = vec![0u8; 64];
    let n = value.serialize(integrity, &mut buf).unwrap();
    buf.truncate(n);
    buf
}

fn stuff(content: &[u8]) -> Vec<u8> {
    let mut out = vec![0u8; corncobs::max_encoded_len(content.len())];
    let n = corncobs::encode_buf(content, &mut out);
    out.truncate(n);
    out
}

fn unstuff(frame: &[u8]) -> Vec<u8> {
    let mut buf = frame.to_vec();
    let n = corncobs::decode_in_place(&mut buf).unwrap();
    buf.truncate(n);
    buf
}

#[test]
fn read_values_round_trip() {
    for integrity in [Integrity::Plain, Integrity::Crc32] {
        let mut frame = frame_of(&Command::GetValues, integrity);
        let decoded = Command::deserialize_in_place(integrity, &mut frame);
        assert_eq!(decoded, Ok(Command::GetValues));
    }
}

#[test]
fn values_reply_with_checksum_and_flipped_byte() {
    let reply = Response::Values4([100, 250, 500, 999]);
    let frame = frame_of(&reply, Integrity::Crc32);
    let mut copy = frame.clone();
    assert_eq!(Response::deserialize_in_place(Integrity::Crc32, &mut copy), Ok(reply));

    let mut content = unstuff(&frame);
    content[2] ^= 0x01;
    let mut corrupted = stuff(&content);
    assert_eq!(
        Response::deserialize_in_place(Integrity::Crc32, &mut corrupted),
        Err(DeserializeError::ChecksumMismatch { received: 0xfeb4_8075, computed: 0xb1e3_e864 })
    );
}

#[test]
fn every_message_round_trips() {
    let commands = [
        Command::GetValues,
        Command::GetThresh,
        Command::SetThresh4([0, 1, 0x00ff, 0xffff]),
        Command::SetThresh4([0, 0, 0, 0]),
    ];
    let responses = [
        Response::Values4([100, 250, 500, 999]),
        Response::Thresh4([0xffff, 0, 0x0100, 7]),
        Response::Ack,
    ];
    for integrity in [Integrity::Plain, Integrity::Crc32] {
        for c in commands {
            let mut frame = frame_of(&c, integrity);
            assert_eq!(Command::deserialize_in_place(integrity, &mut frame), Ok(c));
        }
        for r in responses {
            let mut frame = frame_of(&r, integrity);
            assert_eq!(Response::deserialize_in_place(integrity, &mut frame), Ok(r));
        }
    }
}

#[test]
fn frames_stay_within_the_maximum() {
    for integrity in [Integrity::Plain, Integrity::Crc32] {
        let max = Response::max_serialized_len(integrity);
        for r in [Response::Values4([1, 2, 3, 4]), Response::Thresh4([0; 4]), Response::Ack] {
            let frame = frame_of(&r, integrity);
            assert!(frame.len() <= max);
            assert_eq!(frame.iter().filter(|b| **b == 0).count(), 1);
            assert_eq!(*frame.last().unwrap(), 0);
        }
    }
}

#[test]
fn maximum_frame_lengths() {
    assert_eq!(Command::max_serialized_len(Integrity::Plain), 11);
    assert_eq!(Command::max_serialized_len(Integrity::Crc32), 15);
    assert_eq!(Response::max_serialized_len(Integrity::Plain), 11);
    assert_eq!(Response::max_serialized_len(Integrity::Crc32), 15);
}

#[test]
fn exact_plain_frames() {
    assert_eq!(frame_of(&Command::GetValues, Integrity::Plain), vec![1, 1, 0]);
    assert_eq!(frame_of(&Response::Ack, Integrity::Plain), vec![2, 2, 0]);
    assert_eq!(
        frame_of(&Command::SetThresh4([0x0102, 0x0304, 0, 0xffff]), Integrity::Plain),
        vec![6, 2, 2, 1, 4, 3, 1, 3, 255, 255, 0]
    );
}

#[test]
fn exact_checksummed_frames() {
    assert_eq!(frame_of(&Command::GetValues, Integrity::Crc32), vec![1, 5, 255, 255, 255, 255, 0]);
    assert_eq!(
        frame_of(&Response::Values4([100, 250, 500, 999]), Integrity::Crc32),
        vec![1, 2, 100, 2, 250, 9, 244, 1, 231, 3, 117, 128, 180, 254, 0]
    );
}

#[test]
fn short_buffer_is_refused_untouched() {
    let mut buf = [7u8; 14];
    assert_eq!(
        Command::GetValues.serialize(Integrity::Crc32, &mut buf),
        Err(SerializeError::BufferTooSmall)
    );
    assert_eq!(buf, [7u8; 14]);
    let mut buf = [7u8; 15];
    assert_eq!(Command::GetValues.serialize(Integrity::Crc32, &mut buf), Ok(7));
    assert_eq!(buf[7..], [7u8; 8]);
}

#[test]
fn inserted_delimiter_is_invalid_framing() {
    let frame = frame_of(&Response::Values4([100, 250, 500, 999]), Integrity::Crc32);
    for i in 0..frame.len() - 1 {
        let mut bad = frame.clone();
        bad.insert(i, 0);
        assert_eq!(
            Response::deserialize_in_place(Integrity::Crc32, &mut bad),
            Err(DeserializeError::InvalidFraming)
        );
    }
}

#[test]
fn malformed_frames_are_invalid_framing() {
    for bad in [vec![], vec![1, 1], vec![5, 1, 0], vec![3, 1, 0, 1, 0], vec![1, 0, 0], vec![2, 0, 0]] {
        let mut bad = bad;
        assert_eq!(
            Command::deserialize_in_place(Integrity::Plain, &mut bad),
            Err(DeserializeError::InvalidFraming)
        );
    }
}

#[test]
fn unknown_tag_and_short_fields_are_malformed() {
    let cases: [&[u8]; 4] = [&[7], &[], &[2, 1, 2, 3], &[3]];
    for content in cases {
        let mut frame = stuff(content);
        assert_eq!(
            Command::deserialize_in_place(Integrity::Plain, &mut frame),
            Err(DeserializeError::MalformedPayload),
            "{content:?}"
        );
    }
    let mut frame = stuff(&[2, 0, 0, 0]);
    assert_eq!(
        Response::deserialize_in_place(Integrity::Crc32, &mut frame),
        Err(DeserializeError::MalformedPayload)
    );
}

#[test]
fn trailing_bytes_after_the_value_are_ignored() {
    let mut frame = stuff(&[1, 9, 9]);
    assert_eq!(Command::deserialize_in_place(Integrity::Plain, &mut frame), Ok(Command::GetThresh));
}

#[test]
fn checksum_byte_changes_are_caught() {
    let reply = Response::Thresh4([1, 2, 3, 4]);
    let content = unstuff(&frame_of(&reply, Integrity::Crc32));
    for i in 9..13 {
        let mut changed = content.clone();
        changed[i] ^= 0x80;
        let mut frame = stuff(&changed);
        match Response::deserialize_in_place(Integrity::Crc32, &mut frame) {
            Err(DeserializeError::ChecksumMismatch { received, computed }) => assert_ne!(received, computed),
            other => panic!("byte {i}: {other:?}"),
        }
    }
}

#[test]
fn payload_byte_changes_never_pass_as_another_value() {
    let reply = Response::Values4([100, 250, 500, 999]);
    let content = unstuff(&frame_of(&reply, Integrity::Crc32));
    for i in 0..9 {
        for flip in [0x01u8, 0x80, 0xff] {
            let mut changed = content.clone();
            changed[i] ^= flip;
            let mut frame = stuff(&changed);
            assert!(Response::deserialize_in_place(Integrity::Crc32, &mut frame).is_err());
        }
    }
}

#[test]
fn checksum_check_reports_both_values() {
    assert_eq!(check_checksum(Command::GetThresh, 5, 5), Ok(Command::GetThresh));
    assert_eq!(
        check_checksum(Command::GetThresh, 5, 6),
        Err(DeserializeError::ChecksumMismatch { received: 5, computed: 6 })
    );
}

#[test]
fn content_reading() {
    assert_eq!(read_content::<Command>(Integrity::Plain, &[0]), Ok(Command::GetValues));
    assert_eq!(
        read_content::<Command>(Integrity::Crc32, &[0, 0xff, 0xff, 0xff, 0xff]),
        Ok(Command::GetValues)
    );
    assert_eq!(
        read_content::<Command>(Integrity::Crc32, &[0, 0xff, 0xff, 0xff, 0xfe]),
        Err(DeserializeError::ChecksumMismatch { received: 0xfeff_ffff, computed: 0xffff_ffff })
    );
    assert_eq!(
        read_content::<Response>(Integrity::Plain, &[1, 1, 0, 2, 0, 3, 0, 4, 0]),
        Ok(Response::Thresh4([1, 2, 3, 4]))
    );
}

#[test]
fn frame_validity() {
    assert!(is_valid_frame(&[0]));
    assert!(is_valid_frame(&[1, 1, 0]));
    assert!(is_valid_frame(&[3, 5, 6, 0]));
    assert!(!is_valid_frame(&[]));
    assert!(!is_valid_frame(&[3, 5, 0, 0]));
    assert!(!is_valid_frame(&[1, 0, 0]));
    assert!(!is_valid_frame(&[4, 5, 6, 0]));
    assert!(!is_valid_frame(&[2, 5]));
}

#[test]
fn frame_length_follows_the_content() {
    // One-byte content: a length byte, the byte, the delimiter.
    assert_eq!(frame_of(&Response::Ack, Integrity::Plain).len(), 3);
    // Nine bytes of payload and four of checksum give fifteen.
    assert_eq!(frame_of(&Response::Thresh4([1, 1, 1, 1]), Integrity::Crc32).len(), 15);
}

#[test]
fn bytes_after_the_delimiter_are_ignored() {
    let frame = frame_of(&Command::GetValues, Integrity::Crc32);
    for rest in [vec![0u8], vec![0u8; 8], vec![5, 6, 7], vec![1, 1, 0]] {
        let mut padded = frame.clone();
        padded.extend(rest);
        assert_eq!(Command::deserialize_in_place(Integrity::Crc32, &mut padded), Ok(Command::GetValues));
    }
    let mut storage = [0u8; 11];
    let plain = frame_of(&Command::SetThresh4([1, 2, 3, 4]), Integrity::Plain);
    storage[..plain.len()].copy_from_slice(&plain);
    assert_eq!(
        Command::deserialize_in_place(Integrity::Plain, &mut storage),
        Ok(Command::SetThresh4([1, 2, 3, 4]))
    );
}

#[test]
fn undecodable_frame_with_trailing_bytes_is_invalid_framing() {
    // [1, 0] stands for no bytes at all: alone it is a malformed payload,
    // followed by more bytes it is a misplaced delimiter.
    let mut alone = vec![1u8, 0];
    assert_eq!(
        Command::deserialize_in_place(Integrity::Plain, &mut alone),
        Err(DeserializeError::MalformedPayload)
    );
    let mut followed = vec![1u8, 0, 2, 1, 0];
    assert_eq!(
        Command::deserialize_in_place(Integrity::Plain, &mut followed),
        Err(DeserializeError::InvalidFraming)
    );
}
