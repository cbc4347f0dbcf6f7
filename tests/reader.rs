use dancepad_abi::reader::{decode_stream, read_byte, Receiver};
use dancepad_abi::{Codec, Command, DeserializeError, Integrity, PushBuffer, ReadError, Response};

fn frame_of<P: Codec>(value: &P, integrity: Integrity) -> Vec<u8> {
    let mut buf = vec![0u8; 64];
    let n = value.serialize(integrity, &mut buf).unwrap();
    buf.truncate(n);
    buf
}

#[test]
fn two_frames_back_to_back() {
    for integrity in [Integrity::Plain, Integrity::Crc32] {
        let a = Response::Values4([100, 250, 500, 999]);
        let b = Response::Ack;
        let mut stream = frame_of(&a, integrity);
        stream.extend(frame_of(&b, integrity));
        let out = decode_stream::<Response, 14>(integrity, &stream);
        assert_eq!(out, vec![Ok(a), Ok(b)]);
    }
}

#[test]
fn byte_by_byte_reading() {
    let mut buf = PushBuffer::<14>::new();
    let frame = frame_of(&Command::SetThresh4([1, 2, 3, 4]), Integrity::Crc32);
    let (last, body) = frame.split_last().unwrap();
    for b in body {
        assert_eq!(read_byte::<Command, 14>(&mut buf, Integrity::Crc32, *b), None);
    }
    assert_eq!(buf.len(), body.len());
    assert_eq!(
        read_byte::<Command, 14>(&mut buf, Integrity::Crc32, *last),
        Some(Ok(Command::SetThresh4([1, 2, 3, 4])))
    );
    assert_eq!(buf.len(), 0);
}

#[test]
fn overflow_is_reported_and_reading_resumes() {
    let mut stream = vec![9u8; 6];
    stream.push(0);
    stream.extend(frame_of(&Command::GetThresh, Integrity::Plain));
    let out = decode_stream::<Command, 4>(Integrity::Plain, &stream);
    assert_eq!(out, vec![Err(ReadError::BufferOverflow), Ok(Command::GetThresh)]);
}

#[test]
fn overflow_leaves_buffer_for_the_caller() {
    let mut buf = PushBuffer::<2>::new();
    assert_eq!(read_byte::<Command, 2>(&mut buf, Integrity::Plain, 1), None);
    assert_eq!(read_byte::<Command, 2>(&mut buf, Integrity::Plain, 1), None);
    assert_eq!(read_byte::<Command, 2>(&mut buf, Integrity::Plain, 1), Some(Err(ReadError::BufferOverflow)));
    assert_eq!(buf.as_slice(), &[1, 1]);
}

#[test]
fn lone_delimiter_is_an_empty_payload() {
    let out = decode_stream::<Command, 4>(Integrity::Plain, &[0]);
    assert_eq!(out, vec![Err(ReadError::Decode(DeserializeError::MalformedPayload))]);
}

#[test]
fn unterminated_bytes_are_not_reported() {
    let frame = frame_of(&Command::GetValues, Integrity::Plain);
    let out = decode_stream::<Command, 4>(Integrity::Plain, &frame[..frame.len() - 1]);
    assert!(out.is_empty());
}

#[test]
fn receiver_discards_the_rest_of_an_overflowing_frame() {
    let mut rx = Receiver::<2>::new();
    assert_eq!(rx.receive::<Command>(Integrity::Plain, 3), None);
    assert_eq!(rx.receive::<Command>(Integrity::Plain, 3), None);
    assert_eq!(rx.receive::<Command>(Integrity::Plain, 3), Some(Err(ReadError::BufferOverflow)));
    assert_eq!(rx.receive::<Command>(Integrity::Plain, 1), None);
    assert_eq!(rx.receive::<Command>(Integrity::Plain, 0), None);
    for b in frame_of(&Command::GetValues, Integrity::Plain) {
        let r = rx.receive::<Command>(Integrity::Plain, b);
        if b == 0 {
            assert_eq!(r, Some(Ok(Command::GetValues)));
        } else {
            assert_eq!(r, None);
        }
    }
}
