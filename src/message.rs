//! The messages that host and device exchange, and their compact encoding:
//! a one-byte variant tag, then the variant's fields, each `u16` low byte
//! first.

use vstd::prelude::*;
use crate::codec::{
    decode, encode, max_serialized_len, Codec, DeserializeError, Integrity, Payload,
    SerializeError,
};
use crate::wire::{le16, le16_value, lemma_le16_of_value, lemma_le16_round_trip, put_u16, take_u16};

verus! {

/// A request from the host.
#[derive(Clone, Copy, Debug, PartialEq, Eq)]
pub enum Command {
    /// Read the current channel values.
    GetValues,
    /// Read the press thresholds.
    GetThresh,
    /// Set the press thresholds of the four channels.
    SetThresh4([u16; 4]),
}

/// The device's answer to one [`Command`].
#[derive(Clone, Copy, Debug, PartialEq, Eq)]
pub enum Response {
    /// Channel values.
    Values4([u16; 4]),
    /// Press thresholds.
    Thresh4([u16; 4]),
    /// The command was carried out.
    Ack,
}

/// Four channel values, each low byte first.
pub open spec fn channels_bytes(v: [u16; 4]) -> Seq<u8> {
    le16(v[0]) + le16(v[1]) + le16(v[2]) + le16(v[3])
}

/// Four channel values read from the first eight bytes of `b`.
pub open spec fn channels_of(b: Seq<u8>) -> [u16; 4] {
    [le16_value(b), le16_value(b.skip(2)), le16_value(b.skip(4)), le16_value(b.skip(6))]
}

/// A tag followed by four channel values.
pub open spec fn tagged_channels(tag: u8, v: [u16; 4]) -> Seq<u8> {
    seq![tag] + channels_bytes(v)
}

proof fn lemma_channels_round_trip(tag: u8, v: [u16; 4], rest: Seq<u8>)
    ensures
        ({
            let b = tagged_channels(tag, v) + rest;
            &&& b.len() == 9 + rest.len()
            &&& b[0] == tag
            &&& channels_of(b.skip(1)) == v
        }),
{
    let b = tagged_channels(tag, v) + rest;
    let t3 = le16(v[3]) + rest;
    let t2 = le16(v[2]) + t3;
    let t1 = le16(v[1]) + t2;
    let t0 = le16(v[0]) + t1;
    assert(b.skip(1) =~= t0);
    assert(t0.skip(2) =~= t1);
    assert(t0.skip(4) =~= t2);
    assert(t0.skip(6) =~= t3);
    lemma_le16_round_trip(v[0], t1);
    lemma_le16_round_trip(v[1], t2);
    lemma_le16_round_trip(v[2], t3);
    lemma_le16_round_trip(v[3], rest);
    assert(channels_of(b.skip(1)) =~= v);
}

proof fn lemma_channels_exact(tag: u8, b: Seq<u8>)
    requires
        b.len() >= 9,
        b[0] == tag,
    ensures
        b.take(9) == tagged_channels(tag, channels_of(b.skip(1))),
{
    let t = b.skip(1);
    lemma_le16_of_value(t);
    lemma_le16_of_value(t.skip(2));
    lemma_le16_of_value(t.skip(4));
    lemma_le16_of_value(t.skip(6));
    assert(b.take(9) =~= tagged_channels(tag, channels_of(t)));
}

fn write_channels(buf: &mut [u8], tag: u8, v: &[u16; 4]) -> (n: usize)
    requires
        old(buf)@.len() >= 9,
    ensures
        n == 9,
        final(buf)@.len() == old(buf)@.len(),
        final(buf)@.subrange(0, 9) == tagged_channels(tag, *v),
{
    buf[0] = tag;
    let _ = put_u16(buf, 1, v[0]);
    let _ = put_u16(buf, 3, v[1]);
    let _ = put_u16(buf, 5, v[2]);
    let _ = put_u16(buf, 7, v[3]);
    assert(buf@.subrange(0, 9) =~= tagged_channels(tag, *v));
    9
}

fn read_channels(buf: &[u8]) -> (r: [u16; 4])
    requires
        buf@.len() >= 9,
    ensures
        r == channels_of(buf@.skip(1)),
{
    let a = take_u16(buf, 1).unwrap().0;
    let b = take_u16(buf, 3).unwrap().0;
    let c = take_u16(buf, 5).unwrap().0;
    let d = take_u16(buf, 7).unwrap().0;
    let r = [a, b, c, d];
    assert(buf@.skip(1).skip(2) =~= buf@.skip(3));
    assert(buf@.skip(1).skip(4) =~= buf@.skip(5));
    assert(buf@.skip(1).skip(6) =~= buf@.skip(7));
    r
}


impl Payload for Command {
    open spec fn spec_payload(&self) -> Seq<u8> {
        match *self {
            Command::GetValues => seq![0u8],
            Command::GetThresh => seq![1u8],
            Command::SetThresh4(v) => tagged_channels(2, v),
        }
    }

    open spec fn spec_parse(bytes: Seq<u8>) -> Option<(Self, nat)> {
        if bytes.len() == 0 {
            None
        } else if bytes[0] == 0 {
            Some((Command::GetValues, 1))
        } else if bytes[0] == 1 {
            Some((Command::GetThresh, 1))
        } else if bytes[0] == 2 && bytes.len() >= 9 {
            Some((Command::SetThresh4(channels_of(bytes.skip(1))), 9))
        } else {
            None
        }
    }

    open spec fn spec_payload_max_size() -> nat {
        9
    }

    proof fn lemma_payload(&self, rest: Seq<u8>) {
        if let Command::SetThresh4(v) = *self {
            lemma_channels_round_trip(2, v, rest);
        }
    }

    proof fn lemma_parse_exact(bytes: Seq<u8>) {
        if bytes.len() > 0 {
            if bytes[0] == 2 && bytes.len() >= 9 {
                lemma_channels_exact(2, bytes);
            } else {
                assert(bytes.take(1) =~= seq![bytes[0]]);
            }
        }
    }

    fn payload_max_size() -> (r: usize) {
        9
    }

    fn write_payload(&self, buf: &mut [u8]) -> (n: usize) {
        match self {
            Command::GetValues => {
                buf[0] = 0;
                assert(buf@.subrange(0, 1) =~= seq![0u8]);
                1
            },
            Command::GetThresh => {
                buf[0] = 1;
                assert(buf@.subrange(0, 1) =~= seq![1u8]);
                1
            },
            Command::SetThresh4(v) => write_channels(buf, 2, v),
        }
    }

    fn read_payload(buf: &[u8]) -> (r: Option<(Self, usize)>) {
        if buf.len() == 0 {
            None
        } else if buf[0] == 0 {
            Some((Command::GetValues, 1))
        } else if buf[0] == 1 {
            Some((Command::GetThresh, 1))
        } else if buf[0] == 2 && buf.len() >= 9 {
            Some((Command::SetThresh4(read_channels(buf)), 9))
        } else {
            None
        }
    }
}

impl Codec for Command {
    fn max_serialized_len(integrity: Integrity) -> (r: usize) {
        max_serialized_len::<Command>(integrity)
    }

    fn serialize(&self, integrity: Integrity, out_buf: &mut [u8]) -> (r: Result<usize, SerializeError>) {
        encode(self, integrity, out_buf)
    }

    fn deserialize_in_place(integrity: Integrity, in_buf: &mut [u8]) -> (r: Result<Self, DeserializeError>) {
        decode(integrity, in_buf)
    }
}

impl Payload for Response {
    open spec fn spec_payload(&self) -> Seq<u8> {
        match *self {
            Response::Values4(v) => tagged_channels(0, v),
            Response::Thresh4(v) => tagged_channels(1, v),
            Response::Ack => seq![2u8],
        }
    }

    open spec fn spec_parse(bytes: Seq<u8>) -> Option<(Self, nat)> {
        if bytes.len() == 0 {
            None
        } else if bytes[0] == 0 && bytes.len() >= 9 {
            Some((Response::Values4(channels_of(bytes.skip(1))), 9))
        } else if bytes[0] == 1 && bytes.len() >= 9 {
            Some((Response::Thresh4(channels_of(bytes.skip(1))), 9))
        } else if bytes[0] == 2 {
            Some((Response::Ack, 1))
        } else {
            None
        }
    }

    open spec fn spec_payload_max_size() -> nat {
        9
    }

    proof fn lemma_payload(&self, rest: Seq<u8>) {
        match *self {
            Response::Values4(v) => lemma_channels_round_trip(0, v, rest),
            Response::Thresh4(v) => lemma_channels_round_trip(1, v, rest),
            Response::Ack => {},
        }
    }

    proof fn lemma_parse_exact(bytes: Seq<u8>) {
        if bytes.len() > 0 {
            if bytes[0] <= 1 && bytes.len() >= 9 {
                lemma_channels_exact(bytes[0], bytes);
            } else {
                assert(bytes.take(1) =~= seq![bytes[0]]);
            }
        }
    }

    fn payload_max_size() -> (r: usize) {
        9
    }

    fn write_payload(&self, buf: &mut [u8]) -> (n: usize) {
        match self {
            Response::Values4(v) => write_channels(buf, 0, v),
            Response::Thresh4(v) => write_channels(buf, 1, v),
            Response::Ack => {
                buf[0] = 2;
                assert(buf@.subrange(0, 1) =~= seq![2u8]);
                1
            },
        }
    }

    fn read_payload(buf: &[u8]) -> (r: Option<(Self, usize)>) {
        if buf.len() == 0 {
            None
        } else if buf[0] == 0 && buf.len() >= 9 {
            Some((Response::Values4(read_channels(buf)), 9))
        } else if buf[0] == 1 && buf.len() >= 9 {
            Some((Response::Thresh4(read_channels(buf)), 9))
        } else if buf[0] == 2 {
            Some((Response::Ack, 1))
        } else {
            None
        }
    }
}

impl Codec for Response {
    fn max_serialized_len(integrity: Integrity) -> (r: usize) {
        max_serialized_len::<Response>(integrity)
    }

    fn serialize(&self, integrity: Integrity, out_buf: &mut [u8]) -> (r: Result<usize, SerializeError>) {
        encode(self, integrity, out_buf)
    }

    fn deserialize_in_place(integrity: Integrity, in_buf: &mut [u8]) -> (r: Result<Self, DeserializeError>) {
        decode(integrity, in_buf)
    }
}

} // verus!
