//! The message codec: a payload's compact encoding, an optional checksum,
//! and byte stuffing, composed behind one encode/decode contract.
//!
//! On the wire a message is `stuffed(payload ++ checksum)`, where the
//! checksum is present only under [`Integrity::Crc32`] and is the
//! little-endian CRC-32 of the payload bytes.

use vstd::prelude::*;
use vstd::slice::slice_subrange;
use crate::checksum::{cksum, crc32_cksum};
use crate::framing::{
    decode_in_place, delimited, encode_buf, first_zero, is_first_zero, is_frame, is_valid_frame,
    lemma_cut_frame, lemma_delimited, lemma_frame_delimited, lemma_frame_delimiter,
    lemma_frame_len_lower, lemma_unstuff_len, tail_ok,
    max_encoded_len, max_stuffed_len, stuffed, unstuff,
};
use crate::wire::{le32, le32_value, lemma_le32_of_value, lemma_le32_round_trip, put_u32, take_u32};

verus! {

/// Room on the stack for a payload and its checksum while a frame is built.
pub const SCRATCH_LEN: usize = 256;

/// Whether a checksum travels with each payload.
#[derive(Clone, Copy, Debug, PartialEq, Eq, Structural)]
pub enum Integrity {
    /// Payload only.
    Plain,
    /// Payload followed by its four-byte CRC-32.
    Crc32,
}

/// Bytes that the integrity check adds after the payload.
pub open spec fn trailer_len(integrity: Integrity) -> nat {
    match integrity {
        Integrity::Plain => 0,
        Integrity::Crc32 => 4,
    }
}

/// Encoding failed.
#[derive(Clone, Copy, Debug, PartialEq, Eq, Structural)]
pub enum SerializeError {
    /// The output buffer is shorter than the largest frame of the type.
    BufferTooSmall,
}

/// Decoding failed.
#[derive(Clone, Copy, Debug, PartialEq, Eq, Structural)]
pub enum DeserializeError {
    /// The bytes are not exactly one well-formed frame.
    InvalidFraming,
    /// The unstuffed bytes do not hold a value of the type, or the checksum
    /// after it is cut short.
    MalformedPayload,
    /// The checksum carried by the frame differs from the one computed over
    /// its payload.
    ChecksumMismatch { received: u32, computed: u32 },
}

/// A type with a compact byte encoding.
///
/// Implementors state their encoding as `spec_payload`, how bytes read back
/// as `spec_parse`, and prove that reading an encoding gives the value back.
pub trait Payload: Sized {
    /// The compact encoding of `self`.
    spec fn spec_payload(&self) -> Seq<u8>;

    /// The value at the start of `bytes` and the number of bytes it takes,
    /// or `None` when the bytes hold no value of the type.
    spec fn spec_parse(bytes: Seq<u8>) -> Option<(Self, nat)>;

    /// The longest encoding of any value of the type.
    spec fn spec_payload_max_size() -> nat;

    /// Encodings are bounded, and each reads back as its value whatever
    /// follows it.
    proof fn lemma_payload(&self, rest: Seq<u8>)
        ensures
            self.spec_payload().len() <= Self::spec_payload_max_size(),
            Self::spec_parse(self.spec_payload() + rest) == Some((*self, self.spec_payload().len())),
    ;

    /// A value read from `bytes` was read from its own encoding at their
    /// start.
    proof fn lemma_parse_exact(bytes: Seq<u8>)
        ensures
            Self::spec_parse(bytes) is Some ==> {
                let p = Self::spec_parse(bytes)->Some_0;
                p.1 <= bytes.len() && bytes.take(p.1 as int) == p.0.spec_payload()
            },
    ;

    /// The longest encoding of any value of the type.
    fn payload_max_size() -> (r: usize)
        ensures
            r == Self::spec_payload_max_size(),
            r <= SCRATCH_LEN - 4,
    ;

    /// Writes the encoding of `self` at the start of `buf` and returns its
    /// length.
    fn write_payload(&self, buf: &mut [u8]) -> (n: usize)
        requires
            old(buf)@.len() >= Self::spec_payload_max_size(),
        ensures
            n == self.spec_payload().len(),
            final(buf)@.len() == old(buf)@.len(),
            final(buf)@.subrange(0, n as int) == self.spec_payload(),
    ;

    /// Reads a value from the start of `buf`, with the number of bytes it
    /// took.
    fn read_payload(buf: &[u8]) -> (r: Option<(Self, usize)>)
        ensures
            r is Some ==> r->Some_0.1 <= buf@.len(),
            Self::spec_parse(buf@) == match r {
                Some(p) => Some((p.0, p.1 as nat)),
                None => None::<(Self, nat)>,
            },
    ;
}

/// A message type that travels as frames.
pub trait Codec: Payload {

    /// Largest frame of the type under `integrity`; a buffer of this size
    /// holds the frame of any value.
    fn max_serialized_len(integrity: Integrity) -> (r: usize)
        ensures
            r == max_serialized::<Self>(integrity),
    ;

    /// Encodes `self` as a frame at the start of `out_buf` and returns the
    /// frame's length; fails when `out_buf` is shorter than
    /// `max_serialized_len`.
    fn serialize(&self, integrity: Integrity, out_buf: &mut [u8]) -> (r: Result<usize, SerializeError>)
        ensures
            encoded_into(integrity, *self, old(out_buf)@, final(out_buf)@, r),
    ;

    /// Decodes the frame at the start of `in_buf`, up to its first
    /// delimiter, overwriting the buffer. Bytes after the delimiter are
    /// ignored when the frame decodes; when it does not, they make the input
    /// `InvalidFraming`.
    fn deserialize_in_place(integrity: Integrity, in_buf: &mut [u8]) -> (r: Result<Self, DeserializeError>)
        ensures
            r == decoded::<Self>(integrity, old(in_buf)@),
            final(in_buf)@.len() == old(in_buf)@.len(),
    ;
}

/// The bytes that are stuffed into the frame of `v`: its payload, then its
/// checksum when one is asked for.
pub open spec fn content<P: Payload>(integrity: Integrity, v: P) -> Seq<u8> {
    match integrity {
        Integrity::Plain => v.spec_payload(),
        Integrity::Crc32 => v.spec_payload() + le32(cksum(v.spec_payload())),
    }
}

/// The frame of `v`.
pub open spec fn encoded<P: Payload>(integrity: Integrity, v: P) -> Seq<u8> {
    stuffed(content(integrity, v))
}

/// The largest frame of any value of `P`.
pub open spec fn max_serialized<P: Payload>(integrity: Integrity) -> nat {
    max_stuffed_len(P::spec_payload_max_size() + trailer_len(integrity))
}

/// How encoding `v` into the buffer `before` leaves it as `after` with
/// result `r`: the frame at the front and the rest untouched, or an error and
/// no change when the buffer is too short.
pub open spec fn encoded_into<P: Payload>(
    integrity: Integrity,
    v: P,
    before: Seq<u8>,
    after: Seq<u8>,
    r: Result<usize, SerializeError>,
) -> bool {
    if before.len() < max_serialized::<P>(integrity) {
        r == Err::<usize, SerializeError>(SerializeError::BufferTooSmall) && after == before
    } else {
        &&& r is Ok
        &&& r->Ok_0 == encoded(integrity, v).len()
        &&& after.len() == before.len()
        &&& after.subrange(0, r->Ok_0 as int) == encoded(integrity, v)
        &&& after.skip(r->Ok_0 as int) == before.skip(r->Ok_0 as int)
        &&& is_frame(encoded(integrity, v))
        &&& tail_ok(encoded(integrity, v))
        &&& unstuff(encoded(integrity, v)) == content(integrity, v)
        &&& 2 <= r->Ok_0 <= max_stuffed_len(content(integrity, v).len())
        &&& content(integrity, v).len() > 0 ==> content(integrity, v).len() + 2 <= r->Ok_0
        &&& r->Ok_0 <= max_serialized::<P>(integrity)
        &&& decoded::<P>(integrity, after.subrange(0, r->Ok_0 as int)) == Ok::<P, DeserializeError>(v)
    }
}

/// The outcome of checking a payload's carried checksum against the one
/// computed over it.
pub open spec fn checked<P>(v: P, received: u32, computed: u32) -> Result<P, DeserializeError> {
    if received == computed {
        Ok(v)
    } else {
        Err(DeserializeError::ChecksumMismatch { received, computed })
    }
}

/// The value that unstuffed bytes `c` hold: a payload that must parse, then
/// under `Crc32` four checksum bytes that must match. Bytes after those are
/// not read.
pub open spec fn read_content_spec<P: Payload>(integrity: Integrity, c: Seq<u8>) -> Result<P, DeserializeError> {
    match P::spec_parse(c) {
        None => Err(DeserializeError::MalformedPayload),
        Some((v, used)) => match integrity {
            Integrity::Plain => Ok(v),
            Integrity::Crc32 => if c.len() < used + 4 {
                Err(DeserializeError::MalformedPayload)
            } else {
                checked(v, le32_value(c.skip(used as int)), cksum(c.take(used as int)))
            },
        },
    }
}

/// The value that the frame `frame` decodes to.
pub open spec fn decoded_frame<P: Payload>(integrity: Integrity, frame: Seq<u8>) -> Result<P, DeserializeError> {
    if !is_frame(frame) {
        Err(DeserializeError::InvalidFraming)
    } else {
        read_content_spec::<P>(integrity, unstuff(frame))
    }
}

/// The value that the bytes `s` decode to: the frame that ends at the first
/// delimiter is decoded and the bytes after it are ignored, except that a
/// frame that does not decode, followed by more bytes, is reported as
/// `InvalidFraming`.
pub open spec fn decoded<P: Payload>(integrity: Integrity, s: Seq<u8>) -> Result<P, DeserializeError> {
    let r = decoded_frame::<P>(integrity, delimited(s));
    if delimited(s).len() < s.len() && r is Err {
        Err(DeserializeError::InvalidFraming)
    } else {
        r
    }
}

/// Largest frame of any value of `P` under `integrity`.
pub fn max_serialized_len<P: Payload>(integrity: Integrity) -> (r: usize)
    ensures
        r == max_serialized::<P>(integrity),
{
    let payload = P::payload_max_size();
    let raw = match integrity {
        Integrity::Plain => payload,
        Integrity::Crc32 => payload + 4,
    };
    max_encoded_len(raw)
}

/// Encodes `value` as a frame at the start of `out_buf` and returns the
/// frame's length.
pub fn encode<P: Payload>(value: &P, integrity: Integrity, out_buf: &mut [u8]) -> (r: Result<usize, SerializeError>)
    ensures
        encoded_into(integrity, *value, old(out_buf)@, final(out_buf)@, r),
{
    let max = max_serialized_len::<P>(integrity);
    if out_buf.len() < max {
        return Err(SerializeError::BufferTooSmall);
    }
    let payload_max = P::payload_max_size();
    assert(payload_max + 4 <= SCRATCH_LEN);
    let mut scratch = [0u8; SCRATCH_LEN];
    let n = value.write_payload(&mut scratch);
    proof {
        value.lemma_payload(seq![]);
    }
    let len = match integrity {
        Integrity::Plain => n,
        Integrity::Crc32 => {
            let crc = crc32_cksum(slice_subrange(scratch.as_slice(), 0, n));
            let _ = put_u32(&mut scratch, n, crc);
            n + 4
        },
    };
    let data = slice_subrange(scratch.as_slice(), 0, len);
    assert(data@ == content(integrity, *value));
    let used = encode_buf(data, out_buf);
    proof {
        lemma_round_trip(integrity, *value, out_buf@.subrange(0, used as int));
        if data@.len() > 0 {
            lemma_frame_len_lower(out_buf@.subrange(0, used as int));
        }
    }
    Ok(used)
}

/// Checks a carried checksum against the computed one: `value` when they
/// agree, `ChecksumMismatch` with both otherwise.
pub fn check_checksum<P>(value: P, received: u32, computed: u32) -> (r: Result<P, DeserializeError>)
    ensures
        r == checked(value, received, computed),
{
    if received == computed {
        Ok(value)
    } else {
        Err(DeserializeError::ChecksumMismatch { received, computed })
    }
}

/// Reads the value held by unstuffed bytes.
pub fn read_content<P: Payload>(integrity: Integrity, content: &[u8]) -> (r: Result<P, DeserializeError>)
    ensures
        r == read_content_spec::<P>(integrity, content@),
{
    let (value, used) = match P::read_payload(content) {
        Some(p) => p,
        None => {
            return Err(DeserializeError::MalformedPayload);
        },
    };
    match integrity {
        Integrity::Plain => Ok(value),
        Integrity::Crc32 => {
            if content.len() - used < 4 {
                return Err(DeserializeError::MalformedPayload);
            }
            let received = match take_u32(content, used) {
                Ok(p) => p.0,
                Err(_) => {
                    return Err(DeserializeError::MalformedPayload);
                },
            };
            let computed = crc32_cksum(slice_subrange(content, 0, used));
            assert(content@.subrange(0, used as int) == content@.take(used as int));
            check_checksum(value, received, computed)
        },
    }
}

/// Decodes the frame at the start of `in_buf`, up to its first delimiter,
/// overwriting the buffer with the unstuffed bytes. Bytes after the
/// delimiter are ignored when the frame decodes; when it does not, they make
/// the input `InvalidFraming`.
pub fn decode<P: Payload>(integrity: Integrity, in_buf: &mut [u8]) -> (r: Result<P, DeserializeError>)
    ensures
        r == decoded::<P>(integrity, old(in_buf)@),
        final(in_buf)@.len() == old(in_buf)@.len(),
{
    let z = match first_zero(in_buf) {
        Some(z) => z,
        None => {
            proof {
                if is_frame(in_buf@) {
                    lemma_frame_delimiter(in_buf@);
                }
            }
            return Err(DeserializeError::InvalidFraming);
        },
    };
    proof {
        lemma_delimited(in_buf@, z as int);
    }
    let len = in_buf.len();
    let trailing = z < len - 1;
    let r = decode_delimited(integrity, in_buf, z);
    match r {
        Ok(v) => Ok(v),
        Err(e) => if trailing {
            Err(DeserializeError::InvalidFraming)
        } else {
            Err(e)
        },
    }
}

fn decode_delimited<P: Payload>(integrity: Integrity, in_buf: &mut [u8], z: usize) -> (r: Result<P, DeserializeError>)
    requires
        is_first_zero(old(in_buf)@, z as int),
        delimited(old(in_buf)@) == old(in_buf)@.take(z + 1),
    ensures
        r == decoded_frame::<P>(integrity, delimited(old(in_buf)@)),
        final(in_buf)@.len() == old(in_buf)@.len(),
{
    let len = in_buf.len();
    assert(z < len);
    let frame = slice_subrange(in_buf, 0, z + 1);
    if !is_valid_frame(frame) {
        return Err(DeserializeError::InvalidFraming);
    }
    let n = match decode_in_place(in_buf) {
        Ok(n) => n,
        Err(_) => {
            return Err(DeserializeError::InvalidFraming);
        },
    };
    proof {
        lemma_unstuff_len(delimited(old(in_buf)@));
    }
    let content = slice_subrange(in_buf, 0, n);
    read_content(integrity, content)
}

/// Round trip: any frame that unstuffs to the content of `v` (payload, then
/// checksum under `Crc32`) decodes to `v`. The frame that `encode` writes is
/// such a frame, so decoding what `encode` wrote gives the value back.
pub proof fn lemma_round_trip<P: Payload>(integrity: Integrity, v: P, frame: Seq<u8>)
    requires
        is_frame(frame),
        unstuff(frame) == content(integrity, v),
    ensures
        decoded::<P>(integrity, frame) == Ok::<P, DeserializeError>(v),
{
    lemma_frame_delimited(frame);
    let p = v.spec_payload();
    match integrity {
        Integrity::Plain => {
            v.lemma_payload(seq![]);
            assert(p + seq![] =~= p);
        },
        Integrity::Crc32 => {
            let crc = cksum(p);
            let c = p + le32(crc);
            v.lemma_payload(le32(crc));
            lemma_le32_round_trip(crc, seq![]);
            assert(le32(crc) + seq![] =~= le32(crc));
            assert(c.skip(p.len() as int) =~= le32(crc));
            assert(c.take(p.len() as int) =~= p);
        },
    }
}


/// Round trip with trailing bytes: whatever follows a frame of `v` after its
/// delimiter, the bytes decode to `v`.
pub proof fn lemma_round_trip_trailing<P: Payload>(integrity: Integrity, v: P, frame: Seq<u8>, rest: Seq<u8>)
    requires
        is_frame(frame),
        unstuff(frame) == content(integrity, v),
    ensures
        decoded::<P>(integrity, frame + rest) == Ok::<P, DeserializeError>(v),
{
    lemma_round_trip(integrity, v, frame);
    lemma_frame_delimiter(frame);
    let s = frame + rest;
    lemma_delimited(s, frame.len() - 1);
    lemma_frame_delimited(frame);
    assert(s.take(frame.len() as int) =~= frame);
}

/// Bytes that are a strict prefix of the content of `v` hold no value.
proof fn lemma_strict_prefix_fails<P: Payload>(integrity: Integrity, v: P, q: Seq<u8>)
    requires
        q.len() < content(integrity, v).len(),
        q == content(integrity, v).take(q.len() as int),
    ensures
        read_content_spec::<P>(integrity, q) is Err,
{
    let c = content(integrity, v);
    let pv = v.spec_payload();
    P::lemma_parse_exact(q);
    if P::spec_parse(q) is Some {
        let (w, k) = P::spec_parse(q)->Some_0;
        assert(c.take(k as int) =~= q.take(k as int));
        assert(c =~= w.spec_payload() + c.skip(k as int));
        w.lemma_payload(c.skip(k as int));
        match integrity {
            Integrity::Plain => {
                v.lemma_payload(seq![]);
                assert(pv + seq![] =~= pv);
            },
            Integrity::Crc32 => {
                v.lemma_payload(le32(cksum(pv)));
            },
        }
    }
}

/// Framing robustness: a delimiter inserted before the last byte of a frame
/// of `v` makes decoding fail with `InvalidFraming`. The frame must stand
/// for some bytes, and must not end with an empty group after a full one
/// (`tail_ok`; frames that `encode` writes never do): on such frames the
/// bytes before the inserted delimiter are themselves a frame of `v`.
pub proof fn lemma_inserted_delimiter<P: Payload>(integrity: Integrity, v: P, frame: Seq<u8>, i: int)
    requires
        is_frame(frame),
        unstuff(frame) == content(integrity, v),
        content(integrity, v).len() > 0,
        tail_ok(frame),
        0 <= i < frame.len() - 1,
    ensures
        decoded::<P>(integrity, frame.insert(i, 0u8)) == Err::<P, DeserializeError>(
            DeserializeError::InvalidFraming,
        ),
{
    lemma_frame_delimiter(frame);
    let f = frame.insert(i, 0u8);
    assert(is_first_zero(f, i));
    lemma_delimited(f, i);
    let g = f.take(i + 1);
    assert(g =~= frame.take(i).push(0u8));
    if is_frame(g) {
        lemma_cut_frame(frame, i);
        lemma_strict_prefix_fails(integrity, v, unstuff(g));
    }
}

/// Corruption detection in the checksum: when one byte of the checksum in a
/// frame's content is changed, decoding reports `ChecksumMismatch` with the
/// checksum as received, which differs from the one computed over the
/// unchanged payload.
pub proof fn lemma_checksum_byte_changed<P: Payload>(v: P, i: int, b: u8, frame: Seq<u8>)
    requires
        v.spec_payload().len() <= i < v.spec_payload().len() + 4,
        b != content(Integrity::Crc32, v)[i],
        is_frame(frame),
        unstuff(frame) == content(Integrity::Crc32, v).update(i, b),
    ensures
        ({
            let p = v.spec_payload();
            let received = le32_value(content(Integrity::Crc32, v).update(i, b).skip(p.len() as int));
            &&& received != cksum(p)
            &&& decoded::<P>(Integrity::Crc32, frame) == Err::<P, DeserializeError>(
                DeserializeError::ChecksumMismatch { received, computed: cksum(p) },
            )
        }),
{
    lemma_frame_delimited(frame);
    let p = v.spec_payload();
    let n = p.len() as int;
    let crc = cksum(p);
    let c = content(Integrity::Crc32, v);
    let t = le32(crc).update(i - n, b);
    let c2 = c.update(i, b);
    assert(c2 =~= p + t);
    v.lemma_payload(t);
    assert(c2.skip(n) =~= t);
    assert(c2.take(n) =~= p);
    lemma_le32_of_value(t);
    assert(t.take(4) =~= t);
    if le32_value(t) == crc {
        assert(t[i - n] == le32(crc)[i - n]);
        assert(c[i] == le32(crc)[i - n]);
    }
}

/// Corruption detection in the payload, as far as it does not rest on the
/// checksum function: when one payload byte is changed and the changed
/// content still reads as a value `w` of the same length, decoding gives
/// `w` only if the changed payload has the same checksum as the original,
/// and otherwise reports `ChecksumMismatch` with the original checksum as
/// received and the changed payload's as computed.
pub proof fn lemma_payload_byte_changed<P: Payload>(v: P, i: int, b: u8, w: P, frame: Seq<u8>)
    requires
        0 <= i < v.spec_payload().len(),
        b != v.spec_payload()[i],
        is_frame(frame),
        unstuff(frame) == content(Integrity::Crc32, v).update(i, b),
        P::spec_parse(content(Integrity::Crc32, v).update(i, b)) == Some((w, v.spec_payload().len())),
    ensures
        v.spec_payload().update(i, b) != v.spec_payload(),
        decoded::<P>(Integrity::Crc32, frame) == checked(
            w,
            cksum(v.spec_payload()),
            cksum(v.spec_payload().update(i, b)),
        ),
{
    lemma_frame_delimited(frame);
    let p = v.spec_payload();
    let n = p.len() as int;
    let crc = cksum(p);
    let c2 = content(Integrity::Crc32, v).update(i, b);
    assert(c2 =~= p.update(i, b) + le32(crc));
    assert(c2.skip(n) =~= le32(crc) + seq![]);
    assert(c2.take(n) =~= p.update(i, b));
    lemma_le32_round_trip(crc, seq![]);
    assert(p.update(i, b)[i] != p[i]);
}

} // verus!
