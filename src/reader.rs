//! The receive loop: bytes arrive one at a time, collect in a
//! [`PushBuffer`] until a delimiter, and each completed frame is decoded
//! once.

use vstd::prelude::*;
use vstd::slice::slice_to_vec;
use crate::codec::{content, decode, decoded, lemma_round_trip, DeserializeError, Integrity, Payload};
use crate::framing::{is_frame, lemma_frame_delimiter, unstuff, DELIMITER};
use crate::push_buffer::{BufferOverflow, PushBuffer};

verus! {

/// Receiving failed.
#[derive(Clone, Copy, Debug, PartialEq, Eq, Structural)]
pub enum ReadError {
    /// More bytes arrived before a delimiter than the buffer holds.
    BufferOverflow,
    /// A completed frame did not decode.
    Decode(DeserializeError),
}

/// A decoding outcome as the receive loop reports it.
pub open spec fn as_received<P>(r: Result<P, DeserializeError>) -> Result<P, ReadError> {
    match r {
        Ok(v) => Ok(v),
        Err(e) => Err(ReadError::Decode(e)),
    }
}

/// One byte received with `pending` collected so far in room for `cap`
/// bytes: what is collected afterwards, and what is reported, if anything.
/// A delimiter completes the frame `pending ++ [0]`, which is decoded, and
/// empties the buffer; any other byte is collected, or reported as an
/// overflow that leaves the buffer as it was.
pub open spec fn read_step<P: Payload>(integrity: Integrity, cap: nat, pending: Seq<u8>, byte: u8) -> (
    Seq<u8>,
    Option<Result<P, ReadError>>,
) {
    if byte == 0 {
        (Seq::empty(), Some(as_received(decoded::<P>(integrity, pending.push(0u8)))))
    } else if pending.len() < cap {
        (pending.push(byte), None)
    } else {
        (pending, Some(Err(ReadError::BufferOverflow)))
    }
}

/// One byte received by a receiver in state `st`: the bytes collected and
/// whether it is discarding. A receiver that overflows reports it once,
/// empties its buffer and discards bytes up to the next delimiter, so the
/// rest of the over-long frame is never decoded.
pub open spec fn receive_step<P: Payload>(
    integrity: Integrity,
    cap: nat,
    st: (Seq<u8>, bool),
    byte: u8,
) -> ((Seq<u8>, bool), Option<Result<P, ReadError>>) {
    if st.1 {
        if byte == 0 {
            ((Seq::empty(), false), None)
        } else {
            (st, None)
        }
    } else {
        let step = read_step::<P>(integrity, cap, st.0, byte);
        if step.1 == Some(Err::<P, ReadError>(ReadError::BufferOverflow)) {
            ((Seq::empty(), true), step.1)
        } else {
            ((step.0, false), step.1)
        }
    }
}

/// What a receiver holds and has reported after the bytes of `stream`,
/// starting empty.
pub open spec fn stream_state<P: Payload>(integrity: Integrity, cap: nat, stream: Seq<u8>) -> (
    (Seq<u8>, bool),
    Seq<Result<P, ReadError>>,
)
    decreases stream.len(),
{
    if stream.len() == 0 {
        ((Seq::empty(), false), Seq::empty())
    } else {
        let before = stream_state::<P>(integrity, cap, stream.drop_last());
        let step = receive_step::<P>(integrity, cap, before.0, stream.last());
        match step.1 {
            None => (step.0, before.1),
            Some(out) => (step.0, before.1.push(out)),
        }
    }
}

/// Takes one received byte: collects it, or on a delimiter decodes the
/// collected frame and empties the buffer. Returns what there is to report.
pub fn read_byte<P: Payload, const LEN: usize>(
    buf: &mut PushBuffer<LEN>,
    integrity: Integrity,
    byte: u8,
) -> (r: Option<Result<P, ReadError>>)
    ensures
        (final(buf)@, r) == read_step::<P>(integrity, LEN as nat, old(buf)@, byte),
{
    if byte != DELIMITER {
        match buf.push(byte) {
            Ok(()) => None,
            Err(BufferOverflow) => Some(Err(ReadError::BufferOverflow)),
        }
    } else {
        let mut frame = slice_to_vec(buf.as_slice());
        frame.push(DELIMITER);
        let decoded = decode::<P>(integrity, frame.as_mut_slice());
        buf.clear();
        match decoded {
            Ok(v) => Some(Ok(v)),
            Err(e) => Some(Err(ReadError::Decode(e))),
        }
    }
}

/// The receive loop's state: the bytes collected so far, and whether it is
/// discarding the rest of a frame that overflowed.
pub struct Receiver<const LEN: usize> {
    buf: PushBuffer<LEN>,
    discarding: bool,
}

impl<const LEN: usize> View for Receiver<LEN> {
    type V = (Seq<u8>, bool);

    closed spec fn view(&self) -> (Seq<u8>, bool) {
        (self.buf@, self.discarding)
    }
}

impl<const LEN: usize> Receiver<LEN> {
    /// A receiver with nothing collected.
    pub fn new() -> (r: Self)
        ensures
            r@ == (Seq::<u8>::empty(), false),
    {
        Receiver { buf: PushBuffer::new(), discarding: false }
    }

    /// Takes one received byte and returns what there is to report.
    pub fn receive<P: Payload>(&mut self, integrity: Integrity, byte: u8) -> (r: Option<Result<P, ReadError>>)
        ensures
            (final(self)@, r) == receive_step::<P>(integrity, LEN as nat, old(self)@, byte),
    {
        if self.discarding {
            if byte == DELIMITER {
                self.buf.clear();
                self.discarding = false;
            }
            return None;
        }
        match read_byte::<P, LEN>(&mut self.buf, integrity, byte) {
            Some(Err(ReadError::BufferOverflow)) => {
                self.buf.clear();
                self.discarding = true;
                Some(Err(ReadError::BufferOverflow))
            },
            other => other,
        }
    }
}

/// Runs a receiver with a buffer of `LEN` bytes over `stream` and returns
/// every report in order. Bytes after the last delimiter stay collected and
/// are not reported.
pub fn decode_stream<P: Payload, const LEN: usize>(integrity: Integrity, stream: &[u8]) -> (r: Vec<
    Result<P, ReadError>,
>)
    ensures
        r@ == stream_state::<P>(integrity, LEN as nat, stream@).1,
{
    let mut rx = Receiver::<LEN>::new();
    let mut out: Vec<Result<P, ReadError>> = Vec::new();
    let mut i: usize = 0;
    while i < stream.len()
        invariant
            0 <= i <= stream@.len(),
            stream_state::<P>(integrity, LEN as nat, stream@.take(i as int)) == (rx@, out@),
        decreases stream@.len() - i,
    {
        assert(stream@.take(i + 1).drop_last() =~= stream@.take(i as int));
        match rx.receive::<P>(integrity, stream[i]) {
            None => {},
            Some(o) => {
                out.push(o);
            },
        }
        i += 1;
    }
    assert(stream@.take(stream@.len() as int) =~= stream@);
    out
}

proof fn lemma_stream_collects<P: Payload>(
    integrity: Integrity,
    cap: nat,
    prefix: Seq<u8>,
    f: Seq<u8>,
    k: int,
)
    requires
        stream_state::<P>(integrity, cap, prefix).0 == (Seq::<u8>::empty(), false),
        0 <= k <= f.len(),
        k <= cap,
        forall|j: int| 0 <= j < k ==> f[j] != 0,
    ensures
        stream_state::<P>(integrity, cap, prefix + f.take(k)) == ((f.take(k), false), stream_state::<P>(
            integrity,
            cap,
            prefix,
        ).1),
    decreases k,
{
    if k == 0 {
        assert(prefix + f.take(0) =~= prefix);
        assert(f.take(0) =~= Seq::<u8>::empty());
    } else {
        lemma_stream_collects::<P>(integrity, cap, prefix, f, k - 1);
        let s = prefix + f.take(k);
        assert(s.drop_last() =~= prefix + f.take(k - 1));
        assert(s.last() == f[k - 1]);
        assert(f.take(k - 1).push(f[k - 1]) =~= f.take(k));
    }
}

/// A frame that fits the buffer, received when nothing is collected, is
/// reported as its decoding and leaves the buffer empty.
pub proof fn lemma_stream_frame<P: Payload>(integrity: Integrity, cap: nat, prefix: Seq<u8>, f: Seq<u8>)
    requires
        stream_state::<P>(integrity, cap, prefix).0 == (Seq::<u8>::empty(), false),
        is_frame(f),
        f.len() <= cap + 1,
    ensures
        stream_state::<P>(integrity, cap, prefix + f) == ((Seq::<u8>::empty(), false), stream_state::<P>(
            integrity,
            cap,
            prefix,
        ).1.push(as_received(decoded::<P>(integrity, f)))),
{
    lemma_frame_delimiter(f);
    let n = f.len() - 1;
    lemma_stream_collects::<P>(integrity, cap, prefix, f, n);
    let s = prefix + f;
    assert(s.drop_last() =~= prefix + f.take(n));
    assert(s.last() == 0);
    assert(f.take(n).push(0u8) =~= f);
}

/// Stream multiplexing: two frames back to back, each fitting the buffer
/// and each standing for a value, are reported as those two values in
/// order, and the buffer ends empty.
pub proof fn lemma_two_frames<P: Payload>(
    integrity: Integrity,
    cap: nat,
    a: P,
    fa: Seq<u8>,
    b: P,
    fb: Seq<u8>,
)
    requires
        is_frame(fa),
        unstuff(fa) == content(integrity, a),
        fa.len() <= cap + 1,
        is_frame(fb),
        unstuff(fb) == content(integrity, b),
        fb.len() <= cap + 1,
    ensures
        stream_state::<P>(integrity, cap, fa + fb) == ((Seq::<u8>::empty(), false), seq![
            Ok::<P, ReadError>(a),
            Ok::<P, ReadError>(b),
        ]),
{
    let empty = Seq::<u8>::empty();
    assert(stream_state::<P>(integrity, cap, empty) == ((empty, false), Seq::<Result<P, ReadError>>::empty()));
    lemma_stream_frame::<P>(integrity, cap, empty, fa);
    assert(empty + fa =~= fa);
    lemma_stream_frame::<P>(integrity, cap, fa, fb);
    lemma_round_trip(integrity, a, fa);
    lemma_round_trip(integrity, b, fb);
    assert(Seq::<Result<P, ReadError>>::empty().push(Ok(a)).push(Ok(b)) =~= seq![
        Ok::<P, ReadError>(a),
        Ok::<P, ReadError>(b),
    ]);
}

} // verus!
