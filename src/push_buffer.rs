//! A fixed-capacity byte accumulator for collecting an incoming frame.

use vstd::prelude::*;
use vstd::slice::slice_subrange;

verus! {

/// The buffer was already full.
#[derive(Clone, Copy, Debug, PartialEq, Eq, Structural)]
pub struct BufferOverflow;

/// Contents after pushing `byte` onto `contents` in a buffer that holds at
/// most `cap` bytes, and whether the byte was taken.
pub open spec fn pushed(contents: Seq<u8>, cap: nat, byte: u8) -> (Seq<u8>, bool) {
    if contents.len() < cap {
        (contents.push(byte), true)
    } else {
        (contents, false)
    }
}

/// Contents after pushing each of `bytes` in turn onto `contents`, and for
/// each push whether the byte was taken.
pub open spec fn pushed_all(contents: Seq<u8>, cap: nat, bytes: Seq<u8>) -> (Seq<u8>, Seq<bool>)
    decreases bytes.len(),
{
    if bytes.len() == 0 {
        (contents, seq![])
    } else {
        let before = pushed_all(contents, cap, bytes.drop_last());
        let after = pushed(before.0, cap, bytes.last());
        (after.0, before.1.push(after.1))
    }
}

/// Bytes pushed one at a time into room for `LEN` of them.
///
/// Pushing onto a full buffer is reported, never a silent drop. The storage
/// past the held bytes is always zero, so a finished buffer hands out only
/// the bytes of its own frame.
pub struct PushBuffer<const LEN: usize> {
    buf: [u8; LEN],
    len: usize,
}

impl<const LEN: usize> View for PushBuffer<LEN> {
    type V = Seq<u8>;

    /// The bytes pushed since the buffer was made or last cleared.
    closed spec fn view(&self) -> Seq<u8> {
        self.buf@.take(self.len as int)
    }
}

impl<const LEN: usize> PushBuffer<LEN> {
    #[verifier::type_invariant]
    spec fn inv(&self) -> bool {
        &&& self.len <= LEN
        &&& forall|i: int| self.len <= i < LEN ==> self.buf@[i] == 0
    }

    /// An empty buffer.
    pub fn new() -> (r: Self)
        ensures
            r@ == Seq::<u8>::empty(),
    {
        let r = PushBuffer { buf: [0u8; LEN], len: 0 };
        assert(r.buf@.take(0) =~= Seq::<u8>::empty());
        r
    }

    /// Pushes `byte` at the end; fails with `BufferOverflow`, leaving the
    /// buffer as it was, when it already holds `LEN` bytes.
    pub fn push(&mut self, byte: u8) -> (r: Result<(), BufferOverflow>)
        ensures
            (final(self)@, r is Ok) == pushed(old(self)@, LEN as nat, byte),
    {
        proof {
            use_type_invariant(&*self);
        }
        if self.is_full() {
            return Err(BufferOverflow);
        }
        let ghost before = self@;
        let len = self.len;
        let mut buf = self.buf;
        buf[len] = byte;
        assert(buf@.take(len + 1) =~= before.push(byte));
        *self = PushBuffer { buf, len: len + 1 };
        Ok(())
    }

    /// Whether the buffer holds `LEN` bytes.
    pub fn is_full(&self) -> (r: bool)
        ensures
            r == (self@.len() == LEN),
    {
        proof {
            use_type_invariant(self);
        }
        self.len == LEN
    }

    /// Number of bytes held, never more than `LEN`.
    pub fn len(&self) -> (r: usize)
        ensures
            r == self@.len(),
            r <= LEN,
    {
        proof {
            use_type_invariant(self);
        }
        self.len
    }

    /// The bytes held.
    pub fn as_slice(&self) -> (r: &[u8])
        ensures
            r@ == self@,
    {
        proof {
            use_type_invariant(self);
        }
        slice_subrange(self.buf.as_slice(), 0, self.len)
    }

    /// Empties the buffer for the next frame, zeroing its storage.
    pub fn clear(&mut self)
        ensures
            final(self)@ == Seq::<u8>::empty(),
    {
        *self = Self::new();
    }

    /// Hands out the storage and the number of bytes held, consuming the
    /// buffer so that a frame is taken once. The storage holds the bytes
    /// pushed, then zeros.
    pub fn finish(self) -> (r: ([u8; LEN], usize))
        ensures
            r.1 == self@.len(),
            r.0@ == self@ + Seq::new((LEN - self@.len()) as nat, |i: int| 0u8),
    {
        proof {
            use_type_invariant(&self);
            assert(self.buf@ =~= self@ + Seq::new((LEN - self@.len()) as nat, |i: int| 0u8));
        }
        (self.buf, self.len)
    }
}

impl<const LEN: usize> Default for PushBuffer<LEN> {
    /// An empty buffer.
    fn default() -> (r: Self)
        ensures
            r@ == Seq::<u8>::empty(),
    {
        Self::new()
    }
}

/// Pushing up to `cap` bytes into an empty buffer of capacity `cap` takes
/// every one of them.
pub proof fn lemma_fill(cap: nat, bytes: Seq<u8>)
    requires
        bytes.len() <= cap,
    ensures
        pushed_all(Seq::empty(), cap, bytes) == (bytes, Seq::new(bytes.len(), |i: int| true)),
    decreases bytes.len(),
{
    if bytes.len() > 0 {
        lemma_fill(cap, bytes.drop_last());
        assert(bytes.drop_last().push(bytes.last()) =~= bytes);
        assert(Seq::new((bytes.len() - 1) as nat, |i: int| true).push(true) =~= Seq::new(
            bytes.len(),
            |i: int| true,
        ));
    }
}

/// Overflow boundary: an empty buffer of capacity `cap` takes the first `cap`
/// of `cap + 1` pushes and refuses the last, keeping what it holds; emptied
/// again, it takes `cap` pushes once more.
pub proof fn lemma_overflow_boundary(cap: nat, bytes: Seq<u8>, again: Seq<u8>)
    requires
        bytes.len() == cap + 1,
        again.len() == cap,
    ensures
        pushed_all(Seq::empty(), cap, bytes) == (bytes.take(cap as int), Seq::new(
            cap,
            |i: int| true,
        ).push(false)),
        pushed_all(Seq::empty(), cap, again) == (again, Seq::new(cap, |i: int| true)),
{
    lemma_fill(cap, bytes.drop_last());
    assert(bytes.drop_last() =~= bytes.take(cap as int));
    lemma_fill(cap, again);
}

} // verus!
