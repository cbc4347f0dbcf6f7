//! Byte stuffing: a run of bytes becomes a frame in which the delimiter
//! `0x00` occurs exactly once, as the last byte.
//!
//! A frame is a chain of groups. A group is a length byte `c` (never zero)
//! followed by `c - 1` non-zero data bytes; the chain is closed by the
//! delimiter. Between two groups the unstuffed bytes hold a zero, except
//! after a group of the largest size (`c == 255`).

use vstd::prelude::*;

verus! {

/// Declares the error type returned by `corncobs`.
#[verifier::external_type_specification]
#[verifier::external_body]
pub struct ExCobsError(corncobs::CobsError);

/// The delimiter that closes every frame.
pub const DELIMITER: u8 = 0;

/// `s` is exactly one frame: its groups chain from the first byte to a
/// delimiter that is the last byte of `s`, and no other byte of `s` is zero.
pub open spec fn is_frame(s: Seq<u8>) -> bool
    decreases s.len(),
{
    if s.len() == 0 {
        false
    } else if s[0] == 0 {
        s.len() == 1
    } else {
        let c = s[0] as int;
        &&& c < s.len()
        &&& forall|i: int| 1 <= i < c ==> s[i] != 0
        &&& is_frame(s.skip(c))
    }
}

/// The bytes that the frame `s` stands for.
pub open spec fn unstuff(s: Seq<u8>) -> Seq<u8>
    decreases s.len(),
{
    if s.len() == 0 || s[0] == 0 || s[0] as int >= s.len() {
        seq![]
    } else {
        let c = s[0] as int;
        let block = s.subrange(1, c);
        let rest = s.skip(c);
        if rest[0] == 0 {
            block
        } else if c == 255 {
            block + unstuff(rest)
        } else {
            block + seq![0u8] + unstuff(rest)
        }
    }
}

/// `z` is the position of the first zero in `s`.
pub open spec fn is_first_zero(s: Seq<u8>, z: int) -> bool {
    &&& 0 <= z < s.len()
    &&& s[z] == 0
    &&& forall|j: int| 0 <= j < z ==> s[j] != 0
}

/// The bytes of `s` up to and including its first zero; all of `s` when it
/// holds no zero.
pub open spec fn delimited(s: Seq<u8>) -> Seq<u8> {
    if exists|z: int| is_first_zero(s, z) {
        s.take((choose|z: int| is_first_zero(s, z)) + 1)
    } else {
        s
    }
}

/// The frame `s` does not end with an empty group that follows a full one
/// (or stands alone after nothing but full groups): cutting it at an
/// earlier group boundary always loses bytes.
pub open spec fn tail_ok(s: Seq<u8>) -> bool
    decreases s.len(),
{
    if s.len() == 0 || s[0] == 0 || s[0] as int >= s.len() {
        true
    } else {
        let c = s[0] as int;
        let rest = s.skip(c);
        if rest == seq![1u8, 0u8] {
            c != 255
        } else {
            tail_ok(rest)
        }
    }
}

/// The frame that stuffing produces for `data`.
pub uninterp spec fn stuffed(data: Seq<u8>) -> Seq<u8>;

/// The most bytes that stuffing `n` bytes can produce, delimiter included:
/// one length byte per started run of 254 bytes (at least one), plus the
/// delimiter.
pub open spec fn max_stuffed_len(n: nat) -> nat {
    if n == 0 {
        2
    } else {
        n + (n + 253) / 254 + 1
    }
}

/// Relies on `corncobs::max_encoded_len`, whose body is the formula of
/// `max_stuffed_len`.
#[verifier::external_body]
pub(crate) fn max_encoded_len(raw_len: usize) -> (r: usize)
    requires
        raw_len <= usize::MAX / 2,
    ensures
        r == max_stuffed_len(raw_len as nat),
{
    corncobs::max_encoded_len(raw_len)
}

/// Relies on `corncobs::encode_buf`: given room for the worst case, it writes
/// the frame of `data` at the start of `out`, returns its length, and leaves
/// the rest of `out` as it was. The frame is well formed, unstuffs to `data`,
/// holds at least one length byte and the delimiter, and is no longer than
/// the worst case. A full run (length byte 255) at the end of `data` closes
/// the frame without a trailing empty group; an empty group after a full
/// run is written only when more input follows it.
#[verifier::external_body]
pub(crate) fn encode_buf(data: &[u8], out: &mut [u8]) -> (n: usize)
    requires
        old(out)@.len() >= max_stuffed_len(data@.len()),
    ensures
        n == stuffed(data@).len(),
        final(out)@.len() == old(out)@.len(),
        final(out)@.subrange(0, n as int) == stuffed(data@),
        final(out)@.skip(n as int) == old(out)@.skip(n as int),
        is_frame(final(out)@.subrange(0, n as int)),
        unstuff(final(out)@.subrange(0, n as int)) == data@,
        2 <= n <= max_stuffed_len(data@.len()),
        tail_ok(final(out)@.subrange(0, n as int)),
{
    corncobs::encode_buf(data, out)
}

/// Relies on `corncobs::decode_in_place`: when the buffer up to its first
/// zero is a well-formed frame, it writes the unstuffed bytes at the start of
/// the buffer, stops at that zero, and returns their count.
#[verifier::external_body]
pub(crate) fn decode_in_place(buf: &mut [u8]) -> (r: Result<usize, corncobs::CobsError>)
    requires
        is_frame(delimited(old(buf)@)),
    ensures
        r is Ok && r->Ok_0 == unstuff(delimited(old(buf)@)).len(),
        final(buf)@.len() == old(buf)@.len(),
        final(buf)@.subrange(0, r->Ok_0 as int) == unstuff(delimited(old(buf)@)),
{
    corncobs::decode_in_place(buf)
}

/// Unstuffing shortens a frame by at least its delimiter.
pub proof fn lemma_unstuff_len(s: Seq<u8>)
    requires
        is_frame(s),
    ensures
        unstuff(s).len() < s.len(),
    decreases s.len(),
{
    if s[0] != 0 {
        lemma_unstuff_len(s.skip(s[0] as int));
    }
}

/// A frame that stands for `m > 0` bytes is at least `m + 2` bytes long:
/// a length byte ahead of them and the delimiter after them.
pub proof fn lemma_frame_len_lower(s: Seq<u8>)
    requires
        is_frame(s),
        unstuff(s).len() > 0,
    ensures
        unstuff(s).len() + 2 <= s.len(),
    decreases s.len(),
{
    let c = s[0] as int;
    let rest = s.skip(c);
    assert(s[0] != 0);
    assert(c < s.len() && is_frame(rest));
    assert(rest.len() == s.len() - c);
    if rest[0] != 0 {
        assert(rest[0] < rest.len());
        if unstuff(rest).len() > 0 {
            lemma_frame_len_lower(rest);
        }
    }
}

/// In a frame the delimiter is the last byte and no other byte is zero.
pub proof fn lemma_frame_delimiter(s: Seq<u8>)
    requires
        is_frame(s),
    ensures
        s[s.len() - 1] == 0,
        forall|j: int| 0 <= j < s.len() - 1 ==> s[j] != 0,
    decreases s.len(),
{
    if s[0] != 0 {
        let c = s[0] as int;
        let t = s.skip(c);
        lemma_frame_delimiter(t);
        assert(s[s.len() - 1] == t[t.len() - 1]);
        assert forall|j: int| 0 <= j < s.len() - 1 implies s[j] != 0 by {
            if j >= c {
                assert(s[j] == t[j - c]);
            }
        }
    }
}

proof fn lemma_frame_at(s: Seq<u8>, pos: int)
    requires
        0 <= pos < s.len(),
        s[pos] != 0,
    ensures
        is_frame(s.skip(pos)) <==> (pos + s[pos] < s.len() && (forall|i: int|
            pos + 1 <= i < pos + s[pos] ==> s[i] != 0) && is_frame(s.skip(pos + s[pos]))),
{
    let t = s.skip(pos);
    let c = s[pos] as int;
    assert(t[0] == s[pos]);
    if c < t.len() {
        assert(t.skip(c) =~= s.skip(pos + c));
        assert((forall|i: int| 1 <= i < c ==> t[i] != 0) <==> (forall|i: int|
            pos + 1 <= i < pos + c ==> s[i] != 0)) by {
            if forall|i: int| 1 <= i < c ==> t[i] != 0 {
                assert forall|i: int| pos + 1 <= i < pos + c implies s[i] != 0 by {
                    assert(t[i - pos] == s[i]);
                }
            }
            if forall|i: int| pos + 1 <= i < pos + c ==> s[i] != 0 {
                assert forall|i: int| 1 <= i < c implies t[i] != 0 by {
                    assert(t[i] == s[i + pos]);
                }
            }
        }
    }
}

/// Whether `buf` is exactly one well-formed frame.
pub fn is_valid_frame(buf: &[u8]) -> (r: bool)
    ensures
        r == is_frame(buf@),
{
    let len = buf.len();
    let mut pos: usize = 0;
    assert(buf@.skip(0) =~= buf@);
    loop
        invariant
            len == buf@.len(),
            pos <= len,
            is_frame(buf@) == is_frame(buf@.skip(pos as int)),
        decreases len - pos,
    {
        if pos >= len {
            return false;
        }
        let c = buf[pos];
        if c == DELIMITER {
            assert(buf@.skip(pos as int)[0] == 0);
            return pos + 1 == len;
        }
        proof {
            lemma_frame_at(buf@, pos as int);
        }
        if c as usize >= len - pos {
            return false;
        }
        let end = pos + c as usize;
        let mut i = pos + 1;
        while i < end
            invariant
                pos + 1 <= i <= end < len,
                len == buf@.len(),
                forall|j: int| pos + 1 <= j < i ==> buf@[j] != 0,
                is_frame(buf@) ==> forall|j: int| pos + 1 <= j < end ==> buf@[j] != 0,
            decreases end - i,
        {
            if buf[i] == DELIMITER {
                return false;
            }
            i += 1;
        }
        pos = end;
    }
}

/// `delimited` is the prefix that ends at the first zero.
pub proof fn lemma_delimited(s: Seq<u8>, z: int)
    requires
        is_first_zero(s, z),
    ensures
        delimited(s) == s.take(z + 1),
{
    let y = choose|y: int| is_first_zero(s, y);
    assert(is_first_zero(s, y));
    if y < z {
        assert(s[y] != 0);
    }
    if z < y {
        assert(s[z] != 0);
    }
}

/// A frame is its own delimited prefix.
pub proof fn lemma_frame_delimited(s: Seq<u8>)
    requires
        is_frame(s),
    ensures
        delimited(s) == s,
{
    lemma_frame_delimiter(s);
    lemma_delimited(s, s.len() - 1);
    assert(s.take(s.len() as int) =~= s);
}

/// Position of the first zero in `buf`, if any.
pub fn first_zero(buf: &[u8]) -> (r: Option<usize>)
    ensures
        r is Some ==> is_first_zero(buf@, r->Some_0 as int),
        r is None ==> forall|j: int| 0 <= j < buf@.len() ==> buf@[j] != 0,
{
    let mut i: usize = 0;
    while i < buf.len()
        invariant
            i <= buf@.len(),
            forall|j: int| 0 <= j < i ==> buf@[j] != 0,
        decreases buf@.len() - i,
    {
        if buf[i] == DELIMITER {
            return Some(i);
        }
        i += 1;
    }
    None
}

/// A frame that starts with a length byte and stands for no bytes at all is
/// a single empty group.
proof fn lemma_empty_unstuff(r: Seq<u8>)
    requires
        is_frame(r),
        r[0] != 0,
        unstuff(r).len() == 0,
    ensures
        r == seq![1u8, 0u8],
{
    let c = r[0] as int;
    let rest = r.skip(c);
    let block = r.subrange(1, c);
    assert(block.len() == c - 1);
    assert(is_frame(rest));
    if rest[0] == 0 {
        assert(unstuff(r) == block);
        assert(c == 1);
        assert(rest.len() == 1);
        assert(r =~= seq![1u8, 0u8]);
    } else if c == 255 {
        assert(unstuff(r) == block + unstuff(rest));
    } else {
        assert(unstuff(r) == block + seq![0u8] + unstuff(rest));
    }
}

/// Cutting a frame at an earlier group boundary, and closing it there, gives
/// a frame that stands for a strict prefix of the original's bytes.
pub proof fn lemma_cut_frame(f: Seq<u8>, i: int)
    requires
        is_frame(f),
        tail_ok(f),
        0 <= i < f.len() - 1,
        i == 0 ==> unstuff(f).len() > 0,
        is_frame(f.take(i).push(0u8)),
    ensures
        ({
            let u = unstuff(f.take(i).push(0u8));
            u.len() < unstuff(f).len() && u == unstuff(f).take(u.len() as int)
        }),
    decreases f.len(),
{
    lemma_frame_delimiter(f);
    let g = f.take(i).push(0u8);
    let c = f[0] as int;
    let rest = f.skip(c);
    if i == 0 {
        assert(g =~= seq![0u8]);
        assert(unstuff(g) =~= Seq::<u8>::empty());
    } else {
        assert(g[0] == f[0]);
        assert(c <= i);
        assert(rest[0] == f[c]);
        assert(rest[0] != 0);
        let gr = g.skip(c);
        let block = f.subrange(1, c);
        assert(g.subrange(1, c) =~= block);
        if i == c {
            assert(gr =~= seq![0u8]);
            assert(unstuff(g) == block);
            if c == 255 {
                if unstuff(rest).len() == 0 {
                    lemma_empty_unstuff(rest);
                }
            }
            assert(unstuff(f).take(block.len() as int) =~= block);
        } else {
            let k = i - c;
            assert(gr =~= rest.take(k).push(0u8));
            assert(rest != seq![1u8, 0u8]) by {
                if rest == seq![1u8, 0u8] {
                    assert(rest.len() == 2);
                }
            }
            lemma_cut_frame(rest, k);
            assert(gr[0] == rest[0]);
            let ur = unstuff(rest);
            let ug = unstuff(gr);
            if c == 255 {
                assert(unstuff(f) == block + ur);
                assert(unstuff(g) == block + ug);
                assert(unstuff(f).take(unstuff(g).len() as int) =~= block + ur.take(ug.len() as int));
            } else {
                assert(unstuff(f) == block + seq![0u8] + ur);
                assert(unstuff(g) == block + seq![0u8] + ug);
                assert(unstuff(f).take(unstuff(g).len() as int) =~= block + seq![0u8] + ur.take(
                    ug.len() as int,
                ));
            }
        }
    }
}

} // verus!
