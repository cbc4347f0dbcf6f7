//! Little-endian field encoding shared by every message: integers are written
//! low byte first, with no padding and no length prefix.

use vstd::prelude::*;
use vstd::arithmetic::div_mod::lemma_fundamental_div_mod_converse;

verus! {

/// Declares the error type returned by `ssmarshal`.
#[verifier::external_type_specification]
#[verifier::external_body]
pub struct ExMarshalError(ssmarshal::Error);

/// The two bytes of `v`, low byte first.
pub open spec fn le16(v: u16) -> Seq<u8> {
    seq![(v % 256) as u8, (v / 256) as u8]
}

/// The value of the first two bytes of `b`, read low byte first.
pub open spec fn le16_value(b: Seq<u8>) -> u16 {
    (b[0] + 256 * b[1]) as u16
}

/// The four bytes of `v`, low byte first.
pub open spec fn le32(v: u32) -> Seq<u8> {
    seq![
        (v % 256) as u8,
        (v / 256 % 256) as u8,
        (v / 65536 % 256) as u8,
        (v / 16777216) as u8,
    ]
}

/// The value of the first four bytes of `b`, read low byte first.
pub open spec fn le32_value(b: Seq<u8>) -> u32 {
    (b[0] + 256 * b[1] + 65536 * b[2] + 16777216 * b[3]) as u32
}

/// Two bytes written from a value read back as that value.
pub proof fn lemma_le16_round_trip(v: u16, rest: Seq<u8>)
    ensures
        le16_value(le16(v) + rest) == v,
        (le16(v) + rest).len() == 2 + rest.len(),
{
    let s = le16(v) + rest;
    assert(s[0] == (v % 256) as u8);
    assert(s[1] == (v / 256) as u8);
}

/// Four bytes written from a value read back as that value.
pub proof fn lemma_le32_round_trip(v: u32, rest: Seq<u8>)
    ensures
        le32_value(le32(v) + rest) == v,
        (le32(v) + rest).len() == 4 + rest.len(),
{
    let s = le32(v) + rest;
    assert(s[0] == (v % 256) as u8);
    assert(s[1] == (v / 256 % 256) as u8);
    assert(s[2] == (v / 65536 % 256) as u8);
    assert(s[3] == (v / 16777216) as u8);
}

/// Two bytes read as a value and written back are the same two bytes.
pub proof fn lemma_le16_of_value(t: Seq<u8>)
    requires
        t.len() >= 2,
    ensures
        le16(le16_value(t)) == t.take(2),
{
    let b0 = t[0] as int;
    let b1 = t[1] as int;
    let x = b0 + 256 * b1;
    assert(le16_value(t) as int == x);
    lemma_fundamental_div_mod_converse(x, 256, b1, b0);
    assert(le16(le16_value(t)) =~= t.take(2));
}

/// Four bytes read as a value and written back are the same four bytes.
pub proof fn lemma_le32_of_value(t: Seq<u8>)
    requires
        t.len() >= 4,
    ensures
        le32(le32_value(t)) == t.take(4),
{
    let b0 = t[0] as int;
    let b1 = t[1] as int;
    let b2 = t[2] as int;
    let b3 = t[3] as int;
    let x = b0 + 256 * b1 + 65536 * b2 + 16777216 * b3;
    assert(0 <= x < 0x1_0000_0000);
    assert(le32_value(t) as int == x);
    lemma_fundamental_div_mod_converse(x, 256, b1 + 256 * b2 + 65536 * b3, b0);
    lemma_fundamental_div_mod_converse(b1 + 256 * b2 + 65536 * b3, 256, b2 + 256 * b3, b1);
    lemma_fundamental_div_mod_converse(x, 65536, b2 + 256 * b3, b0 + 256 * b1);
    lemma_fundamental_div_mod_converse(b2 + 256 * b3, 256, b3, b2);
    lemma_fundamental_div_mod_converse(x, 16777216, b3, b0 + 256 * b1 + 65536 * b2);
    assert(le32(le32_value(t)) =~= t.take(4));
}

/// Relies on `ssmarshal::serialize` at `u16`: with room for two bytes it
/// writes `v` low byte first at the start of the slice it is given and
/// reports two bytes used.
#[verifier::external_body]
pub(crate) fn put_u16(buf: &mut [u8], at: usize, v: u16) -> (r: Result<usize, ssmarshal::Error>)
    requires
        at + 2 <= old(buf)@.len(),
    ensures
        r is Ok && r->Ok_0 == 2,
        final(buf)@ == old(buf)@.subrange(0, at as int) + le16(v) + old(buf)@.skip(at + 2),
{
    ssmarshal::serialize(&mut buf[at..], &v)
}

/// Relies on `ssmarshal::serialize` at `u32`: with room for four bytes it
/// writes `v` low byte first at the start of the slice it is given and
/// reports four bytes used.
#[verifier::external_body]
pub(crate) fn put_u32(buf: &mut [u8], at: usize, v: u32) -> (r: Result<usize, ssmarshal::Error>)
    requires
        at + 4 <= old(buf)@.len(),
    ensures
        r is Ok && r->Ok_0 == 4,
        final(buf)@ == old(buf)@.subrange(0, at as int) + le32(v) + old(buf)@.skip(at + 4),
{
    ssmarshal::serialize(&mut buf[at..], &v)
}

/// Relies on `ssmarshal::deserialize` at `u16`: with two bytes to read it
/// returns their value, low byte first, and reports two bytes used.
#[verifier::external_body]
pub(crate) fn take_u16(buf: &[u8], at: usize) -> (r: Result<(u16, usize), ssmarshal::Error>)
    requires
        at + 2 <= buf@.len(),
    ensures
        r is Ok && r->Ok_0 == (le16_value(buf@.skip(at as int)), 2usize),
{
    ssmarshal::deserialize::<u16>(&buf[at..])
}

/// Relies on `ssmarshal::deserialize` at `u32`: with four bytes to read it
/// returns their value, low byte first, and reports four bytes used.
#[verifier::external_body]
pub(crate) fn take_u32(buf: &[u8], at: usize) -> (r: Result<(u32, usize), ssmarshal::Error>)
    requires
        at + 4 <= buf@.len(),
    ensures
        r is Ok && r->Ok_0 == (le32_value(buf@.skip(at as int)), 4usize),
{
    ssmarshal::deserialize::<u32>(&buf[at..])
}

} // verus!
