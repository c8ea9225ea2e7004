//! Big-endian integers on the wire: what they mean, and the outside
//! readers (nom) and writers (byteorder) that handle them.
use vstd::prelude::*;
use crate::error::Error;

verus! {

/// The value of two bytes read most significant first.
pub open spec fn u16_from_be(b0: u8, b1: u8) -> u16 {
    (b0 as int * 0x100 + b1 as int) as u16
}

/// The value of four bytes read most significant first.
pub open spec fn u32_from_be(b0: u8, b1: u8, b2: u8, b3: u8) -> u32 {
    (b0 as int * 0x1000000 + b1 as int * 0x10000 + b2 as int * 0x100 + b3 as int) as u32
}

/// The value of the four bytes of `s` from `at` on, most significant first.
pub open spec fn u32_at(s: Seq<u8>, at: int) -> u32 {
    u32_from_be(s[at], s[at + 1], s[at + 2], s[at + 3])
}

/// The value of the two bytes of `s` from `at` on, most significant first.
pub open spec fn u16_at(s: Seq<u8>, at: int) -> u16 {
    u16_from_be(s[at], s[at + 1])
}

/// The two bytes of a value, most significant first.
pub open spec fn u16_be_bytes(v: u16) -> Seq<u8> {
    seq![(v / 0x100) as u8, (v % 0x100) as u8]
}

/// The four bytes of a value, most significant first.
pub open spec fn u32_be_bytes(v: u32) -> Seq<u8> {
    seq![
        (v / 0x1000000) as u8,
        ((v / 0x10000) % 0x100) as u8,
        ((v / 0x100) % 0x100) as u8,
        (v % 0x100) as u8,
    ]
}

/// Reading back the bytes of a 16-bit value gives the value.
pub proof fn lemma_u16_roundtrip(v: u16)
    ensures
        u16_at(u16_be_bytes(v), 0) == v,
{
    let b = u16_be_bytes(v);
    assert(b[0] as int * 0x100 + b[1] as int == v as int) by (nonlinear_arith)
        requires
            b[0] == (v / 0x100) as u8,
            b[1] == (v % 0x100) as u8,
            0 <= v < 0x10000,
    ;
}

/// Reading back the bytes of a 32-bit value gives the value.
pub proof fn lemma_u32_roundtrip(v: u32)
    ensures
        u32_at(u32_be_bytes(v), 0) == v,
{
    let b = u32_be_bytes(v);
    assert(b[0] as int * 0x1000000 + b[1] as int * 0x10000 + b[2] as int * 0x100 + b[3] as int
        == v as int) by (nonlinear_arith)
        requires
            b[0] == (v / 0x1000000) as u8,
            b[1] == ((v / 0x10000) % 0x100) as u8,
            b[2] == ((v / 0x100) % 0x100) as u8,
            b[3] == (v % 0x100) as u8,
            0 <= v < 0x100000000,
    ;
}

/// nom's `be_u8`: the first byte of the input, or nothing on empty input
/// (nom reports that more input is needed).
#[verifier::external_body]
pub(crate) fn read_u8(input: &[u8]) -> (r: Option<u8>)
    ensures
        input@.len() >= 1 ==> r == Some(input@[0]),
        input@.len() < 1 ==> r is None,
{
    match nom::be_u8(input) {
        Ok((_, v)) => Some(v),
        Err(_) => None,
    }
}

/// nom's `be_u16`: the big-endian value of the first two bytes of the
/// input, or nothing when it holds fewer than two (nom reports that more
/// input is needed).
#[verifier::external_body]
pub(crate) fn read_u16(input: &[u8]) -> (r: Option<u16>)
    ensures
        input@.len() >= 2 ==> r == Some(u16_at(input@, 0)),
        input@.len() < 2 ==> r is None,
{
    match nom::be_u16(input) {
        Ok((_, v)) => Some(v),
        Err(_) => None,
    }
}

/// nom's `be_u32`: the big-endian value of the first four bytes of the
/// input, or nothing when it holds fewer than four (nom reports that more
/// input is needed).
#[verifier::external_body]
pub(crate) fn read_u32(input: &[u8]) -> (r: Option<u32>)
    ensures
        input@.len() >= 4 ==> r == Some(u32_at(input@, 0)),
        input@.len() < 4 ==> r is None,
{
    match nom::be_u32(input) {
        Ok((_, v)) => Some(v),
        Err(_) => None,
    }
}

/// byteorder's `WriteBytesExt::write_u8` on a `Vec<u8>`: it hands the byte
/// to `write_all`, and `Write` for `Vec<u8>` appends to the vector, so the
/// byte is appended and the call succeeds.
#[verifier::external_body]
pub(crate) fn write_u8(out: &mut Vec<u8>, n: u8) -> (r: Result<(), Error>)
    requires
        old(out)@.len() + 1 <= isize::MAX,
    ensures
        r is Ok,
        final(out)@ == old(out)@.push(n),
{
    match byteorder::WriteBytesExt::write_u8(out, n) {
        Ok(()) => Ok(()),
        Err(_) => Err(Error::Write),
    }
}

/// byteorder's `WriteBytesExt::write_u16::<NetworkEndian>` on a `Vec<u8>`:
/// it hands the two big-endian bytes of the value to `write_all`, and
/// `Write` for `Vec<u8>` appends to the vector, so they are appended and
/// the call succeeds.
#[verifier::external_body]
pub(crate) fn write_u16(out: &mut Vec<u8>, n: u16) -> (r: Result<(), Error>)
    requires
        old(out)@.len() + 2 <= isize::MAX,
    ensures
        r is Ok,
        final(out)@ == old(out)@ + u16_be_bytes(n),
{
    match byteorder::WriteBytesExt::write_u16::<byteorder::NetworkEndian>(out, n) {
        Ok(()) => Ok(()),
        Err(_) => Err(Error::Write),
    }
}

/// byteorder's `WriteBytesExt::write_u32::<NetworkEndian>` on a `Vec<u8>`:
/// it hands the four big-endian bytes of the value to `write_all`, and
/// `Write` for `Vec<u8>` appends to the vector, so they are appended and
/// the call succeeds.
#[verifier::external_body]
pub(crate) fn write_u32(out: &mut Vec<u8>, n: u32) -> (r: Result<(), Error>)
    requires
        old(out)@.len() + 4 <= isize::MAX,
    ensures
        r is Ok,
        final(out)@ == old(out)@ + u32_be_bytes(n),
{
    match byteorder::WriteBytesExt::write_u32::<byteorder::NetworkEndian>(out, n) {
        Ok(()) => Ok(()),
        Err(_) => Err(Error::Write),
    }
}

} // verus!
