//! Fixed-width integers on the wire, checksums, and randomness.
//!
//! The byte orders come from `byteorder`, the checksums from `crc` and the
//! random salts from `rand`; each call stands behind one small wrapper whose
//! contract is stated here.
use byteorder::ByteOrder;
use rand::RngCore;
use vstd::prelude::*;

verus! {

/// `s` with the bytes `b` written over it starting at `pos`.
pub open spec fn splice(s: Seq<u8>, pos: int, b: Seq<u8>) -> Seq<u8> {
    s.subrange(0, pos) + b + s.subrange(pos + b.len(), s.len() as int)
}

/// The two bytes of `n`, least significant first.
pub open spec fn u16_le_bytes(n: u16) -> Seq<u8> {
    seq![(n & 0xff) as u8, ((n >> 8u16) & 0xff) as u8]
}

/// The value of two bytes, least significant first.
pub open spec fn u16_from_le(b: Seq<u8>) -> u16 {
    (b[0] as u16) | ((b[1] as u16) << 8u16)
}

/// The four bytes of `n`, least significant first.
pub open spec fn u32_le_bytes(n: u32) -> Seq<u8> {
    seq![
        (n & 0xff) as u8,
        ((n >> 8u32) & 0xff) as u8,
        ((n >> 16u32) & 0xff) as u8,
        ((n >> 24u32) & 0xff) as u8,
    ]
}

/// The value of four bytes, least significant first.
pub open spec fn u32_from_le(b: Seq<u8>) -> u32 {
    (b[0] as u32) | ((b[1] as u32) << 8u32) | ((b[2] as u32) << 16u32) | ((b[3] as u32) << 24u32)
}

/// The eight bytes of `n`, least significant first.
pub open spec fn u64_le_bytes(n: u64) -> Seq<u8> {
    seq![
        (n & 0xff) as u8,
        ((n >> 8u64) & 0xff) as u8,
        ((n >> 16u64) & 0xff) as u8,
        ((n >> 24u64) & 0xff) as u8,
        ((n >> 32u64) & 0xff) as u8,
        ((n >> 40u64) & 0xff) as u8,
        ((n >> 48u64) & 0xff) as u8,
        ((n >> 56u64) & 0xff) as u8,
    ]
}

/// The value of eight bytes, least significant first.
pub open spec fn u64_from_le(b: Seq<u8>) -> u64 {
    (b[0] as u64) | ((b[1] as u64) << 8u64) | ((b[2] as u64) << 16u64) | ((b[3] as u64) << 24u64)
        | ((b[4] as u64) << 32u64) | ((b[5] as u64) << 40u64) | ((b[6] as u64) << 48u64) | ((
    b[7] as u64) << 56u64)
}

/// The two bytes of `n`, most significant first.
pub open spec fn u16_be_bytes(n: u16) -> Seq<u8> {
    seq![((n >> 8u16) & 0xff) as u8, (n & 0xff) as u8]
}

/// The value of two bytes, most significant first.
pub open spec fn u16_from_be(b: Seq<u8>) -> u16 {
    ((b[0] as u16) << 8u16) | (b[1] as u16)
}

/// The four bytes of `n`, most significant first.
pub open spec fn u32_be_bytes(n: u32) -> Seq<u8> {
    seq![
        ((n >> 24u32) & 0xff) as u8,
        ((n >> 16u32) & 0xff) as u8,
        ((n >> 8u32) & 0xff) as u8,
        (n & 0xff) as u8,
    ]
}

/// The value of four bytes, most significant first.
pub open spec fn u32_from_be(b: Seq<u8>) -> u32 {
    ((b[0] as u32) << 24u32) | ((b[1] as u32) << 16u32) | ((b[2] as u32) << 8u32) | (b[3] as u32)
}

pub proof fn lemma_u16_le_roundtrip(n: u16)
    ensures
        u16_from_le(u16_le_bytes(n)) == n,
        u16_le_bytes(n).len() == 2,
{
    let b = u16_le_bytes(n);
    let b0 = b[0];
    let b1 = b[1];
    assert(b0 == (n & 0xff) as u8 && b1 == ((n >> 8u16) & 0xff) as u8);
    assert((b0 as u16) | ((b1 as u16) << 8u16) == n) by (bit_vector)
        requires
            b0 == (n & 0xff) as u8,
            b1 == ((n >> 8u16) & 0xff) as u8,
    ;
}

pub proof fn lemma_u32_le_roundtrip(n: u32)
    ensures
        u32_from_le(u32_le_bytes(n)) == n,
        u32_le_bytes(n).len() == 4,
{
    let b = u32_le_bytes(n);
    let b0 = b[0];
    let b1 = b[1];
    let b2 = b[2];
    let b3 = b[3];
    assert((b0 as u32) | ((b1 as u32) << 8u32) | ((b2 as u32) << 16u32) | ((b3 as u32) << 24u32)
        == n) by (bit_vector)
        requires
            b0 == (n & 0xff) as u8,
            b1 == ((n >> 8u32) & 0xff) as u8,
            b2 == ((n >> 16u32) & 0xff) as u8,
            b3 == ((n >> 24u32) & 0xff) as u8,
    ;
}

pub proof fn lemma_u64_le_roundtrip(n: u64)
    ensures
        u64_from_le(u64_le_bytes(n)) == n,
        u64_le_bytes(n).len() == 8,
{
    let b = u64_le_bytes(n);
    let b0 = b[0];
    let b1 = b[1];
    let b2 = b[2];
    let b3 = b[3];
    let b4 = b[4];
    let b5 = b[5];
    let b6 = b[6];
    let b7 = b[7];
    assert((b0 as u64) | ((b1 as u64) << 8u64) | ((b2 as u64) << 16u64) | ((b3 as u64) << 24u64)
        | ((b4 as u64) << 32u64) | ((b5 as u64) << 40u64) | ((b6 as u64) << 48u64) | ((
    b7 as u64) << 56u64) == n) by (bit_vector)
        requires
            b0 == (n & 0xff) as u8,
            b1 == ((n >> 8u64) & 0xff) as u8,
            b2 == ((n >> 16u64) & 0xff) as u8,
            b3 == ((n >> 24u64) & 0xff) as u8,
            b4 == ((n >> 32u64) & 0xff) as u8,
            b5 == ((n >> 40u64) & 0xff) as u8,
            b6 == ((n >> 48u64) & 0xff) as u8,
            b7 == ((n >> 56u64) & 0xff) as u8,
    ;
}

pub proof fn lemma_u16_be_roundtrip(n: u16)
    ensures
        u16_from_be(u16_be_bytes(n)) == n,
        u16_be_bytes(n).len() == 2,
{
    let b = u16_be_bytes(n);
    let b0 = b[0];
    let b1 = b[1];
    assert(((b0 as u16) << 8u16) | (b1 as u16) == n) by (bit_vector)
        requires
            b0 == ((n >> 8u16) & 0xff) as u8,
            b1 == (n & 0xff) as u8,
    ;
}

pub proof fn lemma_u32_be_roundtrip(n: u32)
    ensures
        u32_from_be(u32_be_bytes(n)) == n,
        u32_be_bytes(n).len() == 4,
{
    let b = u32_be_bytes(n);
    let b0 = b[0];
    let b1 = b[1];
    let b2 = b[2];
    let b3 = b[3];
    assert(((b0 as u32) << 24u32) | ((b1 as u32) << 16u32) | ((b2 as u32) << 8u32) | (b3 as u32)
        == n) by (bit_vector)
        requires
            b0 == ((n >> 24u32) & 0xff) as u8,
            b1 == ((n >> 16u32) & 0xff) as u8,
            b2 == ((n >> 8u32) & 0xff) as u8,
            b3 == (n & 0xff) as u8,
    ;
}

/// Reads two bytes at `pos`, least significant first, with
/// `byteorder::LittleEndian::read_u16`, which decodes the first two bytes of
/// the slice it is given.
#[verifier::external_body]
pub(crate) fn read_u16_le(buf: &[u8], pos: usize) -> (r: u16)
    requires
        pos + 2 <= buf@.len(),
    ensures
        r == u16_from_le(buf@.subrange(pos as int, pos + 2)),
{
    byteorder::LittleEndian::read_u16(&buf[pos..])
}

/// Reads four bytes at `pos`, least significant first, with
/// `byteorder::LittleEndian::read_u32`.
#[verifier::external_body]
pub(crate) fn read_u32_le(buf: &[u8], pos: usize) -> (r: u32)
    requires
        pos + 4 <= buf@.len(),
    ensures
        r == u32_from_le(buf@.subrange(pos as int, pos + 4)),
{
    byteorder::LittleEndian::read_u32(&buf[pos..])
}

/// Reads eight bytes at `pos`, least significant first, with
/// `byteorder::LittleEndian::read_u64`.
#[verifier::external_body]
pub(crate) fn read_u64_le(buf: &[u8], pos: usize) -> (r: u64)
    requires
        pos + 8 <= buf@.len(),
    ensures
        r == u64_from_le(buf@.subrange(pos as int, pos + 8)),
{
    byteorder::LittleEndian::read_u64(&buf[pos..])
}

/// Writes `n` at `pos`, least significant byte first, with
/// `byteorder::LittleEndian::write_u16`, which overwrites the first two bytes
/// of the slice it is given and nothing else.
#[verifier::external_body]
pub(crate) fn write_u16_le(buf: &mut [u8], pos: usize, n: u16)
    requires
        pos + 2 <= old(buf)@.len(),
    ensures
        final(buf)@ == splice(old(buf)@, pos as int, u16_le_bytes(n)),
{
    byteorder::LittleEndian::write_u16(&mut buf[pos..], n)
}

/// Writes `n` at `pos`, least significant byte first, with
/// `byteorder::LittleEndian::write_u32`.
#[verifier::external_body]
pub(crate) fn write_u32_le(buf: &mut [u8], pos: usize, n: u32)
    requires
        pos + 4 <= old(buf)@.len(),
    ensures
        final(buf)@ == splice(old(buf)@, pos as int, u32_le_bytes(n)),
{
    byteorder::LittleEndian::write_u32(&mut buf[pos..], n)
}

/// Writes `n` at `pos`, least significant byte first, with
/// `byteorder::LittleEndian::write_u64`.
#[verifier::external_body]
pub(crate) fn write_u64_le(buf: &mut [u8], pos: usize, n: u64)
    requires
        pos + 8 <= old(buf)@.len(),
    ensures
        final(buf)@ == splice(old(buf)@, pos as int, u64_le_bytes(n)),
{
    byteorder::LittleEndian::write_u64(&mut buf[pos..], n)
}

/// Reads two bytes at `pos`, most significant first, with
/// `byteorder::BigEndian::read_u16`.
#[verifier::external_body]
pub(crate) fn read_u16_be(buf: &[u8], pos: usize) -> (r: u16)
    requires
        pos + 2 <= buf@.len(),
    ensures
        r == u16_from_be(buf@.subrange(pos as int, pos + 2)),
{
    byteorder::BigEndian::read_u16(&buf[pos..])
}

/// Reads four bytes at `pos`, most significant first, with
/// `byteorder::BigEndian::read_u32`.
#[verifier::external_body]
pub(crate) fn read_u32_be(buf: &[u8], pos: usize) -> (r: u32)
    requires
        pos + 4 <= buf@.len(),
    ensures
        r == u32_from_be(buf@.subrange(pos as int, pos + 4)),
{
    byteorder::BigEndian::read_u32(&buf[pos..])
}

/// Writes `n` at `pos`, most significant byte first, with
/// `byteorder::BigEndian::write_u16`.
#[verifier::external_body]
pub(crate) fn write_u16_be(buf: &mut [u8], pos: usize, n: u16)
    requires
        pos + 2 <= old(buf)@.len(),
    ensures
        final(buf)@ == splice(old(buf)@, pos as int, u16_be_bytes(n)),
{
    byteorder::BigEndian::write_u16(&mut buf[pos..], n)
}

/// Writes `n` at `pos`, most significant byte first, with
/// `byteorder::BigEndian::write_u32`.
#[verifier::external_body]
pub(crate) fn write_u32_be(buf: &mut [u8], pos: usize, n: u32)
    requires
        pos + 4 <= old(buf)@.len(),
    ensures
        final(buf)@ == splice(old(buf)@, pos as int, u32_be_bytes(n)),
{
    byteorder::BigEndian::write_u32(&mut buf[pos..], n)
}

/// The CRC-32 (Koopman polynomial) of a byte sequence, as `crc` computes it.
pub uninterp spec fn crc32_koopman(data: Seq<u8>) -> u32;

/// The CRC-16 (X.25) of a byte sequence, as `crc` computes it.
pub uninterp spec fn crc16_x25(data: Seq<u8>) -> u16;

/// `crc::crc32::checksum_koopman`: a table-driven CRC-32 that depends on the
/// bytes alone; its result is named, not restated.
#[verifier::external_body]
pub(crate) fn checksum_koopman(data: &[u8]) -> (r: u32)
    ensures
        r == crc32_koopman(data@),
{
    crc::crc32::checksum_koopman(data)
}

/// `crc::crc16::checksum_x25`: a table-driven CRC-16 that depends on the
/// bytes alone; its result is named, not restated.
#[verifier::external_body]
pub(crate) fn checksum_x25(data: &[u8]) -> (r: u16)
    ensures
        r == crc16_x25(data@),
{
    crc::crc16::checksum_x25(data)
}

/// `rand::thread_rng().next_u64()`: a random number; nothing is promised of
/// its value.
#[verifier::external_body]
pub(crate) fn random_u64() -> (r: u64) {
    rand::thread_rng().next_u64()
}

} // verus!
