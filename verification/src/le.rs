use vstd::prelude::*;
use byteorder::{ByteOrder, LittleEndian};

verus! {

/// The little-endian value of four bytes.
pub open spec fn le_u32(b0: u8, b1: u8, b2: u8, b3: u8) -> u32 {
    (b0 as int + b1 as int * 0x100 + b2 as int * 0x10000 + b3 as int * 0x1000000) as u32
}

/// The little-endian value of the first four bytes of a sequence.
pub open spec fn le_u32_at(s: Seq<u8>, off: int) -> u32 {
    le_u32(s[off], s[off + 1], s[off + 2], s[off + 3])
}

/// The four little-endian bytes of a word.
pub open spec fn le_bytes(n: u32) -> Seq<u8> {
    seq![(n % 0x100) as u8, ((n / 0x100) % 0x100) as u8, ((n / 0x10000) % 0x100) as u8, (n / 0x1000000) as u8]
}

/// `byteorder::LittleEndian::read_u32`: the little-endian value of the
/// first four bytes of `buf` (the crate panics on a shorter buffer).
#[verifier::external_body]
pub(crate) fn read_u32_le(buf: &[u8]) -> (r: u32)
    requires
        buf@.len() >= 4,
    ensures
        r == le_u32_at(buf@, 0),
{
    LittleEndian::read_u32(buf)
}

/// `byteorder::LittleEndian::write_u32` into a fresh four-byte array: the
/// bytes of `n`, least significant first.
#[verifier::external_body]
pub(crate) fn u32_to_le(n: u32) -> (r: [u8; 4])
    ensures
        r@ == le_bytes(n),
{
    let mut b = [0u8; 4];
    LittleEndian::write_u32(&mut b, n);
    b
}

/// `byteorder::LittleEndian::read_i32`: the first four bytes of `buf` as a
/// little-endian two's complement number (the crate panics on a shorter
/// buffer).
#[verifier::external_body]
pub(crate) fn read_i32_le(buf: &[u8]) -> (r: i32)
    requires
        buf@.len() >= 4,
    ensures
        r == le_u32_at(buf@, 0) as i32,
{
    LittleEndian::read_i32(buf)
}

/// `byteorder::LittleEndian::write_i32` into a fresh four-byte array: the
/// two's complement bytes of `n`, least significant first.
#[verifier::external_body]
pub(crate) fn i32_to_le(n: i32) -> (r: [u8; 4])
    ensures
        r@ == le_bytes(n as u32),
{
    let mut b = [0u8; 4];
    LittleEndian::write_i32(&mut b, n);
    b
}

/// The little-endian halfword at byte offset `off`.
pub open spec fn le_u16_at(s: Seq<u8>, off: int) -> u16 {
    (s[off] as int + s[off + 1] as int * 0x100) as u16
}

/// The little-endian doubleword at byte offset `off`.
pub open spec fn le_u64_at(s: Seq<u8>, off: int) -> u64 {
    (le_u32_at(s, off) as int + le_u32_at(s, off + 4) as int * 0x1_0000_0000) as u64
}

/// The two little-endian bytes of a halfword.
pub open spec fn le_bytes16(n: u16) -> Seq<u8> {
    seq![(n % 0x100) as u8, (n / 0x100) as u8]
}

/// The eight little-endian bytes of a doubleword.
pub open spec fn le_bytes64(n: u64) -> Seq<u8> {
    le_bytes((n % 0x1_0000_0000) as u32) + le_bytes((n / 0x1_0000_0000) as u32)
}

/// `byteorder::LittleEndian::read_u16`: the little-endian value of the
/// first two bytes of `buf` (the crate panics on a shorter buffer).
#[verifier::external_body]
pub(crate) fn read_u16_le(buf: &[u8]) -> (r: u16)
    requires
        buf@.len() >= 2,
    ensures
        r == le_u16_at(buf@, 0),
{
    LittleEndian::read_u16(buf)
}

/// `byteorder::LittleEndian::write_u16` into a fresh two-byte array: the
/// bytes of `n`, least significant first.
#[verifier::external_body]
pub(crate) fn u16_to_le(n: u16) -> (r: [u8; 2])
    ensures
        r@ == le_bytes16(n),
{
    let mut b = [0u8; 2];
    LittleEndian::write_u16(&mut b, n);
    b
}

/// `byteorder::LittleEndian::read_u64`: the little-endian value of the
/// first eight bytes of `buf` (the crate panics on a shorter buffer).
#[verifier::external_body]
pub(crate) fn read_u64_le(buf: &[u8]) -> (r: u64)
    requires
        buf@.len() >= 8,
    ensures
        r == le_u64_at(buf@, 0),
{
    LittleEndian::read_u64(buf)
}

/// `byteorder::LittleEndian::write_u64` into a fresh eight-byte array: the
/// bytes of `n`, least significant first.
#[verifier::external_body]
pub(crate) fn u64_to_le(n: u64) -> (r: [u8; 8])
    ensures
        r@ == le_bytes64(n),
{
    let mut b = [0u8; 8];
    LittleEndian::write_u64(&mut b, n);
    b
}

/// Decoding the bytes of a word gives the word back.
pub proof fn lemma_le_roundtrip(n: u32)
    ensures
        le_u32_at(le_bytes(n), 0) == n,
{
    let b = le_bytes(n);
    assert(b[0] as int + b[1] as int * 0x100 + b[2] as int * 0x10000 + b[3] as int * 0x1000000 == n) by (nonlinear_arith)
        requires
            b[0] == n % 0x100,
            b[1] == (n / 0x100) % 0x100,
            b[2] == (n / 0x10000) % 0x100,
            b[3] == n / 0x1000000,
    ;
}

/// Encoding the word that four bytes decode to gives the bytes back.
pub proof fn lemma_bytes_of_le(b0: u8, b1: u8, b2: u8, b3: u8)
    ensures
        le_bytes(le_u32(b0, b1, b2, b3)) == seq![b0, b1, b2, b3],
{
    let n = le_u32(b0, b1, b2, b3);
    assert(n == (b0 as u32) + (b1 as u32) * 0x100 + (b2 as u32) * 0x10000 + (b3 as u32) * 0x1000000) by (nonlinear_arith)
        requires
            n == (b0 as int + b1 as int * 0x100 + b2 as int * 0x10000 + b3 as int * 0x1000000) as u32,
            b0 < 256, b1 < 256, b2 < 256, b3 < 256,
    ;
    assert((n % 0x100) as u8 == b0 && ((n / 0x100) % 0x100) as u8 == b1 && ((n / 0x10000) % 0x100) as u8 == b2 && (n / 0x1000000) as u8 == b3) by (bit_vector)
        requires
            n == (b0 as u32) + (b1 as u32) * 0x100 + (b2 as u32) * 0x10000 + (b3 as u32) * 0x1000000,
    ;
    assert(le_bytes(n) =~= seq![b0, b1, b2, b3]);
}

/// Reads the little-endian word at byte offset `off`.
pub fn read_word(data: &[u8], off: usize) -> (r: u32)
    requires
        off + 4 <= data@.len(),
    ensures
        r == le_u32_at(data@, off as int),
{
    let len = data.len();
    assert(off + 4 <= len);
    let s = &data[off..off + 4];
    read_u32_le(s)
}

/// Writes `n` as four little-endian bytes at byte offset `off`.
pub fn write_word(data: &mut Vec<u8>, off: usize, n: u32)
    requires
        off + 4 <= old(data)@.len(),
    ensures
        final(data)@.len() == old(data)@.len(),
        forall|i: int| 0 <= i < old(data)@.len() && !(off <= i < off + 4) ==> final(data)@[i] == old(data)@[i],
        forall|i: int| 0 <= i < 4 ==> final(data)@[off + i] == le_bytes(n)[i],
        le_u32_at(final(data)@, off as int) == n,
{
    let len = data.len();
    assert(off + 4 <= len);
    let b = u32_to_le(n);
    data.set(off, b[0]);
    data.set(off + 1, b[1]);
    data.set(off + 2, b[2]);
    data.set(off + 3, b[3]);
    proof {
        lemma_le_roundtrip(n);
        assert(data@.subrange(off as int, off + 4) =~= le_bytes(n));
    }
}

} // verus!
