//! Little-endian integers in byte strings.

use vstd::prelude::*;
use byteorder::ByteOrder;
use byteorder::LittleEndian;

verus! {

/// The number that a little-endian byte string denotes: its first byte is the least
/// significant.
pub open spec fn le_value(b: Seq<u8>) -> nat
    decreases b.len(),
{
    if b.len() == 0 {
        0
    } else {
        b[0] as nat + 256 * le_value(b.drop_first())
    }
}

/// The unsigned value of the `n` bytes that start at `pos`.
pub open spec fn le_field(b: Seq<u8>, pos: int, n: int) -> nat {
    le_value(b.subrange(pos, pos + n))
}

/// The 64-bit two's complement reading of an unsigned value.
pub open spec fn signed64(u: nat) -> int {
    if u >= 0x8000_0000_0000_0000 {
        u - 0x1_0000_0000_0000_0000
    } else {
        u as int
    }
}

/// The 32-bit two's complement reading of an unsigned value.
pub open spec fn signed32(u: nat) -> int {
    if u >= 0x8000_0000 {
        u - 0x1_0000_0000
    } else {
        u as int
    }
}

/// The bit pattern of a signed 64-bit integer, as an unsigned number.
pub open spec fn bits64(v: i64) -> nat {
    if v < 0 {
        (v + 0x1_0000_0000_0000_0000) as nat
    } else {
        v as nat
    }
}

/// The bit pattern of a signed 32-bit integer, as an unsigned number.
pub open spec fn bits32(v: i32) -> nat {
    if v < 0 {
        (v + 0x1_0000_0000) as nat
    } else {
        v as nat
    }
}

/// Relies on byteorder's `LittleEndian::read_u64`: the little-endian `u64` in the
/// eight bytes at `pos`.
#[verifier::external_body]
pub(crate) fn read_u64_at(b: &[u8], pos: usize) -> (r: u64)
    requires
        pos + 8 <= b@.len(),
    ensures
        r as nat == le_field(b@, pos as int, 8),
{
    LittleEndian::read_u64(&b[pos..])
}

/// Relies on byteorder's `LittleEndian::read_i64`: the little-endian two's complement
/// `i64` in the eight bytes at `pos`.
#[verifier::external_body]
pub(crate) fn read_i64_at(b: &[u8], pos: usize) -> (r: i64)
    requires
        pos + 8 <= b@.len(),
    ensures
        r as int == signed64(le_field(b@, pos as int, 8)),
{
    LittleEndian::read_i64(&b[pos..])
}

/// Relies on byteorder's `LittleEndian::read_i32`: the little-endian two's complement
/// `i32` in the four bytes at `pos`.
#[verifier::external_body]
pub(crate) fn read_i32_at(b: &[u8], pos: usize) -> (r: i32)
    requires
        pos + 4 <= b@.len(),
    ensures
        r as int == signed32(le_field(b@, pos as int, 4)),
{
    LittleEndian::read_i32(&b[pos..])
}

/// Relies on byteorder's `LittleEndian::write_u64`: the eight little-endian bytes of `v`.
#[verifier::external_body]
pub(crate) fn u64_le_bytes(v: u64) -> (r: Vec<u8>)
    ensures
        r@.len() == 8,
        le_value(r@) == v as nat,
{
    let mut buf = vec![0u8; 8];
    LittleEndian::write_u64(&mut buf, v);
    buf
}

/// Relies on byteorder's `LittleEndian::write_i64`: the eight little-endian two's
/// complement bytes of `v`.
#[verifier::external_body]
pub(crate) fn i64_le_bytes(v: i64) -> (r: Vec<u8>)
    ensures
        r@.len() == 8,
        le_value(r@) == bits64(v),
{
    let mut buf = vec![0u8; 8];
    LittleEndian::write_i64(&mut buf, v);
    buf
}

/// Relies on byteorder's `LittleEndian::write_i32`: the four little-endian two's
/// complement bytes of `v`.
#[verifier::external_body]
pub(crate) fn i32_le_bytes(v: i32) -> (r: Vec<u8>)
    ensures
        r@.len() == 4,
        le_value(r@) == bits32(v),
{
    let mut buf = vec![0u8; 4];
    LittleEndian::write_i32(&mut buf, v);
    buf
}

/// Bytes appended after a field do not change its value.
pub proof fn lemma_field_prefix(a: Seq<u8>, c: Seq<u8>, pos: int, n: int)
    requires
        0 <= pos,
        0 <= n,
        pos + n <= a.len(),
    ensures
        le_field(a + c, pos, n) == le_field(a, pos, n),
{
    assert((a + c).subrange(pos, pos + n) =~= a.subrange(pos, pos + n));
}

/// A field appended at the end reads as the appended bytes.
pub proof fn lemma_field_suffix(a: Seq<u8>, c: Seq<u8>)
    ensures
        le_field(a + c, a.len() as int, c.len() as int) == le_value(c),
{
    assert((a + c).subrange(a.len() as int, (a.len() + c.len()) as int) =~= c);
}

/// Reading back a signed 64-bit bit pattern gives the value back.
pub proof fn lemma_signed64_bits(v: i64)
    ensures
        signed64(bits64(v)) == v as int,
{
}

/// Reading back a signed 32-bit bit pattern gives the value back.
pub proof fn lemma_signed32_bits(v: i32)
    ensures
        signed32(bits32(v)) == v as int,
{
}

} // verus!
