//! Little-endian integers in byte strings.
//!
//! The model is arithmetic: a byte string stands for the number whose
//! base-256 digits it lists, least significant first.

use byteorder::ByteOrder;
use byteorder::LittleEndian;
use vstd::prelude::*;
use vstd::slice::slice_subrange;

verus! {

/// 256 to the power `n`.
pub open spec fn pow256(n: nat) -> nat
    decreases n,
{
    if n == 0 {
        1
    } else {
        256 * pow256((n - 1) as nat)
    }
}

/// The number that `bytes` spells in little-endian order.
pub open spec fn le_value(bytes: Seq<u8>) -> nat
    decreases bytes.len(),
{
    if bytes.len() == 0 {
        0
    } else {
        bytes[0] as nat + 256 * le_value(bytes.drop_first())
    }
}

/// The `width` low base-256 digits of `value`, least significant first.
pub open spec fn le_bytes(value: nat, width: nat) -> Seq<u8>
    decreases width,
{
    if width == 0 {
        Seq::empty()
    } else {
        seq![(value % 256) as u8] + le_bytes(value / 256, (width - 1) as nat)
    }
}

/// The powers of 256 that the integer widths of the format need.
pub proof fn lemma_pow256_values()
    ensures
        pow256(0) == 1,
        pow256(1) == 0x100,
        pow256(4) == 0x1_0000_0000,
        pow256(8) == 0x1_0000_0000_0000_0000,
{
    reveal_with_fuel(pow256, 9);
}

/// A number written in `width` digits takes `width` bytes.
pub proof fn lemma_le_bytes_len(value: nat, width: nat)
    ensures
        le_bytes(value, width).len() == width,
    decreases width,
{
    if width > 0 {
        lemma_le_bytes_len(value / 256, (width - 1) as nat);
    }
}

/// The number that `n` bytes spell is below 256 to the power `n`.
pub proof fn lemma_le_value_bound(bytes: Seq<u8>)
    ensures
        le_value(bytes) < pow256(bytes.len()),
    decreases bytes.len(),
{
    if bytes.len() > 0 {
        lemma_le_value_bound(bytes.drop_first());
    }
}

/// Reading back what was written gives the number that was written.
pub proof fn lemma_le_value_of_bytes(value: nat, width: nat)
    requires
        value < pow256(width),
    ensures
        le_value(le_bytes(value, width)) == value,
    decreases width,
{
    if width > 0 {
        let rest = le_bytes(value / 256, (width - 1) as nat);
        let all = le_bytes(value, width);
        lemma_le_value_of_bytes(value / 256, (width - 1) as nat);
        assert(all.drop_first() =~= rest);
    }
}

/// Writing what was read gives the bytes that were read.
pub proof fn lemma_le_bytes_of_value(bytes: Seq<u8>)
    ensures
        le_bytes(le_value(bytes), bytes.len()) == bytes,
    decreases bytes.len(),
{
    if bytes.len() > 0 {
        let rest = bytes.drop_first();
        lemma_le_bytes_of_value(rest);
        let v = le_value(bytes);
        assert(v % 256 == bytes[0] as nat);
        assert(v / 256 == le_value(rest));
        assert(le_bytes(v, bytes.len()) =~= bytes);
    } else {
        assert(le_bytes(le_value(bytes), bytes.len()) =~= bytes);
    }
}

/// `byteorder::LittleEndian::read_u32`: the number that the first four bytes
/// of `buf` spell, least significant byte first. It panics on a shorter
/// buffer, which the precondition rules out.
#[verifier::external_body]
fn read_u32_le(buf: &[u8]) -> (value: u32)
    requires
        buf@.len() >= 4,
    ensures
        value as nat == le_value(buf@.subrange(0, 4)),
{
    LittleEndian::read_u32(buf)
}

/// `byteorder::LittleEndian::read_u64`: the number that the first eight bytes
/// of `buf` spell, least significant byte first. It panics on a shorter
/// buffer, which the precondition rules out.
#[verifier::external_body]
fn read_u64_le(buf: &[u8]) -> (value: u64)
    requires
        buf@.len() >= 8,
    ensures
        value as nat == le_value(buf@.subrange(0, 8)),
{
    LittleEndian::read_u64(buf)
}

/// `byteorder::LittleEndian::write_u32` into a fresh four-byte buffer: the
/// four base-256 digits of `value`, least significant first.
#[verifier::external_body]
fn u32_le(value: u32) -> (bytes: [u8; 4])
    ensures
        bytes@ == le_bytes(value as nat, 4),
{
    let mut bytes = [0u8; 4];
    LittleEndian::write_u32(&mut bytes, value);
    bytes
}

/// `byteorder::LittleEndian::write_u64` into a fresh eight-byte buffer: the
/// eight base-256 digits of `value`, least significant first.
#[verifier::external_body]
fn u64_le(value: u64) -> (bytes: [u8; 8])
    ensures
        bytes@ == le_bytes(value as nat, 8),
{
    let mut bytes = [0u8; 8];
    LittleEndian::write_u64(&mut bytes, value);
    bytes
}

/// Reads the 32-bit little-endian integer at offset `at`.
pub fn get_u32(bytes: &[u8], at: usize) -> (value: u32)
    requires
        at + 4 <= bytes@.len(),
    ensures
        value as nat == le_value(bytes@.subrange(at as int, at + 4)),
{
    let len: usize = bytes.len();
    assert(at + 4 <= len);
    let field = slice_subrange(bytes, at, at + 4);
    assert(field@.subrange(0, 4) =~= field@);
    read_u32_le(field)
}

/// Reads the 64-bit little-endian integer at offset `at`.
pub fn get_u64(bytes: &[u8], at: usize) -> (value: u64)
    requires
        at + 8 <= bytes@.len(),
    ensures
        value as nat == le_value(bytes@.subrange(at as int, at + 8)),
{
    let len: usize = bytes.len();
    assert(at + 8 <= len);
    let field = slice_subrange(bytes, at, at + 8);
    assert(field@.subrange(0, 8) =~= field@);
    read_u64_le(field)
}

/// Appends `value` as four little-endian bytes.
pub fn put_u32(out: &mut Vec<u8>, value: u32)
    ensures
        final(out)@ == old(out)@ + le_bytes(value as nat, 4),
{
    let bytes = u32_le(value);
    out.extend_from_slice(bytes.as_slice());
}

/// Appends `value` as eight little-endian bytes.
pub fn put_u64(out: &mut Vec<u8>, value: u64)
    ensures
        final(out)@ == old(out)@ + le_bytes(value as nat, 8),
{
    let bytes = u64_le(value);
    out.extend_from_slice(bytes.as_slice());
}

} // verus!
