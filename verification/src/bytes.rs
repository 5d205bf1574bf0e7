use crate::error::Error;
use byteorder::{ByteOrder, LittleEndian};
use vstd::prelude::*;
use vstd::slice::slice_subrange;

verus! {

/// The little-endian layout of `value` in `width` bytes: least significant
/// byte first. Digits above the width are dropped.
pub open spec fn le_bytes(value: nat, width: nat) -> Seq<u8>
    decreases width,
{
    if width == 0 {
        Seq::empty()
    } else {
        seq![(value % 256) as u8] + le_bytes(value / 256, (width - 1) as nat)
    }
}

/// The number that `bytes` spell in little-endian order.
pub open spec fn le_value(bytes: Seq<u8>) -> nat
    decreases bytes.len(),
{
    if bytes.len() == 0 {
        0
    } else {
        bytes[0] as nat + 256 * le_value(bytes.skip(1))
    }
}

/// The first number that `width` bytes cannot hold: 256 to the power `width`.
pub open spec fn le_limit(width: nat) -> nat
    decreases width,
{
    if width == 0 {
        1
    } else {
        256 * le_limit((width - 1) as nat)
    }
}

/// A layout has as many bytes as its width.
pub proof fn lemma_le_bytes_len(value: nat, width: nat)
    ensures
        le_bytes(value, width).len() == width,
    decreases width,
{
    if width > 0 {
        lemma_le_bytes_len(value / 256, (width - 1) as nat);
    }
}

/// Reading back a layout gives the number that was laid out, as long as the
/// width can hold it.
pub proof fn lemma_le_value_of_bytes(value: nat, width: nat)
    requires
        value < le_limit(width),
    ensures
        le_value(le_bytes(value, width)) == value,
    decreases width,
{
    if width > 0 {
        let rest = le_bytes(value / 256, (width - 1) as nat);
        let all = le_bytes(value, width);
        lemma_le_value_of_bytes(value / 256, (width - 1) as nat);
        lemma_le_bytes_len(value / 256, (width - 1) as nat);
        assert(all.skip(1) =~= rest);
        assert(all[0] == (value % 256) as u8);
    }
}

/// The limits of the three widths the format uses.
pub proof fn lemma_le_limits()
    ensures
        le_limit(2) == 0x1_0000,
        le_limit(4) == 0x1_0000_0000,
        le_limit(8) == 0x1_0000_0000_0000_0000,
{
    reveal_with_fuel(le_limit, 9);
}

/// Lays `value` out with `byteorder::LittleEndian::write_u16`, on a buffer
/// of exactly two bytes. Trusted: the two bytes are the little-endian
/// layout of `value`.
#[verifier::external_body]
fn u16_to_le(value: u16) -> (bytes: [u8; 2])
    ensures
        bytes@ == le_bytes(value as nat, 2),
{
    let mut bytes = [0u8; 2];
    LittleEndian::write_u16(&mut bytes, value);
    bytes
}

/// Lays `value` out with `byteorder::LittleEndian::write_u32`, on a buffer
/// of exactly four bytes. Trusted: the four bytes are the little-endian
/// layout of `value`.
#[verifier::external_body]
fn u32_to_le(value: u32) -> (bytes: [u8; 4])
    ensures
        bytes@ == le_bytes(value as nat, 4),
{
    let mut bytes = [0u8; 4];
    LittleEndian::write_u32(&mut bytes, value);
    bytes
}

/// Lays `value` out with `byteorder::LittleEndian::write_u64`, on a buffer
/// of exactly eight bytes. Trusted: the eight bytes are the little-endian
/// layout of `value`.
#[verifier::external_body]
fn u64_to_le(value: u64) -> (bytes: [u8; 8])
    ensures
        bytes@ == le_bytes(value as nat, 8),
{
    let mut bytes = [0u8; 8];
    LittleEndian::write_u64(&mut bytes, value);
    bytes
}

/// Reads with `byteorder::LittleEndian::read_u16`, which panics on fewer
/// than two bytes. Trusted: the result is the number that the first two
/// bytes spell in little-endian order.
#[verifier::external_body]
fn u16_from_le(bytes: &[u8]) -> (value: u16)
    requires
        bytes@.len() >= 2,
    ensures
        value as nat == le_value(bytes@.subrange(0, 2)),
{
    LittleEndian::read_u16(bytes)
}

/// Reads with `byteorder::LittleEndian::read_u32`, which panics on fewer
/// than four bytes. Trusted: the result is the number that the first four
/// bytes spell in little-endian order.
#[verifier::external_body]
fn u32_from_le(bytes: &[u8]) -> (value: u32)
    requires
        bytes@.len() >= 4,
    ensures
        value as nat == le_value(bytes@.subrange(0, 4)),
{
    LittleEndian::read_u32(bytes)
}

/// Reads with `byteorder::LittleEndian::read_u64`, which panics on fewer
/// than eight bytes. Trusted: the result is the number that the first eight
/// bytes spell in little-endian order.
#[verifier::external_body]
fn u64_from_le(bytes: &[u8]) -> (value: u64)
    requires
        bytes@.len() >= 8,
    ensures
        value as nat == le_value(bytes@.subrange(0, 8)),
{
    LittleEndian::read_u64(bytes)
}

/// Appends `bytes` to `buffer`.
pub fn put_bytes(buffer: &mut Vec<u8>, bytes: &[u8])
    ensures
        final(buffer)@ == old(buffer)@ + bytes@,
{
    let mut i: usize = 0;
    while i < bytes.len()
        invariant
            i <= bytes@.len(),
            buffer@ == old(buffer)@ + bytes@.subrange(0, i as int),
        decreases bytes@.len() - i,
    {
        buffer.push(bytes[i]);
        i += 1;
    }
    assert(bytes@.subrange(0, bytes@.len() as int) =~= bytes@);
}

/// Appends the two-byte little-endian layout of `value` to `buffer`.
pub fn put_u16(buffer: &mut Vec<u8>, value: u16)
    ensures
        final(buffer)@ == old(buffer)@ + le_bytes(value as nat, 2),
{
    let bytes = u16_to_le(value);
    put_bytes(buffer, bytes.as_slice());
}

/// Appends the four-byte little-endian layout of `value` to `buffer`.
pub fn put_u32(buffer: &mut Vec<u8>, value: u32)
    ensures
        final(buffer)@ == old(buffer)@ + le_bytes(value as nat, 4),
{
    let bytes = u32_to_le(value);
    put_bytes(buffer, bytes.as_slice());
}

/// Appends the eight-byte little-endian layout of `value` to `buffer`.
pub fn put_u64(buffer: &mut Vec<u8>, value: u64)
    ensures
        final(buffer)@ == old(buffer)@ + le_bytes(value as nat, 8),
{
    let bytes = u64_to_le(value);
    put_bytes(buffer, bytes.as_slice());
}

/// What reading a `width`-byte little-endian number at offset `at` gives:
/// the number, or `TruncatedInput` where fewer than `width` bytes follow.
pub open spec fn le_at(bytes: Seq<u8>, at: nat, width: nat) -> Result<nat, Error> {
    if at + width <= bytes.len() {
        Ok(le_value(bytes.subrange(at as int, (at + width) as int)))
    } else {
        Err(Error::TruncatedInput)
    }
}

/// What reading `count` raw bytes at offset `at` gives: the bytes, or
/// `TruncatedInput` where fewer than `count` follow.
pub open spec fn bytes_at(bytes: Seq<u8>, at: nat, count: nat) -> Result<Seq<u8>, Error> {
    if at + count <= bytes.len() {
        Ok(bytes.subrange(at as int, (at + count) as int))
    } else {
        Err(Error::TruncatedInput)
    }
}

/// Reads the byte at offset `at`.
pub fn take_u8(buffer: &[u8], at: usize) -> (r: Result<u8, Error>)
    ensures
        match r {
            Ok(v) => at < buffer@.len() && v == buffer@[at as int],
            Err(e) => at >= buffer@.len() && e == Error::TruncatedInput,
        },
{
    if at < buffer.len() {
        Ok(buffer[at])
    } else {
        Err(Error::TruncatedInput)
    }
}

/// Reads a two-byte little-endian number at offset `at`.
pub fn take_u16(buffer: &[u8], at: usize) -> (r: Result<u16, Error>)
    ensures
        match r {
            Ok(v) => le_at(buffer@, at as nat, 2) == Ok::<nat, Error>(v as nat),
            Err(e) => le_at(buffer@, at as nat, 2) == Err::<nat, Error>(e),
        },
{
    if at > buffer.len() || buffer.len() - at < 2 {
        return Err(Error::TruncatedInput);
    }
    let field = slice_subrange(buffer, at, at + 2);
    assert(field@.subrange(0, 2) =~= field@);
    Ok(u16_from_le(field))
}

/// Reads a four-byte little-endian number at offset `at`.
pub fn take_u32(buffer: &[u8], at: usize) -> (r: Result<u32, Error>)
    ensures
        match r {
            Ok(v) => le_at(buffer@, at as nat, 4) == Ok::<nat, Error>(v as nat),
            Err(e) => le_at(buffer@, at as nat, 4) == Err::<nat, Error>(e),
        },
{
    if at > buffer.len() || buffer.len() - at < 4 {
        return Err(Error::TruncatedInput);
    }
    let field = slice_subrange(buffer, at, at + 4);
    assert(field@.subrange(0, 4) =~= field@);
    Ok(u32_from_le(field))
}

/// Reads an eight-byte little-endian number at offset `at`.
pub fn take_u64(buffer: &[u8], at: usize) -> (r: Result<u64, Error>)
    ensures
        match r {
            Ok(v) => le_at(buffer@, at as nat, 8) == Ok::<nat, Error>(v as nat),
            Err(e) => le_at(buffer@, at as nat, 8) == Err::<nat, Error>(e),
        },
{
    if at > buffer.len() || buffer.len() - at < 8 {
        return Err(Error::TruncatedInput);
    }
    let field = slice_subrange(buffer, at, at + 8);
    assert(field@.subrange(0, 8) =~= field@);
    Ok(u64_from_le(field))
}

/// Copies out `count` raw bytes at offset `at`.
pub fn take_bytes(buffer: &[u8], at: usize, count: usize) -> (r: Result<Vec<u8>, Error>)
    ensures
        match r {
            Ok(v) => bytes_at(buffer@, at as nat, count as nat) == Ok::<Seq<u8>, Error>(v@),
            Err(e) => bytes_at(buffer@, at as nat, count as nat) == Err::<Seq<u8>, Error>(e),
        },
{
    if at > buffer.len() || buffer.len() - at < count {
        return Err(Error::TruncatedInput);
    }
    let mut out: Vec<u8> = Vec::new();
    put_bytes(&mut out, slice_subrange(buffer, at, at + count));
    Ok(out)
}

/// A number laid out between two runs of bytes is read back at the offset
/// where the first run ends.
pub proof fn lemma_le_at_layout(before: Seq<u8>, value: nat, width: nat, after: Seq<u8>)
    requires
        value < le_limit(width),
    ensures
        le_at(before + le_bytes(value, width) + after, before.len(), width) == Ok::<nat, Error>(
            value,
        ),
{
    let all = before + le_bytes(value, width) + after;
    lemma_le_bytes_len(value, width);
    lemma_le_value_of_bytes(value, width);
    assert(all.subrange(before.len() as int, (before.len() + width) as int) =~= le_bytes(
        value,
        width,
    ));
}

/// Raw bytes between two runs of bytes are read back at the offset where
/// the first run ends.
pub proof fn lemma_bytes_at_middle(before: Seq<u8>, middle: Seq<u8>, after: Seq<u8>)
    ensures
        bytes_at(before + middle + after, before.len(), middle.len()) == Ok::<Seq<u8>, Error>(
            middle,
        ),
{
    let all = before + middle + after;
    assert(all.subrange(before.len() as int, (before.len() + middle.len()) as int) =~= middle);
}

/// Writing three runs one after the other does not depend on which two
/// are joined first.
pub proof fn lemma_concat_assoc(x: Seq<u8>, y: Seq<u8>, z: Seq<u8>)
    ensures
        (x + y) + z == x + (y + z),
{
    assert((x + y) + z =~= x + (y + z));
}

/// Skipping the first of two runs leaves the second.
pub proof fn lemma_concat_skip(front: Seq<u8>, back: Seq<u8>)
    ensures
        (front + back).skip(front.len() as int) == back,
{
    assert((front + back).skip(front.len() as int) =~= back);
}

/// Skipping in two steps is skipping the sum.
pub proof fn lemma_skip_skip(all: Seq<u8>, first: nat, second: nat)
    requires
        first + second <= all.len(),
    ensures
        all.skip(first as int).skip(second as int) == all.skip((first + second) as int),
{
    assert(all.skip(first as int).skip(second as int) =~= all.skip((first + second) as int));
}

/// Reading a number at an offset is reading it at the front of what is
/// left when the bytes before the offset are skipped.
pub proof fn lemma_le_at_skip(all: Seq<u8>, at: nat, width: nat)
    requires
        at <= all.len(),
    ensures
        le_at(all, at, width) == le_at(all.skip(at as int), 0, width),
{
    if at + width <= all.len() {
        assert(all.subrange(at as int, (at + width) as int) =~= all.skip(at as int).subrange(
            0,
            width as int,
        ));
    }
}

} // verus!
