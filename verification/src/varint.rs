use crate::bytes;
use crate::bytes::{put_u16, put_u32, put_u64, take_u16, take_u32, take_u64, take_u8};
use crate::error::Error;
use crate::serializable;
use crate::serializable::Serializable;
use vstd::prelude::*;

verus! {

/// An unsigned 64-bit integer in the compact-size encoding: one byte for
/// values up to 252, otherwise a marker byte and a little-endian integer of
/// two, four or eight bytes.
#[derive(Clone, Copy, Debug, PartialEq, Eq)]
pub struct VarInt(pub u64);

impl View for VarInt {
    type V = u64;

    open spec fn view(&self) -> u64 {
        self.0
    }
}

/// The compact-size layout of `value`: the shortest of the four forms that
/// holds it.
pub open spec fn compact_size_bytes(value: u64) -> Seq<u8> {
    if value <= 252 {
        seq![value as u8]
    } else if value <= 0xffff {
        seq![0xfdu8] + bytes::le_bytes(value as nat, 2)
    } else if value <= 0xffff_ffff {
        seq![0xfeu8] + bytes::le_bytes(value as nat, 4)
    } else {
        seq![0xffu8] + bytes::le_bytes(value as nat, 8)
    }
}

/// How many bytes the compact-size layout of `value` has: 1, 3, 5 or 9.
pub open spec fn compact_size_len(value: u64) -> nat {
    if value <= 252 {
        1
    } else if value <= 0xffff {
        3
    } else if value <= 0xffff_ffff {
        5
    } else {
        9
    }
}

/// How many bytes a compact-size integer that starts with `first` takes up.
pub open spec fn compact_size_span(first: u8) -> nat {
    if first == 0xfd {
        3
    } else if first == 0xfe {
        5
    } else if first == 0xff {
        9
    } else {
        1
    }
}

/// The compact-size integer at the front of `bytes` with the count of
/// bytes it takes up, or `TruncatedInput` where the buffer ends before the
/// integer does. Every form is accepted for every value it can hold,
/// whether or not a shorter one exists.
pub open spec fn compact_size_at(bytes: Seq<u8>) -> Result<(u64, nat), Error> {
    if bytes.len() == 0 || bytes.len() < compact_size_span(bytes[0]) {
        Err(Error::TruncatedInput)
    } else if compact_size_span(bytes[0]) == 1 {
        Ok((bytes[0] as u64, 1))
    } else {
        let span = compact_size_span(bytes[0]);
        Ok((bytes::le_value(bytes.subrange(1, span as int)) as u64, span))
    }
}

/// The layout of `value` has the length that its magnitude selects.
pub proof fn lemma_compact_size_len(value: u64)
    ensures
        compact_size_bytes(value).len() == compact_size_len(value),
        compact_size_span(compact_size_bytes(value)[0]) == compact_size_len(value),
{
    bytes::lemma_le_bytes_len(value as nat, 2);
    bytes::lemma_le_bytes_len(value as nat, 4);
    bytes::lemma_le_bytes_len(value as nat, 8);
}

/// Decoding the layout of `value`, whatever bytes follow it, gives `value`
/// back and takes up exactly the layout.
pub proof fn lemma_compact_size_round_trip(value: u64, rest: Seq<u8>)
    ensures
        compact_size_at(compact_size_bytes(value) + rest) == Ok::<(u64, nat), Error>(
            (value, compact_size_len(value)),
        ),
{
    let layout = compact_size_bytes(value);
    let all = layout + rest;
    lemma_compact_size_len(value);
    bytes::lemma_le_limits();
    assert(all[0] == layout[0]);
    if value > 252 {
        let width = (compact_size_len(value) - 1) as nat;
        let digits = bytes::le_bytes(value as nat, width);
        assert(all.subrange(1, 1 + width as int) =~= digits);
        bytes::lemma_le_value_of_bytes(value as nat, width);
    }
}

/// Every value survives the way through its layout.
pub proof fn lemma_varint_round_trip(value: u64)
    ensures
        serializable::round_trips::<VarInt>(value),
{
    assert forall|rest: Seq<u8>|
        VarInt::decoding(#[trigger] (compact_size_bytes(value) + rest)) == Ok::<(u64, nat), Error>(
            (value, compact_size_bytes(value).len()),
        ) by {
        lemma_compact_size_round_trip(value, rest);
        lemma_compact_size_len(value);
    }
}

/// A layout cut short anywhere no longer decodes: the decoder reports
/// `TruncatedInput` on every proper prefix of it.
pub proof fn lemma_compact_size_truncated(value: u64, keep: nat)
    requires
        keep < compact_size_len(value),
    ensures
        compact_size_at(compact_size_bytes(value).take(keep as int)) == Err::<(u64, nat), Error>(
            Error::TruncatedInput,
        ),
{
    lemma_compact_size_len(value);
}

/// Encodes `value` in the compact-size form: 1, 3, 5 or 9 bytes.
pub fn compact_size_of(value: u64) -> (r: Result<Vec<u8>, Error>)
    ensures
        r is Ok,
        r.unwrap()@ == compact_size_bytes(value),
        r.unwrap()@.len() == compact_size_len(value),
{
    proof {
        lemma_compact_size_len(value);
    }
    let mut buffer: Vec<u8> = Vec::new();
    if value <= 252 {
        buffer.push(value as u8);
    } else if value <= 0xffff {
        buffer.push(0xfd);
        put_u16(&mut buffer, value as u16);
    } else if value <= 0xffff_ffff {
        buffer.push(0xfe);
        put_u32(&mut buffer, value as u32);
    } else {
        buffer.push(0xff);
        put_u64(&mut buffer, value);
    }
    assert(buffer@ =~= compact_size_bytes(value));
    Ok(buffer)
}

/// Decodes the compact-size integer at the front of `buffer` and reports
/// how many bytes it took up.
pub fn read_compact_size_at(buffer: &[u8]) -> (r: Result<(u64, usize), Error>)
    ensures
        match r {
            Ok((value, used)) => used <= buffer@.len() && compact_size_at(buffer@) == Ok::<
                (u64, nat),
                Error,
            >((value, used as nat)),
            Err(e) => compact_size_at(buffer@) == Err::<(u64, nat), Error>(e),
        },
{
    let first = take_u8(buffer, 0)?;
    if first == 0xfd {
        let value = take_u16(buffer, 1)?;
        Ok((value as u64, 3))
    } else if first == 0xfe {
        let value = take_u32(buffer, 1)?;
        Ok((value as u64, 5))
    } else if first == 0xff {
        let value = take_u64(buffer, 1)?;
        Ok((value, 9))
    } else {
        Ok((first as u64, 1))
    }
}

/// Decodes the compact-size integer at the front of `buffer`.
pub fn read_compact_size(buffer: &[u8]) -> (r: Result<u64, Error>)
    ensures
        match r {
            Ok(value) => compact_size_at(buffer@) is Ok && compact_size_at(buffer@).unwrap().0
                == value,
            Err(e) => compact_size_at(buffer@) == Err::<(u64, nat), Error>(e),
        },
{
    match read_compact_size_at(buffer) {
        Ok((value, _)) => Ok(value),
        Err(e) => Err(e),
    }
}

impl Serializable for VarInt {
    open spec fn encoding(value: u64) -> Result<Seq<u8>, Error> {
        Ok(compact_size_bytes(value))
    }

    open spec fn decoding(bytes: Seq<u8>) -> Result<(u64, nat), Error> {
        compact_size_at(bytes)
    }

    fn serialize(&self) -> (r: Result<Vec<u8>, Error>)
        ensures
            r is Ok,
    {
        compact_size_of(self.0)
    }

    fn decode(buffer: &[u8]) -> (r: Result<(VarInt, usize), Error>) {
        match read_compact_size_at(buffer) {
            Ok((value, used)) => Ok((VarInt(value), used)),
            Err(e) => Err(e),
        }
    }
}

} // verus!
