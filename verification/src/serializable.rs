use crate::bytes::put_bytes;
use crate::error::Error;
use vstd::prelude::*;
use vstd::slice::slice_subrange;

verus! {

/// A record with an exact byte layout.
///
/// The two spec functions are the format: `encoding` says which bytes stand
/// for a value, `decoding` says which value stands at the front of a buffer
/// and how many bytes it takes up. The executable methods compute exactly
/// these.
pub trait Serializable: Sized + View {
    /// The bytes that stand for `value`, or the failure that encoding it
    /// reports.
    spec fn encoding(value: Self::V) -> Result<Seq<u8>, Error>;

    /// The value at the front of `bytes` with the count of bytes it takes
    /// up, or the failure that decoding reports. Bytes behind the value are
    /// not looked at.
    spec fn decoding(bytes: Seq<u8>) -> Result<(Self::V, nat), Error>;

    /// Encodes the record.
    fn serialize(&self) -> (r: Result<Vec<u8>, Error>)
        ensures
            match r {
                Ok(bytes) => Self::encoding(self@) == Ok::<Seq<u8>, Error>(bytes@),
                Err(e) => Self::encoding(self@) == Err::<Seq<u8>, Error>(e),
            },
    ;

    /// Decodes the record at the front of `buffer` and reports how many
    /// bytes it took up.
    fn decode(buffer: &[u8]) -> (r: Result<(Self, usize), Error>)
        ensures
            match r {
                Ok((value, used)) => used <= buffer@.len() && Self::decoding(buffer@) == Ok::<
                    (Self::V, nat),
                    Error,
                >((value@, used as nat)),
                Err(e) => Self::decoding(buffer@) == Err::<(Self::V, nat), Error>(e),
            },
    ;

    /// Decodes the record at the front of `buffer`.
    fn deserialize(buffer: &[u8]) -> (r: Result<Self, Error>)
        ensures
            match r {
                Ok(value) => Self::decoding(buffer@) is Ok && Self::decoding(buffer@).unwrap().0
                    == value@,
                Err(e) => Self::decoding(buffer@) == Err::<(Self::V, nat), Error>(e),
            },
    {
        match Self::decode(buffer) {
            Ok((value, _)) => Ok(value),
            Err(e) => Err(e),
        }
    }
}

/// The views of a sequence of records, in order.
pub open spec fn views<T: View>(items: Seq<T>) -> Seq<T::V> {
    Seq::new(items.len(), |i: int| items[i]@)
}

/// The encodings of `values` one after the other, or the failure of the
/// first value that cannot be encoded.
pub open spec fn encoding_of_all<T: Serializable>(values: Seq<T::V>) -> Result<Seq<u8>, Error>
    decreases values.len(),
{
    if values.len() == 0 {
        Ok(Seq::empty())
    } else {
        match T::encoding(values[0]) {
            Err(e) => Err(e),
            Ok(first) => match encoding_of_all::<T>(values.skip(1)) {
                Err(e) => Err(e),
                Ok(rest) => Ok(first + rest),
            },
        }
    }
}

/// What decoding `count` records one after the other from the front of
/// `bytes` gives: the values in order with the count of bytes they take up
/// together, or the failure of the first record that cannot be decoded.
pub open spec fn decoding_of_all<T: Serializable>(bytes: Seq<u8>, count: nat) -> Result<
    (Seq<T::V>, nat),
    Error,
>
    decreases count,
{
    if count == 0 {
        Ok((Seq::empty(), 0))
    } else {
        match T::decoding(bytes) {
            Err(e) => Err(e),
            Ok((first, used)) => match decoding_of_all::<T>(
                bytes.skip(used as int),
                (count - 1) as nat,
            ) {
                Err(e) => Err(e),
                Ok((rest, more)) => Ok((seq![first] + rest, used + more)),
            },
        }
    }
}

/// A result of `decoding_of_all` on the rest of a buffer, seen from the
/// start of the buffer: `values` were decoded before it, from `used` bytes.
pub open spec fn decoded_after<V>(
    values: Seq<V>,
    used: nat,
    rest: Result<(Seq<V>, nat), Error>,
) -> Result<(Seq<V>, nat), Error> {
    match rest {
        Ok((more, n)) => Ok((values + more, used + n)),
        Err(e) => Err(e),
    }
}

/// Encodes `items` one after the other into one buffer.
pub fn serialize_all<T: Serializable>(items: &[T]) -> (r: Result<Vec<u8>, Error>)
    ensures
        match r {
            Ok(bytes) => encoding_of_all::<T>(views(items@)) == Ok::<Seq<u8>, Error>(bytes@),
            Err(e) => encoding_of_all::<T>(views(items@)) == Err::<Seq<u8>, Error>(e),
        },
{
    let ghost all = views(items@);
    let mut buffer: Vec<u8> = Vec::new();
    let mut i: usize = 0;
    assert(all.skip(0) =~= all);
    while i < items.len()
        invariant
            i <= items@.len(),
            all == views(items@),
            match encoding_of_all::<T>(all.skip(i as int)) {
                Ok(rest) => encoding_of_all::<T>(all) == Ok::<Seq<u8>, Error>(buffer@ + rest),
                Err(e) => encoding_of_all::<T>(all) == Err::<Seq<u8>, Error>(e),
            },
        decreases items@.len() - i,
    {
        let ghost tail = all.skip(i as int);
        assert(tail[0] == items@[i as int]@);
        assert(tail.skip(1) =~= all.skip(i + 1));
        match items[i].serialize() {
            Err(e) => {
                return Err(e);
            },
            Ok(bytes) => {
                let ghost before = buffer@;
                put_bytes(&mut buffer, bytes.as_slice());
                proof {
                    match encoding_of_all::<T>(tail.skip(1)) {
                        Ok(rest) => {
                            assert(before + (bytes@ + rest) =~= (before + bytes@) + rest);
                        },
                        Err(e) => {},
                    }
                }
            },
        }
        i += 1;
    }
    assert(all.skip(i as int) =~= Seq::<T::V>::empty());
    assert(buffer@ + Seq::<u8>::empty() =~= buffer@);
    Ok(buffer)
}

/// Decodes `count` records one after the other from the front of `buffer`
/// and reports how many bytes they took up together.
pub fn decode_all<T: Serializable>(buffer: &[u8], count: u64) -> (r: Result<(Vec<T>, usize), Error>)
    ensures
        match r {
            Ok((items, used)) => used <= buffer@.len() && decoding_of_all::<T>(
                buffer@,
                count as nat,
            ) == Ok::<(Seq<T::V>, nat), Error>((views(items@), used as nat)),
            Err(e) => decoding_of_all::<T>(buffer@, count as nat) == Err::<(Seq<T::V>, nat), Error>(
                e,
            ),
        },
{
    let mut items: Vec<T> = Vec::new();
    let mut at: usize = 0;
    let mut i: u64 = 0;
    assert(views(items@) =~= Seq::<T::V>::empty());
    assert(buffer@.skip(0) =~= buffer@);
    while i < count
        invariant
            i <= count,
            at <= buffer@.len(),
            decoding_of_all::<T>(buffer@, count as nat) == decoded_after(
                views(items@),
                at as nat,
                decoding_of_all::<T>(buffer@.skip(at as int), (count - i) as nat),
            ),
        decreases count - i,
    {
        let rest = slice_subrange(buffer, at, buffer.len());
        assert(rest@ =~= buffer@.skip(at as int));
        match T::decode(rest) {
            Err(e) => {
                return Err(e);
            },
            Ok((item, used)) => {
                proof {
                    let before = views(items@);
                    let after = views(items@.push(item));
                    assert(after =~= before + seq![item@]);
                    assert(buffer@.skip(at as int).skip(used as int) =~= buffer@.skip(at + used));
                    match decoding_of_all::<T>(buffer@.skip(at + used), (count - i - 1) as nat) {
                        Ok((more, n)) => {
                            assert(before + (seq![item@] + more) =~= after + more);
                        },
                        Err(e) => {},
                    }
                }
                items.push(item);
                at = at + used;
            },
        }
        i += 1;
    }
    assert(views(items@) + Seq::<T::V>::empty() =~= views(items@));
    Ok((items, at))
}

/// Where every value can be encoded, so can the sequence.
pub proof fn lemma_encoding_of_all_ok<T: Serializable>(values: Seq<T::V>)
    requires
        forall|i: int| 0 <= i < values.len() ==> T::encoding(#[trigger] values[i]) is Ok,
    ensures
        encoding_of_all::<T>(values) is Ok,
    decreases values.len(),
{
    if values.len() > 0 {
        let rest = values.skip(1);
        assert forall|i: int| 0 <= i < rest.len() implies T::encoding(#[trigger] rest[i]) is Ok by {
            assert(rest[i] == values[i + 1]);
        }
        lemma_encoding_of_all_ok::<T>(rest);
    }
}

/// Clones `items` one by one, in order.
pub fn clone_all<T: Clone>(items: &[T]) -> (copies: Vec<T>)
    ensures
        copies@.len() == items@.len(),
        forall|i: int| 0 <= i < items@.len() ==> cloned(items@[i], #[trigger] copies@[i]),
{
    let mut copies: Vec<T> = Vec::new();
    let mut i: usize = 0;
    while i < items.len()
        invariant
            i <= items@.len(),
            copies@.len() == i,
            forall|k: int| 0 <= k < i ==> cloned(items@[k], #[trigger] copies@[k]),
        decreases items@.len() - i,
    {
        copies.push(items[i].clone());
        i += 1;
    }
    copies
}

/// Whether `value` survives the way through its encoding: it can be
/// encoded, and decoding the encoding gives `value` back and takes up
/// exactly the encoding, whatever bytes follow it.
pub open spec fn round_trips<T: Serializable>(value: T::V) -> bool {
    &&& T::encoding(value) is Ok
    &&& forall|rest: Seq<u8>| #[trigger]
        T::decoding(T::encoding(value).unwrap() + rest) == Ok::<(T::V, nat), Error>(
            (value, T::encoding(value).unwrap().len()),
        )
}

/// A value that survives the way through its encoding is what decoding its
/// encoding alone gives.
pub proof fn lemma_round_trip_alone<T: Serializable>(value: T::V)
    requires
        round_trips::<T>(value),
    ensures
        T::decoding(T::encoding(value).unwrap()) == Ok::<(T::V, nat), Error>(
            (value, T::encoding(value).unwrap().len()),
        ),
{
    let encoded = T::encoding(value).unwrap();
    assert(encoded + Seq::<u8>::empty() =~= encoded);
}

/// Where every value survives the way through its encoding, so does the
/// sequence: decoding as many records as were encoded, whatever bytes
/// follow them, gives the values back in order and takes up exactly their
/// encodings.
pub proof fn lemma_all_round_trip<T: Serializable>(values: Seq<T::V>, rest: Seq<u8>)
    requires
        forall|i: int| 0 <= i < values.len() ==> round_trips::<T>(#[trigger] values[i]),
    ensures
        encoding_of_all::<T>(values) is Ok,
        decoding_of_all::<T>(encoding_of_all::<T>(values).unwrap() + rest, values.len()) == Ok::<
            (Seq<T::V>, nat),
            Error,
        >((values, encoding_of_all::<T>(values).unwrap().len())),
    decreases values.len(),
{
    if values.len() == 0 {
        assert(values =~= Seq::<T::V>::empty());
    } else {
        let tail = values.skip(1);
        assert forall|i: int| 0 <= i < tail.len() implies round_trips::<T>(#[trigger] tail[i]) by {
            assert(tail[i] == values[i + 1]);
        }
        lemma_all_round_trip::<T>(tail, rest);
        assert(round_trips::<T>(values[0]));
        let first = T::encoding(values[0]).unwrap();
        let others = encoding_of_all::<T>(tail).unwrap();
        let bytes = (first + others) + rest;
        assert(bytes =~= first + (others + rest));
        assert(bytes.skip(first.len() as int) =~= others + rest);
        assert(seq![values[0]] + tail =~= values);
    }
}

} // verus!
