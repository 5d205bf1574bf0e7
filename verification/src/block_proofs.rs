use crate::block;
use crate::block::{Block, BlockHeader, BlockHeaderView, BlockView};
use crate::bytes;
use crate::error::Error;
use crate::serializable;
use crate::serializable::Serializable;
use crate::transaction::{Transaction, TransactionView};
use crate::transaction_proofs;
use crate::varint;
use vstd::prelude::*;

verus! {

/// Decoding the layout of a well-formed header followed by `rest` gives
/// the header back and takes up its 80 bytes.
proof fn lemma_header_then(value: BlockHeaderView, rest: Seq<u8>)
    requires
        value.well_formed(),
    ensures
        BlockHeader::decoding(value.layout() + rest) == Ok::<(BlockHeaderView, nat), Error>(
            (value, 80),
        ),
{
    let all = value.layout() + rest;
    let version = bytes::le_bytes(value.version as nat, 4);
    let timestamp = bytes::le_bytes(value.timestamp as nat, 4);
    let bits = bytes::le_bytes(value.bits as nat, 4);
    let nonce = bytes::le_bytes(value.nonce as nat, 4);
    bytes::lemma_le_limits();
    bytes::lemma_le_bytes_len(value.version as nat, 4);
    bytes::lemma_le_bytes_len(value.timestamp as nat, 4);
    bytes::lemma_le_bytes_len(value.bits as nat, 4);
    bytes::lemma_le_bytes_len(value.nonce as nat, 4);
    bytes::lemma_le_value_of_bytes(value.version as nat, 4);
    bytes::lemma_le_value_of_bytes(value.timestamp as nat, 4);
    bytes::lemma_le_value_of_bytes(value.bits as nat, 4);
    bytes::lemma_le_value_of_bytes(value.nonce as nat, 4);
    assert(all.subrange(0, 4) =~= version);
    assert(all.subrange(4, 36) =~= value.previous_hash);
    assert(all.subrange(36, 68) =~= value.merkle_root);
    assert(all.subrange(68, 72) =~= timestamp);
    assert(all.subrange(72, 76) =~= bits);
    assert(all.subrange(76, 80) =~= nonce);
}

/// Decoding the layout of a well-formed header, whatever bytes follow it,
/// gives the header back and takes up its 80 bytes.
pub proof fn lemma_header_round_trip(value: BlockHeaderView, rest: Seq<u8>)
    requires
        value.well_formed(),
    ensures
        value.layout().len() == 80,
        BlockHeader::decoding(value.layout() + rest) == Ok::<(BlockHeaderView, nat), Error>(
            (value, 80),
        ),
        serializable::round_trips::<BlockHeader>(value),
{
    value.lemma_layout_len();
    lemma_header_then(value, rest);
    assert forall|after: Seq<u8>|
        BlockHeader::decoding(#[trigger] (value.layout() + after)) == Ok::<
            (BlockHeaderView, nat),
            Error,
        >((value, 80)) by {
        lemma_header_then(value, after);
    }
}

/// The layout of a well-formed header without its last byte does not
/// decode: the decoder reports `TruncatedInput`.
pub proof fn lemma_header_truncated(value: BlockHeaderView)
    requires
        value.well_formed(),
    ensures
        BlockHeader::decoding(value.layout().drop_last()) == Err::<(BlockHeaderView, nat), Error>(
            Error::TruncatedInput,
        ),
{
    value.lemma_layout_len();
}

/// Whether a block can go through its envelope and back: its header is
/// well formed, the count of its payloads can be written as a prefix, every
/// payload survives the way through its encoding, and the whole fits the
/// envelope's length field.
pub open spec fn block_round_trips<T: Serializable + Clone>(value: BlockView<T::V>) -> bool {
    &&& value.header.well_formed()
    &&& value.payloads.len() <= u64::MAX
    &&& forall|i: int|
        0 <= i < value.payloads.len() ==> serializable::round_trips::<T>(
            #[trigger] value.payloads[i],
        )
    &&& Block::<T>::encoding(value) is Ok
}

/// The envelope of a block that can be encoded: the magic constant, the
/// length of the frame, then the frame of header, count and payloads.
proof fn lemma_block_envelope<T: Serializable + Clone>(value: BlockView<T::V>)
    requires
        Block::<T>::encoding(value) is Ok,
    ensures
        serializable::encoding_of_all::<T>(value.payloads) is Ok,
        ({
            let frame = block::framed(
                value.header,
                value.payloads.len(),
                serializable::encoding_of_all::<T>(value.payloads).unwrap(),
            );
            &&& frame.len() <= u32::MAX
            &&& Block::<T>::encoding(value).unwrap() == block::envelope(frame)
            &&& block::envelope(frame).len() == 8 + frame.len()
            &&& bytes::le_at(block::envelope(frame), 4, 4) == Ok::<nat, Error>(frame.len())
            &&& bytes::le_value(block::envelope(frame).subrange(0, 4)) == block::BLOCK_MAGIC_NUMBER
        }),
{
    let frame = block::framed(
        value.header,
        value.payloads.len(),
        serializable::encoding_of_all::<T>(value.payloads).unwrap(),
    );
    let magic = bytes::le_bytes(block::BLOCK_MAGIC_NUMBER as nat, 4);
    let all = block::envelope(frame);
    bytes::lemma_le_limits();
    bytes::lemma_le_bytes_len(block::BLOCK_MAGIC_NUMBER as nat, 4);
    bytes::lemma_le_bytes_len(frame.len(), 4);
    bytes::lemma_le_value_of_bytes(block::BLOCK_MAGIC_NUMBER as nat, 4);
    bytes::lemma_le_at_layout(magic, frame.len(), 4, frame);
    assert(all.subrange(0, 4) =~= magic);
}

/// Decoding the envelope of a block that can go through it, followed by
/// `rest`, gives the block back and takes up exactly the envelope.
proof fn lemma_block_then<T: Serializable + Clone>(value: BlockView<T::V>, rest: Seq<u8>)
    requires
        block_round_trips::<T>(value),
    ensures
        Block::<T>::decoding(Block::<T>::encoding(value).unwrap() + rest) == Ok::<
            (BlockView<T::V>, nat),
            Error,
        >((value, Block::<T>::encoding(value).unwrap().len())),
{
    lemma_block_envelope::<T>(value);
    let body = serializable::encoding_of_all::<T>(value.payloads).unwrap();
    let count = varint::compact_size_bytes(value.payloads.len() as u64);
    let frame = block::framed(value.header, value.payloads.len(), body);
    let encoded = block::envelope(frame);
    let all = encoded + rest;
    assert(bytes::le_at(all, 0, 4) == Ok::<nat, Error>(block::BLOCK_MAGIC_NUMBER as nat)) by {
        assert(all.subrange(0, 4) =~= encoded.subrange(0, 4));
    }
    assert(bytes::le_at(all, 4, 4) == Ok::<nat, Error>(frame.len())) by {
        assert(all.subrange(4, 8) =~= encoded.subrange(4, 8));
    }
    assert(all.subrange(8, (8 + frame.len()) as int) == frame) by {
        bytes::lemma_le_bytes_len(block::BLOCK_MAGIC_NUMBER as nat, 4);
        bytes::lemma_le_bytes_len(frame.len(), 4);
        assert(all.subrange(8, (8 + frame.len()) as int) =~= frame);
    }
    let r2 = body + Seq::<u8>::empty();
    let r1 = count + r2;
    assert(frame == value.header.layout() + r1) by {
        assert(r2 =~= body);
        bytes::lemma_concat_assoc(value.header.layout(), count, body);
    }
    lemma_header_round_trip(value.header, r1);
    assert(frame.skip(80) == r1) by {
        bytes::lemma_concat_skip(value.header.layout(), r1);
    }
    varint::lemma_compact_size_round_trip(value.payloads.len() as u64, r2);
    varint::lemma_compact_size_len(value.payloads.len() as u64);
    let b = count.len();
    assert(frame.skip((80 + b) as int) == r2) by {
        bytes::lemma_skip_skip(frame, 80, b);
        bytes::lemma_concat_skip(count, r2);
    }
    serializable::lemma_all_round_trip::<T>(value.payloads, Seq::<u8>::empty());
    assert(value.payloads.len() as u64 as nat == value.payloads.len());
}

/// Decoding the envelope of a block, whatever bytes follow it, gives the
/// block back, header, count of payloads and payloads, and takes up exactly
/// the envelope.
pub proof fn lemma_block_round_trip<T: Serializable + Clone>(value: BlockView<T::V>, rest: Seq<u8>)
    requires
        block_round_trips::<T>(value),
    ensures
        Block::<T>::decoding(Block::<T>::encoding(value).unwrap() + rest) == Ok::<
            (BlockView<T::V>, nat),
            Error,
        >((value, Block::<T>::encoding(value).unwrap().len())),
        serializable::round_trips::<Block<T>>(value),
{
    lemma_block_then::<T>(value, rest);
    let encoded = Block::<T>::encoding(value).unwrap();
    assert forall|after: Seq<u8>|
        Block::<T>::decoding(#[trigger] (encoded + after)) == Ok::<(BlockView<T::V>, nat), Error>(
            (value, encoded.len()),
        ) by {
        lemma_block_then::<T>(value, after);
    }
}

/// An envelope without its last byte is refused as malformed: its length
/// field counts more bytes than are there.
pub proof fn lemma_block_truncated<T: Serializable + Clone>(value: BlockView<T::V>)
    requires
        Block::<T>::encoding(value) is Ok,
        value.header.well_formed(),
    ensures
        Block::<T>::decoding(Block::<T>::encoding(value).unwrap().drop_last()) == Err::<
            (BlockView<T::V>, nat),
            Error,
        >(Error::MalformedEnvelope),
{
    lemma_block_envelope::<T>(value);
    value.header.lemma_layout_len();
    let encoded = Block::<T>::encoding(value).unwrap();
    let cut = encoded.drop_last();
    assert(cut.subrange(0, 4) =~= encoded.subrange(0, 4));
    assert(cut.subrange(4, 8) =~= encoded.subrange(4, 8));
}

/// An envelope whose first byte is changed is refused as malformed: the
/// magic constant no longer matches.
pub proof fn lemma_block_magic_corrupted<T: Serializable + Clone>(value: BlockView<T::V>, first: u8)
    requires
        Block::<T>::encoding(value) is Ok,
        first != Block::<T>::encoding(value).unwrap()[0],
    ensures
        Block::<T>::decoding(Block::<T>::encoding(value).unwrap().update(0, first)) == Err::<
            (BlockView<T::V>, nat),
            Error,
        >(Error::MalformedEnvelope),
{
    lemma_block_envelope::<T>(value);
    let encoded = Block::<T>::encoding(value).unwrap();
    let changed = encoded.update(0, first);
    let before = encoded.subrange(0, 4);
    let after = changed.subrange(0, 4);
    assert(after.skip(1) =~= before.skip(1));
    assert(after[0] == first);
    assert(before[0] == encoded[0]);
}

/// A block of well-formed transactions whose envelope fits its length
/// field survives its envelope: decoding it, whatever bytes follow, gives
/// back the header, the count of transactions and the transactions in
/// their order.
pub proof fn lemma_transaction_block_round_trip(value: BlockView<TransactionView>, rest: Seq<u8>)
    requires
        value.header.well_formed(),
        value.payloads.len() <= u64::MAX,
        forall|i: int|
            0 <= i < value.payloads.len() ==> (#[trigger] value.payloads[i]).well_formed(),
        Block::<Transaction>::encoding(value) is Ok,
    ensures
        Block::<Transaction>::decoding(Block::<Transaction>::encoding(value).unwrap() + rest)
            == Ok::<(BlockView<TransactionView>, nat), Error>(
            (value, Block::<Transaction>::encoding(value).unwrap().len()),
        ),
{
    assert forall|i: int| 0 <= i < value.payloads.len() implies serializable::round_trips::<
        Transaction,
    >(#[trigger] value.payloads[i]) by {
        transaction_proofs::lemma_transaction_round_trip(value.payloads[i], Seq::<u8>::empty());
    }
    lemma_block_round_trip::<Transaction>(value, rest);
}

} // verus!
