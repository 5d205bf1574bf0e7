use crate::bytes;
use crate::bytes::{put_bytes, put_u32, take_bytes, take_u32};
use crate::error::Error;
use crate::hash;
use crate::hash::double_hash;
use crate::merkle;
use crate::merkle::calculate_merkle;
use crate::serializable;
use crate::serializable::{clone_all, decode_all, serialize_all, Serializable};
use crate::varint;
use crate::varint::{compact_size_of, read_compact_size_at};
use vstd::prelude::*;
use vstd::slice::slice_subrange;

verus! {

/// The constant that opens every block envelope, written as four
/// little-endian bytes.
pub const BLOCK_MAGIC_NUMBER: u32 = 0xD9B4BEF9;

/// The length of an encoded block header.
pub const HEADER_LEN: usize = 80;

/// The summary of a block: what it follows, what it holds, and the
/// proof-of-work fields.
#[derive(Debug, PartialEq)]
pub struct BlockHeader {
    version: u32,
    previous_hash: Vec<u8>,
    merkle_root_hash: Vec<u8>,
    timestamp: u32,
    bits: u32,
    nonce: u32,
}

/// What a `BlockHeader` holds.
pub struct BlockHeaderView {
    pub version: u32,
    pub previous_hash: Seq<u8>,
    pub merkle_root: Seq<u8>,
    pub timestamp: u32,
    pub bits: u32,
    pub nonce: u32,
}

impl BlockHeaderView {
    /// Both hashes have their fixed length.
    pub open spec fn well_formed(self) -> bool {
        self.previous_hash.len() == 32 && self.merkle_root.len() == 32
    }

    /// The layout: version, previous hash, merkle root, timestamp, bits and
    /// nonce, each number as four little-endian bytes.
    pub open spec fn layout(self) -> Seq<u8> {
        bytes::le_bytes(self.version as nat, 4) + self.previous_hash + self.merkle_root
            + bytes::le_bytes(self.timestamp as nat, 4) + bytes::le_bytes(self.bits as nat, 4)
            + bytes::le_bytes(self.nonce as nat, 4)
    }

    /// The layout of a well-formed header has exactly 80 bytes.
    pub proof fn lemma_layout_len(self)
        requires
            self.well_formed(),
        ensures
            self.layout().len() == HEADER_LEN,
    {
        bytes::lemma_le_bytes_len(self.version as nat, 4);
        bytes::lemma_le_bytes_len(self.timestamp as nat, 4);
        bytes::lemma_le_bytes_len(self.bits as nat, 4);
        bytes::lemma_le_bytes_len(self.nonce as nat, 4);
    }
}

impl View for BlockHeader {
    type V = BlockHeaderView;

    closed spec fn view(&self) -> BlockHeaderView {
        BlockHeaderView {
            version: self.version,
            previous_hash: self.previous_hash@,
            merkle_root: self.merkle_root_hash@,
            timestamp: self.timestamp,
            bits: self.bits,
            nonce: self.nonce,
        }
    }
}

impl BlockHeader {
    /// Every header in memory holds two hashes of 32 bytes.
    #[verifier::type_invariant]
    spec fn hashes_sized(self) -> bool {
        self.previous_hash@.len() == 32 && self.merkle_root_hash@.len() == 32
    }

    /// The format version.
    pub fn version(&self) -> (r: u32)
        ensures
            r == self@.version,
    {
        self.version
    }

    /// The hash of the header that this one follows.
    pub fn previous_hash(&self) -> (r: &Vec<u8>)
        ensures
            r@ == self@.previous_hash,
            r@.len() == 32,
    {
        proof {
            use_type_invariant(self);
        }
        &self.previous_hash
    }

    /// The merkle root of the block's payloads.
    pub fn merkle_root_hash(&self) -> (r: &Vec<u8>)
        ensures
            r@ == self@.merkle_root,
            r@.len() == 32,
    {
        proof {
            use_type_invariant(self);
        }
        &self.merkle_root_hash
    }

    /// The time the block was built, in seconds since the epoch.
    pub fn timestamp(&self) -> (r: u32)
        ensures
            r == self@.timestamp,
    {
        self.timestamp
    }

    /// The encoded difficulty target.
    pub fn bits(&self) -> (r: u32)
        ensures
            r == self@.bits,
    {
        self.bits
    }

    /// The nonce.
    pub fn nonce(&self) -> (r: u32)
        ensures
            r == self@.nonce,
    {
        self.nonce
    }

    /// The identity of the header: the double hash of its encoding.
    pub fn hash(&self) -> (r: Result<Vec<u8>, Error>)
        ensures
            self@.well_formed(),
            r is Ok,
            r.unwrap()@ == hash::double_sha256(self@.layout()),
            r.unwrap()@.len() == hash::DIGEST_LEN,
    {
        let encoded = self.serialize()?;
        proof {
            self@.lemma_layout_len();
        }
        double_hash(encoded.as_slice())
    }
}

impl Serializable for BlockHeader {
    open spec fn encoding(value: BlockHeaderView) -> Result<Seq<u8>, Error> {
        Ok(value.layout())
    }

    open spec fn decoding(bytes: Seq<u8>) -> Result<(BlockHeaderView, nat), Error> {
        if bytes.len() < HEADER_LEN {
            Err(Error::TruncatedInput)
        } else {
            Ok(
                (
                    BlockHeaderView {
                        version: bytes::le_value(bytes.subrange(0, 4)) as u32,
                        previous_hash: bytes.subrange(4, 36),
                        merkle_root: bytes.subrange(36, 68),
                        timestamp: bytes::le_value(bytes.subrange(68, 72)) as u32,
                        bits: bytes::le_value(bytes.subrange(72, 76)) as u32,
                        nonce: bytes::le_value(bytes.subrange(76, 80)) as u32,
                    },
                    HEADER_LEN as nat,
                ),
            )
        }
    }

    fn serialize(&self) -> (r: Result<Vec<u8>, Error>)
        ensures
            r is Ok,
            self@.well_formed(),
    {
        proof {
            use_type_invariant(self);
        }
        let mut buffer: Vec<u8> = Vec::new();
        put_u32(&mut buffer, self.version);
        put_bytes(&mut buffer, self.previous_hash.as_slice());
        put_bytes(&mut buffer, self.merkle_root_hash.as_slice());
        put_u32(&mut buffer, self.timestamp);
        put_u32(&mut buffer, self.bits);
        put_u32(&mut buffer, self.nonce);
        assert(buffer@ =~= self@.layout());
        Ok(buffer)
    }

    fn decode(buffer: &[u8]) -> (r: Result<(BlockHeader, usize), Error>)
        ensures
            r matches Ok((header, _)) ==> header@.well_formed(),
    {
        let version = take_u32(buffer, 0)?;
        let previous_hash = take_bytes(buffer, 4, 32)?;
        let merkle_root_hash = take_bytes(buffer, 36, 32)?;
        let timestamp = take_u32(buffer, 68)?;
        let bits = take_u32(buffer, 72)?;
        let nonce = take_u32(buffer, 76)?;
        Ok(
            (
                BlockHeader { version, previous_hash, merkle_root_hash, timestamp, bits, nonce },
                HEADER_LEN,
            ),
        )
    }
}

/// Reads the clock with `time::now` and converts the result with
/// `Tm::to_timespec` to seconds since the epoch, cut to 32 bits. Nothing is
/// claimed of the value: it differs from call to call. `time::now` panics
/// where the platform cannot express the moment in local time.
#[verifier::external_body]
fn unix_time_now() -> u32 {
    time::now().to_timespec().sec as u32
}

/// The encoding of every value of `values`, each in a buffer of its own,
/// or the failure of the first value that cannot be encoded.
pub open spec fn encodings_of<T: Serializable>(values: Seq<T::V>) -> Result<Seq<Seq<u8>>, Error>
    decreases values.len(),
{
    if values.len() == 0 {
        Ok(Seq::empty())
    } else {
        match T::encoding(values[0]) {
            Err(e) => Err(e),
            Ok(first) => match encodings_of::<T>(values.skip(1)) {
                Err(e) => Err(e),
                Ok(rest) => Ok(seq![first] + rest),
            },
        }
    }
}

/// Encodes every item of `items` into a buffer of its own.
pub fn serialize_each<T: Serializable>(items: &[T]) -> (r: Result<Vec<Vec<u8>>, Error>)
    ensures
        match r {
            Ok(buffers) => encodings_of::<T>(serializable::views(items@)) == Ok::<
                Seq<Seq<u8>>,
                Error,
            >(serializable::views(buffers@)),
            Err(e) => encodings_of::<T>(serializable::views(items@)) == Err::<Seq<Seq<u8>>, Error>(
                e,
            ),
        },
{
    let ghost all = serializable::views(items@);
    let mut buffers: Vec<Vec<u8>> = Vec::new();
    let mut i: usize = 0;
    assert(all.skip(0) =~= all);
    assert(serializable::views(buffers@) =~= Seq::<Seq<u8>>::empty());
    while i < items.len()
        invariant
            i <= items@.len(),
            all == serializable::views(items@),
            match encodings_of::<T>(all.skip(i as int)) {
                Ok(rest) => encodings_of::<T>(all) == Ok::<Seq<Seq<u8>>, Error>(
                    serializable::views(buffers@) + rest,
                ),
                Err(e) => encodings_of::<T>(all) == Err::<Seq<Seq<u8>>, Error>(e),
            },
        decreases items@.len() - i,
    {
        let ghost tail = all.skip(i as int);
        assert(tail[0] == items@[i as int]@);
        assert(tail.skip(1) =~= all.skip(i + 1));
        match items[i].serialize() {
            Err(e) => {
                return Err(e);
            },
            Ok(encoded) => {
                proof {
                    let before = serializable::views(buffers@);
                    let after = serializable::views(buffers@.push(encoded));
                    assert(after =~= before + seq![encoded@]);
                    match encodings_of::<T>(tail.skip(1)) {
                        Ok(rest) => {
                            assert(before + (seq![encoded@] + rest) =~= after + rest);
                        },
                        Err(e) => {},
                    }
                }
                buffers.push(encoded);
            },
        }
        i += 1;
    }
    assert(all.skip(i as int) =~= Seq::<T::V>::empty());
    assert(serializable::views(buffers@) + Seq::<Seq<u8>>::empty() =~= serializable::views(
        buffers@,
    ));
    Ok(buffers)
}

/// A block: a header and the payload records that it commits to.
pub struct Block<T: Serializable + Clone> {
    header: BlockHeader,
    data: Vec<T>,
}

/// What a `Block` holds.
pub struct BlockView<V> {
    pub header: BlockHeaderView,
    pub payloads: Seq<V>,
}

impl<T: Serializable + Clone> View for Block<T> {
    type V = BlockView<T::V>;

    closed spec fn view(&self) -> BlockView<T::V> {
        BlockView { header: self.header@, payloads: serializable::views(self.data@) }
    }
}

/// What a block commits to: the merkle root of its payloads' encodings. A
/// payload that cannot be encoded fails the whole, and so does a leaf that
/// the digest primitive cannot take.
pub open spec fn commitment_of<T: Serializable>(payloads: Seq<T::V>) -> Result<Seq<u8>, Error> {
    match encodings_of::<T>(payloads) {
        Err(e) => Err(e),
        Ok(leaves) => merkle::merkle_root(leaves),
    }
}

/// The part of an envelope that its length field counts: the header, the
/// count of payloads as a compact-size integer, then `body`, the payloads'
/// encodings one after the other.
pub open spec fn framed(header: BlockHeaderView, count: nat, body: Seq<u8>) -> Seq<u8> {
    header.layout() + varint::compact_size_bytes(count as u64) + body
}

/// The envelope around `frame`: the magic constant and the length of
/// `frame`, each as four little-endian bytes, then `frame`.
pub open spec fn envelope(frame: Seq<u8>) -> Seq<u8> {
    bytes::le_bytes(BLOCK_MAGIC_NUMBER as nat, 4) + bytes::le_bytes(frame.len(), 4) + frame
}

/// What the eight bytes at the front of an envelope say of the frame
/// behind them: its length, `MalformedEnvelope` where the magic constant is
/// not the format's, `TruncatedInput` where the eight bytes are not all
/// there.
pub open spec fn frame_len_of(bytes: Seq<u8>) -> Result<nat, Error> {
    match bytes::le_at(bytes, 0, 4) {
        Err(e) => Err(e),
        Ok(magic) => if magic != BLOCK_MAGIC_NUMBER {
            Err(Error::MalformedEnvelope)
        } else {
            bytes::le_at(bytes, 4, 4)
        },
    }
}

/// Reads the front of an envelope: checks the magic constant and gives the
/// length of the frame that follows the first eight bytes. A reader of a
/// stream learns from it how many bytes to fetch before decoding.
pub fn frame_len(buffer: &[u8]) -> (r: Result<u32, Error>)
    ensures
        match r {
            Ok(len) => frame_len_of(buffer@) == Ok::<nat, Error>(len as nat),
            Err(e) => frame_len_of(buffer@) == Err::<nat, Error>(e),
        },
{
    let magic = take_u32(buffer, 0)?;
    if magic != BLOCK_MAGIC_NUMBER {
        return Err(Error::MalformedEnvelope);
    }
    take_u32(buffer, 4)
}

impl<T: Serializable + Clone> Block<T> {
    /// The payload records, in order.
    pub closed spec fn records(&self) -> Seq<T> {
        self.data@
    }

    /// The view's payloads are the views of the records, and there are no
    /// more of them than memory can hold.
    pub proof fn lemma_records(&self)
        ensures
            self@.payloads == serializable::views(self.records()),
            self.records().len() <= usize::MAX,
    {
        vstd::std_specs::vec::axiom_spec_len(&self.data);
    }

    /// A block over clones of `values`, stamped with `timestamp`.
    pub fn with_timestamp(
        version: u32,
        previous_hash: Vec<u8>,
        values: &[T],
        bits: u32,
        timestamp: u32,
    ) -> (r: Result<Block<T>, Error>)
        requires
            previous_hash@.len() == 32,
        ensures
            match r {
                Ok(block) => {
                    &&& commitment_of::<T>(serializable::views(values@)) == Ok::<Seq<u8>, Error>(
                        block@.header.merkle_root,
                    )
                    &&& block@.header == (BlockHeaderView {
                        version,
                        previous_hash: previous_hash@,
                        merkle_root: block@.header.merkle_root,
                        timestamp,
                        bits,
                        nonce: 0,
                    })
                    &&& block@.header.well_formed()
                    &&& block.records().len() == values@.len()
                    &&& forall|i: int|
                        0 <= i < values@.len() ==> cloned(values@[i], #[trigger] block.records()[i])
                },
                Err(e) => commitment_of::<T>(serializable::views(values@)) == Err::<
                    Seq<u8>,
                    Error,
                >(e),
            },
    {
        let leaves = serialize_each(values)?;
        let merkle_root_hash = calculate_merkle(leaves.as_slice())?;
        Ok(
            Block {
                header: BlockHeader {
                    version,
                    previous_hash,
                    merkle_root_hash,
                    timestamp,
                    bits,
                    nonce: 0,
                },
                data: clone_all(values),
            },
        )
    }

    /// A block over clones of `values`, stamped with the current time in
    /// seconds since the epoch.
    pub fn new(version: u32, previous_hash: Vec<u8>, values: &[T], bits: u32) -> (r: Result<
        Block<T>,
        Error,
    >)
        requires
            previous_hash@.len() == 32,
        ensures
            match r {
                Ok(block) => {
                    &&& commitment_of::<T>(serializable::views(values@)) == Ok::<Seq<u8>, Error>(
                        block@.header.merkle_root,
                    )
                    &&& block@.header == (BlockHeaderView {
                        version,
                        previous_hash: previous_hash@,
                        merkle_root: block@.header.merkle_root,
                        timestamp: block@.header.timestamp,
                        bits,
                        nonce: 0,
                    })
                    &&& block@.header.well_formed()
                    &&& block.records().len() == values@.len()
                    &&& forall|i: int|
                        0 <= i < values@.len() ==> cloned(values@[i], #[trigger] block.records()[i])
                },
                Err(e) => commitment_of::<T>(serializable::views(values@)) == Err::<
                    Seq<u8>,
                    Error,
                >(e),
            },
    {
        let now = unix_time_now();
        Block::with_timestamp(version, previous_hash, values, bits, now)
    }

    /// The header.
    pub fn header(&self) -> (r: &BlockHeader)
        ensures
            r@ == self@.header,
            r@.well_formed(),
    {
        proof {
            use_type_invariant(&self.header);
        }
        &self.header
    }

    /// The payload records, in order.
    pub fn data(&self) -> (r: &Vec<T>)
        ensures
            r@ == self.records(),
    {
        &self.data
    }

    /// Sets the header's nonce and nothing else.
    pub fn set_nonce(&mut self, nonce: u32)
        ensures
            final(self)@.header == (BlockHeaderView { nonce, ..old(self)@.header }),
            final(self)@.payloads == old(self)@.payloads,
            final(self).records() == old(self).records(),
    {
        proof {
            use_type_invariant(&self.header);
        }
        self.header.nonce = nonce;
    }

    /// The identity of the block: the double hash of its header's encoding.
    pub fn header_hash(&self) -> (r: Result<Vec<u8>, Error>)
        ensures
            self@.header.well_formed(),
            r is Ok,
            r.unwrap()@ == hash::double_sha256(self@.header.layout()),
            r.unwrap()@.len() == hash::DIGEST_LEN,
    {
        self.header.hash()
    }
}

impl<T: Serializable + Clone> Serializable for Block<T> {
    open spec fn encoding(value: BlockView<T::V>) -> Result<Seq<u8>, Error> {
        match serializable::encoding_of_all::<T>(value.payloads) {
            Err(e) => Err(e),
            Ok(body) => {
                let frame = framed(value.header, value.payloads.len(), body);
                if frame.len() <= u32::MAX {
                    Ok(envelope(frame))
                } else {
                    Err(Error::MalformedEnvelope)
                }
            },
        }
    }

    open spec fn decoding(bytes: Seq<u8>) -> Result<(BlockView<T::V>, nat), Error> {
        match frame_len_of(bytes) {
            Err(e) => Err(e),
            Ok(len) => if 8 + len > bytes.len() {
                Err(Error::MalformedEnvelope)
            } else {
                let frame = bytes.subrange(8, (8 + len) as int);
                match BlockHeader::decoding(frame) {
                    Err(e) => Err(e),
                    Ok((header, a)) => match varint::compact_size_at(frame.skip(a as int)) {
                        Err(e) => Err(e),
                        Ok((count, b)) => match serializable::decoding_of_all::<T>(
                            frame.skip((a + b) as int),
                            count as nat,
                        ) {
                            Err(e) => Err(e),
                            Ok((payloads, _)) => Ok((BlockView { header, payloads }, 8 + len)),
                        },
                    },
                }
            },
        }
    }

    fn serialize(&self) -> (r: Result<Vec<u8>, Error>) {
        let mut frame: Vec<u8> = self.header.serialize()?;
        let count = compact_size_of(self.data.len() as u64)?;
        put_bytes(&mut frame, count.as_slice());
        let payloads = serialize_all(self.data.as_slice())?;
        put_bytes(&mut frame, payloads.as_slice());
        if frame.len() as u64 > u32::MAX as u64 {
            return Err(Error::MalformedEnvelope);
        }
        let mut buffer: Vec<u8> = Vec::new();
        put_u32(&mut buffer, BLOCK_MAGIC_NUMBER);
        put_u32(&mut buffer, frame.len() as u32);
        put_bytes(&mut buffer, frame.as_slice());
        Ok(buffer)
    }

    fn decode(buffer: &[u8]) -> (r: Result<(Block<T>, usize), Error>)
        ensures
            r matches Ok((block, _)) ==> block@.header.well_formed(),
    {
        let len = frame_len(buffer)?;
        if len as u64 > (buffer.len() - 8) as u64 {
            return Err(Error::MalformedEnvelope);
        }
        let len = len as usize;
        let frame = slice_subrange(buffer, 8, 8 + len);
        let (header, a) = BlockHeader::decode(frame)?;
        let rest = slice_subrange(frame, a, frame.len());
        assert(rest@ =~= frame@.skip(a as int));
        let (count, b) = read_compact_size_at(rest)?;
        let rest = slice_subrange(frame, a + b, frame.len());
        assert(rest@ =~= frame@.skip(a + b));
        let (data, _) = decode_all::<T>(rest, count)?;
        Ok((Block { header, data }, 8 + len))
    }
}

} // verus!
