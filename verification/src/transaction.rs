use crate::bytes;
use crate::bytes::{put_bytes, put_u32, put_u64, take_bytes, take_u32, take_u64};
use crate::error::Error;
use crate::hash;
use crate::hash::double_hash;
use crate::serializable;
use crate::serializable::{clone_all, decode_all, serialize_all, Serializable};
use crate::varint;
use crate::varint::{compact_size_of, read_compact_size_at};
use vstd::prelude::*;
use vstd::slice::{slice_subrange, slice_to_vec};

verus! {

/// A reference to one output of an earlier transaction.
#[derive(Debug, PartialEq)]
pub struct Outpoint {
    hash: [u8; 32],
    index: u32,
}

/// What an `Outpoint` holds: the 32-byte hash of the transaction referred
/// to, and the position of the output in it.
pub struct OutpointView {
    pub hash: Seq<u8>,
    pub index: u32,
}

impl OutpointView {
    /// The hash has its fixed length.
    pub open spec fn well_formed(self) -> bool {
        self.hash.len() == 32
    }

    /// The layout: the hash, then the index as four little-endian bytes.
    pub open spec fn layout(self) -> Seq<u8> {
        self.hash + bytes::le_bytes(self.index as nat, 4)
    }
}

impl View for Outpoint {
    type V = OutpointView;

    closed spec fn view(&self) -> OutpointView {
        OutpointView { hash: self.hash@, index: self.index }
    }
}

impl Clone for Outpoint {
    fn clone(&self) -> (r: Self)
        ensures
            r@ == self@,
    {
        Outpoint { hash: self.hash, index: self.index }
    }
}

impl Outpoint {
    /// The hash of the transaction referred to.
    pub fn hash(&self) -> (r: &[u8; 32])
        ensures
            r@ == self@.hash,
    {
        &self.hash
    }

    /// The position of the output referred to.
    pub fn index(&self) -> (r: u32)
        ensures
            r == self@.index,
    {
        self.index
    }

    /// Every outpoint in memory is well formed.
    pub proof fn lemma_well_formed(&self)
        ensures
            self@.well_formed(),
    {
    }
}

impl Serializable for Outpoint {
    open spec fn encoding(value: OutpointView) -> Result<Seq<u8>, Error> {
        Ok(value.layout())
    }

    open spec fn decoding(bytes: Seq<u8>) -> Result<(OutpointView, nat), Error> {
        match bytes::bytes_at(bytes, 0, 32) {
            Err(e) => Err(e),
            Ok(hash) => match bytes::le_at(bytes, 32, 4) {
                Err(e) => Err(e),
                Ok(index) => Ok((OutpointView { hash, index: index as u32 }, 36)),
            },
        }
    }

    fn serialize(&self) -> (r: Result<Vec<u8>, Error>)
        ensures
            r is Ok,
    {
        let mut buffer: Vec<u8> = Vec::new();
        put_bytes(&mut buffer, self.hash.as_slice());
        put_u32(&mut buffer, self.index);
        assert(buffer@ =~= self@.layout());
        Ok(buffer)
    }

    fn decode(buffer: &[u8]) -> (r: Result<(Outpoint, usize), Error>) {
        let raw = take_bytes(buffer, 0, 32)?;
        let index = take_u32(buffer, 32)?;
        let mut hash = [0u8; 32];
        let mut i: usize = 0;
        while i < 32
            invariant
                i <= 32,
                raw@.len() == 32,
                forall|k: int| 0 <= k < i ==> hash@[k] == raw@[k],
            decreases 32 - i,
        {
            hash[i] = raw[i];
            i += 1;
        }
        assert(hash@ =~= raw@);
        Ok((Outpoint { hash, index }, 36))
    }
}

/// A transaction input: the output it spends, the script that unlocks it,
/// and a sequence number.
#[derive(Debug, PartialEq)]
pub struct Input {
    prev_hash: Outpoint,
    txin_script: Vec<u8>,
    sequence_no: u32,
}

/// What an `Input` holds.
pub struct InputView {
    pub previous: OutpointView,
    pub script: Seq<u8>,
    pub sequence: u32,
}

impl InputView {
    /// The outpoint is well formed and the script's length can be written
    /// as its prefix.
    pub open spec fn well_formed(self) -> bool {
        self.previous.well_formed() && self.script.len() <= u64::MAX
    }

    /// The layout: the outpoint, the script's length as a compact-size
    /// integer, the script, then the sequence number as four little-endian
    /// bytes.
    pub open spec fn layout(self) -> Seq<u8> {
        self.previous.layout() + varint::compact_size_bytes(self.script.len() as u64)
            + self.script + bytes::le_bytes(self.sequence as nat, 4)
    }
}

impl View for Input {
    type V = InputView;

    closed spec fn view(&self) -> InputView {
        InputView {
            previous: self.prev_hash@,
            script: self.txin_script@,
            sequence: self.sequence_no,
        }
    }
}

impl Clone for Input {
    fn clone(&self) -> (r: Self)
        ensures
            r@ == self@,
    {
        Input {
            prev_hash: self.prev_hash.clone(),
            txin_script: slice_to_vec(self.txin_script.as_slice()),
            sequence_no: self.sequence_no,
        }
    }
}

impl Input {
    /// An input that spends output `prev_seq` of the transaction with hash
    /// `prev_hash`.
    pub fn new(prev_hash: &[u8; 32], prev_seq: u32, script: &[u8], sequence_no: u32) -> (r: Input)
        ensures
            r@ == (InputView {
                previous: OutpointView { hash: prev_hash@, index: prev_seq },
                script: script@,
                sequence: sequence_no,
            }),
    {
        Input {
            prev_hash: Outpoint { hash: *prev_hash, index: prev_seq },
            txin_script: slice_to_vec(script),
            sequence_no,
        }
    }

    /// The output that this input spends.
    pub fn previous_output(&self) -> (r: &Outpoint)
        ensures
            r@ == self@.previous,
    {
        &self.prev_hash
    }

    /// The script that unlocks the output spent.
    pub fn script(&self) -> (r: &Vec<u8>)
        ensures
            r@ == self@.script,
    {
        &self.txin_script
    }

    /// The sequence number.
    pub fn sequence_no(&self) -> (r: u32)
        ensures
            r == self@.sequence,
    {
        self.sequence_no
    }

    /// Every input in memory is well formed.
    pub proof fn lemma_well_formed(&self)
        ensures
            self@.well_formed(),
    {
        self.prev_hash.lemma_well_formed();
        vstd::std_specs::vec::axiom_spec_len(&self.txin_script);
    }
}

impl Serializable for Input {
    open spec fn encoding(value: InputView) -> Result<Seq<u8>, Error> {
        Ok(value.layout())
    }

    open spec fn decoding(bytes: Seq<u8>) -> Result<(InputView, nat), Error> {
        match Outpoint::decoding(bytes) {
            Err(e) => Err(e),
            Ok((previous, a)) => match varint::compact_size_at(bytes.skip(a as int)) {
                Err(e) => Err(e),
                Ok((len, b)) => match bytes::bytes_at(bytes, a + b, len as nat) {
                    Err(e) => Err(e),
                    Ok(script) => match bytes::le_at(bytes, a + b + len as nat, 4) {
                        Err(e) => Err(e),
                        Ok(sequence) => Ok(
                            (
                                InputView { previous, script, sequence: sequence as u32 },
                                a + b + len as nat + 4,
                            ),
                        ),
                    },
                },
            },
        }
    }

    fn serialize(&self) -> (r: Result<Vec<u8>, Error>)
        ensures
            r is Ok,
    {
        let mut buffer: Vec<u8> = self.prev_hash.serialize()?;
        let prefix = compact_size_of(self.txin_script.len() as u64)?;
        put_bytes(&mut buffer, prefix.as_slice());
        put_bytes(&mut buffer, self.txin_script.as_slice());
        put_u32(&mut buffer, self.sequence_no);
        Ok(buffer)
    }

    fn decode(buffer: &[u8]) -> (r: Result<(Input, usize), Error>) {
        let (prev_hash, a) = Outpoint::decode(buffer)?;
        let rest = slice_subrange(buffer, a, buffer.len());
        assert(rest@ =~= buffer@.skip(a as int));
        let (len, b) = read_compact_size_at(rest)?;
        if len > (buffer.len() - a - b) as u64 {
            return Err(Error::TruncatedInput);
        }
        let txin_script = take_bytes(buffer, a + b, len as usize)?;
        let sequence_no = take_u32(buffer, a + b + len as usize)?;
        Ok((Input { prev_hash, txin_script, sequence_no }, a + b + len as usize + 4))
    }
}

/// A transaction output: an amount in the smallest ledger unit and the
/// script that locks it.
#[derive(Debug, PartialEq)]
pub struct Output {
    value: u64,
    txout_script: Vec<u8>,
}

/// What an `Output` holds.
pub struct OutputView {
    pub value: u64,
    pub script: Seq<u8>,
}

impl OutputView {
    /// The script's length can be written as its prefix.
    pub open spec fn well_formed(self) -> bool {
        self.script.len() <= u64::MAX
    }

    /// The layout: the value as eight little-endian bytes, the script's
    /// length as a compact-size integer, then the script.
    pub open spec fn layout(self) -> Seq<u8> {
        bytes::le_bytes(self.value as nat, 8) + varint::compact_size_bytes(self.script.len() as u64)
            + self.script
    }
}

impl View for Output {
    type V = OutputView;

    closed spec fn view(&self) -> OutputView {
        OutputView { value: self.value, script: self.txout_script@ }
    }
}

impl Clone for Output {
    fn clone(&self) -> (r: Self)
        ensures
            r@ == self@,
    {
        Output { value: self.value, txout_script: slice_to_vec(self.txout_script.as_slice()) }
    }
}

impl Output {
    /// An output of `value` units locked by `script`.
    pub fn new(value: u64, script: &[u8]) -> (r: Output)
        ensures
            r@ == (OutputView { value, script: script@ }),
    {
        Output { value, txout_script: slice_to_vec(script) }
    }

    /// The amount, in the smallest ledger unit.
    pub fn value(&self) -> (r: u64)
        ensures
            r == self@.value,
    {
        self.value
    }

    /// The script that locks the amount.
    pub fn script(&self) -> (r: &Vec<u8>)
        ensures
            r@ == self@.script,
    {
        &self.txout_script
    }

    /// Every output in memory is well formed.
    pub proof fn lemma_well_formed(&self)
        ensures
            self@.well_formed(),
    {
        vstd::std_specs::vec::axiom_spec_len(&self.txout_script);
    }
}

impl Serializable for Output {
    open spec fn encoding(value: OutputView) -> Result<Seq<u8>, Error> {
        Ok(value.layout())
    }

    open spec fn decoding(bytes: Seq<u8>) -> Result<(OutputView, nat), Error> {
        match bytes::le_at(bytes, 0, 8) {
            Err(e) => Err(e),
            Ok(value) => match varint::compact_size_at(bytes.skip(8)) {
                Err(e) => Err(e),
                Ok((len, b)) => match bytes::bytes_at(bytes, 8 + b, len as nat) {
                    Err(e) => Err(e),
                    Ok(script) => Ok(
                        (OutputView { value: value as u64, script }, 8 + b + len as nat),
                    ),
                },
            },
        }
    }

    fn serialize(&self) -> (r: Result<Vec<u8>, Error>)
        ensures
            r is Ok,
    {
        let mut buffer: Vec<u8> = Vec::new();
        put_u64(&mut buffer, self.value);
        let prefix = compact_size_of(self.txout_script.len() as u64)?;
        put_bytes(&mut buffer, prefix.as_slice());
        put_bytes(&mut buffer, self.txout_script.as_slice());
        assert(buffer@ =~= self@.layout());
        Ok(buffer)
    }

    fn decode(buffer: &[u8]) -> (r: Result<(Output, usize), Error>) {
        let value = take_u64(buffer, 0)?;
        let rest = slice_subrange(buffer, 8, buffer.len());
        assert(rest@ =~= buffer@.skip(8));
        let (len, b) = read_compact_size_at(rest)?;
        if len > (buffer.len() - 8 - b) as u64 {
            return Err(Error::TruncatedInput);
        }
        let txout_script = take_bytes(buffer, 8 + b, len as usize)?;
        Ok((Output { value, txout_script }, 8 + b + len as usize))
    }
}

/// A ledger transaction: inputs that spend earlier outputs, and the outputs
/// it creates. The order of both is part of the transaction.
#[derive(Debug, PartialEq)]
pub struct Transaction {
    version: u32,
    inputs: Vec<Input>,
    outputs: Vec<Output>,
    lock_time: u32,
}

/// What a `Transaction` holds.
pub struct TransactionView {
    pub version: u32,
    pub inputs: Seq<InputView>,
    pub outputs: Seq<OutputView>,
    pub lock_time: u32,
}

impl TransactionView {
    /// Inputs and outputs are well formed, and their counts can be written
    /// as prefixes.
    pub open spec fn well_formed(self) -> bool {
        &&& self.inputs.len() <= u64::MAX
        &&& self.outputs.len() <= u64::MAX
        &&& forall|i: int|
            0 <= i < self.inputs.len() ==> (#[trigger] self.inputs[i]).well_formed()
        &&& forall|i: int|
            0 <= i < self.outputs.len() ==> (#[trigger] self.outputs[i]).well_formed()
    }
}

/// The layout of a transaction around the encodings of its inputs and
/// outputs: the version as four little-endian bytes, the count of inputs as
/// a compact-size integer, the inputs, the count of outputs, the outputs,
/// then the lock time as four little-endian bytes.
pub open spec fn transaction_layout(
    value: TransactionView,
    inputs: Seq<u8>,
    outputs: Seq<u8>,
) -> Seq<u8> {
    bytes::le_bytes(value.version as nat, 4) + varint::compact_size_bytes(value.inputs.len() as u64)
        + inputs + varint::compact_size_bytes(value.outputs.len() as u64) + outputs
        + bytes::le_bytes(value.lock_time as nat, 4)
}

impl View for Transaction {
    type V = TransactionView;

    closed spec fn view(&self) -> TransactionView {
        TransactionView {
            version: self.version,
            inputs: serializable::views(self.inputs@),
            outputs: serializable::views(self.outputs@),
            lock_time: self.lock_time,
        }
    }
}

impl Clone for Transaction {
    fn clone(&self) -> (r: Self)
        ensures
            r@ == self@,
    {
        Transaction::new(
            self.version,
            self.inputs.as_slice(),
            self.outputs.as_slice(),
            self.lock_time,
        )
    }
}

impl Transaction {
    /// A transaction with copies of `inputs` and `outputs`, in their order.
    pub fn new(version: u32, inputs: &[Input], outputs: &[Output], lock_time: u32) -> (r:
        Transaction)
        ensures
            r@ == (TransactionView {
                version,
                inputs: serializable::views(inputs@),
                outputs: serializable::views(outputs@),
                lock_time,
            }),
    {
        let r = Transaction {
            version,
            inputs: clone_all(inputs),
            outputs: clone_all(outputs),
            lock_time,
        };
        assert(serializable::views(r.inputs@) =~= serializable::views(inputs@));
        assert(serializable::views(r.outputs@) =~= serializable::views(outputs@));
        r
    }

    /// The format version.
    pub fn version(&self) -> (r: u32)
        ensures
            r == self@.version,
    {
        self.version
    }

    /// The inputs, in order.
    pub fn inputs(&self) -> (r: &Vec<Input>)
        ensures
            serializable::views(r@) == self@.inputs,
    {
        &self.inputs
    }

    /// The outputs, in order.
    pub fn outputs(&self) -> (r: &Vec<Output>)
        ensures
            serializable::views(r@) == self@.outputs,
    {
        &self.outputs
    }

    /// The lock time.
    pub fn lock_time(&self) -> (r: u32)
        ensures
            r == self@.lock_time,
    {
        self.lock_time
    }

    /// The identity of the transaction: the double hash of its encoding.
    /// `DigestFailure` where the encoding is too long for the digest
    /// primitive.
    pub fn hash(&self) -> (r: Result<Vec<u8>, Error>)
        ensures
            Transaction::encoding(self@) is Ok,
            match r {
                Ok(digest) => hash::double_hash_of(Transaction::encoding(self@).unwrap()) == Ok::<
                    Seq<u8>,
                    Error,
                >(digest@) && digest@.len() == hash::DIGEST_LEN,
                Err(e) => hash::double_hash_of(Transaction::encoding(self@).unwrap()) == Err::<
                    Seq<u8>,
                    Error,
                >(e),
            },
    {
        let encoded = self.serialize()?;
        double_hash(encoded.as_slice())
    }

    /// Every transaction in memory is well formed.
    pub proof fn lemma_well_formed(&self)
        ensures
            self@.well_formed(),
    {
        vstd::std_specs::vec::axiom_spec_len(&self.inputs);
        vstd::std_specs::vec::axiom_spec_len(&self.outputs);
        assert forall|i: int| 0 <= i < self@.inputs.len() implies (
        #[trigger] self@.inputs[i]).well_formed() by {
            self.inputs@[i].lemma_well_formed();
        }
        assert forall|i: int| 0 <= i < self@.outputs.len() implies (
        #[trigger] self@.outputs[i]).well_formed() by {
            self.outputs@[i].lemma_well_formed();
        }
    }
}

impl Serializable for Transaction {
    open spec fn encoding(value: TransactionView) -> Result<Seq<u8>, Error> {
        match serializable::encoding_of_all::<Input>(value.inputs) {
            Err(e) => Err(e),
            Ok(inputs) => match serializable::encoding_of_all::<Output>(value.outputs) {
                Err(e) => Err(e),
                Ok(outputs) => Ok(transaction_layout(value, inputs, outputs)),
            },
        }
    }

    open spec fn decoding(bytes: Seq<u8>) -> Result<(TransactionView, nat), Error> {
        match bytes::le_at(bytes, 0, 4) {
            Err(e) => Err(e),
            Ok(version) => match varint::compact_size_at(bytes.skip(4)) {
                Err(e) => Err(e),
                Ok((n_in, a)) => match serializable::decoding_of_all::<Input>(
                    bytes.skip((4 + a) as int),
                    n_in as nat,
                ) {
                    Err(e) => Err(e),
                    Ok((inputs, b)) => match varint::compact_size_at(
                        bytes.skip((4 + a + b) as int),
                    ) {
                        Err(e) => Err(e),
                        Ok((n_out, c)) => match serializable::decoding_of_all::<Output>(
                            bytes.skip((4 + a + b + c) as int),
                            n_out as nat,
                        ) {
                            Err(e) => Err(e),
                            Ok((outputs, d)) => match bytes::le_at(bytes, 4 + a + b + c + d, 4) {
                                Err(e) => Err(e),
                                Ok(lock_time) => Ok(
                                    (
                                        TransactionView {
                                            version: version as u32,
                                            inputs,
                                            outputs,
                                            lock_time: lock_time as u32,
                                        },
                                        4 + a + b + c + d + 4,
                                    ),
                                ),
                            },
                        },
                    },
                },
            },
        }
    }

    fn serialize(&self) -> (r: Result<Vec<u8>, Error>)
        ensures
            r is Ok,
    {
        proof {
            serializable::lemma_encoding_of_all_ok::<Input>(self@.inputs);
            serializable::lemma_encoding_of_all_ok::<Output>(self@.outputs);
        }
        let mut buffer: Vec<u8> = Vec::new();
        put_u32(&mut buffer, self.version);
        let count = compact_size_of(self.inputs.len() as u64)?;
        put_bytes(&mut buffer, count.as_slice());
        let inputs = serialize_all(self.inputs.as_slice())?;
        put_bytes(&mut buffer, inputs.as_slice());
        let count = compact_size_of(self.outputs.len() as u64)?;
        put_bytes(&mut buffer, count.as_slice());
        let outputs = serialize_all(self.outputs.as_slice())?;
        put_bytes(&mut buffer, outputs.as_slice());
        put_u32(&mut buffer, self.lock_time);
        assert(buffer@ =~= Self::encoding(self@).unwrap());
        Ok(buffer)
    }

    fn decode(buffer: &[u8]) -> (r: Result<(Transaction, usize), Error>) {
        let version = take_u32(buffer, 0)?;
        let rest = slice_subrange(buffer, 4, buffer.len());
        assert(rest@ =~= buffer@.skip(4));
        let (n_in, a) = read_compact_size_at(rest)?;
        let rest = slice_subrange(buffer, 4 + a, buffer.len());
        assert(rest@ =~= buffer@.skip(4 + a));
        let (inputs, b) = decode_all::<Input>(rest, n_in)?;
        let rest = slice_subrange(buffer, 4 + a + b, buffer.len());
        assert(rest@ =~= buffer@.skip(4 + a + b));
        let (n_out, c) = read_compact_size_at(rest)?;
        let rest = slice_subrange(buffer, 4 + a + b + c, buffer.len());
        assert(rest@ =~= buffer@.skip(4 + a + b + c));
        let (outputs, d) = decode_all::<Output>(rest, n_out)?;
        let lock_time = take_u32(buffer, 4 + a + b + c + d)?;
        Ok((Transaction { version, inputs, outputs, lock_time }, 4 + a + b + c + d + 4))
    }
}

} // verus!
