use crate::bytes;
use crate::error::Error;
use crate::serializable;
use crate::serializable::Serializable;
use crate::transaction::{
    Input, InputView, Outpoint, OutpointView, Output, OutputView, Transaction, TransactionView,
};
use crate::varint;
use vstd::prelude::*;

verus! {

/// Decoding the layout of a well-formed outpoint, whatever bytes follow
/// it, gives the outpoint back and takes up its 36 bytes.
pub proof fn lemma_outpoint_round_trip(value: OutpointView, rest: Seq<u8>)
    requires
        value.well_formed(),
    ensures
        value.layout().len() == 36,
        Outpoint::decoding(value.layout() + rest) == Ok::<(OutpointView, nat), Error>((value, 36)),
        serializable::round_trips::<Outpoint>(value),
{
    bytes::lemma_le_limits();
    bytes::lemma_le_bytes_len(value.index as nat, 4);
    assert forall|after: Seq<u8>|
        Outpoint::decoding(#[trigger] (value.layout() + after)) == Ok::<(OutpointView, nat), Error>(
            (value, 36),
        ) by {
        let all = value.layout() + after;
        bytes::lemma_le_at_layout(value.hash, value.index as nat, 4, after);
        bytes::lemma_bytes_at_middle(Seq::<u8>::empty(), value.hash, all.skip(32));
        assert(Seq::<u8>::empty() + value.hash + all.skip(32) =~= all);
    }
}

/// The layout of a well-formed outpoint without its last byte does not
/// decode: the decoder reports `TruncatedInput`.
pub proof fn lemma_outpoint_truncated(value: OutpointView)
    requires
        value.well_formed(),
    ensures
        Outpoint::decoding(value.layout().drop_last()) == Err::<(OutpointView, nat), Error>(
            Error::TruncatedInput,
        ),
{
    bytes::lemma_le_bytes_len(value.index as nat, 4);
}

/// What decoding makes of the fields of a well-formed input before its
/// sequence number, followed by any `tail`: the sequence number is read
/// from the front of `tail`.
proof fn lemma_input_front(value: InputView, tail: Seq<u8>)
    requires
        value.well_formed(),
    ensures
        Input::decoding(
            value.previous.layout() + varint::compact_size_bytes(value.script.len() as u64)
                + value.script + tail,
        ) == match bytes::le_at(tail, 0, 4) {
            Ok(sequence) => Ok::<(InputView, nat), Error>(
                (
                    InputView { sequence: sequence as u32, ..value },
                    36 + varint::compact_size_len(value.script.len() as u64) + value.script.len()
                        + 4,
                ),
            ),
            Err(e) => Err::<(InputView, nat), Error>(e),
        },
{
    let len = value.script.len() as u64;
    let prefix = varint::compact_size_bytes(len);
    let front = value.previous.layout() + prefix + value.script;
    let all = front + tail;
    lemma_outpoint_round_trip(value.previous, prefix + value.script + tail);
    assert(value.previous.layout() + (prefix + value.script + tail) =~= all);
    varint::lemma_compact_size_len(len);
    varint::lemma_compact_size_round_trip(len, value.script + tail);
    assert(all.skip(36) =~= prefix + (value.script + tail));
    bytes::lemma_bytes_at_middle(value.previous.layout() + prefix, value.script, tail);
    let at = front.len();
    assert(at == 36 + prefix.len() + value.script.len());
    if at + 4 <= all.len() {
        assert(all.subrange(at as int, at as int + 4) =~= tail.subrange(0, 4));
    }
}

/// Decoding the layout of a well-formed input, whatever bytes follow it,
/// gives the input back and takes up exactly the layout.
pub proof fn lemma_input_round_trip(value: InputView, rest: Seq<u8>)
    requires
        value.well_formed(),
    ensures
        Input::decoding(value.layout() + rest) == Ok::<(InputView, nat), Error>(
            (value, value.layout().len()),
        ),
        serializable::round_trips::<Input>(value),
{
    bytes::lemma_le_limits();
    bytes::lemma_le_bytes_len(value.sequence as nat, 4);
    varint::lemma_compact_size_len(value.script.len() as u64);
    lemma_outpoint_round_trip(value.previous, Seq::<u8>::empty());
    let front = value.previous.layout() + varint::compact_size_bytes(value.script.len() as u64)
        + value.script;
    assert forall|after: Seq<u8>|
        Input::decoding(#[trigger] (value.layout() + after)) == Ok::<(InputView, nat), Error>(
            (value, value.layout().len()),
        ) by {
        let tail = bytes::le_bytes(value.sequence as nat, 4) + after;
        lemma_input_front(value, tail);
        assert(front + tail =~= value.layout() + after);
        bytes::lemma_le_at_layout(Seq::<u8>::empty(), value.sequence as nat, 4, after);
        assert(Seq::<u8>::empty() + bytes::le_bytes(value.sequence as nat, 4) + after =~= tail);
    }
}

/// The layout of a well-formed input without its last byte does not
/// decode: the decoder reports `TruncatedInput`.
pub proof fn lemma_input_truncated(value: InputView)
    requires
        value.well_formed(),
    ensures
        Input::decoding(value.layout().drop_last()) == Err::<(InputView, nat), Error>(
            Error::TruncatedInput,
        ),
{
    bytes::lemma_le_bytes_len(value.sequence as nat, 4);
    let front = value.previous.layout() + varint::compact_size_bytes(value.script.len() as u64)
        + value.script;
    let tail = bytes::le_bytes(value.sequence as nat, 4).drop_last();
    lemma_input_front(value, tail);
    assert(front + tail =~= value.layout().drop_last());
}

/// What decoding makes of the value and the script's length prefix of a
/// well-formed output, followed by any `tail`: the script is read from the
/// front of `tail`.
proof fn lemma_output_front(value: OutputView, tail: Seq<u8>)
    requires
        value.well_formed(),
    ensures
        Output::decoding(
            bytes::le_bytes(value.value as nat, 8) + varint::compact_size_bytes(
                value.script.len() as u64,
            ) + tail,
        ) == match bytes::bytes_at(tail, 0, value.script.len()) {
            Ok(script) => Ok::<(OutputView, nat), Error>(
                (
                    OutputView { script, ..value },
                    8 + varint::compact_size_len(value.script.len() as u64) + value.script.len(),
                ),
            ),
            Err(e) => Err::<(OutputView, nat), Error>(e),
        },
{
    let len = value.script.len() as u64;
    let prefix = varint::compact_size_bytes(len);
    let amount = bytes::le_bytes(value.value as nat, 8);
    let all = amount + prefix + tail;
    bytes::lemma_le_limits();
    bytes::lemma_le_bytes_len(value.value as nat, 8);
    bytes::lemma_le_at_layout(Seq::<u8>::empty(), value.value as nat, 8, prefix + tail);
    assert(Seq::<u8>::empty() + amount + (prefix + tail) =~= all);
    varint::lemma_compact_size_len(len);
    varint::lemma_compact_size_round_trip(len, tail);
    assert(all.skip(8) =~= prefix + tail);
    let at = 8 + prefix.len();
    if at + value.script.len() <= all.len() {
        assert(all.subrange(at as int, (at + value.script.len()) as int) =~= tail.subrange(
            0,
            value.script.len() as int,
        ));
    }
}

/// Decoding the layout of a well-formed output, whatever bytes follow it,
/// gives the output back and takes up exactly the layout.
pub proof fn lemma_output_round_trip(value: OutputView, rest: Seq<u8>)
    requires
        value.well_formed(),
    ensures
        Output::decoding(value.layout() + rest) == Ok::<(OutputView, nat), Error>(
            (value, value.layout().len()),
        ),
        serializable::round_trips::<Output>(value),
{
    bytes::lemma_le_bytes_len(value.value as nat, 8);
    varint::lemma_compact_size_len(value.script.len() as u64);
    let front = bytes::le_bytes(value.value as nat, 8) + varint::compact_size_bytes(
        value.script.len() as u64,
    );
    assert forall|after: Seq<u8>|
        Output::decoding(#[trigger] (value.layout() + after)) == Ok::<(OutputView, nat), Error>(
            (value, value.layout().len()),
        ) by {
        let tail = value.script + after;
        lemma_output_front(value, tail);
        assert(front + tail =~= value.layout() + after);
        assert(tail.subrange(0, value.script.len() as int) =~= value.script);
    }
}

/// The layout of a well-formed output without its last byte does not
/// decode: the decoder reports `TruncatedInput`.
pub proof fn lemma_output_truncated(value: OutputView)
    requires
        value.well_formed(),
    ensures
        Output::decoding(value.layout().drop_last()) == Err::<(OutputView, nat), Error>(
            Error::TruncatedInput,
        ),
{
    let len = value.script.len() as u64;
    let amount = bytes::le_bytes(value.value as nat, 8);
    let prefix = varint::compact_size_bytes(len);
    bytes::lemma_le_limits();
    bytes::lemma_le_bytes_len(value.value as nat, 8);
    varint::lemma_compact_size_len(len);
    if value.script.len() > 0 {
        let tail = value.script.drop_last();
        lemma_output_front(value, tail);
        assert(amount + prefix + tail =~= value.layout().drop_last());
    } else {
        let cut = value.layout().drop_last();
        assert(value.layout() =~= amount + prefix);
        bytes::lemma_le_at_layout(Seq::<u8>::empty(), value.value as nat, 8, prefix.drop_last());
        assert(Seq::<u8>::empty() + amount + prefix.drop_last() =~= cut);
        assert(cut.skip(8) =~= prefix.take(prefix.len() - 1));
        varint::lemma_compact_size_truncated(len, (prefix.len() - 1) as nat);
    }
}

/// Well-formed inputs survive the way through their encodings as a
/// sequence, whatever bytes follow.
pub proof fn lemma_inputs_round_trip(values: Seq<InputView>, rest: Seq<u8>)
    requires
        forall|i: int| 0 <= i < values.len() ==> (#[trigger] values[i]).well_formed(),
    ensures
        serializable::encoding_of_all::<Input>(values) is Ok,
        serializable::decoding_of_all::<Input>(
            serializable::encoding_of_all::<Input>(values).unwrap() + rest,
            values.len(),
        ) == Ok::<(Seq<InputView>, nat), Error>(
            (values, serializable::encoding_of_all::<Input>(values).unwrap().len()),
        ),
{
    assert forall|i: int| 0 <= i < values.len() implies serializable::round_trips::<Input>(
        #[trigger] values[i],
    ) by {
        lemma_input_round_trip(values[i], Seq::<u8>::empty());
    }
    serializable::lemma_all_round_trip::<Input>(values, rest);
}

/// Well-formed outputs survive the way through their encodings as a
/// sequence, whatever bytes follow.
pub proof fn lemma_outputs_round_trip(values: Seq<OutputView>, rest: Seq<u8>)
    requires
        forall|i: int| 0 <= i < values.len() ==> (#[trigger] values[i]).well_formed(),
    ensures
        serializable::encoding_of_all::<Output>(values) is Ok,
        serializable::decoding_of_all::<Output>(
            serializable::encoding_of_all::<Output>(values).unwrap() + rest,
            values.len(),
        ) == Ok::<(Seq<OutputView>, nat), Error>(
            (values, serializable::encoding_of_all::<Output>(values).unwrap().len()),
        ),
{
    assert forall|i: int| 0 <= i < values.len() implies serializable::round_trips::<Output>(
        #[trigger] values[i],
    ) by {
        lemma_output_round_trip(values[i], Seq::<u8>::empty());
    }
    serializable::lemma_all_round_trip::<Output>(values, rest);
}

/// The fields of a transaction before its lock time, encoded.
pub open spec fn transaction_front(value: TransactionView) -> Seq<u8> {
    bytes::le_bytes(value.version as nat, 4) + varint::compact_size_bytes(value.inputs.len() as u64)
        + serializable::encoding_of_all::<Input>(value.inputs).unwrap()
        + varint::compact_size_bytes(value.outputs.len() as u64)
        + serializable::encoding_of_all::<Output>(value.outputs).unwrap()
}

/// Decoding a transaction goes field by field: where the version, the two
/// counts and the two runs of records are known to decode as given, what
/// is left is the lock time behind them.
proof fn lemma_transaction_steps(
    bytes: Seq<u8>,
    value: TransactionView,
    a: nat,
    b: nat,
    c: nat,
    d: nat,
)
    requires
        value.inputs.len() <= u64::MAX,
        value.outputs.len() <= u64::MAX,
        bytes::le_at(bytes, 0, 4) == Ok::<nat, Error>(value.version as nat),
        varint::compact_size_at(bytes.skip(4)) == Ok::<(u64, nat), Error>(
            (value.inputs.len() as u64, a),
        ),
        serializable::decoding_of_all::<Input>(bytes.skip((4 + a) as int), value.inputs.len())
            == Ok::<(Seq<InputView>, nat), Error>((value.inputs, b)),
        varint::compact_size_at(bytes.skip((4 + a + b) as int)) == Ok::<(u64, nat), Error>(
            (value.outputs.len() as u64, c),
        ),
        serializable::decoding_of_all::<Output>(
            bytes.skip((4 + a + b + c) as int),
            value.outputs.len(),
        ) == Ok::<(Seq<OutputView>, nat), Error>((value.outputs, d)),
    ensures
        Transaction::decoding(bytes) == match bytes::le_at(bytes, 4 + a + b + c + d, 4) {
            Ok(lock_time) => Ok::<(TransactionView, nat), Error>(
                (TransactionView { lock_time: lock_time as u32, ..value }, 4 + a + b + c + d + 4),
            ),
            Err(e) => Err::<(TransactionView, nat), Error>(e),
        },
{
    assert(value.inputs.len() as u64 as nat == value.inputs.len());
    assert(value.outputs.len() as u64 as nat == value.outputs.len());
}

/// What decoding makes of the fields of a well-formed transaction before
/// its lock time, followed by any `tail`: the lock time is read from the
/// front of `tail`.
proof fn lemma_transaction_front(value: TransactionView, tail: Seq<u8>)
    requires
        value.well_formed(),
    ensures
        Transaction::encoding(value) == Ok::<Seq<u8>, Error>(
            transaction_front(value) + bytes::le_bytes(value.lock_time as nat, 4),
        ),
        Transaction::decoding(transaction_front(value) + tail) == match bytes::le_at(tail, 0, 4) {
            Ok(lock_time) => Ok::<(TransactionView, nat), Error>(
                (
                    TransactionView { lock_time: lock_time as u32, ..value },
                    transaction_front(value).len() + 4,
                ),
            ),
            Err(e) => Err::<(TransactionView, nat), Error>(e),
        },
{
    lemma_inputs_round_trip(value.inputs, Seq::<u8>::empty());
    lemma_outputs_round_trip(value.outputs, Seq::<u8>::empty());
    let version = bytes::le_bytes(value.version as nat, 4);
    let n_in = varint::compact_size_bytes(value.inputs.len() as u64);
    let ins = serializable::encoding_of_all::<Input>(value.inputs).unwrap();
    let n_out = varint::compact_size_bytes(value.outputs.len() as u64);
    let outs = serializable::encoding_of_all::<Output>(value.outputs).unwrap();
    let all = transaction_front(value) + tail;
    let a = n_in.len();
    let b = ins.len();
    let c = n_out.len();
    let d = outs.len();
    let r4 = outs + tail;
    let r3 = n_out + r4;
    let r2 = ins + r3;
    let r1 = n_in + r2;

    bytes::lemma_le_bytes_len(value.version as nat, 4);
    assert(all == version + r1) by {
        bytes::lemma_concat_assoc(version + n_in + ins + n_out, outs, tail);
        bytes::lemma_concat_assoc(version + n_in + ins, n_out, r4);
        bytes::lemma_concat_assoc(version + n_in, ins, r3);
        bytes::lemma_concat_assoc(version, n_in, r2);
    }
    assert(all.skip(4) == r1) by {
        bytes::lemma_concat_skip(version, r1);
    }
    assert(all.skip((4 + a) as int) == r2) by {
        bytes::lemma_skip_skip(all, 4, a);
        bytes::lemma_concat_skip(n_in, r2);
    }
    assert(all.skip((4 + a + b) as int) == r3) by {
        bytes::lemma_skip_skip(all, 4 + a, b);
        bytes::lemma_concat_skip(ins, r3);
    }
    assert(all.skip((4 + a + b + c) as int) == r4) by {
        bytes::lemma_skip_skip(all, 4 + a + b, c);
        bytes::lemma_concat_skip(n_out, r4);
    }
    assert(all.skip((4 + a + b + c + d) as int) == tail) by {
        bytes::lemma_skip_skip(all, 4 + a + b + c, d);
        bytes::lemma_concat_skip(outs, tail);
    }
    assert(bytes::le_at(all, 0, 4) == Ok::<nat, Error>(value.version as nat)) by {
        bytes::lemma_le_limits();
        bytes::lemma_le_at_layout(Seq::<u8>::empty(), value.version as nat, 4, r1);
        bytes::lemma_concat_assoc(Seq::<u8>::empty(), version, r1);
        assert(Seq::<u8>::empty() + (version + r1) =~= version + r1);
    }
    varint::lemma_compact_size_round_trip(value.inputs.len() as u64, r2);
    varint::lemma_compact_size_len(value.inputs.len() as u64);
    lemma_inputs_round_trip(value.inputs, r3);
    varint::lemma_compact_size_round_trip(value.outputs.len() as u64, r4);
    varint::lemma_compact_size_len(value.outputs.len() as u64);
    lemma_outputs_round_trip(value.outputs, tail);
    let at = 4 + a + b + c + d;
    assert(bytes::le_at(all, at, 4) == bytes::le_at(tail, 0, 4)) by {
        bytes::lemma_le_at_skip(all, at, 4);
    }
    lemma_transaction_steps(all, value, a, b, c, d);
}

/// Decoding the encoding of a well-formed transaction followed by `rest`
/// gives the transaction back and takes up exactly the encoding.
proof fn lemma_transaction_then(value: TransactionView, rest: Seq<u8>)
    requires
        value.well_formed(),
    ensures
        Transaction::encoding(value) is Ok,
        Transaction::decoding(Transaction::encoding(value).unwrap() + rest) == Ok::<
            (TransactionView, nat),
            Error,
        >((value, Transaction::encoding(value).unwrap().len())),
{
    let lock_time = bytes::le_bytes(value.lock_time as nat, 4);
    let front = transaction_front(value);
    let tail = lock_time + rest;
    lemma_transaction_front(value, tail);
    bytes::lemma_le_bytes_len(value.lock_time as nat, 4);
    bytes::lemma_concat_assoc(front, lock_time, rest);
    assert(bytes::le_at(tail, 0, 4) == Ok::<nat, Error>(value.lock_time as nat)) by {
        bytes::lemma_le_limits();
        bytes::lemma_le_at_layout(Seq::<u8>::empty(), value.lock_time as nat, 4, rest);
        assert(Seq::<u8>::empty() + lock_time =~= lock_time);
    }
}

/// Decoding the encoding of a well-formed transaction, whatever bytes
/// follow it, gives the transaction back, inputs and outputs in their
/// order, and takes up exactly the encoding.
pub proof fn lemma_transaction_round_trip(value: TransactionView, rest: Seq<u8>)
    requires
        value.well_formed(),
    ensures
        Transaction::encoding(value) is Ok,
        Transaction::decoding(Transaction::encoding(value).unwrap() + rest) == Ok::<
            (TransactionView, nat),
            Error,
        >((value, Transaction::encoding(value).unwrap().len())),
        serializable::round_trips::<Transaction>(value),
{
    lemma_transaction_then(value, rest);
    let encoded = Transaction::encoding(value).unwrap();
    assert forall|after: Seq<u8>|
        Transaction::decoding(#[trigger] (encoded + after)) == Ok::<(TransactionView, nat), Error>(
            (value, encoded.len()),
        ) by {
        lemma_transaction_then(value, after);
    }
}

/// The encoding of a well-formed transaction without its last byte does
/// not decode: the decoder reports `TruncatedInput`.
pub proof fn lemma_transaction_truncated(value: TransactionView)
    requires
        value.well_formed(),
    ensures
        Transaction::encoding(value) is Ok,
        Transaction::decoding(Transaction::encoding(value).unwrap().drop_last()) == Err::<
            (TransactionView, nat),
            Error,
        >(Error::TruncatedInput),
{
    let lock_time = bytes::le_bytes(value.lock_time as nat, 4);
    let front = transaction_front(value);
    let tail = lock_time.drop_last();
    lemma_transaction_front(value, tail);
    bytes::lemma_le_bytes_len(value.lock_time as nat, 4);
    assert(front + tail =~= (front + lock_time).drop_last());
}

} // verus!
