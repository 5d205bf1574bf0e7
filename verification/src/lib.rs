//! A codec for the binary records of a UTXO-style ledger: compact-size
//! integers, transactions, block headers and blocks, with the hash
//! commitments that bind a block's contents together.

pub mod error;
pub mod bytes;
pub mod serializable;
pub mod varint;
pub mod hash;
pub mod merkle;
pub mod transaction;
pub mod transaction_proofs;
pub mod block;
pub mod block_proofs;
