use ledger_codec::block::Block;
use ledger_codec::error::Error;
use ledger_codec::merkle::calculate_merkle;
use ledger_codec::serializable::{decode_all, serialize_all, Serializable};
use vstd::prelude::{nat, Seq, View};

/// A one-byte record with a codec of its own: 0xff cannot be encoded, 0xee
/// cannot be decoded.
#[derive(Clone, Debug, PartialEq)]
struct Tag(u8);

impl View for Tag {
    type V = u8;

    fn view(&self) -> u8 {
        self.0
    }
}

impl Serializable for Tag {
    fn encoding(_value: u8) -> Result<Seq<u8>, Error> {
        unreachable!()
    }

    fn decoding(_bytes: Seq<u8>) -> Result<(u8, nat), Error> {
        unreachable!()
    }

    fn serialize(&self) -> Result<Vec<u8>, Error> {
        if self.0 == 0xff {
            Err(Error::DigestFailure)
        } else {
            Ok(vec![self.0])
        }
    }

    fn decode(buffer: &[u8]) -> Result<(Tag, usize), Error> {
        match buffer.first() {
            None => Err(Error::TruncatedInput),
            Some(0xee) => Err(Error::MalformedEnvelope),
            Some(byte) => Ok((Tag(*byte), 1)),
        }
    }
}

#[test]
fn block_reports_the_failure_of_a_payload() {
    let block = Block::with_timestamp(1, vec![0u8; 32], &[Tag(1), Tag(0xff), Tag(2)], 0, 0);
    assert!(matches!(block, Err(Error::DigestFailure)));
    let block = Block::new(1, vec![0u8; 32], &[Tag(0xff)], 0);
    assert!(matches!(block, Err(Error::DigestFailure)));
}

#[test]
fn block_of_outside_records_survives_its_envelope() {
    let tags = vec![Tag(1), Tag(2), Tag(3)];
    let block = Block::with_timestamp(1, vec![0u8; 32], &tags, 0, 0).unwrap();
    assert_eq!(
        block.header().merkle_root_hash(),
        &calculate_merkle(&[vec![1u8], vec![2u8], vec![3u8]]).unwrap()
    );
    let bytes = block.serialize().unwrap();
    assert_eq!(&bytes[88..], &[3, 1, 2, 3]);
    let decoded = Block::<Tag>::deserialize(&bytes).unwrap();
    assert_eq!(decoded.header(), block.header());
    assert_eq!(decoded.data(), &tags);
}

#[test]
fn block_reports_the_failure_of_a_payload_decoder() {
    let block = Block::with_timestamp(1, vec![0u8; 32], &[Tag(1), Tag(2)], 0, 0).unwrap();
    let mut bytes = block.serialize().unwrap();
    let last = bytes.len() - 1;
    bytes[last] = 0xee;
    assert!(matches!(Block::<Tag>::deserialize(&bytes), Err(Error::MalformedEnvelope)));
    bytes[last] = 2;
    bytes[88] = 3;
    assert!(matches!(Block::<Tag>::deserialize(&bytes), Err(Error::TruncatedInput)));
}

#[test]
fn block_cannot_be_encoded_where_a_payload_cannot() {
    let block = Block::with_timestamp(1, vec![0u8; 32], &[Tag(1)], 0, 0).unwrap();
    let mut bytes = block.serialize().unwrap();
    let last = bytes.len() - 1;
    bytes[last] = 0xff;
    let decoded = Block::<Tag>::deserialize(&bytes).unwrap();
    assert_eq!(decoded.data(), &vec![Tag(0xff)]);
    assert!(matches!(decoded.serialize(), Err(Error::DigestFailure)));
}

#[test]
fn records_are_encoded_and_decoded_one_after_the_other() {
    assert_eq!(serialize_all(&[Tag(1), Tag(2), Tag(3)]), Ok(vec![1u8, 2, 3]));
    assert_eq!(serialize_all::<Tag>(&[]), Ok(vec![]));
    assert_eq!(serialize_all(&[Tag(4), Tag(0xff), Tag(5)]), Err(Error::DigestFailure));
    assert_eq!(decode_all::<Tag>(&[1, 2, 3], 2), Ok((vec![Tag(1), Tag(2)], 2)));
    assert_eq!(decode_all::<Tag>(&[1, 2, 3], 0), Ok((vec![], 0)));
    assert_eq!(decode_all::<Tag>(&[1, 2, 3], 4), Err(Error::TruncatedInput));
    assert_eq!(decode_all::<Tag>(&[1, 0xee, 3], 3), Err(Error::MalformedEnvelope));
    assert_eq!(Tag::deserialize(&[7, 8]), Ok(Tag(7)));
}
