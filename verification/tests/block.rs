use ledger_codec::block::{frame_len, serialize_each, Block, BlockHeader, BLOCK_MAGIC_NUMBER};
use ledger_codec::error::Error;
use ledger_codec::hash::double_hash;
use ledger_codec::merkle::calculate_merkle;
use ledger_codec::serializable::Serializable;
use ledger_codec::transaction::{Input, Output, Transaction};
use ledger_codec::varint::VarInt;

fn genesis_header() -> Vec<u8> {
    vec![
        0x01, 0x00, 0x00, 0x00, 0x00, 0x00, 0x00, 0x00, 0x00, 0x00, 0x00, 0x00, 0x00, 0x00, 0x00,
        0x00, 0x00, 0x00, 0x00, 0x00, 0x00, 0x00, 0x00, 0x00, 0x00, 0x00, 0x00, 0x00, 0x00, 0x00,
        0x00, 0x00, 0x00, 0x00, 0x00, 0x00, 0x3b, 0xa3, 0xed, 0xfd, 0x7a, 0x7b, 0x12, 0xb2, 0x7a,
        0xc7, 0x2c, 0x3e, 0x67, 0x76, 0x8f, 0x61, 0x7f, 0xc8, 0x1b, 0xc3, 0x88, 0x8a, 0x51, 0x32,
        0x3a, 0x9f, 0xb8, 0xaa, 0x4b, 0x1e, 0x5e, 0x4a, 0x29, 0xab, 0x5f, 0x49, 0xff, 0xff, 0x00,
        0x1d, 0x1d, 0xac, 0x2b, 0x7c,
    ]
}

fn payment(amount: u64) -> Transaction {
    let input = Input::new(&[0x11; 32], 1, &[0x51, 0x52], 0xffffffff);
    let output = Output::new(amount, &[0x76, 0xa9, 0x88, 0xac]);
    Transaction::new(1, &[input], &[output], 0)
}

#[test]
fn header_decodes_field_by_field() {
    let bytes = genesis_header();
    let (header, used) = BlockHeader::decode(&bytes).unwrap();
    assert_eq!(used, 80);
    assert_eq!(header.version(), 1);
    assert_eq!(header.previous_hash(), &vec![0u8; 32]);
    assert_eq!(header.merkle_root_hash(), &bytes[36..68].to_vec());
    assert_eq!(header.timestamp(), 1231006505);
    assert_eq!(header.bits(), 0x1d00ffff);
    assert_eq!(header.nonce(), 2083236893);
    assert_eq!(header.serialize().unwrap(), bytes);
    assert_eq!(BlockHeader::deserialize(&bytes).unwrap(), header);
}

#[test]
fn header_hash_is_double_hash_of_its_80_bytes() {
    let header = BlockHeader::deserialize(&genesis_header()).unwrap();
    let expected: Vec<u8> = vec![
        0x6f, 0xe2, 0x8c, 0x0a, 0xb6, 0xf1, 0xb3, 0x72, 0xc1, 0xa6, 0xa2, 0x46, 0xae, 0x63, 0xf7,
        0x4f, 0x93, 0x1e, 0x83, 0x65, 0xe1, 0x5a, 0x08, 0x9c, 0x68, 0xd6, 0x19, 0x00, 0x00, 0x00,
        0x00, 0x00,
    ];
    assert_eq!(header.hash().unwrap(), expected);
    assert_eq!(header.hash().unwrap(), double_hash(&genesis_header()).unwrap());
}

#[test]
fn header_needs_all_80_bytes() {
    let mut bytes = genesis_header();
    bytes.pop();
    assert_eq!(BlockHeader::deserialize(&bytes), Err(Error::TruncatedInput));
    assert_eq!(BlockHeader::deserialize(&bytes[..40]), Err(Error::TruncatedInput));
    assert_eq!(BlockHeader::deserialize(&[]), Err(Error::TruncatedInput));
}

#[test]
fn header_ignores_bytes_behind_it() {
    let mut bytes = genesis_header();
    bytes.push(0x99);
    let (header, used) = BlockHeader::decode(&bytes).unwrap();
    assert_eq!(used, 80);
    assert_eq!(header.serialize().unwrap(), genesis_header());
}

#[test]
fn new_block_commits_to_its_payloads() {
    let payloads = vec![payment(10), payment(20), payment(30)];
    let block = Block::new(2, vec![0x22; 32], &payloads, 0x1d00ffff).unwrap();
    let leaves: Vec<Vec<u8>> = payloads.iter().map(|p| p.serialize().unwrap()).collect();
    assert_eq!(block.header().merkle_root_hash(), &calculate_merkle(&leaves).unwrap());
    assert_eq!(block.header().version(), 2);
    assert_eq!(block.header().previous_hash(), &vec![0x22; 32]);
    assert_eq!(block.header().bits(), 0x1d00ffff);
    assert_eq!(block.header().nonce(), 0);
    assert!(block.header().timestamp() > 1_600_000_000);
    assert_eq!(block.data(), &payloads);
}

#[test]
fn block_with_given_timestamp_has_exact_header() {
    let payloads = vec![payment(10)];
    let block = Block::with_timestamp(1, vec![0x00; 32], &payloads, 7, 1231006505).unwrap();
    let root = calculate_merkle(&[payloads[0].serialize().unwrap()]).unwrap();
    let mut expected = vec![0x01, 0x00, 0x00, 0x00];
    expected.extend_from_slice(&[0x00; 32]);
    expected.extend_from_slice(&root);
    expected.extend_from_slice(&[0x29, 0xab, 0x5f, 0x49]);
    expected.extend_from_slice(&[0x07, 0x00, 0x00, 0x00, 0x00, 0x00, 0x00, 0x00]);
    assert_eq!(block.header().serialize().unwrap(), expected);
    assert_eq!(block.header().timestamp(), 1231006505);
}

#[test]
fn block_without_payloads_commits_to_the_empty_root() {
    let none: Vec<Transaction> = Vec::new();
    let block = Block::with_timestamp(1, vec![0x00; 32], &none, 0, 0).unwrap();
    assert_eq!(block.header().merkle_root_hash(), &double_hash(&[]).unwrap());
    let bytes = block.serialize().unwrap();
    assert_eq!(bytes.len(), 8 + 80 + 1);
    assert_eq!(&bytes[4..8], &[81, 0, 0, 0]);
    assert_eq!(bytes[88], 0);
    let decoded = Block::<Transaction>::deserialize(&bytes).unwrap();
    assert_eq!(decoded.header(), block.header());
    assert_eq!(decoded.data().len(), 0);
}

#[test]
fn envelope_is_magic_length_header_count_payloads() {
    let payloads = vec![payment(10), payment(20)];
    let block = Block::with_timestamp(1, vec![0x33; 32], &payloads, 5, 6).unwrap();
    let bytes = block.serialize().unwrap();
    let first = payloads[0].serialize().unwrap();
    let second = payloads[1].serialize().unwrap();
    assert_eq!(BLOCK_MAGIC_NUMBER, 0xD9B4BEF9);
    assert_eq!(&bytes[0..4], &[0xf9, 0xbe, 0xb4, 0xd9]);
    let framed = 80 + 1 + first.len() + second.len();
    assert_eq!(bytes.len(), 8 + framed);
    assert_eq!(&bytes[4..8], &(framed as u32).to_le_bytes());
    assert_eq!(&bytes[8..88], &block.header().serialize().unwrap()[..]);
    assert_eq!(bytes[88], 2);
    assert_eq!(&bytes[89..89 + first.len()], &first[..]);
    assert_eq!(&bytes[89 + first.len()..], &second[..]);
}

#[test]
fn block_survives_its_envelope() {
    let payloads = vec![payment(10), payment(20), payment(30)];
    let block = Block::new(1, vec![0x44; 32], &payloads, 0x1d00ffff).unwrap();
    let bytes = block.serialize().unwrap();
    let (decoded, used) = Block::<Transaction>::decode(&bytes).unwrap();
    assert_eq!(used, bytes.len());
    assert_eq!(decoded.header(), block.header());
    assert_eq!(decoded.data().len(), block.data().len());
    assert_eq!(decoded.data(), block.data());
    assert_eq!(decoded.serialize().unwrap(), bytes);
}

#[test]
fn block_with_wrong_magic_is_malformed() {
    let block = Block::new(1, vec![0x44; 32], &[payment(10)], 1).unwrap();
    let mut bytes = block.serialize().unwrap();
    bytes[0] ^= 0x01;
    assert!(matches!(Block::<Transaction>::deserialize(&bytes), Err(Error::MalformedEnvelope)));
    bytes[0] = 0x00;
    assert!(matches!(Block::<Transaction>::decode(&bytes), Err(Error::MalformedEnvelope)));
}

#[test]
fn block_shorter_than_its_length_field_says_is_malformed() {
    let block = Block::new(1, vec![0x44; 32], &[payment(10)], 1).unwrap();
    let mut bytes = block.serialize().unwrap();
    bytes.pop();
    assert!(matches!(Block::<Transaction>::deserialize(&bytes), Err(Error::MalformedEnvelope)));
    assert!(matches!(
        Block::<Transaction>::deserialize(&bytes[..8]),
        Err(Error::MalformedEnvelope)
    ));
}

#[test]
fn block_without_room_for_magic_and_length_is_truncated() {
    let block = Block::new(1, vec![0x44; 32], &[payment(10)], 1).unwrap();
    let bytes = block.serialize().unwrap();
    assert!(matches!(Block::<Transaction>::deserialize(&bytes[..7]), Err(Error::TruncatedInput)));
    assert!(matches!(Block::<Transaction>::deserialize(&bytes[..3]), Err(Error::TruncatedInput)));
    assert!(matches!(Block::<Transaction>::deserialize(&[]), Err(Error::TruncatedInput)));
}

#[test]
fn block_whose_frame_ends_early_is_truncated() {
    let mut short_header = vec![0xf9, 0xbe, 0xb4, 0xd9, 79, 0, 0, 0];
    short_header.extend_from_slice(&genesis_header()[..79]);
    assert!(matches!(
        Block::<Transaction>::deserialize(&short_header),
        Err(Error::TruncatedInput)
    ));
    let mut no_count = vec![0xf9, 0xbe, 0xb4, 0xd9, 80, 0, 0, 0];
    no_count.extend_from_slice(&genesis_header());
    assert!(matches!(Block::<Transaction>::deserialize(&no_count), Err(Error::TruncatedInput)));
    let mut missing_payload = vec![0xf9, 0xbe, 0xb4, 0xd9, 81, 0, 0, 0];
    missing_payload.extend_from_slice(&genesis_header());
    missing_payload.push(1);
    assert!(matches!(
        Block::<Transaction>::deserialize(&missing_payload),
        Err(Error::TruncatedInput)
    ));
}

#[test]
fn block_ignores_bytes_behind_its_envelope() {
    let block = Block::new(1, vec![0x44; 32], &[payment(10)], 1).unwrap();
    let mut bytes = block.serialize().unwrap();
    let len = bytes.len();
    bytes.extend_from_slice(&[1, 2, 3]);
    let (decoded, used) = Block::<Transaction>::decode(&bytes).unwrap();
    assert_eq!(used, len);
    assert_eq!(decoded.data(), block.data());
}

#[test]
fn set_nonce_changes_the_nonce_only() {
    let mut block = Block::with_timestamp(3, vec![0x55; 32], &[payment(1)], 9, 1000).unwrap();
    let before = block.header().serialize().unwrap();
    let hash_before = block.header_hash().unwrap();
    block.set_nonce(0x01020304);
    let after = block.header().serialize().unwrap();
    assert_eq!(block.header().nonce(), 0x01020304);
    assert_eq!(&after[..76], &before[..76]);
    assert_eq!(&after[76..], &[0x04, 0x03, 0x02, 0x01]);
    assert_eq!(block.data(), &vec![payment(1)]);
    assert_ne!(block.header_hash().unwrap(), hash_before);
}

#[test]
fn header_hash_of_block_is_hash_of_its_header() {
    let block = Block::with_timestamp(3, vec![0x55; 32], &[payment(1)], 9, 1000).unwrap();
    assert_eq!(block.header_hash().unwrap(), block.header().hash().unwrap());
    assert_eq!(
        block.header_hash().unwrap(),
        double_hash(&block.header().serialize().unwrap()).unwrap()
    );
}

#[test]
fn block_of_other_records_uses_their_own_codec() {
    let values = vec![VarInt(1), VarInt(300), VarInt(70000)];
    let block = Block::with_timestamp(1, vec![0x00; 32], &values, 0, 0).unwrap();
    let bytes = block.serialize().unwrap();
    assert_eq!(&bytes[88..], &[3, 1, 0xfd, 0x2c, 0x01, 0xfe, 0x70, 0x11, 0x01, 0x00]);
    let decoded = Block::<VarInt>::deserialize(&bytes).unwrap();
    assert_eq!(decoded.data(), &values);
    let leaves = vec![vec![1u8], vec![0xfd, 0x2c, 0x01], vec![0xfe, 0x70, 0x11, 0x01, 0x00]];
    assert_eq!(block.header().merkle_root_hash(), &calculate_merkle(&leaves).unwrap());
}

#[test]
fn frame_len_reads_the_front_of_an_envelope() {
    assert_eq!(frame_len(&[0xf9, 0xbe, 0xb4, 0xd9, 0x51, 0x00, 0x00, 0x00]), Ok(81));
    assert_eq!(frame_len(&[0xf9, 0xbe, 0xb4, 0xd9, 0x04, 0x03, 0x02, 0x01, 0xff]), Ok(0x01020304));
    assert_eq!(
        frame_len(&[0xd9, 0xb4, 0xbe, 0xf9, 0x51, 0x00, 0x00, 0x00]),
        Err(Error::MalformedEnvelope)
    );
    assert_eq!(frame_len(&[0xf9, 0xbe, 0xb4, 0xd9, 0x51, 0x00, 0x00]), Err(Error::TruncatedInput));
    assert_eq!(frame_len(&[0xf9, 0xbe, 0xb4]), Err(Error::TruncatedInput));
    assert_eq!(frame_len(&[0x00, 0xbe, 0xb4, 0xd9]), Err(Error::MalformedEnvelope));
}

#[test]
fn serialize_each_keeps_one_buffer_per_record() {
    let values = vec![VarInt(1), VarInt(300)];
    assert_eq!(serialize_each(&values), Ok(vec![vec![1u8], vec![0xfd, 0x2c, 0x01]]));
    let none: Vec<VarInt> = Vec::new();
    assert_eq!(serialize_each(&none), Ok(vec![]));
}
