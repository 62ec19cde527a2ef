use pathfinder::error::IngestError;
use pathfinder::types::{self, Anchor, Transaction};
use pathfinder::wire::{
    decode_block, decode_blocks, decode_state_update, decode_transaction, hash_from_bytes,
    parse_hex_hash, RawBlock, RawTransaction,
};

fn text(s: &str) -> Vec<u8> {
    s.as_bytes().to_vec()
}

fn raw_block(height: u64, hash: &str, parent: &str, root: &str) -> RawBlock {
    RawBlock {
        height,
        hash: text(hash),
        parent_hash: text(parent),
        state_root: text(root),
        transactions: Vec::new(),
    }
}

#[test]
fn hex_text_gives_its_number() {
    assert_eq!(parse_hex_hash(&text("0x0")), Some(types::Hash::new(0, 0)));
    assert_eq!(parse_hex_hash(&text("0x1f")), Some(types::Hash::new(0, 0x1f)));
    assert_eq!(parse_hex_hash(&text("0x001F")), Some(types::Hash::new(0, 0x1f)));
    assert_eq!(parse_hex_hash(&text("0xDeadBeef")), Some(types::Hash::new(0, 0xdead_beef)));
    assert_eq!(
        parse_hex_hash(&text("0xffffffffffffffffffffffffffffffff")),
        Some(types::Hash::new(0, u128::MAX))
    );
    assert_eq!(
        parse_hex_hash(&text("0x100000000000000000000000000000000")),
        Some(types::Hash::new(1, 0))
    );
    assert_eq!(
        parse_hex_hash(&text("0x66583c8b196c59f6feb56cf76fd29126525186a056836f2998a76c6c1ef3f45")),
        Some(types::Hash::new(
            0x066583c8b196c59f6feb56cf76fd2912,
            0x6525186a056836f2998a76c6c1ef3f45
        ))
    );
    let full = format!("0x{}", "f".repeat(64));
    assert_eq!(parse_hex_hash(&text(&full)), Some(types::Hash::new(u128::MAX, u128::MAX)));
}

#[test]
fn text_of_another_shape_is_no_hash() {
    for bad in ["", "0", "0x", "1f", "0X1f", "x01f", "0x1g", "0x 1", "0x1f ", "0x-1", "0x1_f"] {
        assert_eq!(parse_hex_hash(&text(bad)), None, "{:?}", bad);
    }
    let long = format!("0x{}", "0".repeat(65));
    assert_eq!(parse_hex_hash(&text(&long)), None);
    assert_eq!(parse_hex_hash(&vec![0x30, 0x78, 0xc3, 0xa9]), None);
}

#[test]
fn thirty_two_bytes_give_a_hash() {
    let mut bytes = vec![0u8; 32];
    assert_eq!(hash_from_bytes(&bytes), Some(types::Hash::new(0, 0)));
    bytes[31] = 1;
    assert_eq!(hash_from_bytes(&bytes), Some(types::Hash::new(0, 1)));
    bytes[16] = 0x80;
    assert_eq!(hash_from_bytes(&bytes), Some(types::Hash::new(0, (1u128 << 127) + 1)));
    bytes[15] = 2;
    bytes[0] = 0xab;
    assert_eq!(
        hash_from_bytes(&bytes),
        Some(types::Hash::new((0xabu128 << 120) + 2, (1u128 << 127) + 1))
    );
    assert_eq!(hash_from_bytes(&vec![0xff; 32]), Some(types::Hash::new(u128::MAX, u128::MAX)));
    assert_eq!(hash_from_bytes(&vec![0u8; 31]), None);
    assert_eq!(hash_from_bytes(&vec![0u8; 33]), None);
    assert_eq!(hash_from_bytes(&Vec::new()), None);
}

#[test]
fn state_update_log_gives_an_anchor() {
    let mut data = vec![0u8; 64];
    data[0] = 0x01;
    data[31] = 0x02;
    data[62] = 0x01;
    data[63] = 0x2c;
    assert_eq!(
        decode_state_update(&data, 14_000_000, 7),
        Ok(Anchor {
            l2_height: 300,
            state_root: types::Hash::new(1u128 << 120, 2),
            l1_block_number: 14_000_000,
            l1_log_index: 7,
        })
    );
    for i in 56..64 {
        data[i] = 0xff;
    }
    assert_eq!(decode_state_update(&data, 1, 0).map(|a| a.l2_height), Ok(u64::MAX));
}

#[test]
fn state_update_log_of_another_shape_is_malformed() {
    assert_eq!(decode_state_update(&vec![0u8; 63], 1, 0), Err(IngestError::Malformed));
    assert_eq!(decode_state_update(&vec![0u8; 65], 1, 0), Err(IngestError::Malformed));
    assert_eq!(decode_state_update(&Vec::new(), 1, 0), Err(IngestError::Malformed));
    let mut data = vec![0u8; 64];
    data[55] = 1;
    assert_eq!(decode_state_update(&data, 1, 0), Err(IngestError::Malformed));
    let mut data = vec![0u8; 64];
    data[32] = 0x80;
    assert_eq!(decode_state_update(&data, 1, 0), Err(IngestError::Malformed));
    let mut data = vec![0u8; 64];
    data[47] = 1;
    assert_eq!(decode_state_update(&data, 1, 0), Err(IngestError::Malformed));
}

#[test]
fn sequencer_block_is_decoded_field_by_field() {
    let mut raw = raw_block(12, "0xa1", "0xa0", "0xbeef");
    raw.transactions = vec![
        RawTransaction { hash: text("0x1"), contract_address: text("0xc0") },
        RawTransaction { hash: text("0x2"), contract_address: text("0xc1") },
    ];
    let b = decode_block(&raw).unwrap();
    assert_eq!(b.height, 12);
    assert_eq!(b.hash, types::Hash::new(0, 0xa1));
    assert_eq!(b.parent_hash, types::Hash::new(0, 0xa0));
    assert_eq!(b.state_root, types::Hash::new(0, 0xbeef));
    assert_eq!(
        b.transactions,
        vec![
            Transaction {
                hash: types::Hash::new(0, 1),
                contract_address: types::Hash::new(0, 0xc0)
            },
            Transaction {
                hash: types::Hash::new(0, 2),
                contract_address: types::Hash::new(0, 0xc1)
            },
        ]
    );
}

#[test]
fn sequencer_block_with_a_bad_field_is_malformed() {
    assert_eq!(decode_block(&raw_block(1, "a1", "0xa0", "0x1")).err(), Some(IngestError::Malformed));
    assert_eq!(decode_block(&raw_block(1, "0xa1", "", "0x1")).err(), Some(IngestError::Malformed));
    assert_eq!(decode_block(&raw_block(1, "0xa1", "0xa0", "0xzz")).err(), Some(IngestError::Malformed));
    let mut raw = raw_block(1, "0xa1", "0xa0", "0x1");
    raw.transactions = vec![
        RawTransaction { hash: text("0x1"), contract_address: text("0xc0") },
        RawTransaction { hash: text("0x2"), contract_address: text("c1") },
    ];
    assert_eq!(decode_block(&raw).err(), Some(IngestError::Malformed));
    assert_eq!(
        decode_transaction(&RawTransaction { hash: text("0x"), contract_address: text("0x1") }),
        Err(IngestError::Malformed)
    );
    assert_eq!(
        decode_transaction(&RawTransaction { hash: text("0x9"), contract_address: text("0x1") }),
        Ok(Transaction { hash: types::Hash::new(0, 9), contract_address: types::Hash::new(0, 1) })
    );
}

#[test]
fn one_bad_block_makes_the_response_malformed() {
    let good = vec![raw_block(1, "0xa1", "0xa0", "0x1"), raw_block(2, "0xa2", "0xa1", "0x2")];
    let blocks = decode_blocks(&good).unwrap();
    assert_eq!(blocks.len(), 2);
    assert_eq!(blocks[1].height, 2);
    assert_eq!(blocks[1].parent_hash, blocks[0].hash);
    let bad = vec![raw_block(1, "0xa1", "0xa0", "0x1"), raw_block(2, "0xa2", "oops", "0x2")];
    assert_eq!(decode_blocks(&bad).err(), Some(IngestError::Malformed));
    assert_eq!(decode_blocks(&Vec::new()).map(|b| b.len()), Ok(0));
}
