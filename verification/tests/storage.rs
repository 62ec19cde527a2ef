use pathfinder::error::StorageError;
use pathfinder::storage::{Storage, StoreImage, TxLocation, SCHEMA_VERSION};
use pathfinder::types::{self, Anchor, Block, Transaction};

fn h(n: u128) -> types::Hash {
    types::Hash::new(0, n)
}

fn block(height: u64) -> Block {
    let parent = if height == 0 { types::Hash::zero() } else { h(100 + height as u128 - 1) };
    Block::new(height, h(100 + height as u128), parent, h(200 + height as u128), Vec::new())
}

fn anchor(height: u64, root: u128, l1_block: u64) -> Anchor {
    Anchor { l2_height: height, state_root: h(root), l1_block_number: l1_block, l1_log_index: 0 }
}

fn store_up_to(tip: u64) -> Storage {
    let mut s = Storage::new();
    let mut tx = s.begin_write();
    for i in 0..=tip {
        tx.insert_block(block(i));
    }
    assert_eq!(s.commit(tx), Ok(()));
    s
}

#[test]
fn new_store_is_empty() {
    let s = Storage::new();
    assert_eq!(s.read_tip_height(), None);
    assert_eq!(s.block_count(), 0);
    assert!(s.read_block(0).is_none());
    assert_eq!(s.read_anchor_for(0), None);
    assert_eq!(s.highest_anchor_height(), None);
    assert_eq!(s.latest_anchor_l1_block(), None);
    assert!(!s.is_finalized(0));
}

#[test]
fn staged_mutations_are_invisible_until_commit() {
    let mut s = Storage::new();
    let mut tx = s.begin_write();
    tx.insert_block(block(0));
    tx.insert_anchor(anchor(0, 200, 7));
    assert_eq!(tx.staged_blocks(), 1);
    assert_eq!(tx.staged_anchor(0), Some(anchor(0, 200, 7)));
    assert_eq!(s.read_tip_height(), None);
    assert_eq!(s.read_anchor_for(0), None);
    assert_eq!(s.commit(tx), Ok(()));
    assert_eq!(s.read_tip_height(), Some(0));
    assert_eq!(s.read_anchor_for(0), Some(anchor(0, 200, 7)));
    assert!(s.is_finalized(0));
}

#[test]
fn dropped_transaction_changes_nothing() {
    let s = store_up_to(2);
    {
        let mut tx = s.begin_write();
        tx.truncate_above(0);
        tx.insert_anchor(anchor(0, 200, 1));
    }
    assert_eq!(s.read_tip_height(), Some(2));
    assert_eq!(s.read_anchor_for(0), None);
}

#[test]
fn commit_appends_linked_blocks() {
    let s = store_up_to(3);
    assert_eq!(s.read_tip_height(), Some(3));
    assert_eq!(s.block_count(), 4);
    let b = s.read_block(2).unwrap();
    assert_eq!(b.height, 2);
    assert_eq!(b.hash, h(102));
    assert_eq!(b.parent_hash, h(101));
    assert_eq!(b.state_root, h(202));
    assert!(s.read_block(4).is_none());
    assert_eq!(s.block_hash(3), Some(h(103)));
    assert_eq!(s.block_hash(4), None);
    assert_eq!(s.state_root_at(1), Some(h(201)));
}

#[test]
fn commit_refuses_unlinked_block_and_applies_nothing() {
    let mut s = store_up_to(1);
    let mut tx = s.begin_write();
    tx.insert_anchor(anchor(5, 1, 1));
    tx.insert_block(Block::new(2, h(102), h(999), h(202), Vec::new()));
    assert_eq!(s.commit(tx), Err(StorageError::Consistency));
    assert_eq!(s.read_tip_height(), Some(1));
    assert_eq!(s.read_anchor_for(5), None);
}

#[test]
fn commit_refuses_gap_in_heights() {
    let mut s = store_up_to(1);
    let mut tx = s.begin_write();
    tx.insert_block(block(3));
    assert_eq!(s.commit(tx), Err(StorageError::Consistency));
    assert_eq!(s.read_tip_height(), Some(1));
}

#[test]
fn commit_refuses_genesis_above_height_zero() {
    let mut s = Storage::new();
    let mut tx = s.begin_write();
    tx.insert_block(block(1));
    assert_eq!(s.commit(tx), Err(StorageError::Consistency));
    assert_eq!(s.read_tip_height(), None);
}

#[test]
fn commit_refuses_anchor_against_stored_block() {
    let mut s = store_up_to(2);
    let mut tx = s.begin_write();
    tx.insert_anchor(anchor(1, 999, 4));
    assert_eq!(s.commit(tx), Err(StorageError::Consistency));
    assert_eq!(s.read_anchor_for(1), None);
}

#[test]
fn commit_refuses_block_against_waiting_anchor() {
    let mut s = store_up_to(1);
    let mut tx = s.begin_write();
    tx.insert_anchor(anchor(2, 999, 4));
    assert_eq!(s.commit(tx), Ok(()));
    let mut tx = s.begin_write();
    tx.insert_block(block(2));
    assert_eq!(s.commit(tx), Err(StorageError::Consistency));
    assert_eq!(s.read_tip_height(), Some(1));
}

#[test]
fn truncate_above_removes_blocks_and_anchors() {
    let mut s = store_up_to(5);
    let mut tx = s.begin_write();
    tx.insert_anchor(anchor(2, 202, 10));
    tx.insert_anchor(anchor(4, 204, 11));
    tx.insert_anchor(anchor(9, 1, 12));
    assert_eq!(s.commit(tx), Ok(()));
    let mut tx = s.begin_write();
    tx.truncate_above(3);
    assert_eq!(tx.cut(), Some(3));
    assert_eq!(s.commit(tx), Ok(()));
    assert_eq!(s.read_tip_height(), Some(3));
    assert!(s.read_block(4).is_none());
    assert_eq!(s.read_anchor_for(2), Some(anchor(2, 202, 10)));
    assert_eq!(s.read_anchor_for(4), None);
    assert_eq!(s.read_anchor_for(9), None);
    assert_eq!(s.highest_anchor_height(), Some(2));
}

#[test]
fn truncate_above_the_tip_keeps_every_block() {
    let mut s = store_up_to(2);
    let mut tx = s.begin_write();
    tx.truncate_above(7);
    assert_eq!(s.commit(tx), Ok(()));
    assert_eq!(s.read_tip_height(), Some(2));
}

#[test]
fn truncation_and_insertion_commit_together() {
    let mut s = store_up_to(4);
    let mut tx = s.begin_write();
    tx.truncate_above(2);
    tx.insert_block(Block::new(3, h(503), h(102), h(603), Vec::new()));
    assert_eq!(s.commit(tx), Ok(()));
    assert_eq!(s.read_tip_height(), Some(3));
    assert_eq!(s.block_hash(3), Some(h(503)));
    assert_eq!(s.block_hash(2), Some(h(102)));
}

#[test]
fn truncation_drops_what_was_staged_above_it() {
    let mut s = store_up_to(2);
    let mut tx = s.begin_write();
    tx.insert_block(block(3));
    tx.insert_anchor(anchor(3, 203, 5));
    tx.insert_anchor(anchor(1, 201, 4));
    tx.truncate_above(2);
    assert_eq!(tx.staged_blocks(), 0);
    assert_eq!(tx.staged_anchor(3), None);
    assert_eq!(tx.staged_anchor(1), Some(anchor(1, 201, 4)));
    tx.truncate_above(5);
    assert_eq!(tx.cut(), Some(2));
    assert_eq!(s.commit(tx), Ok(()));
    assert_eq!(s.read_tip_height(), Some(2));
    assert!(s.is_finalized(1));
}

#[test]
fn later_staged_anchor_wins_for_a_height() {
    let mut s = store_up_to(1);
    let mut tx = s.begin_write();
    tx.insert_anchor(anchor(7, 1, 3));
    tx.insert_anchor(anchor(7, 2, 4));
    assert_eq!(s.commit(tx), Ok(()));
    assert_eq!(s.read_anchor_for(7), Some(anchor(7, 2, 4)));
    assert_eq!(s.highest_anchor_height(), Some(7));
}

#[test]
fn anchors_are_found_whatever_the_order_of_insertion() {
    let mut s = Storage::new();
    let mut tx = s.begin_write();
    for height in [9u64, 3, 7, 1, 5, 8, 2] {
        tx.insert_anchor(anchor(height, height as u128, 100 - height));
    }
    assert_eq!(s.commit(tx), Ok(()));
    for height in [1u64, 2, 3, 5, 7, 8, 9] {
        assert_eq!(s.read_anchor_for(height), Some(anchor(height, height as u128, 100 - height)));
    }
    assert_eq!(s.read_anchor_for(4), None);
    assert_eq!(s.read_anchor_for(6), None);
    assert_eq!(s.highest_anchor_height(), Some(9));
    assert_eq!(s.latest_anchor_l1_block(), Some(99));
    assert_eq!(s.next_anchor_from(4), Some(anchor(5, 5, 95)));
    assert_eq!(s.next_anchor_from(9), Some(anchor(9, 9, 91)));
    assert_eq!(s.next_anchor_from(10), None);
}

#[test]
fn finalized_needs_block_and_matching_anchor() {
    let mut s = store_up_to(2);
    let mut tx = s.begin_write();
    tx.insert_anchor(anchor(1, 201, 4));
    tx.insert_anchor(anchor(3, 203, 5));
    assert_eq!(s.commit(tx), Ok(()));
    assert!(!s.is_finalized(0));
    assert!(s.is_finalized(1));
    assert!(!s.is_finalized(2));
    assert!(!s.is_finalized(3));
}

#[test]
fn snapshot_is_untouched_by_later_commits() {
    let mut s = store_up_to(2);
    let snap = s.snapshot();
    let mut tx = s.begin_write();
    tx.truncate_above(0);
    tx.insert_anchor(anchor(0, 200, 1));
    assert_eq!(s.commit(tx), Ok(()));
    assert_eq!(s.read_tip_height(), Some(0));
    assert_eq!(snap.read_tip_height(), Some(2));
    assert_eq!(snap.read_anchor_for(0), None);
    assert_eq!(snap.block_hash(2), Some(h(102)));
}

#[test]
fn transactions_are_found_by_hash() {
    let mut s = Storage::new();
    let t1 = Transaction { hash: h(1), contract_address: h(11) };
    let t2 = Transaction { hash: h(2), contract_address: h(12) };
    let t3 = Transaction { hash: h(3), contract_address: h(13) };
    let again = Transaction { hash: h(2), contract_address: h(14) };
    let mut tx = s.begin_write();
    tx.insert_block(Block::new(0, h(100), types::Hash::zero(), h(200), vec![t1]));
    tx.insert_block(Block::new(1, h(101), h(100), h(201), vec![t2, t3]));
    tx.insert_block(Block::new(2, h(102), h(101), h(202), vec![again]));
    assert_eq!(s.commit(tx), Ok(()));
    assert_eq!(s.find_transaction(h(1)), Some(TxLocation { height: 0, index: 0 }));
    assert_eq!(s.find_transaction(h(3)), Some(TxLocation { height: 1, index: 1 }));
    assert_eq!(s.find_transaction(h(2)), Some(TxLocation { height: 1, index: 0 }));
    assert_eq!(s.find_transaction(h(4)), None);
    assert_eq!(s.read_transaction(1, h(3)), Some(t3));
    assert_eq!(s.read_transaction(2, h(2)), Some(again));
    assert_eq!(s.read_transaction(0, h(3)), None);
    assert_eq!(s.read_transaction(9, h(1)), None);
    let b = s.read_block(1).unwrap();
    assert_eq!(b.transactions, vec![t2, t3]);
    assert_eq!(b.find_transaction(h(3)), Some(1));
    assert_eq!(b.find_transaction(h(1)), None);
}

#[test]
fn new_file_opens_as_empty_store() {
    let image = StoreImage { schema_version: 0, blocks: Vec::new(), anchors: Vec::new() };
    let s = Storage::open(image).unwrap();
    assert_eq!(s.read_tip_height(), None);
    assert_eq!(s.export().schema_version, SCHEMA_VERSION);
}

#[test]
fn records_without_schema_fail_migration() {
    let image = StoreImage { schema_version: 0, blocks: vec![block(0)], anchors: Vec::new() };
    assert_eq!(Storage::open(image).err(), Some(StorageError::Migration));
}

#[test]
fn newer_schema_fails_migration() {
    let image =
        StoreImage { schema_version: SCHEMA_VERSION + 1, blocks: Vec::new(), anchors: Vec::new() };
    assert_eq!(Storage::open(image).err(), Some(StorageError::Migration));
}

#[test]
fn broken_chain_fails_to_open() {
    let image = StoreImage {
        schema_version: SCHEMA_VERSION,
        blocks: vec![block(0), Block::new(1, h(101), h(7), h(201), Vec::new())],
        anchors: Vec::new(),
    };
    assert_eq!(Storage::open(image).err(), Some(StorageError::Consistency));
}

#[test]
fn unordered_anchors_fail_to_open() {
    let image = StoreImage {
        schema_version: SCHEMA_VERSION,
        blocks: Vec::new(),
        anchors: vec![anchor(2, 1, 1), anchor(1, 1, 2)],
    };
    assert_eq!(Storage::open(image).err(), Some(StorageError::Consistency));
    let image = StoreImage {
        schema_version: SCHEMA_VERSION,
        blocks: Vec::new(),
        anchors: vec![anchor(2, 1, 1), anchor(2, 1, 2)],
    };
    assert_eq!(Storage::open(image).err(), Some(StorageError::Consistency));
}

#[test]
fn anchor_against_block_fails_to_open() {
    let image = StoreImage {
        schema_version: SCHEMA_VERSION,
        blocks: vec![block(0), block(1)],
        anchors: vec![anchor(1, 999, 1)],
    };
    assert_eq!(Storage::open(image).err(), Some(StorageError::Consistency));
}

#[test]
fn export_then_open_gives_the_same_store() {
    let mut s = store_up_to(3);
    let mut tx = s.begin_write();
    tx.insert_anchor(anchor(2, 202, 10));
    tx.insert_anchor(anchor(8, 1, 11));
    assert_eq!(s.commit(tx), Ok(()));
    let image = s.export();
    assert_eq!(image.schema_version, SCHEMA_VERSION);
    assert_eq!(image.blocks.len(), 4);
    assert_eq!(image.anchors, vec![anchor(2, 202, 10), anchor(8, 1, 11)]);
    let back = Storage::open(image).unwrap();
    assert_eq!(back.read_tip_height(), Some(3));
    assert_eq!(back.block_hash(3), Some(h(103)));
    assert_eq!(back.read_anchor_for(2), Some(anchor(2, 202, 10)));
    assert_eq!(back.read_anchor_for(8), Some(anchor(8, 1, 11)));
    assert!(back.is_finalized(2));
}

#[test]
fn canonical_tip_is_the_highest_finalized_height() {
    let mut s = store_up_to(5);
    assert_eq!(s.canonical_tip(), None);
    assert_eq!(Storage::new().canonical_tip(), None);
    let mut tx = s.begin_write();
    tx.insert_anchor(anchor(1, 201, 4));
    tx.insert_anchor(anchor(3, 203, 5));
    tx.insert_anchor(anchor(8, 1, 6));
    assert_eq!(s.commit(tx), Ok(()));
    assert_eq!(s.canonical_tip(), Some(3));
    let mut tx = s.begin_write();
    tx.truncate_above(2);
    assert_eq!(s.commit(tx), Ok(()));
    assert_eq!(s.canonical_tip(), Some(1));
    let mut tx = s.begin_write();
    tx.insert_anchor(anchor(2, 202, 9));
    assert_eq!(s.commit(tx), Ok(()));
    assert_eq!(s.canonical_tip(), Some(2));
}
