use pathfinder::error::Inconsistency;
use pathfinder::reconcile::{
    apply_anchor, apply_anchors, apply_block, apply_blocks, AnchorBatchOutcome, AnchorOutcome,
    BlockBatchOutcome, BlockOutcome,
};
use pathfinder::storage::Storage;
use pathfinder::types::{self, Anchor, Block};

fn h(n: u128) -> types::Hash {
    types::Hash::new(0, n)
}

fn block(height: u64) -> Block {
    let parent = if height == 0 { types::Hash::zero() } else { h(100 + height as u128 - 1) };
    Block::new(height, h(100 + height as u128), parent, h(200 + height as u128), Vec::new())
}

/// A block of another branch: its hash and state root differ from those
/// of `block(height)`.
fn fork(height: u64, parent: u128) -> Block {
    Block::new(height, h(500 + height as u128), h(parent), h(600 + height as u128), Vec::new())
}

fn anchor(height: u64, root: u128, l1_block: u64) -> Anchor {
    Anchor { l2_height: height, state_root: h(root), l1_block_number: l1_block, l1_log_index: 0 }
}

fn store_up_to(tip: u64) -> Storage {
    let mut s = Storage::new();
    for i in 0..=tip {
        assert_eq!(apply_block(&mut s, &block(i), 0, 10), BlockOutcome::Appended);
    }
    s
}

fn assert_linked(s: &Storage) {
    let n = s.block_count() as u64;
    for i in 0..n {
        let b = s.read_block(i).unwrap();
        assert_eq!(b.height, i);
        if i > 0 {
            assert_eq!(Some(b.parent_hash), s.block_hash(i - 1));
        }
    }
}

#[test]
fn genesis_goes_into_an_empty_store() {
    let mut s = Storage::new();
    let genesis = Block::new(0, h(100), h(12345), h(200), Vec::new());
    assert_eq!(apply_block(&mut s, &genesis, 0, 10), BlockOutcome::Appended);
    assert_eq!(s.read_tip_height(), Some(0));
}

#[test]
fn linked_block_is_appended_without_an_anchor() {
    let mut s = store_up_to(2);
    assert_eq!(apply_block(&mut s, &block(3), 0, 10), BlockOutcome::Appended);
    assert_eq!(s.read_tip_height(), Some(3));
    assert!(!s.is_finalized(3));
}

#[test]
fn block_above_the_next_height_is_a_gap() {
    let mut s = store_up_to(2);
    assert_eq!(apply_block(&mut s, &block(4), 0, 10), BlockOutcome::Stalled(Inconsistency::Gap));
    assert_eq!(s.read_tip_height(), Some(2));
    let mut empty = Storage::new();
    assert_eq!(
        apply_block(&mut empty, &block(1), 0, 10),
        BlockOutcome::Stalled(Inconsistency::Gap)
    );
    assert_eq!(empty.read_tip_height(), None);
}

#[test]
fn chain_stays_linked_whatever_is_offered() {
    let mut s = Storage::new();
    let offers = vec![
        block(0),
        block(1),
        block(3),
        block(2),
        fork(2, 101),
        fork(3, 502),
        block(3),
        fork(1, 7),
        block(1),
        fork(2, 9),
        block(0),
        fork(0, 0),
        block(2),
        block(3),
    ];
    let mut depth = 0;
    for b in offers.iter() {
        let o = apply_block(&mut s, b, depth, 3);
        depth = match o {
            BlockOutcome::Appended => 0,
            BlockOutcome::Replaced { .. } => 0,
            BlockOutcome::RolledBack { removed, .. } => depth + removed,
            _ => depth,
        };
        assert_linked(&s);
    }
    assert!(s.read_tip_height().is_some());
}

#[test]
fn stored_block_offered_again_changes_nothing() {
    let mut s = store_up_to(3);
    let before = s.export();
    for i in 0..=3 {
        assert_eq!(apply_block(&mut s, &block(i), 0, 10), BlockOutcome::AlreadyStored);
    }
    let after = s.export();
    assert_eq!(after.blocks.len(), before.blocks.len());
    assert_eq!(s.block_count(), 4);
    for i in 0..=3u64 {
        assert_eq!(s.block_hash(i), Some(h(100 + i as u128)));
    }
}

#[test]
fn batch_polled_twice_changes_nothing() {
    let mut s = Storage::new();
    let batch = vec![block(0), block(1), block(2)];
    let first = apply_blocks(&mut s, &batch, 0, 10);
    assert_eq!(first, BlockBatchOutcome { rolled_back: 0, touched: true, replaced: false, stopped: None });
    let second = apply_blocks(&mut s, &batch, 0, 10);
    assert_eq!(second, BlockBatchOutcome { rolled_back: 0, touched: false, replaced: false, stopped: None });
    assert_eq!(s.block_count(), 3);
    assert_eq!(s.read_tip_height(), Some(2));
}

#[test]
fn injected_block_replaces_the_stored_tail() {
    let mut s = store_up_to(5);
    let injected = fork(3, 102);
    assert_eq!(apply_block(&mut s, &injected, 0, 10), BlockOutcome::Replaced { removed: 3 });
    assert_eq!(s.read_tip_height(), Some(3));
    for i in 0..3u64 {
        assert_eq!(s.block_hash(i), Some(h(100 + i as u128)));
        assert_eq!(s.state_root_at(i), Some(h(200 + i as u128)));
    }
    let stored = s.read_block(3).unwrap();
    assert_eq!(stored.hash, h(503));
    assert_eq!(stored.parent_hash, h(102));
    assert_eq!(stored.state_root, h(603));
    assert!(s.read_block(4).is_none());
    assert!(s.read_block(5).is_none());
}

#[test]
fn unlinked_block_at_stored_height_truncates_to_below_it() {
    let mut s = store_up_to(5);
    let stray = fork(4, 999);
    assert_eq!(
        apply_block(&mut s, &stray, 0, 10),
        BlockOutcome::RolledBack { tip: 3, removed: 2 }
    );
    assert_eq!(s.read_tip_height(), Some(3));
    assert_eq!(s.block_hash(3), Some(h(103)));
}

#[test]
fn unlinked_block_at_next_height_drops_the_tip() {
    let mut s = store_up_to(3);
    let stray = fork(4, 999);
    assert_eq!(
        apply_block(&mut s, &stray, 0, 10),
        BlockOutcome::RolledBack { tip: 2, removed: 1 }
    );
    assert_eq!(s.read_tip_height(), Some(2));
}

#[test]
fn search_backward_ends_where_the_branches_agree() {
    // The store holds 0..=5; the feed's branch leaves it after height 2.
    let mut s = store_up_to(5);
    let mut depth = 0;
    let mut steps = 0;
    let branch = vec![fork(3, 102), fork(4, 503), fork(5, 504), fork(6, 505)];
    // The feed offers its block for the height above the tip until one
    // links.
    loop {
        let next = s.block_count() as u64;
        let offered = &branch[(next - 3) as usize];
        match apply_block(&mut s, offered, depth, 10) {
            BlockOutcome::RolledBack { removed, .. } => depth += removed,
            BlockOutcome::Appended => break,
            other => panic!("unexpected outcome {:?}", other),
        }
        steps += 1;
        assert!(steps < 10);
    }
    assert_eq!(depth, 3);
    assert_eq!(s.read_tip_height(), Some(3));
    assert_eq!(s.block_hash(3), Some(h(503)));
    assert_eq!(s.block_hash(2), Some(h(102)));
}

#[test]
fn discarding_more_than_the_bound_is_refused() {
    let mut s = store_up_to(5);
    assert_eq!(
        apply_block(&mut s, &fork(2, 101), 0, 3),
        BlockOutcome::Refused(Inconsistency::ReorgTooDeep)
    );
    assert_eq!(s.read_tip_height(), Some(5));
    assert_eq!(apply_block(&mut s, &fork(2, 101), 0, 4), BlockOutcome::Replaced { removed: 4 });
    let mut s = store_up_to(5);
    assert_eq!(
        apply_block(&mut s, &fork(6, 999), 3, 3),
        BlockOutcome::Refused(Inconsistency::ReorgTooDeep)
    );
    assert_eq!(
        apply_block(&mut s, &fork(6, 999), 2, 3),
        BlockOutcome::RolledBack { tip: 4, removed: 1 }
    );
    assert_eq!(
        apply_block(&mut s, &fork(4, 999), u64::MAX, u64::MAX),
        BlockOutcome::Refused(Inconsistency::ReorgTooDeep)
    );
}

#[test]
fn another_genesis_is_refused() {
    let mut s = store_up_to(2);
    assert_eq!(
        apply_block(&mut s, &fork(0, 0), 0, 10),
        BlockOutcome::Refused(Inconsistency::GenesisMismatch)
    );
    let mut s = store_up_to(0);
    assert_eq!(
        apply_block(&mut s, &fork(1, 999), 0, 10),
        BlockOutcome::Refused(Inconsistency::GenesisMismatch)
    );
    assert_eq!(s.read_tip_height(), Some(0));
}

#[test]
fn finalized_block_is_not_replaced_by_the_block_feed() {
    let mut s = store_up_to(4);
    assert_eq!(apply_anchor(&mut s, anchor(3, 203, 50), 0, 10), AnchorOutcome::Finalized);
    assert!(s.is_finalized(3));
    for stray in [fork(3, 102), fork(3, 999), fork(2, 101), fork(1, 100), fork(1, 999)] {
        assert_eq!(
            apply_block(&mut s, &stray, 0, 10),
            BlockOutcome::Stalled(Inconsistency::FinalizedConflict)
        );
        assert_eq!(s.read_tip_height(), Some(4));
        assert!(s.is_finalized(3));
        assert_eq!(s.block_hash(3), Some(h(103)));
    }
    // Above the finalized height the block feed may still rewrite.
    assert_eq!(apply_block(&mut s, &fork(4, 103), 0, 10), BlockOutcome::Replaced { removed: 1 });
    assert!(s.is_finalized(3));
    assert_eq!(s.block_hash(3), Some(h(103)));
    // A finalized tip is not dropped either.
    let mut s = store_up_to(2);
    assert_eq!(apply_anchor(&mut s, anchor(2, 202, 50), 0, 10), AnchorOutcome::Finalized);
    assert_eq!(
        apply_block(&mut s, &fork(3, 999), 0, 10),
        BlockOutcome::Stalled(Inconsistency::FinalizedConflict)
    );
    assert_eq!(s.read_tip_height(), Some(2));
}

#[test]
fn matching_anchor_finalizes_only_its_height() {
    let mut s = Storage::new();
    let fed = apply_blocks(&mut s, &vec![block(0), block(1), block(2)], 0, 10);
    assert_eq!(fed.stopped, None);
    let anchored = apply_anchors(&mut s, &vec![anchor(1, 201, 40)], 0, 10);
    assert_eq!(anchored, AnchorBatchOutcome::Applied { rolled_back: 0, touched: true });
    assert_eq!(s.read_tip_height(), Some(2));
    assert!(s.is_finalized(1));
    assert!(!s.is_finalized(0));
    assert!(!s.is_finalized(2));
}

#[test]
fn conflicting_anchor_truncates_and_the_anchored_block_goes_in() {
    let mut s = store_up_to(4);
    assert_eq!(
        apply_anchor(&mut s, anchor(2, 602, 40), 0, 10),
        AnchorOutcome::RolledBack { tip: 1, removed: 3 }
    );
    assert_eq!(s.read_tip_height(), Some(1));
    assert!(s.read_block(2).is_none());
    assert_eq!(s.read_anchor_for(2), Some(anchor(2, 602, 40)));
    // The block that the store held before does not go in again.
    assert_eq!(
        apply_block(&mut s, &block(2), 3, 10),
        BlockOutcome::Stalled(Inconsistency::AnchorMismatch)
    );
    assert_eq!(s.read_tip_height(), Some(1));
    // The block that the anchor speaks of does, and is finalized at once.
    assert_eq!(apply_block(&mut s, &fork(2, 101), 3, 10), BlockOutcome::Appended);
    assert_eq!(s.read_tip_height(), Some(2));
    assert_eq!(s.state_root_at(2), Some(h(602)));
    assert!(s.is_finalized(2));
}

#[test]
fn anchor_above_the_tip_waits_for_its_block() {
    let mut s = store_up_to(1);
    assert_eq!(apply_anchor(&mut s, anchor(3, 203, 40), 0, 10), AnchorOutcome::Pending);
    assert!(!s.is_finalized(3));
    assert_eq!(apply_block(&mut s, &block(2), 0, 10), BlockOutcome::Appended);
    assert_eq!(apply_block(&mut s, &block(3), 0, 10), BlockOutcome::Appended);
    assert!(s.is_finalized(3));
    assert!(!s.is_finalized(2));
}

#[test]
fn stored_anchor_offered_again_changes_nothing() {
    let mut s = store_up_to(2);
    assert_eq!(apply_anchor(&mut s, anchor(1, 201, 40), 0, 10), AnchorOutcome::Finalized);
    assert_eq!(apply_anchor(&mut s, anchor(1, 201, 40), 0, 10), AnchorOutcome::Duplicate);
    assert_eq!(apply_anchor(&mut s, anchor(7, 1, 41), 0, 10), AnchorOutcome::Pending);
    assert_eq!(apply_anchor(&mut s, anchor(7, 1, 41), 0, 10), AnchorOutcome::Duplicate);
    let again = apply_anchors(&mut s, &vec![anchor(1, 201, 40), anchor(7, 1, 41)], 0, 10);
    assert_eq!(again, AnchorBatchOutcome::Applied { rolled_back: 0, touched: false });
    assert_eq!(s.export().anchors, vec![anchor(1, 201, 40), anchor(7, 1, 41)]);
}

#[test]
fn earlier_anchor_does_not_supersede_a_later_one() {
    let mut s = store_up_to(3);
    assert_eq!(apply_anchor(&mut s, anchor(2, 202, 40), 0, 10), AnchorOutcome::Finalized);
    assert_eq!(apply_anchor(&mut s, anchor(2, 999, 39), 0, 10), AnchorOutcome::Stale);
    assert_eq!(apply_anchor(&mut s, anchor(2, 999, 40), 0, 10), AnchorOutcome::Stale);
    assert_eq!(s.read_tip_height(), Some(3));
    assert_eq!(s.read_anchor_for(2), Some(anchor(2, 202, 40)));
}

#[test]
fn later_anchor_supersedes_and_rewrites_a_finalized_block() {
    let mut s = store_up_to(3);
    assert_eq!(apply_anchor(&mut s, anchor(2, 202, 40), 0, 10), AnchorOutcome::Finalized);
    // Logged later with the same root: the anchor is replaced, the block stays.
    assert_eq!(apply_anchor(&mut s, anchor(2, 202, 41), 0, 10), AnchorOutcome::Finalized);
    assert_eq!(s.read_anchor_for(2), Some(anchor(2, 202, 41)));
    assert_eq!(s.read_tip_height(), Some(3));
    // Logged later with another root: the block and those above it go.
    assert_eq!(
        apply_anchor(&mut s, anchor(2, 999, 42), 0, 10),
        AnchorOutcome::RolledBack { tip: 1, removed: 2 }
    );
    assert_eq!(s.read_tip_height(), Some(1));
    assert_eq!(s.read_anchor_for(2), Some(anchor(2, 999, 42)));
}

#[test]
fn anchor_against_genesis_is_refused() {
    let mut s = store_up_to(2);
    assert_eq!(
        apply_anchor(&mut s, anchor(0, 999, 40), 0, 10),
        AnchorOutcome::Refused(Inconsistency::GenesisMismatch)
    );
    assert_eq!(s.read_anchor_for(0), None);
    assert_eq!(s.read_tip_height(), Some(2));
}

#[test]
fn anchor_that_discards_too_much_is_refused() {
    let mut s = store_up_to(5);
    assert_eq!(
        apply_anchor(&mut s, anchor(2, 999, 40), 0, 3),
        AnchorOutcome::Refused(Inconsistency::ReorgTooDeep)
    );
    assert_eq!(s.read_tip_height(), Some(5));
    assert_eq!(
        apply_anchor(&mut s, anchor(2, 999, 40), 1, 5),
        AnchorOutcome::RolledBack { tip: 1, removed: 4 }
    );
}

#[test]
fn refused_anchor_abandons_its_whole_batch() {
    let mut s = store_up_to(3);
    let batch = vec![anchor(1, 201, 40), anchor(5, 1, 41), anchor(0, 999, 42), anchor(2, 202, 43)];
    assert_eq!(
        apply_anchors(&mut s, &batch, 0, 10),
        AnchorBatchOutcome::Refused(Inconsistency::GenesisMismatch)
    );
    assert_eq!(s.read_anchor_for(1), None);
    assert_eq!(s.read_anchor_for(5), None);
    assert_eq!(s.read_anchor_for(2), None);
    assert_eq!(s.read_tip_height(), Some(3));
}

#[test]
fn anchor_batch_with_a_conflict_commits_as_one() {
    let mut s = store_up_to(4);
    let batch = vec![
        anchor(1, 201, 40),
        anchor(6, 1, 41),
        anchor(3, 999, 42),
        anchor(2, 202, 43),
        anchor(4, 2, 44),
    ];
    assert_eq!(
        apply_anchors(&mut s, &batch, 0, 10),
        AnchorBatchOutcome::Applied { rolled_back: 2, touched: true }
    );
    assert_eq!(s.read_tip_height(), Some(2));
    assert!(s.is_finalized(1));
    assert!(s.is_finalized(2));
    assert_eq!(s.read_anchor_for(3), Some(anchor(3, 999, 42)));
    assert_eq!(s.read_anchor_for(4), Some(anchor(4, 2, 44)));
    // The anchor that waited above the conflict went with the truncation.
    assert_eq!(s.read_anchor_for(6), None);
}

#[test]
fn batch_stops_at_the_first_block_that_does_not_go_in() {
    let mut s = store_up_to(1);
    let batch = vec![block(2), block(3), block(5), block(4)];
    let r = apply_blocks(&mut s, &batch, 0, 10);
    assert_eq!(
        r,
        BlockBatchOutcome {
            rolled_back: 0,
            touched: true,
            replaced: false,
            stopped: Some(BlockOutcome::Stalled(Inconsistency::Gap)),
        }
    );
    assert_eq!(s.read_tip_height(), Some(3));
    let r = apply_blocks(&mut s, &vec![fork(3, 999), block(4)], 1, 10);
    assert_eq!(
        r,
        BlockBatchOutcome {
            rolled_back: 2,
            touched: true,
            replaced: false,
            stopped: Some(BlockOutcome::RolledBack { tip: 2, removed: 1 }),
        }
    );
    assert_eq!(s.read_tip_height(), Some(2));
}

#[test]
fn appending_resets_the_count_of_discarded_blocks() {
    let mut s = store_up_to(3);
    let r = apply_blocks(&mut s, &vec![block(3), block(4)], 7, 10);
    assert_eq!(r, BlockBatchOutcome { rolled_back: 0, touched: true, replaced: false, stopped: None });
    let r = apply_blocks(&mut s, &vec![block(3), block(4)], 7, 10);
    assert_eq!(r, BlockBatchOutcome { rolled_back: 7, touched: false, replaced: false, stopped: None });
}

#[test]
fn anchor_batch_polled_twice_changes_nothing() {
    let mut s = store_up_to(6);
    let batch = vec![anchor(7, 1, 40), anchor(5, 999, 41)];
    assert_eq!(
        apply_anchors(&mut s, &batch, 0, 10),
        AnchorBatchOutcome::Applied { rolled_back: 2, touched: true }
    );
    assert_eq!(s.read_tip_height(), Some(4));
    assert_eq!(s.read_anchor_for(5), Some(anchor(5, 999, 41)));
    assert_eq!(s.read_anchor_for(7), None);
    assert_eq!(
        apply_anchors(&mut s, &batch, 2, 10),
        AnchorBatchOutcome::Applied { rolled_back: 2, touched: false }
    );
    assert_eq!(s.read_tip_height(), Some(4));
    assert_eq!(s.read_anchor_for(7), None);
    assert_eq!(s.export().anchors, vec![anchor(5, 999, 41)]);
}

#[test]
fn anchor_logged_before_the_nearest_one_below_is_stale() {
    let mut s = store_up_to(3);
    assert_eq!(apply_anchor(&mut s, anchor(2, 202, 50), 0, 10), AnchorOutcome::Finalized);
    assert_eq!(apply_anchor(&mut s, anchor(9, 1, 49), 0, 10), AnchorOutcome::Stale);
    assert_eq!(apply_anchor(&mut s, anchor(3, 999, 50), 0, 10), AnchorOutcome::Stale);
    assert_eq!(s.read_anchor_for(9), None);
    assert_eq!(s.read_tip_height(), Some(3));
    assert_eq!(apply_anchor(&mut s, anchor(9, 1, 51), 0, 10), AnchorOutcome::Pending);
    // Below the stored anchors nothing stands against an earlier one.
    assert_eq!(apply_anchor(&mut s, anchor(1, 201, 10), 0, 10), AnchorOutcome::Finalized);
    assert_eq!(s.anchor_at_or_below(8), Some(anchor(2, 202, 50)));
    assert_eq!(s.anchor_at_or_below(0), None);
    assert_eq!(s.anchor_at_or_below(u64::MAX), Some(anchor(9, 1, 51)));
}

#[test]
fn batch_says_when_a_block_took_the_place_of_stored_ones() {
    let mut s = store_up_to(4);
    let r = apply_blocks(&mut s, &vec![block(2), fork(3, 102), fork(4, 503)], 0, 10);
    assert_eq!(
        r,
        BlockBatchOutcome { rolled_back: 0, touched: true, replaced: true, stopped: None }
    );
    assert_eq!(s.read_tip_height(), Some(4));
    assert_eq!(s.block_hash(3), Some(h(503)));
    assert_eq!(s.block_hash(4), Some(h(504)));
}

#[test]
fn finalized_block_outlives_anchors_that_do_not_contradict_below_it() {
    let mut s = store_up_to(5);
    assert_eq!(apply_anchor(&mut s, anchor(2, 202, 40), 0, 10), AnchorOutcome::Finalized);
    let batch = vec![
        anchor(1, 201, 41),
        anchor(2, 202, 42),
        anchor(4, 999, 43),
        anchor(3, 203, 44),
        anchor(9, 1, 45),
    ];
    assert_eq!(
        apply_anchors(&mut s, &batch, 0, 10),
        AnchorBatchOutcome::Applied { rolled_back: 2, touched: true }
    );
    assert_eq!(s.read_tip_height(), Some(3));
    assert!(s.is_finalized(2));
    for i in 0..=2u64 {
        assert_eq!(s.block_hash(i), Some(h(100 + i as u128)));
    }
}
