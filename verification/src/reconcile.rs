//! The acceptance rules: what a freshly fetched block or anchor does to
//! the store.

use crate::anchors::{lemma_nearest_is, lookup, nearest_below};
use crate::error::Inconsistency;
use crate::storage::{
    effect, lemma_effect_empty, lemma_effect_with_anchor, lemma_effect_with_block,
    lemma_effect_with_cut, lemma_nearest_in_effect, Storage, StoreState, TxView,
    WriteTransaction,
};
use crate::types::{chain_of, Anchor, Block, BlockView};
use vstd::prelude::*;

verus! {

/// What offering one block to the store came to.
#[derive(Clone, Copy, Debug, PartialEq, Eq, Structural)]
pub enum BlockOutcome {
    /// The block linked to the tip and is the new tip.
    Appended,
    /// A block with this height and hash is stored already; nothing changed.
    AlreadyStored,
    /// The block took the place of a stored block with another hash;
    /// `removed` blocks were discarded for it.
    Replaced { removed: u64 },
    /// The block does not link to the store, which lost `removed` blocks
    /// and now ends at `tip`; the block itself was not stored.
    RolledBack { tip: u64, removed: u64 },
    /// The block cannot be used for now; nothing changed.
    Stalled(Inconsistency),
    /// The block contradicts the store beyond repair; nothing changed.
    Refused(Inconsistency),
}

/// Whether some height from `lo` up to, not including, `hi` is finalized.
pub open spec fn finalized_within(s: StoreState, lo: int, hi: int) -> bool {
    exists|k: u64| lo <= k < hi && #[trigger] s.finalized(k)
}

/// What stands against discarding the blocks from the height `from`
/// upwards on the word of the block feed, if anything does: genesis is
/// never discarded, a finalized block is not discarded for a block, and
/// no more than `max_depth` blocks are discarded between two blocks going
/// in.
pub open spec fn judge_removal(s: StoreState, from: u64, rolled_back: u64, max_depth: u64) -> Option<
    BlockOutcome,
> {
    if from == 0 {
        Some(BlockOutcome::Refused(Inconsistency::GenesisMismatch))
    } else if finalized_within(s, from as int, s.blocks.len() as int) {
        Some(BlockOutcome::Stalled(Inconsistency::FinalizedConflict))
    } else if rolled_back + (s.blocks.len() - from) > max_depth {
        Some(BlockOutcome::Refused(Inconsistency::ReorgTooDeep))
    } else {
        None
    }
}

/// The store rolled back to just below `from`, or what stands against it.
pub open spec fn judge_rollback(s: StoreState, from: u64, rolled_back: u64, max_depth: u64) -> BlockOutcome {
    match judge_removal(s, from, rolled_back, max_depth) {
        Some(o) => o,
        None => BlockOutcome::RolledBack {
            tip: (from - 1) as u64,
            removed: (s.blocks.len() - from) as u64,
        },
    }
}

/// What offering the block `b` to the store `s` comes to, when
/// `rolled_back` blocks were discarded since the last block went in and at
/// most `max_depth` may be.
///
/// A block above the next height leaves a gap and has to wait. A block
/// for the next height goes on top where it names the tip as its parent
/// (any block does on an empty store), unless an anchor waits for that
/// height with another state root; where it names another parent, the
/// tip is stale and is discarded. A block for a stored height is the
/// stored one where the hashes agree; otherwise it replaces the stored
/// block and all above where it names the block below as its parent, and
/// where it does not, the stored blocks from its height upwards are
/// discarded and the block is not stored. Discarding is subject to
/// `judge_removal`.
pub open spec fn judge_block(s: StoreState, b: BlockView, rolled_back: u64, max_depth: u64) -> BlockOutcome {
    let n = s.blocks.len() as int;
    let h = b.height as int;
    if h > n {
        BlockOutcome::Stalled(Inconsistency::Gap)
    } else if h == n {
        if n == 0 || b.parent_hash == s.blocks[n - 1].hash {
            if s.anchors.contains_key(b.height) && s.anchors[b.height].state_root
                != b.state_root {
                BlockOutcome::Stalled(Inconsistency::AnchorMismatch)
            } else {
                BlockOutcome::Appended
            }
        } else {
            judge_rollback(s, (n - 1) as u64, rolled_back, max_depth)
        }
    } else if s.blocks[h].hash == b.hash {
        BlockOutcome::AlreadyStored
    } else if h > 0 && b.parent_hash == s.blocks[h - 1].hash {
        match judge_removal(s, b.height, rolled_back, max_depth) {
            Some(o) => o,
            None => BlockOutcome::Replaced { removed: (n - h) as u64 },
        }
    } else {
        judge_rollback(s, b.height, rolled_back, max_depth)
    }
}

/// The store after the block `b` was offered with the given outcome.
pub open spec fn after_block(s: StoreState, b: BlockView, outcome: BlockOutcome) -> StoreState {
    match outcome {
        BlockOutcome::Appended => s.with_block(b),
        BlockOutcome::Replaced { .. } => s.truncated((b.height - 1) as u64).with_block(b),
        BlockOutcome::RolledBack { tip, .. } => s.truncated(tip),
        _ => s,
    }
}

/// The count of blocks discarded since the last block went in, after the
/// given outcome.
pub open spec fn rolled_back_after(rolled_back: u64, outcome: BlockOutcome) -> u64 {
    match outcome {
        BlockOutcome::Appended => 0,
        BlockOutcome::Replaced { .. } => 0,
        BlockOutcome::RolledBack { removed, .. } => (rolled_back + removed) as u64,
        _ => rolled_back,
    }
}

/// Truncating a consistent store leaves a consistent store.
pub proof fn lemma_truncated_consistent(s: StoreState, keep: u64)
    requires
        s.consistent(),
    ensures
        s.truncated(keep).consistent(),
{
    let t = s.truncated(keep);
    assert forall|i: int| 0 <= i < t.blocks.len() implies (#[trigger] t.blocks[i]).height == i by {
        assert(s.blocks[i].height == i);
    }
    assert forall|i: int| 0 < i < t.blocks.len() implies (#[trigger] t.blocks[i]).parent_hash
        == t.blocks[i - 1].hash by {
        assert(s.blocks[i].parent_hash == s.blocks[i - 1].hash);
    }
    assert forall|h: u64| h < t.blocks.len() && t.anchors.contains_key(h) implies (#[trigger] t.anchors[h]).state_root
        == t.blocks[h as int].state_root by {
        assert(s.anchors[h].state_root == s.blocks[h as int].state_root);
    }
}

/// Whatever block is offered to a consistent store, the store stays
/// consistent: its chain is unbroken and agrees with its anchors.
pub proof fn lemma_block_keeps_consistent(s: StoreState, b: BlockView, rolled_back: u64, max_depth: u64)
    requires
        s.consistent(),
    ensures
        after_block(s, b, judge_block(s, b, rolled_back, max_depth)).consistent(),
{
    let o = judge_block(s, b, rolled_back, max_depth);
    let r = after_block(s, b, o);
    let n = s.blocks.len() as int;
    match o {
        BlockOutcome::Appended => {
            assert forall|i: int| 0 <= i < r.blocks.len() implies (#[trigger] r.blocks[i]).height
                == i by {
                if i < n {
                    assert(s.blocks[i].height == i);
                }
            }
            assert forall|i: int| 0 < i < r.blocks.len() implies (#[trigger] r.blocks[i]).parent_hash
                == r.blocks[i - 1].hash by {
                if i < n {
                    assert(s.blocks[i].parent_hash == s.blocks[i - 1].hash);
                }
            }
            assert forall|h: u64| h < r.blocks.len() && r.anchors.contains_key(h) implies (#[trigger] r.anchors[h]).state_root
                == r.blocks[h as int].state_root by {
                if h < n {
                    assert(s.anchors[h].state_root == s.blocks[h as int].state_root);
                }
            }
        },
        BlockOutcome::Replaced { .. } => {
            let keep = (b.height - 1) as u64;
            let t = s.truncated(keep);
            lemma_truncated_consistent(s, keep);
            assert(t.blocks.len() == b.height);
            assert forall|i: int| 0 <= i < r.blocks.len() implies (#[trigger] r.blocks[i]).height
                == i by {
                if i < t.blocks.len() {
                    assert(t.blocks[i].height == i);
                }
            }
            assert forall|i: int| 0 < i < r.blocks.len() implies (#[trigger] r.blocks[i]).parent_hash
                == r.blocks[i - 1].hash by {
                if i < t.blocks.len() {
                    assert(t.blocks[i].parent_hash == t.blocks[i - 1].hash);
                }
            }
            assert forall|h: u64| h < r.blocks.len() && r.anchors.contains_key(h) implies (#[trigger] r.anchors[h]).state_root
                == r.blocks[h as int].state_root by {
                assert(t.anchors[h].state_root == t.blocks[h as int].state_root);
            }
        },
        BlockOutcome::RolledBack { tip, .. } => {
            lemma_truncated_consistent(s, tip);
        },
        _ => {},
    }
}

/// Whether the blocks from `from` upwards may be discarded on the word of
/// the block feed; `Some` says what stands against it.
fn check_removal(storage: &Storage, from: u64, rolled_back: u64, max_depth: u64) -> (r: Option<
    BlockOutcome,
>)
    requires
        storage.wf(),
        from < storage@.blocks.len(),
    ensures
        r == judge_removal(storage@, from, rolled_back, max_depth),
{
    proof {
        storage.lemma_consistent();
    }
    let n = storage.block_count() as u64;
    if from == 0 {
        return Some(BlockOutcome::Refused(Inconsistency::GenesisMismatch));
    }
    match storage.next_anchor_from(from) {
        Some(a) => {
            if a.l2_height < n {
                assert(storage@.finalized(a.l2_height));
                return Some(BlockOutcome::Stalled(Inconsistency::FinalizedConflict));
            }
        },
        None => {},
    }
    assert(!finalized_within(storage@, from as int, n as int));
    let removed = n - from;
    if removed > max_depth || rolled_back > max_depth - removed {
        return Some(BlockOutcome::Refused(Inconsistency::ReorgTooDeep));
    }
    None
}

/// Discards the blocks from `from` upwards, unless something stands
/// against it.
fn roll_back(storage: &mut Storage, from: u64, rolled_back: u64, max_depth: u64) -> (outcome:
    BlockOutcome)
    requires
        old(storage).wf(),
        from < old(storage)@.blocks.len(),
    ensures
        final(storage).wf(),
        outcome == judge_rollback(old(storage)@, from, rolled_back, max_depth),
        final(storage)@ == match outcome {
            BlockOutcome::RolledBack { tip, .. } => old(storage)@.truncated(tip),
            _ => old(storage)@,
        },
{
    match check_removal(storage, from, rolled_back, max_depth) {
        Some(o) => o,
        None => {
            let n = storage.block_count() as u64;
            let mut tx = storage.begin_write();
            tx.truncate_above(from - 1);
            proof {
                let s = storage@;
                storage.lemma_consistent();
                lemma_effect_empty(s);
                lemma_effect_with_cut(s, TxView::empty(), (from - 1) as u64);
                lemma_truncated_consistent(s, (from - 1) as u64);
            }
            let r = storage.commit(tx);
            assert(r is Ok);
            BlockOutcome::RolledBack { tip: from - 1, removed: n - from }
        },
    }
}

/// Offers one freshly fetched block to the store: it goes on top where it
/// links to the tip, replaces a stored block of another hash where it
/// links to the block below that, and otherwise makes the store give up
/// what it contradicts, within the limits on discarding.
pub fn apply_block(storage: &mut Storage, block: &Block, rolled_back: u64, max_depth: u64) -> (outcome:
    BlockOutcome)
    requires
        old(storage).wf(),
    ensures
        final(storage).wf(),
        outcome == judge_block(old(storage)@, block@, rolled_back, max_depth),
        final(storage)@ == after_block(old(storage)@, block@, outcome),
{
    proof {
        storage.lemma_consistent();
    }
    let ghost s = storage@;
    let n = storage.block_count() as u64;
    let h = block.height;
    if h > n {
        return BlockOutcome::Stalled(Inconsistency::Gap);
    }
    if h == n {
        let links = match storage.block_hash(if n == 0 { 0 } else { n - 1 }) {
            Some(below) => n == 0 || below == block.parent_hash,
            None => true,
        };
        if !links {
            return roll_back(storage, n - 1, rolled_back, max_depth);
        }
        match storage.read_anchor_for(h) {
            Some(a) => {
                if a.state_root != block.state_root {
                    return BlockOutcome::Stalled(Inconsistency::AnchorMismatch);
                }
            },
            None => {},
        }
        let mut tx = storage.begin_write();
        tx.insert_block(block.duplicate());
        proof {
            lemma_effect_empty(s);
            lemma_effect_with_block(s, TxView::empty(), block@);
            lemma_block_keeps_consistent(s, block@, rolled_back, max_depth);
        }
        let r = storage.commit(tx);
        assert(r is Ok);
        return BlockOutcome::Appended;
    }
    let same = match storage.block_hash(h) {
        Some(stored) => stored == block.hash,
        None => false,
    };
    if same {
        return BlockOutcome::AlreadyStored;
    }
    let links = h > 0 && match storage.block_hash(if h == 0 { 0 } else { h - 1 }) {
        Some(below) => below == block.parent_hash,
        None => false,
    };
    if !links {
        return roll_back(storage, h, rolled_back, max_depth);
    }
    match check_removal(storage, h, rolled_back, max_depth) {
        Some(o) => o,
        None => {
            let mut tx = storage.begin_write();
            tx.truncate_above(h - 1);
            tx.insert_block(block.duplicate());
            proof {
                let keep = (h - 1) as u64;
                lemma_effect_empty(s);
                lemma_effect_with_cut(s, TxView::empty(), keep);
                lemma_effect_with_block(s, TxView::empty().with_cut(keep), block@);
                lemma_block_keeps_consistent(s, block@, rolled_back, max_depth);
            }
            let r = storage.commit(tx);
            assert(r is Ok);
            BlockOutcome::Replaced { removed: n - h }
        },
    }
}

/// Whether an outcome changed the store.
pub open spec fn changes(outcome: BlockOutcome) -> bool {
    outcome is Appended || outcome is Replaced || outcome is RolledBack
}

/// Whether an outcome ends the work on a batch: the blocks after it
/// cannot link until the feed is polled again.
pub open spec fn halts(outcome: BlockOutcome) -> bool {
    outcome is RolledBack || outcome is Stalled || outcome is Refused
}

/// What a batch of blocks came to, folded from the first to the last.
pub struct BlockFold {
    /// The store after the blocks so far.
    pub store: StoreState,
    /// The count of blocks discarded since the last block went in.
    pub rolled_back: u64,
    /// Whether some block so far changed the store.
    pub touched: bool,
    /// Whether some block so far took the place of stored blocks.
    pub replaced: bool,
    /// The outcome that ended the work on the batch, if one did.
    pub stopped: Option<BlockOutcome>,
}

/// The blocks of `batch` offered one after the other to `s`, up to the
/// first whose outcome halts.
pub open spec fn after_blocks(s: StoreState, batch: Seq<BlockView>, rolled_back: u64, max_depth: u64) -> BlockFold
    decreases batch.len(),
{
    if batch.len() == 0 {
        BlockFold { store: s, rolled_back, touched: false, replaced: false, stopped: None }
    } else {
        let prev = after_blocks(s, batch.drop_last(), rolled_back, max_depth);
        if prev.stopped is Some {
            prev
        } else {
            let o = judge_block(prev.store, batch.last(), prev.rolled_back, max_depth);
            BlockFold {
                store: after_block(prev.store, batch.last(), o),
                rolled_back: rolled_back_after(prev.rolled_back, o),
                touched: prev.touched || changes(o),
                replaced: prev.replaced || o is Replaced,
                stopped: if halts(o) {
                    Some(o)
                } else {
                    None
                },
            }
        }
    }
}

/// What offering a batch of blocks came to.
#[derive(Clone, Copy, Debug, PartialEq, Eq, Structural)]
pub struct BlockBatchOutcome {
    /// The count of blocks discarded since the last block went in.
    pub rolled_back: u64,
    /// Whether some block changed the store.
    pub touched: bool,
    /// Whether some block took the place of stored blocks.
    pub replaced: bool,
    /// The outcome that ended the work on the batch, if one did.
    pub stopped: Option<BlockOutcome>,
}

/// Offers a batch of blocks to the store, in their order, each in a
/// transaction of its own, up to the first block that does not go in.
pub fn apply_blocks(storage: &mut Storage, batch: &Vec<Block>, rolled_back: u64, max_depth: u64) -> (outcome:
    BlockBatchOutcome)
    requires
        old(storage).wf(),
    ensures
        final(storage).wf(),
        ({
            let fold = after_blocks(old(storage)@, chain_of(batch@), rolled_back, max_depth);
            &&& final(storage)@ == fold.store
            &&& outcome.rolled_back == fold.rolled_back
            &&& outcome.touched == fold.touched
            &&& outcome.replaced == fold.replaced
            &&& outcome.stopped == fold.stopped
        }),
{
    let ghost s = storage@;
    let ghost all = chain_of(batch@);
    let mut depth = rolled_back;
    let mut touched = false;
    let mut replaced = false;
    let mut i: usize = 0;
    assert(all.take(0) =~= Seq::<BlockView>::empty());
    while i < batch.len()
        invariant
            i <= batch@.len(),
            all == chain_of(batch@),
            s == old(storage)@,
            storage.wf(),
            after_blocks(s, all.take(i as int), rolled_back, max_depth) == (BlockFold {
                store: storage@,
                rolled_back: depth,
                touched,
                replaced,
                stopped: None,
            }),
        decreases batch.len() - i,
    {
        proof {
            assert(all.take(i + 1).drop_last() =~= all.take(i as int));
            assert(all.take(i + 1).last() == batch@[i as int]@);
        }
        let o = apply_block(storage, &batch[i], depth, max_depth);
        match o {
            BlockOutcome::Appended => {
                depth = 0;
                touched = true;
            },
            BlockOutcome::Replaced { .. } => {
                depth = 0;
                touched = true;
                replaced = true;
            },
            BlockOutcome::AlreadyStored => {},
            BlockOutcome::RolledBack { tip, removed } => {
                proof {
                    lemma_stop_stays(s, all, i + 1, rolled_back, max_depth);
                }
                return BlockBatchOutcome {
                    rolled_back: depth + removed,
                    touched: true,
                    replaced,
                    stopped: Some(o),
                };
            },
            _ => {
                proof {
                    lemma_stop_stays(s, all, i + 1, rolled_back, max_depth);
                }
                return BlockBatchOutcome { rolled_back: depth, touched, replaced, stopped: Some(o) };
            },
        }
        i += 1;
    }
    assert(all.take(i as int) =~= all);
    BlockBatchOutcome { rolled_back: depth, touched, replaced, stopped: None }
}

/// Once a prefix of a batch has stopped, the whole batch has, in the
/// same state.
proof fn lemma_stop_stays(s: StoreState, batch: Seq<BlockView>, k: int, rolled_back: u64, max_depth: u64)
    requires
        0 <= k <= batch.len(),
        after_blocks(s, batch.take(k), rolled_back, max_depth).stopped is Some,
    ensures
        after_blocks(s, batch, rolled_back, max_depth) == after_blocks(
            s,
            batch.take(k),
            rolled_back,
            max_depth,
        ),
    decreases batch.len() - k,
{
    if k == batch.len() {
        assert(batch.take(k) =~= batch);
    } else {
        assert(batch.drop_last().take(k) =~= batch.take(k));
        lemma_stop_stays(s, batch.drop_last(), k, rolled_back, max_depth);
    }
}

/// Discarding is bounded: whatever a block takes from the store is at
/// least one block, and with what was discarded since the last block went
/// in it is no more than `max_depth`.
pub proof fn lemma_block_discards_within_bound(
    s: StoreState,
    b: BlockView,
    rolled_back: u64,
    max_depth: u64,
)
    ensures
        match judge_block(s, b, rolled_back, max_depth) {
            BlockOutcome::RolledBack { tip, removed } => removed >= 1 && rolled_back + removed
                <= max_depth && tip + 1 + removed == s.blocks.len(),
            BlockOutcome::Replaced { removed } => removed >= 1 && rolled_back + removed
                <= max_depth && b.height + removed == s.blocks.len(),
            _ => true,
        },
{
}

/// Discarding is bounded for anchors too: whatever an anchor takes from
/// the store is at least one block, and with what was discarded since the
/// last block went in it is no more than `max_depth`.
pub proof fn lemma_anchor_discards_within_bound(
    s: StoreState,
    a: Anchor,
    rolled_back: u64,
    max_depth: u64,
)
    ensures
        match judge_anchor(s, a, rolled_back, max_depth) {
            AnchorOutcome::RolledBack { tip, removed } => removed >= 1 && rolled_back + removed
                <= max_depth && tip + 1 + removed == s.blocks.len(),
            _ => true,
        },
{
}

/// Over a batch of blocks the count of blocks discarded since the last
/// block went in stays within `max_depth` where it started there.
pub proof fn lemma_block_depth_stays_bounded(
    s: StoreState,
    batch: Seq<BlockView>,
    rolled_back: u64,
    max_depth: u64,
)
    requires
        rolled_back <= max_depth,
    ensures
        after_blocks(s, batch, rolled_back, max_depth).rolled_back <= max_depth,
    decreases batch.len(),
{
    if batch.len() > 0 {
        lemma_block_depth_stays_bounded(s, batch.drop_last(), rolled_back, max_depth);
        let prev = after_blocks(s, batch.drop_last(), rolled_back, max_depth);
        lemma_block_discards_within_bound(prev.store, batch.last(), prev.rolled_back, max_depth);
    }
}

/// Over a batch of anchors the count of blocks discarded since the last
/// block went in stays within `max_depth` where it started there.
pub proof fn lemma_anchor_depth_stays_bounded(
    s: StoreState,
    batch: Seq<Anchor>,
    rolled_back: u64,
    max_depth: u64,
)
    requires
        rolled_back <= max_depth,
    ensures
        after_anchors(s, batch, rolled_back, max_depth).rolled_back <= max_depth,
    decreases batch.len(),
{
    if batch.len() > 0 {
        lemma_anchor_depth_stays_bounded(s, batch.drop_last(), rolled_back, max_depth);
        let prev = after_anchors(s, batch.drop_last(), rolled_back, max_depth);
        lemma_anchor_discards_within_bound(prev.store, batch.last(), prev.rolled_back, max_depth);
    }
}

/// A batch in which a block took the place of stored blocks has changed
/// the store.
pub proof fn lemma_replacing_touches(
    s: StoreState,
    batch: Seq<BlockView>,
    rolled_back: u64,
    max_depth: u64,
)
    ensures
        after_blocks(s, batch, rolled_back, max_depth).replaced ==> after_blocks(
            s,
            batch,
            rolled_back,
            max_depth,
        ).touched,
    decreases batch.len(),
{
    if batch.len() > 0 {
        lemma_replacing_touches(s, batch.drop_last(), rolled_back, max_depth);
    }
}

/// However many blocks are offered to a consistent store, in whatever
/// order, the stored chain stays unbroken from genesis to the tip: each
/// block stands at its height and names the block below it as its parent.
pub proof fn lemma_chain_unbroken(s: StoreState, batch: Seq<BlockView>, rolled_back: u64, max_depth: u64)
    requires
        s.consistent(),
    ensures
        after_blocks(s, batch, rolled_back, max_depth).store.consistent(),
        ({
            let stored = after_blocks(s, batch, rolled_back, max_depth).store.blocks;
            forall|i: int|
                0 < i < stored.len() ==> (#[trigger] stored[i]).parent_hash == stored[i - 1].hash
        }),
    decreases batch.len(),
{
    if batch.len() > 0 {
        lemma_chain_unbroken(s, batch.drop_last(), rolled_back, max_depth);
        let prev = after_blocks(s, batch.drop_last(), rolled_back, max_depth);
        lemma_block_keeps_consistent(prev.store, batch.last(), prev.rolled_back, max_depth);
    }
}

/// A block that is stored already, at its height and with its hash,
/// changes nothing when it is offered again; and a block that went in is
/// stored already when it is offered a second time.
pub proof fn lemma_block_idempotent(s: StoreState, b: BlockView, rolled_back: u64, max_depth: u64)
    requires
        s.consistent(),
    ensures
        b.height < s.blocks.len() && s.blocks[b.height as int].hash == b.hash ==> judge_block(
            s,
            b,
            rolled_back,
            max_depth,
        ) == BlockOutcome::AlreadyStored && after_block(s, b, BlockOutcome::AlreadyStored) == s,
        ({
            let first = judge_block(s, b, rolled_back, max_depth);
            let stored = after_block(s, b, first);
            first is Appended || first is Replaced ==> judge_block(stored, b, 0, max_depth)
                == BlockOutcome::AlreadyStored && after_block(
                stored,
                b,
                BlockOutcome::AlreadyStored,
            ) == stored
        }),
{
}

/// An anchor that is stored already changes nothing when it is offered
/// again; and an anchor that was stored is stored already when it is
/// offered a second time.
pub proof fn lemma_anchor_idempotent(s: StoreState, a: Anchor, rolled_back: u64, max_depth: u64)
    requires
        s.consistent(),
    ensures
        lookup(s.anchors, a.l2_height) == Some(a) ==> judge_anchor(s, a, rolled_back, max_depth)
            == AnchorOutcome::Duplicate && after_anchor(s, a, AnchorOutcome::Duplicate) == s,
        ({
            let first = judge_anchor(s, a, rolled_back, max_depth);
            let stored = after_anchor(s, a, first);
            stores(first) ==> forall|d: u64|
                judge_anchor(stored, a, d, max_depth) == AnchorOutcome::Duplicate
        }),
{
    if lookup(s.anchors, a.l2_height) == Some(a) {
        lemma_nearest_is(s.anchors, a.l2_height, a.l2_height);
    }
    let first = judge_anchor(s, a, rolled_back, max_depth);
    let stored = after_anchor(s, a, first);
    if stores(first) {
        lemma_nearest_is(stored.anchors, a.l2_height, a.l2_height);
    }
}

/// Where a block of another hash than the stored one is offered for a
/// stored height above genesis, links to the block below, and nothing
/// stands against discarding, the store afterwards holds the blocks
/// below that height unchanged, the offered block at that height, and
/// nothing above it.
pub proof fn lemma_rollback_replaces(s: StoreState, b: BlockView, rolled_back: u64, max_depth: u64)
    requires
        s.consistent(),
        0 < b.height < s.blocks.len(),
        s.blocks[b.height as int].hash != b.hash,
        b.parent_hash == s.blocks[b.height - 1].hash,
        !finalized_within(s, b.height as int, s.blocks.len() as int),
        rolled_back + (s.blocks.len() - b.height) <= max_depth,
    ensures
        ({
            let outcome = judge_block(s, b, rolled_back, max_depth);
            let stored = after_block(s, b, outcome).blocks;
            &&& outcome == BlockOutcome::Replaced { removed: (s.blocks.len() - b.height) as u64 }
            &&& stored.len() == b.height + 1
            &&& forall|i: int| 0 <= i < b.height ==> stored[i] == s.blocks[i]
            &&& stored[b.height as int] == b
        }),
{
}

/// A finalized block outlives whatever block is offered: it stays
/// stored, unchanged and finalized.
pub proof fn lemma_finalized_outlives_block(
    s: StoreState,
    b: BlockView,
    rolled_back: u64,
    max_depth: u64,
    h: u64,
)
    requires
        s.consistent(),
        s.finalized(h),
    ensures
        ({
            let stored = after_block(s, b, judge_block(s, b, rolled_back, max_depth));
            stored.finalized(h) && stored.blocks[h as int] == s.blocks[h as int]
        }),
{
    let o = judge_block(s, b, rolled_back, max_depth);
    match o {
        BlockOutcome::Replaced { .. } => {
            assert(!finalized_within(s, b.height as int, s.blocks.len() as int));
        },
        BlockOutcome::RolledBack { tip, .. } => {
            assert(!finalized_within(s, tip + 1, s.blocks.len() as int));
        },
        _ => {},
    }
}

/// A finalized block outlives every batch of blocks.
pub proof fn lemma_finalized_outlives_blocks(
    s: StoreState,
    batch: Seq<BlockView>,
    rolled_back: u64,
    max_depth: u64,
    h: u64,
)
    requires
        s.consistent(),
        s.finalized(h),
    ensures
        ({
            let stored = after_blocks(s, batch, rolled_back, max_depth).store;
            stored.finalized(h) && stored.blocks[h as int] == s.blocks[h as int]
        }),
    decreases batch.len(),
{
    if batch.len() > 0 {
        let prev = after_blocks(s, batch.drop_last(), rolled_back, max_depth);
        lemma_finalized_outlives_blocks(s, batch.drop_last(), rolled_back, max_depth, h);
        lemma_chain_unbroken(s, batch.drop_last(), rolled_back, max_depth);
        lemma_finalized_outlives_block(prev.store, batch.last(), prev.rolled_back, max_depth, h);
    }
}

/// A finalized block outlives an anchor too, unless that anchor speaks
/// of its height or one below and contradicts the block stored there.
pub proof fn lemma_finalized_yields_to_anchor_only(
    s: StoreState,
    a: Anchor,
    rolled_back: u64,
    max_depth: u64,
    h: u64,
)
    requires
        s.consistent(),
        s.finalized(h),
    ensures
        ({
            let stored = after_anchor(s, a, judge_anchor(s, a, rolled_back, max_depth));
            ||| stored.finalized(h) && stored.blocks[h as int] == s.blocks[h as int]
            ||| a.l2_height <= h && a.state_root != s.blocks[a.l2_height as int].state_root
        }),
{
}

/// What offering one anchor to the store came to.
#[derive(Clone, Copy, Debug, PartialEq, Eq, Structural)]
pub enum AnchorOutcome {
    /// The anchor is stored and waits for the block at its height.
    Pending,
    /// The anchor is stored and confirms the stored block at its height.
    Finalized,
    /// This very anchor is stored already; nothing changed.
    Duplicate,
    /// An anchor logged no earlier is stored for this height, or for the
    /// nearest height below it that has one: the log has moved on since
    /// this anchor. Nothing changed.
    Stale,
    /// The anchor contradicts the stored block at its height: the store
    /// lost that block and those above it, `removed` in all, now ends at
    /// `tip`, and holds the anchor.
    RolledBack { tip: u64, removed: u64 },
    /// The anchor contradicts the store beyond repair; nothing changed.
    Refused(Inconsistency),
}

/// What offering the anchor `a` to the store `s` comes to, when
/// `rolled_back` blocks were discarded since the last block went in and at
/// most `max_depth` may be. The anchor is measured against the nearest
/// stored anchor at or below its height: the same anchor is a duplicate,
/// and one that was logged no earlier makes `a` stale. Otherwise `a` is
/// stored: it waits where its height is above the tip, it confirms the
/// stored block where their state roots agree, and where they differ it
/// takes that block and those above it from the store.
pub open spec fn judge_anchor(s: StoreState, a: Anchor, rolled_back: u64, max_depth: u64) -> AnchorOutcome {
    let n = s.blocks.len();
    let h = a.l2_height;
    let near = nearest_below(s.anchors, h);
    if near == Some(a) {
        AnchorOutcome::Duplicate
    } else if near matches Some(c) && !a.later_than(c) {
        AnchorOutcome::Stale
    } else if h >= n {
        AnchorOutcome::Pending
    } else if s.blocks[h as int].state_root == a.state_root {
        AnchorOutcome::Finalized
    } else if h == 0 {
        AnchorOutcome::Refused(Inconsistency::GenesisMismatch)
    } else if rolled_back + (n - h) > max_depth {
        AnchorOutcome::Refused(Inconsistency::ReorgTooDeep)
    } else {
        AnchorOutcome::RolledBack { tip: (h - 1) as u64, removed: (n - h) as u64 }
    }
}

/// The store after the anchor `a` was offered with the given outcome.
pub open spec fn after_anchor(s: StoreState, a: Anchor, outcome: AnchorOutcome) -> StoreState {
    match outcome {
        AnchorOutcome::Pending => s.with_anchor(a),
        AnchorOutcome::Finalized => s.with_anchor(a),
        AnchorOutcome::RolledBack { tip, .. } => s.truncated(tip).with_anchor(a),
        _ => s,
    }
}

/// Whatever anchor is offered to a consistent store, the store stays
/// consistent.
pub proof fn lemma_anchor_keeps_consistent(s: StoreState, a: Anchor, rolled_back: u64, max_depth: u64)
    requires
        s.consistent(),
    ensures
        after_anchor(s, a, judge_anchor(s, a, rolled_back, max_depth)).consistent(),
{
    let o = judge_anchor(s, a, rolled_back, max_depth);
    let r = after_anchor(s, a, o);
    match o {
        AnchorOutcome::Pending => {
            assert forall|h: u64| h < r.blocks.len() && r.anchors.contains_key(h) implies (#[trigger] r.anchors[h]).state_root
                == r.blocks[h as int].state_root by {
                assert(s.anchors[h].state_root == s.blocks[h as int].state_root);
            }
        },
        AnchorOutcome::Finalized => {
            assert forall|h: u64| h < r.blocks.len() && r.anchors.contains_key(h) implies (#[trigger] r.anchors[h]).state_root
                == r.blocks[h as int].state_root by {
                if h != a.l2_height {
                    assert(s.anchors[h].state_root == s.blocks[h as int].state_root);
                }
            }
        },
        AnchorOutcome::RolledBack { tip, .. } => {
            let t = s.truncated(tip);
            lemma_truncated_consistent(s, tip);
            assert(t.blocks.len() == a.l2_height);
            assert forall|h: u64| h < r.blocks.len() && r.anchors.contains_key(h) implies (#[trigger] r.anchors[h]).state_root
                == r.blocks[h as int].state_root by {
                assert(t.anchors[h].state_root == t.blocks[h as int].state_root);
            }
        },
        _ => {},
    }
}

/// Judges `a` against what the transaction has left of the store so far,
/// and stages what the outcome asks for.
fn stage_anchor(
    storage: &Storage,
    tx: &mut WriteTransaction,
    a: Anchor,
    rolled_back: u64,
    max_depth: u64,
) -> (outcome: AnchorOutcome)
    requires
        storage.wf(),
        old(tx).wf(),
        old(tx)@.blocks.len() == 0,
        effect(storage@, old(tx)@).consistent(),
    ensures
        final(tx).wf(),
        final(tx)@.blocks.len() == 0,
        outcome == judge_anchor(effect(storage@, old(tx)@), a, rolled_back, max_depth),
        effect(storage@, final(tx)@) == after_anchor(effect(storage@, old(tx)@), a, outcome),
{
    let ghost s = storage@;
    let ghost t = tx@;
    let ghost e = effect(s, t);
    proof {
        storage.lemma_consistent();
        assert(e.blocks =~= crate::storage::cut_to(s, t.cut).blocks);
    }
    let count = storage.block_count() as u64;
    let n: u64 = match tx.cut() {
        Some(c) => if c < count {
            c + 1
        } else {
            count
        },
        None => count,
    };
    assert(n == e.blocks.len());
    let h = a.l2_height;
    let staged = tx.staged_anchor_at_or_below(h);
    let kept = storage.anchor_at_or_below(
        match tx.cut() {
            Some(c) => if c < h {
                c
            } else {
                h
            },
            None => h,
        },
    );
    let near = match (staged, kept) {
        (Some(x), Some(y)) => if y.l2_height > x.l2_height {
            kept
        } else {
            staged
        },
        (Some(_), None) => staged,
        (None, _) => kept,
    };
    proof {
        tx.lemma_keyed();
        lemma_nearest_in_effect(s, t, h);
    }
    assert(near == nearest_below(e.anchors, h));
    match near {
        Some(cur) => {
            if cur == a {
                return AnchorOutcome::Duplicate;
            }
            if !a.is_later_than(&cur) {
                return AnchorOutcome::Stale;
            }
        },
        None => {},
    }
    if h >= n {
        tx.insert_anchor(a);
        proof {
            lemma_effect_with_anchor(s, t, a);
        }
        return AnchorOutcome::Pending;
    }
    let root = storage.state_root_at(h);
    assert(root == Some(e.blocks[h as int].state_root));
    let agrees = match root {
        Some(r) => r == a.state_root,
        None => false,
    };
    if agrees {
        tx.insert_anchor(a);
        proof {
            lemma_effect_with_anchor(s, t, a);
        }
        return AnchorOutcome::Finalized;
    }
    if h == 0 {
        return AnchorOutcome::Refused(Inconsistency::GenesisMismatch);
    }
    let removed = n - h;
    if removed > max_depth || rolled_back > max_depth - removed {
        return AnchorOutcome::Refused(Inconsistency::ReorgTooDeep);
    }
    tx.truncate_above(h - 1);
    let ghost t1 = tx@;
    tx.insert_anchor(a);
    proof {
        let keep = (h - 1) as u64;
        lemma_effect_with_cut(s, t, keep);
        lemma_effect_with_anchor(s, t1, a);
        t.blocks.lemma_filter_len(|b: BlockView| b.height <= keep);
    }
    AnchorOutcome::RolledBack { tip: h - 1, removed }
}

/// Offers one anchor to the store: it is stored unless the nearest anchor
/// at or below its height was logged no earlier, and where it contradicts
/// the stored block at its height, the store gives up that block and
/// those above it, within the limit on discarding.
pub fn apply_anchor(storage: &mut Storage, a: Anchor, rolled_back: u64, max_depth: u64) -> (outcome:
    AnchorOutcome)
    requires
        old(storage).wf(),
    ensures
        final(storage).wf(),
        outcome == judge_anchor(old(storage)@, a, rolled_back, max_depth),
        final(storage)@ == after_anchor(old(storage)@, a, outcome),
{
    let ghost s = storage@;
    let mut tx = storage.begin_write();
    proof {
        storage.lemma_consistent();
        lemma_effect_empty(s);
    }
    let outcome = stage_anchor(storage, &mut tx, a, rolled_back, max_depth);
    proof {
        lemma_anchor_keeps_consistent(s, a, rolled_back, max_depth);
    }
    let r = storage.commit(tx);
    assert(r is Ok);
    outcome
}

/// What a batch of anchors came to, folded from the first to the last.
pub struct AnchorFold {
    /// The store after the anchors so far.
    pub store: StoreState,
    /// The count of blocks discarded since the last block went in.
    pub rolled_back: u64,
    /// Whether some anchor so far was stored.
    pub touched: bool,
    /// The contradiction that stopped the fold, if one did.
    pub refused: Option<Inconsistency>,
}

/// The count of discarded blocks after an anchor's outcome.
pub open spec fn rolled_back_after_anchor(rolled_back: u64, outcome: AnchorOutcome) -> u64 {
    match outcome {
        AnchorOutcome::RolledBack { removed, .. } => (rolled_back + removed) as u64,
        _ => rolled_back,
    }
}

/// Whether an outcome stored its anchor.
pub open spec fn stores(outcome: AnchorOutcome) -> bool {
    outcome is Pending || outcome is Finalized || outcome is RolledBack
}

/// The anchors of `batch` offered one after the other to `s`, up to the
/// first that is refused.
pub open spec fn after_anchors(s: StoreState, batch: Seq<Anchor>, rolled_back: u64, max_depth: u64) -> AnchorFold
    decreases batch.len(),
{
    if batch.len() == 0 {
        AnchorFold { store: s, rolled_back, touched: false, refused: None }
    } else {
        let prev = after_anchors(s, batch.drop_last(), rolled_back, max_depth);
        if prev.refused is Some {
            prev
        } else {
            let o = judge_anchor(prev.store, batch.last(), prev.rolled_back, max_depth);
            match o {
                AnchorOutcome::Refused(k) => AnchorFold { refused: Some(k), ..prev },
                _ => AnchorFold {
                    store: after_anchor(prev.store, batch.last(), o),
                    rolled_back: rolled_back_after_anchor(prev.rolled_back, o),
                    touched: prev.touched || stores(o),
                    refused: None,
                },
            }
        }
    }
}

/// What offering a batch of anchors came to.
#[derive(Clone, Copy, Debug, PartialEq, Eq, Structural)]
pub enum AnchorBatchOutcome {
    /// Every anchor was dealt with, in one transaction.
    Applied {
        /// The count of blocks discarded since the last block went in.
        rolled_back: u64,
        /// Whether some anchor was stored.
        touched: bool,
    },
    /// An anchor contradicts the store beyond repair; the whole batch was
    /// abandoned and nothing changed.
    Refused(Inconsistency),
}

/// Offers a batch of anchors to the store, in their order and in one
/// transaction: either every anchor is dealt with as `apply_anchor` would,
/// or, where one is refused, none is.
pub fn apply_anchors(storage: &mut Storage, batch: &Vec<Anchor>, rolled_back: u64, max_depth: u64) -> (outcome:
    AnchorBatchOutcome)
    requires
        old(storage).wf(),
    ensures
        final(storage).wf(),
        ({
            let fold = after_anchors(old(storage)@, batch@, rolled_back, max_depth);
            match fold.refused {
                Some(k) => outcome == AnchorBatchOutcome::Refused(k) && final(storage)@ == old(
                    storage,
                )@,
                None => outcome == (AnchorBatchOutcome::Applied {
                    rolled_back: fold.rolled_back,
                    touched: fold.touched,
                }) && final(storage)@ == fold.store,
            }
        }),
{
    let ghost s = storage@;
    let mut tx = storage.begin_write();
    let mut depth = rolled_back;
    let mut touched = false;
    let mut i: usize = 0;
    proof {
        storage.lemma_consistent();
        lemma_effect_empty(s);
        assert(batch@.take(0) =~= Seq::<Anchor>::empty());
    }
    while i < batch.len()
        invariant
            i <= batch@.len(),
            storage.wf(),
            storage@ == s,
            tx.wf(),
            tx@.blocks.len() == 0,
            after_anchors(s, batch@.take(i as int), rolled_back, max_depth) == (AnchorFold {
                store: effect(s, tx@),
                rolled_back: depth,
                touched,
                refused: None,
            }),
            effect(s, tx@).consistent(),
        decreases batch.len() - i,
    {
        let a = batch[i];
        let ghost prev = effect(s, tx@);
        proof {
            assert(batch@.take(i + 1).drop_last() =~= batch@.take(i as int));
            lemma_anchor_keeps_consistent(prev, a, depth, max_depth);
        }
        let o = stage_anchor(storage, &mut tx, a, depth, max_depth);
        match o {
            AnchorOutcome::Refused(k) => {
                proof {
                    lemma_refusal_stays(s, batch@, i + 1, rolled_back, max_depth);
                }
                return AnchorBatchOutcome::Refused(k);
            },
            AnchorOutcome::RolledBack { tip, removed } => {
                depth = depth + removed;
                touched = true;
            },
            AnchorOutcome::Pending => {
                touched = true;
            },
            AnchorOutcome::Finalized => {
                touched = true;
            },
            _ => {},
        }
        i += 1;
    }
    assert(batch@.take(i as int) =~= batch@);
    let r = storage.commit(tx);
    assert(r is Ok);
    AnchorBatchOutcome::Applied { rolled_back: depth, touched }
}

/// Once a prefix of a batch is refused, the whole batch is, for the same
/// reason.
proof fn lemma_refusal_stays(s: StoreState, batch: Seq<Anchor>, k: int, rolled_back: u64, max_depth: u64)
    requires
        0 <= k <= batch.len(),
        after_anchors(s, batch.take(k), rolled_back, max_depth).refused is Some,
    ensures
        after_anchors(s, batch, rolled_back, max_depth) == after_anchors(
            s,
            batch.take(k),
            rolled_back,
            max_depth,
        ),
    decreases batch.len() - k,
{
    if k == batch.len() {
        assert(batch.take(k) =~= batch);
    } else {
        assert(batch.drop_last().take(k) =~= batch.take(k));
        lemma_refusal_stays(s, batch.drop_last(), k, rolled_back, max_depth);
    }
}

/// Whether the anchor `a` contradicts the block that `s` holds at a
/// height at or below `h`.
pub open spec fn conflicts_at_or_below(s: StoreState, a: Anchor, h: u64) -> bool {
    a.l2_height <= h && a.l2_height < s.blocks.len() && a.state_root
        != s.blocks[a.l2_height as int].state_root
}

/// A finalized block outlives every batch of anchors of which none
/// contradicts a block at its height or below: it stays stored, unchanged
/// and finalized, and so do the blocks below it.
pub proof fn lemma_finalized_outlives_anchors(
    s: StoreState,
    batch: Seq<Anchor>,
    rolled_back: u64,
    max_depth: u64,
    h: u64,
)
    requires
        s.consistent(),
        s.finalized(h),
        forall|i: int| 0 <= i < batch.len() ==> !conflicts_at_or_below(s, #[trigger] batch[i], h),
    ensures
        ({
            let stored = after_anchors(s, batch, rolled_back, max_depth).store;
            &&& stored.consistent()
            &&& stored.finalized(h)
            &&& forall|k: int| 0 <= k <= h ==> stored.blocks[k] == s.blocks[k]
        }),
    decreases batch.len(),
{
    if batch.len() > 0 {
        let front = batch.drop_last();
        let last = batch.last();
        assert forall|i: int| 0 <= i < front.len() implies !conflicts_at_or_below(
            s,
            #[trigger] front[i],
            h,
        ) by {
            assert(!conflicts_at_or_below(s, batch[i], h));
        }
        lemma_finalized_outlives_anchors(s, front, rolled_back, max_depth, h);
        let prev = after_anchors(s, front, rolled_back, max_depth);
        assert(!conflicts_at_or_below(s, batch[batch.len() - 1], h));
        if last.l2_height <= h {
            assert(prev.store.blocks[last.l2_height as int] == s.blocks[last.l2_height as int]);
        }
        lemma_anchor_keeps_consistent(prev.store, last, prev.rolled_back, max_depth);
        lemma_finalized_yields_to_anchor_only(prev.store, last, prev.rolled_back, max_depth, h);
    }
}

} // verus!
