//! Polling a feed again from the same cursor: what it delivered before
//! changes nothing when it is delivered a second time.

use crate::anchors::{is_nearest_below, lemma_nearest_below, lemma_nearest_is, nearest_below};
use crate::ingest::{heights_ascend, in_log_order};
use crate::reconcile::{
    after_anchor, after_anchors, after_block, after_blocks, judge_anchor, judge_block,
    lemma_anchor_keeps_consistent, lemma_chain_unbroken, AnchorFold, AnchorOutcome, BlockFold,
};
use crate::storage::StoreState;
use crate::types::{Anchor, BlockView};
use vstd::prelude::*;

verus! {

/// Whether the store holds a block with the height and the hash of `b`.
pub open spec fn stored_in(s: StoreState, b: BlockView) -> bool {
    b.height < s.blocks.len() && s.blocks[b.height as int].hash == b.hash
}

/// Whether the nearest anchor that the store holds at or below the
/// height of `a` is that anchor or one that was logged no earlier.
pub open spec fn covered_by(s: StoreState, a: Anchor) -> bool {
    nearest_below(s.anchors, a.l2_height) matches Some(c) && (c == a || !a.later_than(c))
}

proof fn lemma_heights_ascend(batch: Seq<BlockView>, i: int, j: int)
    requires
        heights_ascend(batch),
        0 <= i < j < batch.len(),
    ensures
        batch[i].height < batch[j].height,
    decreases j - i,
{
    assert(batch[j - 1].height < batch[j].height);
    if i < j - 1 {
        lemma_heights_ascend(batch, i, j - 1);
    }
}

proof fn lemma_log_order(cursor: u64, batch: Seq<Anchor>, i: int, j: int)
    requires
        in_log_order(cursor, batch),
        0 <= i < j < batch.len(),
    ensures
        batch[j].later_than(batch[i]),
    decreases j - i,
{
    assert(batch[j].later_than(batch[j - 1]));
    if i < j - 1 {
        lemma_log_order(cursor, batch, i, j - 1);
    }
}

/// After a batch of ascending blocks went through without a halt, the
/// store holds each of its blocks.
proof fn lemma_batch_is_stored(s: StoreState, batch: Seq<BlockView>, rolled_back: u64, max_depth: u64)
    requires
        s.consistent(),
        heights_ascend(batch),
        after_blocks(s, batch, rolled_back, max_depth).stopped is None,
    ensures
        forall|i: int|
            0 <= i < batch.len() ==> stored_in(
                after_blocks(s, batch, rolled_back, max_depth).store,
                #[trigger] batch[i],
            ),
    decreases batch.len(),
{
    if batch.len() > 0 {
        let front = batch.drop_last();
        let last = batch.last();
        let prev = after_blocks(s, front, rolled_back, max_depth);
        let done = after_blocks(s, batch, rolled_back, max_depth);
        assert(heights_ascend(front)) by {
            assert forall|i: int| 0 < i < front.len() implies front[i - 1].height
                < (#[trigger] front[i]).height by {
                assert(batch[i - 1].height < batch[i].height);
            }
        }
        lemma_batch_is_stored(s, front, rolled_back, max_depth);
        lemma_chain_unbroken(s, front, rolled_back, max_depth);
        let o = judge_block(prev.store, last, prev.rolled_back, max_depth);
        assert(done.store == after_block(prev.store, last, o));
        assert forall|i: int| 0 <= i < batch.len() implies stored_in(
            done.store,
            #[trigger] batch[i],
        ) by {
            if i < front.len() {
                assert(stored_in(prev.store, front[i]));
                lemma_heights_ascend(batch, i, batch.len() - 1);
            }
        }
    }
}

/// A batch of blocks that the store holds changes nothing.
proof fn lemma_stored_batch_changes_nothing(
    t: StoreState,
    batch: Seq<BlockView>,
    rolled_back: u64,
    max_depth: u64,
)
    requires
        forall|i: int| 0 <= i < batch.len() ==> stored_in(t, #[trigger] batch[i]),
    ensures
        after_blocks(t, batch, rolled_back, max_depth) == (BlockFold {
            store: t,
            rolled_back,
            touched: false,
            replaced: false,
            stopped: None,
        }),
    decreases batch.len(),
{
    if batch.len() > 0 {
        let front = batch.drop_last();
        assert forall|i: int| 0 <= i < front.len() implies stored_in(t, #[trigger] front[i]) by {
            assert(stored_in(t, batch[i]));
        }
        lemma_stored_batch_changes_nothing(t, front, rolled_back, max_depth);
        assert(stored_in(t, batch[batch.len() - 1]));
    }
}

/// A batch of ascending blocks that went through without a halt changes
/// nothing when it is offered a second time: no block is stored twice,
/// none is replaced, and the store is what it was.
pub proof fn lemma_repolled_blocks_change_nothing(
    s: StoreState,
    batch: Seq<BlockView>,
    rolled_back: u64,
    max_depth: u64,
)
    requires
        s.consistent(),
        heights_ascend(batch),
        after_blocks(s, batch, rolled_back, max_depth).stopped is None,
    ensures
        ({
            let once = after_blocks(s, batch, rolled_back, max_depth);
            after_blocks(once.store, batch, once.rolled_back, max_depth) == (BlockFold {
                store: once.store,
                rolled_back: once.rolled_back,
                touched: false,
                replaced: false,
                stopped: None,
            })
        }),
{
    let once = after_blocks(s, batch, rolled_back, max_depth);
    lemma_batch_is_stored(s, batch, rolled_back, max_depth);
    lemma_stored_batch_changes_nothing(once.store, batch, once.rolled_back, max_depth);
}

/// The count of discarded blocks never goes down over a batch of anchors,
/// it goes up only where an anchor was stored, and the store stays
/// consistent.
pub proof fn lemma_anchor_fold_grows(s: StoreState, batch: Seq<Anchor>, rolled_back: u64, max_depth: u64)
    requires
        s.consistent(),
    ensures
        after_anchors(s, batch, rolled_back, max_depth).rolled_back >= rolled_back,
        after_anchors(s, batch, rolled_back, max_depth).rolled_back != rolled_back
            ==> after_anchors(s, batch, rolled_back, max_depth).touched,
        after_anchors(s, batch, rolled_back, max_depth).store.consistent(),
    decreases batch.len(),
{
    if batch.len() > 0 {
        let prev = after_anchors(s, batch.drop_last(), rolled_back, max_depth);
        lemma_anchor_fold_grows(s, batch.drop_last(), rolled_back, max_depth);
        lemma_anchor_keeps_consistent(prev.store, batch.last(), prev.rolled_back, max_depth);
    }
}

/// An anchor that the store covers stays covered when an anchor that was
/// logged later is offered.
proof fn lemma_stays_covered(s: StoreState, a: Anchor, next: Anchor, rolled_back: u64, max_depth: u64)
    requires
        s.consistent(),
        covered_by(s, a),
        next.later_than(a),
    ensures
        covered_by(after_anchor(s, next, judge_anchor(s, next, rolled_back, max_depth)), a),
{
    let o = judge_anchor(s, next, rolled_back, max_depth);
    let r = after_anchor(s, next, o);
    let h = a.l2_height;
    let hn = next.l2_height;
    lemma_nearest_below(s.anchors, h);
    let c = nearest_below(s.anchors, h).unwrap();
    let kc = choose|k: u64| is_nearest_below(s.anchors, h, k) && s.anchors[k] == c;
    match o {
        AnchorOutcome::Pending => {
            if kc <= hn <= h {
                lemma_nearest_is(r.anchors, h, hn);
            } else {
                lemma_nearest_is(r.anchors, h, kc);
            }
        },
        AnchorOutcome::Finalized => {
            if kc <= hn <= h {
                lemma_nearest_is(r.anchors, h, hn);
            } else {
                lemma_nearest_is(r.anchors, h, kc);
            }
        },
        AnchorOutcome::RolledBack { tip, .. } => {
            if hn <= h {
                lemma_nearest_is(r.anchors, h, hn);
            } else {
                lemma_nearest_is(r.anchors, h, kc);
            }
        },
        _ => {},
    }
}

/// After a batch of anchors in log order went through, the store covers
/// each of its anchors.
proof fn lemma_batch_is_covered(
    s: StoreState,
    cursor: u64,
    batch: Seq<Anchor>,
    rolled_back: u64,
    max_depth: u64,
)
    requires
        s.consistent(),
        in_log_order(cursor, batch),
        after_anchors(s, batch, rolled_back, max_depth).refused is None,
    ensures
        forall|i: int|
            0 <= i < batch.len() ==> covered_by(
                after_anchors(s, batch, rolled_back, max_depth).store,
                #[trigger] batch[i],
            ),
    decreases batch.len(),
{
    if batch.len() > 0 {
        let front = batch.drop_last();
        let last = batch.last();
        let prev = after_anchors(s, front, rolled_back, max_depth);
        let done = after_anchors(s, batch, rolled_back, max_depth);
        assert(in_log_order(cursor, front)) by {
            assert forall|i: int| 0 <= i < front.len() implies (#[trigger] front[i]).l1_block_number
                >= cursor by {
                assert(batch[i].l1_block_number >= cursor);
            }
            assert forall|i: int| 0 < i < front.len() implies (#[trigger] front[i]).later_than(
                front[i - 1],
            ) by {
                assert(batch[i].later_than(batch[i - 1]));
            }
        }
        lemma_anchor_fold_grows(s, front, rolled_back, max_depth);
        let o = judge_anchor(prev.store, last, prev.rolled_back, max_depth);
        lemma_batch_is_covered(s, cursor, front, rolled_back, max_depth);
        assert(done.store == after_anchor(prev.store, last, o));
        assert forall|i: int| 0 <= i < batch.len() implies covered_by(
            done.store,
            #[trigger] batch[i],
        ) by {
            if i < front.len() {
                assert(covered_by(prev.store, front[i]));
                lemma_log_order(cursor, batch, i, batch.len() - 1);
                lemma_stays_covered(prev.store, batch[i], last, prev.rolled_back, max_depth);
            } else {
                if o is Pending || o is Finalized || o is RolledBack {
                    lemma_nearest_is(done.store.anchors, last.l2_height, last.l2_height);
                }
            }
        }
    }
}

/// A batch of anchors that the store covers changes nothing.
proof fn lemma_covered_batch_changes_nothing(
    t: StoreState,
    batch: Seq<Anchor>,
    rolled_back: u64,
    max_depth: u64,
)
    requires
        forall|i: int| 0 <= i < batch.len() ==> covered_by(t, #[trigger] batch[i]),
    ensures
        after_anchors(t, batch, rolled_back, max_depth) == (AnchorFold {
            store: t,
            rolled_back,
            touched: false,
            refused: None,
        }),
    decreases batch.len(),
{
    if batch.len() > 0 {
        let front = batch.drop_last();
        assert forall|i: int| 0 <= i < front.len() implies covered_by(t, #[trigger] front[i]) by {
            assert(covered_by(t, batch[i]));
        }
        lemma_covered_batch_changes_nothing(t, front, rolled_back, max_depth);
        assert(covered_by(t, batch[batch.len() - 1]));
    }
}

/// A batch of anchors in log order that went through changes nothing
/// when it is offered a second time, whatever it did the first time.
pub proof fn lemma_repolled_anchors_change_nothing(
    s: StoreState,
    cursor: u64,
    batch: Seq<Anchor>,
    rolled_back: u64,
    max_depth: u64,
)
    requires
        s.consistent(),
        in_log_order(cursor, batch),
        after_anchors(s, batch, rolled_back, max_depth).refused is None,
    ensures
        ({
            let once = after_anchors(s, batch, rolled_back, max_depth);
            after_anchors(once.store, batch, once.rolled_back, max_depth) == (AnchorFold {
                store: once.store,
                rolled_back: once.rolled_back,
                touched: false,
                refused: None,
            })
        }),
{
    let once = after_anchors(s, batch, rolled_back, max_depth);
    lemma_batch_is_covered(s, cursor, batch, rolled_back, max_depth);
    lemma_covered_batch_changes_nothing(once.store, batch, once.rolled_back, max_depth);
}

} // verus!
