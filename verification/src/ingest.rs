//! The shape that a feed's response must have before the node looks at
//! what it says.

use crate::error::IngestError;
use crate::types::{chain_of, Anchor, Block, BlockView};
use vstd::prelude::*;

verus! {

/// Whether the heights of `batch` ascend from block to block. A height
/// that is left out is no fault of the shape: it is a gap, which the
/// acceptance rules deal with.
pub open spec fn heights_ascend(batch: Seq<BlockView>) -> bool {
    forall|i: int| 0 < i < batch.len() ==> batch[i - 1].height < (#[trigger] batch[i]).height
}

/// Whether the anchors of `batch` were logged at or after the block
/// `cursor` of the settlement layer, each strictly later than the one
/// before it.
pub open spec fn in_log_order(cursor: u64, batch: Seq<Anchor>) -> bool {
    &&& forall|i: int| 0 <= i < batch.len() ==> (#[trigger] batch[i]).l1_block_number >= cursor
    &&& forall|i: int| 0 < i < batch.len() ==> (#[trigger] batch[i]).later_than(batch[i - 1])
}

/// Accepts a batch of blocks whose heights ascend, and calls any other
/// malformed.
pub fn check_block_batch(batch: &Vec<Block>) -> (r: Result<(), IngestError>)
    ensures
        r is Ok <==> heights_ascend(chain_of(batch@)),
        r is Err ==> r == Err::<(), IngestError>(IngestError::Malformed),
{
    let ghost all = chain_of(batch@);
    let mut i: usize = 1;
    while i < batch.len()
        invariant
            1 <= i,
            all == chain_of(batch@),
            forall|j: int|
                0 < j < i && j < all.len() ==> all[j - 1].height < (#[trigger] all[j]).height,
        decreases batch.len() - i,
    {
        if batch[i - 1].height >= batch[i].height {
            assert(!(all[i - 1].height < all[i as int].height));
            return Err(IngestError::Malformed);
        }
        i += 1;
    }
    Ok(())
}

/// Accepts a batch of anchors logged at or after `cursor` in strictly
/// ascending log order, and calls any other malformed.
pub fn check_anchor_batch(cursor: u64, batch: &Vec<Anchor>) -> (r: Result<(), IngestError>)
    ensures
        r is Ok <==> in_log_order(cursor, batch@),
        r is Err ==> r == Err::<(), IngestError>(IngestError::Malformed),
{
    let mut i: usize = 0;
    while i < batch.len()
        invariant
            i <= batch@.len(),
            forall|j: int| 0 <= j < i ==> (#[trigger] batch@[j]).l1_block_number >= cursor,
            forall|j: int| 0 < j < i ==> (#[trigger] batch@[j]).later_than(batch@[j - 1]),
        decreases batch.len() - i,
    {
        if batch[i].l1_block_number < cursor {
            return Err(IngestError::Malformed);
        }
        if i > 0 && !batch[i].is_later_than(&batch[i - 1]) {
            return Err(IngestError::Malformed);
        }
        i += 1;
    }
    Ok(())
}

} // verus!
