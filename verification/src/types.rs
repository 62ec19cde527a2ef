//! Chain records: hashes, transactions, blocks, anchors and the sync status.

use vstd::prelude::*;

verus! {

/// A 256-bit digest, held as two 128-bit halves.
#[derive(Clone, Copy, Debug, PartialEq, Eq, Structural)]
pub struct Hash {
    pub hi: u128,
    pub lo: u128,
}

impl Hash {
    /// The digest as a number: `hi` counts in units of 2^128.
    pub open spec fn value(self) -> nat {
        (self.hi * 0x1_0000_0000_0000_0000_0000_0000_0000_0000nat + self.lo) as nat
    }

    /// The digest with the given halves.
    pub fn new(hi: u128, lo: u128) -> (h: Hash)
        ensures
            h == (Hash { hi, lo }),
    {
        Hash { hi, lo }
    }

    /// The all-zero digest, the parent of a genesis block by convention.
    pub fn zero() -> (h: Hash)
        ensures
            h == (Hash { hi: 0, lo: 0 }),
    {
        Hash { hi: 0, lo: 0 }
    }
}

/// A rollup transaction as far as the node looks into it: its identifier and
/// the contract it addresses.
#[derive(Clone, Copy, Debug, PartialEq, Eq, Structural)]
pub struct Transaction {
    pub hash: Hash,
    pub contract_address: Hash,
}

/// A rollup block. Its identity is `(height, hash)`.
#[derive(Debug)]
pub struct Block {
    pub height: u64,
    pub hash: Hash,
    pub parent_hash: Hash,
    pub state_root: Hash,
    pub transactions: Vec<Transaction>,
}

/// The mathematical value of a [`Block`].
pub struct BlockView {
    pub height: u64,
    pub hash: Hash,
    pub parent_hash: Hash,
    pub state_root: Hash,
    pub transactions: Seq<Transaction>,
}

impl View for Block {
    type V = BlockView;

    open spec fn view(&self) -> BlockView {
        BlockView {
            height: self.height,
            hash: self.hash,
            parent_hash: self.parent_hash,
            state_root: self.state_root,
            transactions: self.transactions@,
        }
    }
}

/// The values of a sequence of blocks, in order.
pub open spec fn chain_of(blocks: Seq<Block>) -> Seq<BlockView> {
    Seq::new(blocks.len(), |i: int| blocks[i]@)
}

impl Block {
    /// A block with the given fields.
    pub fn new(
        height: u64,
        hash: Hash,
        parent_hash: Hash,
        state_root: Hash,
        transactions: Vec<Transaction>,
    ) -> (b: Block)
        ensures
            b@ == (BlockView {
                height,
                hash,
                parent_hash,
                state_root,
                transactions: transactions@,
            }),
    {
        Block { height, hash, parent_hash, state_root, transactions }
    }

    /// An independent copy with the same value.
    pub fn duplicate(&self) -> (b: Block)
        ensures
            b@ == self@,
    {
        let mut transactions: Vec<Transaction> = Vec::new();
        let mut i: usize = 0;
        while i < self.transactions.len()
            invariant
                i <= self.transactions.len(),
                transactions@ == self.transactions@.take(i as int),
            decreases self.transactions.len() - i,
        {
            transactions.push(self.transactions[i]);
            i += 1;
        }
        assert(self.transactions@.take(i as int) =~= self.transactions@);
        Block {
            height: self.height,
            hash: self.hash,
            parent_hash: self.parent_hash,
            state_root: self.state_root,
            transactions,
        }
    }

    /// The position of the first transaction with the given identifier.
    pub fn find_transaction(&self, hash: Hash) -> (r: Option<usize>)
        ensures
            first_with_hash(self@.transactions, hash, r),
    {
        let mut i: usize = 0;
        while i < self.transactions.len()
            invariant
                i <= self.transactions.len(),
                forall|j: int| 0 <= j < i ==> self.transactions@[j].hash != hash,
            decreases self.transactions.len() - i,
        {
            if self.transactions[i].hash == hash {
                return Some(i);
            }
            i += 1;
        }
        None
    }
}

/// Whether `at` is the least position in `txs` that holds the identifier
/// `hash`, or `None` where no position holds it.
pub open spec fn first_with_hash(txs: Seq<Transaction>, hash: Hash, at: Option<usize>) -> bool {
    match at {
        Some(p) => p < txs.len() && txs[p as int].hash == hash && forall|k: int|
            0 <= k < p ==> txs[k].hash != hash,
        None => forall|k: int| 0 <= k < txs.len() ==> txs[k].hash != hash,
    }
}

/// A settlement-layer claim that the rollup reached `state_root` at
/// `l2_height`. Its identity is `(l1_block_number, l1_log_index)`.
#[derive(Clone, Copy, Debug, PartialEq, Eq, Structural)]
pub struct Anchor {
    pub l2_height: u64,
    pub state_root: Hash,
    pub l1_block_number: u64,
    pub l1_log_index: u32,
}

impl Anchor {
    /// Whether `self` was logged strictly later on the settlement layer
    /// than `other`.
    pub open spec fn later_than(self, other: Anchor) -> bool {
        self.l1_block_number > other.l1_block_number || (self.l1_block_number
            == other.l1_block_number && self.l1_log_index > other.l1_log_index)
    }

    /// Whether `self` was logged strictly later on the settlement layer
    /// than `other`.
    pub fn is_later_than(&self, other: &Anchor) -> (r: bool)
        ensures
            r == self.later_than(*other),
    {
        self.l1_block_number > other.l1_block_number || (self.l1_block_number
            == other.l1_block_number && self.l1_log_index > other.l1_log_index)
    }
}

/// Progress of the node, as published to readers after every step.
#[derive(Clone, Copy, Debug, PartialEq, Eq, Structural)]
pub struct SyncStatus {
    /// The highest rollup height that an anchor in the store speaks of; 0
    /// while there is none.
    pub highest_l1_anchor_height: u64,
    /// The height of the stored tip; 0 while the store holds no block.
    pub highest_applied_l2_height: u64,
    /// Whether both feeds had nothing new at their most recent poll.
    pub is_caught_up: bool,
}

} // verus!
