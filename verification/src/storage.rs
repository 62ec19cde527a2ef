//! The store: blocks and anchors behind atomic write transactions.

use crate::anchors::{
    ascending, by_height, keyed_by_height, lemma_nearest_below, lemma_nearest_is,
    lemma_nearest_none, lookup, nearest_below, up_to, AnchorIndex,
};
use crate::error::StorageError;
use crate::types::{self, chain_of, first_with_hash, Anchor, Block, BlockView, Transaction};
use vstd::prelude::*;

verus! {

/// The mathematical value of a store: its blocks from genesis upwards and
/// its anchors by rollup height.
pub struct StoreState {
    pub blocks: Seq<BlockView>,
    pub anchors: Map<u64, Anchor>,
}

impl StoreState {
    /// The store without records.
    pub open spec fn empty() -> StoreState {
        StoreState { blocks: Seq::empty(), anchors: Map::empty() }
    }

    /// Each block stands at the position of its height and names the block
    /// below it as its parent.
    pub open spec fn linked(self) -> bool {
        chain_linked(self.blocks)
    }

    /// Wherever a stored block has an anchor at its height, their state
    /// roots are the same.
    pub open spec fn anchored(self) -> bool {
        forall|h: u64|
            h < self.blocks.len() && self.anchors.contains_key(h) ==> (#[trigger] self.anchors[h]).state_root
                == self.blocks[h as int].state_root
    }

    /// What holds of every committed state.
    pub open spec fn consistent(self) -> bool {
        &&& self.linked()
        &&& self.anchored()
        &&& keyed_by_height(self.anchors)
    }

    /// The height of the highest stored block.
    pub open spec fn tip(self) -> Option<u64> {
        if self.blocks.len() == 0 {
            None
        } else {
            Some((self.blocks.len() - 1) as u64)
        }
    }

    /// Whether the block at height `h` is stored and confirmed by an anchor
    /// with its state root.
    pub open spec fn finalized(self, h: u64) -> bool {
        &&& h < self.blocks.len()
        &&& self.anchors.contains_key(h)
        &&& self.anchors[h].state_root == self.blocks[h as int].state_root
    }

    /// The store without the records above the height `keep`.
    pub open spec fn truncated(self, keep: u64) -> StoreState {
        StoreState {
            blocks: if keep + 1 <= self.blocks.len() {
                self.blocks.take(keep + 1)
            } else {
                self.blocks
            },
            anchors: up_to(self.anchors, keep),
        }
    }

    /// The store with `b` on top.
    pub open spec fn with_block(self, b: BlockView) -> StoreState {
        StoreState { blocks: self.blocks.push(b), anchors: self.anchors }
    }

    /// The store with `a` as the anchor for its height.
    pub open spec fn with_anchor(self, a: Anchor) -> StoreState {
        StoreState { blocks: self.blocks, anchors: self.anchors.insert(a.l2_height, a) }
    }
}

/// Each block of `blocks` stands at the position of its height and names
/// the block before it as its parent.
pub open spec fn chain_linked(blocks: Seq<BlockView>) -> bool {
    &&& forall|i: int| 0 <= i < blocks.len() ==> (#[trigger] blocks[i]).height == i
    &&& forall|i: int|
        0 < i < blocks.len() ==> (#[trigger] blocks[i]).parent_hash == blocks[i - 1].hash
}

/// Where a transaction stands in the store.
#[derive(Clone, Copy, Debug, PartialEq, Eq, Structural)]
pub struct TxLocation {
    pub height: u64,
    pub index: usize,
}

/// The version of the record layout that this library reads and writes.
pub const SCHEMA_VERSION: u32 = 1;

/// The records of a store as they lie in its file: the version of their
/// layout, the blocks from genesis upwards, and the anchors in ascending
/// order of height. A file that was only just created holds version 0 and
/// no records.
#[derive(Debug)]
pub struct StoreImage {
    pub schema_version: u32,
    pub blocks: Vec<Block>,
    pub anchors: Vec<Anchor>,
}

/// Whether records of the layout `version` can be brought to the current
/// layout: they are in it already, or the file is new and empty.
pub open spec fn migratable(version: u32, blocks: Seq<BlockView>, anchors: Seq<Anchor>) -> bool {
    version == SCHEMA_VERSION || (version == 0 && blocks.len() == 0 && anchors.len() == 0)
}

/// The store that the given records make up.
pub open spec fn store_of(blocks: Seq<BlockView>, anchors: Seq<Anchor>) -> StoreState {
    StoreState { blocks, anchors: by_height(anchors) }
}

/// Whether the given records make up a consistent store.
pub open spec fn loadable(blocks: Seq<BlockView>, anchors: Seq<Anchor>) -> bool {
    ascending(anchors) && store_of(blocks, anchors).consistent()
}

/// The committed records of one chain.
#[derive(Debug)]
pub struct Storage {
    blocks: Vec<Block>,
    anchors: AnchorIndex,
}

impl View for Storage {
    type V = StoreState;

    closed spec fn view(&self) -> StoreState {
        StoreState { blocks: chain_of(self.blocks@), anchors: self.anchors@ }
    }
}

impl Storage {
    /// The invariant of the store.
    pub closed spec fn wf(&self) -> bool {
        &&& self.anchors.wf()
        &&& self@.consistent()
    }

    /// A well-formed store holds a consistent state of a size that a
    /// machine can index.
    pub proof fn lemma_consistent(&self)
        requires
            self.wf(),
        ensures
            self@.consistent(),
            self@.blocks.len() <= usize::MAX,
            self@.anchors.dom().finite(),
    {
        self.anchors.lemma_entries();
        assert(self.blocks.len() == self@.blocks.len());
    }

    /// A store without records.
    pub fn new() -> (s: Storage)
        ensures
            s.wf(),
            s@ == StoreState::empty(),
    {
        let s = Storage { blocks: Vec::new(), anchors: AnchorIndex::new() };
        proof {
            s.anchors.lemma_entries();
            assert(s@.blocks =~= Seq::<BlockView>::empty());
        }
        s
    }

    /// Opens the store that the records of `image` make up, after
    /// bringing them to the current layout. Nothing is changed where that
    /// fails, or where the records contradict each other.
    pub fn open(image: StoreImage) -> (r: Result<Storage, StorageError>)
        ensures
            match r {
                Ok(s) => s.wf() && s@ == store_of(chain_of(image.blocks@), image.anchors@)
                    && migratable(image.schema_version, chain_of(image.blocks@), image.anchors@)
                    && loadable(chain_of(image.blocks@), image.anchors@),
                Err(e) => if migratable(
                    image.schema_version,
                    chain_of(image.blocks@),
                    image.anchors@,
                ) {
                    e == StorageError::Consistency && !loadable(
                        chain_of(image.blocks@),
                        image.anchors@,
                    )
                } else {
                    e == StorageError::Migration
                },
            },
    {
        let ghost blocks = chain_of(image.blocks@);
        let ghost anchors = image.anchors@;
        let mut version = image.schema_version;
        while version < SCHEMA_VERSION
            invariant
                version == image.schema_version || (version == SCHEMA_VERSION && migratable(
                    image.schema_version,
                    chain_of(image.blocks@),
                    image.anchors@,
                )),
            decreases SCHEMA_VERSION - version,
        {
            // Layout 0 is a file without tables: layout 1 creates them,
            // and cannot do so over records.
            if version != 0 || image.blocks.len() != 0 || image.anchors.len() != 0 {
                return Err(StorageError::Migration);
            }
            version = version + 1;
        }
        if version != SCHEMA_VERSION {
            return Err(StorageError::Migration);
        }
        let index = match AnchorIndex::from_ascending(image.anchors) {
            Some(index) => index,
            None => {
                return Err(StorageError::Consistency);
            },
        };
        let tx = WriteTransaction { cut: None, blocks: image.blocks, anchors: index };
        let mut store = Storage::new();
        proof {
            let e = effect(StoreState::empty(), tx@);
            assert(e.blocks =~= blocks);
            assert(e.anchors =~= by_height(anchors));
        }
        match store.commit(tx) {
            Ok(()) => Ok(store),
            Err(_) => Err(StorageError::Consistency),
        }
    }

    /// The records of the store, as they go into its file.
    pub fn export(&self) -> (image: StoreImage)
        requires
            self.wf(),
        ensures
            image.schema_version == SCHEMA_VERSION,
            store_of(chain_of(image.blocks@), image.anchors@) == self@,
            migratable(image.schema_version, chain_of(image.blocks@), image.anchors@),
            loadable(chain_of(image.blocks@), image.anchors@),
    {
        let copy = self.snapshot();
        let anchors = copy.anchors.to_vec();
        StoreImage { schema_version: SCHEMA_VERSION, blocks: copy.blocks, anchors }
    }

    /// The number of stored blocks.
    pub fn block_count(&self) -> (n: usize)
        ensures
            n == self@.blocks.len(),
    {
        self.blocks.len()
    }

    /// The height of the highest stored block.
    pub fn read_tip_height(&self) -> (r: Option<u64>)
        requires
            self.wf(),
        ensures
            r == self@.tip(),
    {
        let n = self.blocks.len();
        if n == 0 {
            None
        } else {
            assert(self@.blocks[n - 1].height == n - 1);
            Some(self.blocks[n - 1].height)
        }
    }

    /// The block at the given height.
    pub fn read_block(&self, height: u64) -> (r: Option<Block>)
        requires
            self.wf(),
        ensures
            match r {
                Some(b) => height < self@.blocks.len() && b@ == self@.blocks[height as int],
                None => height >= self@.blocks.len(),
            },
    {
        if height < self.blocks.len() as u64 {
            Some(self.blocks[height as usize].duplicate())
        } else {
            None
        }
    }

    /// The hash of the block at the given height.
    pub fn block_hash(&self, height: u64) -> (r: Option<types::Hash>)
        ensures
            r == if height < self@.blocks.len() {
                Some(self@.blocks[height as int].hash)
            } else {
                None
            },
    {
        if height < self.blocks.len() as u64 {
            Some(self.blocks[height as usize].hash)
        } else {
            None
        }
    }

    /// The state root of the block at the given height.
    pub fn state_root_at(&self, height: u64) -> (r: Option<types::Hash>)
        ensures
            r == if height < self@.blocks.len() {
                Some(self@.blocks[height as int].state_root)
            } else {
                None
            },
    {
        if height < self.blocks.len() as u64 {
            Some(self.blocks[height as usize].state_root)
        } else {
            None
        }
    }

    /// The anchor of least height at or above `height`.
    pub fn next_anchor_from(&self, height: u64) -> (r: Option<Anchor>)
        requires
            self.wf(),
        ensures
            match r {
                Some(a) => a.l2_height >= height && lookup(self@.anchors, a.l2_height) == Some(a)
                    && forall|k: u64| height <= k < a.l2_height ==> !self@.anchors.contains_key(k),
                None => forall|k: u64| height <= k ==> !self@.anchors.contains_key(k),
            },
    {
        self.anchors.first_at_or_above(height)
    }

    /// The anchor for the given rollup height.
    pub fn read_anchor_for(&self, height: u64) -> (r: Option<Anchor>)
        requires
            self.wf(),
        ensures
            r == lookup(self@.anchors, height),
    {
        self.anchors.get(height)
    }

    /// Whether the block at the given height is stored and confirmed by an
    /// anchor.
    pub fn is_finalized(&self, height: u64) -> (r: bool)
        requires
            self.wf(),
        ensures
            r == self@.finalized(height),
    {
        if height < self.blocks.len() as u64 {
            match self.anchors.get(height) {
                Some(a) => a.state_root == self.blocks[height as usize].state_root,
                None => false,
            }
        } else {
            false
        }
    }

    /// The canonical tip: the highest stored block that an anchor confirms.
    pub fn canonical_tip(&self) -> (r: Option<u64>)
        requires
            self.wf(),
        ensures
            match r {
                Some(h) => self@.finalized(h) && forall|k: u64| k > h ==> !self@.finalized(k),
                None => forall|k: u64| !self@.finalized(k),
            },
    {
        let n = self.blocks.len();
        if n == 0 {
            return None;
        }
        proof {
            self.anchors.lemma_entries();
            lemma_nearest_below(self@.anchors, (n - 1) as u64);
        }
        match self.anchors.last_at_or_below((n - 1) as u64) {
            Some(a) => {
                assert(self@.anchors[a.l2_height].state_root
                    == self@.blocks[a.l2_height as int].state_root);
                Some(a.l2_height)
            },
            None => None,
        }
    }

    /// The anchor for the greatest height at or below `height`.
    pub fn anchor_at_or_below(&self, height: u64) -> (r: Option<Anchor>)
        requires
            self.wf(),
        ensures
            r == nearest_below(self@.anchors, height),
    {
        self.anchors.last_at_or_below(height)
    }

    /// The transaction with the given identifier in the block at the given
    /// height.
    pub fn read_transaction(&self, height: u64, hash: types::Hash) -> (r: Option<Transaction>)
        requires
            self.wf(),
        ensures
            match r {
                Some(t) => height < self@.blocks.len() && exists|p: usize|
                    first_with_hash(self@.blocks[height as int].transactions, hash, Some(p)) && t
                        == self@.blocks[height as int].transactions[p as int],
                None => height >= self@.blocks.len() || first_with_hash(
                    self@.blocks[height as int].transactions,
                    hash,
                    None,
                ),
            },
    {
        if height < self.blocks.len() as u64 {
            let block = &self.blocks[height as usize];
            match block.find_transaction(hash) {
                Some(p) => {
                    assert(first_with_hash(
                        self@.blocks[height as int].transactions,
                        hash,
                        Some(p),
                    ));
                    Some(block.transactions[p])
                },
                None => None,
            }
        } else {
            None
        }
    }

    /// Where the transaction with the given identifier first occurs, going
    /// up from genesis.
    pub fn find_transaction(&self, hash: types::Hash) -> (r: Option<TxLocation>)
        requires
            self.wf(),
        ensures
            match r {
                Some(at) => at.height < self@.blocks.len() && first_with_hash(
                    self@.blocks[at.height as int].transactions,
                    hash,
                    Some(at.index),
                ) && forall|h: int|
                    0 <= h < at.height ==> first_with_hash(
                        (#[trigger] self@.blocks[h]).transactions,
                        hash,
                        None,
                    ),
                None => forall|h: int|
                    0 <= h < self@.blocks.len() ==> first_with_hash(
                        (#[trigger] self@.blocks[h]).transactions,
                        hash,
                        None,
                    ),
            },
    {
        let mut i: usize = 0;
        while i < self.blocks.len()
            invariant
                i <= self.blocks@.len(),
                self@.blocks.len() == self.blocks@.len(),
                forall|h: int|
                    0 <= h < i ==> first_with_hash(
                        (#[trigger] self@.blocks[h]).transactions,
                        hash,
                        None,
                    ),
            decreases self.blocks.len() - i,
        {
            match self.blocks[i].find_transaction(hash) {
                Some(p) => {
                    assert(self@.blocks[i as int] == self.blocks@[i as int]@);
                    return Some(TxLocation { height: i as u64, index: p });
                },
                None => {
                    assert(self@.blocks[i as int] == self.blocks@[i as int]@);
                },
            }
            i += 1;
        }
        None
    }

    /// The highest rollup height that an anchor speaks of.
    pub fn highest_anchor_height(&self) -> (r: Option<u64>)
        requires
            self.wf(),
        ensures
            match r {
                Some(h) => self@.anchors.contains_key(h) && forall|k: u64|
                    self@.anchors.contains_key(k) ==> k <= h,
                None => self@.anchors == Map::<u64, Anchor>::empty(),
            },
    {
        match self.anchors.highest() {
            Some(a) => Some(a.l2_height),
            None => None,
        }
    }

    /// The greatest settlement-layer block number among the anchors.
    pub fn latest_anchor_l1_block(&self) -> (r: Option<u64>)
        requires
            self.wf(),
        ensures
            crate::anchors::latest_l1(self@.anchors, r),
    {
        self.anchors.latest_l1_block()
    }

    /// A transaction without mutations, to stage the next write in.
    pub fn begin_write(&self) -> (tx: WriteTransaction)
        ensures
            tx.wf(),
            tx@ == TxView::empty(),
    {
        WriteTransaction::new()
    }

    /// The number of blocks that a truncation leaves.
    fn base_len(&self, cut: Option<u64>) -> (n: usize)
        ensures
            n <= self.blocks@.len(),
            cut_to(self@, cut).blocks == chain_of(self.blocks@).take(n as int),
    {
        let n0 = self.blocks.len();
        let n = match cut {
            Some(c) => if n0 > 0 && c < (n0 - 1) as u64 {
                (c + 1) as usize
            } else {
                n0
            },
            None => n0,
        };
        assert(cut_to(self@, cut).blocks =~= chain_of(self.blocks@).take(n as int));
        n
    }

    /// Whether the staged blocks continue the truncated chain.
    fn staged_link(&self, tx: &WriteTransaction, base_len: usize) -> (ok: bool)
        requires
            self.wf(),
            base_len <= self.blocks@.len(),
        ensures
            ok == chain_linked(chain_of(self.blocks@).take(base_len as int) + tx@.blocks),
    {
        let ghost base = chain_of(self.blocks@).take(base_len as int);
        let ghost staged = chain_of(tx.blocks@);
        let ghost all = base + staged;
        let n = tx.blocks.len();
        let mut j: usize = 0;
        assert(chain_linked(base + staged.take(0))) by {
            assert(base + staged.take(0) =~= base);
            assert forall|i: int| 0 <= i < base.len() implies (#[trigger] base[i]).height == i by {
                assert(self@.blocks[i].height == i);
            }
            assert forall|i: int| 0 < i < base.len() implies (#[trigger] base[i]).parent_hash
                == base[i - 1].hash by {
                assert(self@.blocks[i].parent_hash == self@.blocks[i - 1].hash);
            }
        }
        while j < n
            invariant
                j <= n,
                n == tx.blocks@.len(),
                base_len <= self.blocks@.len(),
                base == chain_of(self.blocks@).take(base_len as int),
                staged == chain_of(tx.blocks@),
                all == base + staged,
                chain_linked(base + staged.take(j as int)),
            decreases n - j,
        {
            let b = &tx.blocks[j];
            let at: u128 = base_len as u128 + j as u128;
            assert(all[base_len + j] == b@);
            if b.height as u128 != at {
                return false;
            }
            if at > 0 {
                let below = if j == 0 {
                    self.blocks[base_len - 1].hash
                } else {
                    tx.blocks[j - 1].hash
                };
                assert(below == all[base_len + j - 1].hash);
                if b.parent_hash != below {
                    return false;
                }
            }
            proof {
                let pre = base + staged.take(j as int);
                let next = base + staged.take(j + 1);
                assert(next =~= pre.push(b@));
                assert forall|i: int| 0 <= i < next.len() implies (#[trigger] next[i]).height
                    == i by {
                    if i < pre.len() {
                        assert(pre[i].height == i);
                    }
                }
                assert forall|i: int| 0 < i < next.len() implies (#[trigger] next[i]).parent_hash
                    == next[i - 1].hash by {
                    if i < pre.len() {
                        assert(pre[i].parent_hash == pre[i - 1].hash);
                    } else {
                        assert(next[i - 1] == all[base_len + j - 1]);
                    }
                }
            }
            j += 1;
        }
        assert(staged.take(j as int) =~= staged);
        true
    }

    /// The state root of the block that will stand at the height `h`.
    fn root_after(&self, tx: &WriteTransaction, base_len: usize, h: u64) -> (r: Option<types::Hash>)
        requires
            base_len <= self.blocks@.len(),
        ensures
            ({
                let all = chain_of(self.blocks@).take(base_len as int) + tx@.blocks;
                r == if h < all.len() {
                    Some(all[h as int].state_root)
                } else {
                    None
                }
            }),
    {
        if h < base_len as u64 {
            Some(self.blocks[h as usize].state_root)
        } else {
            let off = h - base_len as u64;
            if off < tx.blocks.len() as u64 {
                Some(tx.blocks[off as usize].state_root)
            } else {
                None
            }
        }
    }

    /// Whether each staged anchor agrees with the block that will stand
    /// at its height.
    fn staged_anchors_agree(
        &self,
        tx: &WriteTransaction,
        base_len: usize,
        staged: &Vec<Anchor>,
    ) -> (ok: bool)
        requires
            base_len <= self.blocks@.len(),
        ensures
            ok == staged_agree(chain_of(self.blocks@).take(base_len as int) + tx@.blocks, staged@),
    {
        let ghost all = chain_of(self.blocks@).take(base_len as int) + tx@.blocks;
        let mut i: usize = 0;
        while i < staged.len()
            invariant
                i <= staged@.len(),
                base_len <= self.blocks@.len(),
                all == chain_of(self.blocks@).take(base_len as int) + tx@.blocks,
                staged_agree(all, staged@.take(i as int)),
            decreases staged.len() - i,
        {
            let a = staged[i];
            match self.root_after(tx, base_len, a.l2_height) {
                Some(root) => {
                    if root != a.state_root {
                        assert(staged@[i as int] == a);
                        return false;
                    }
                },
                None => {},
            }
            proof {
                let pre = staged@.take(i as int);
                let next = staged@.take(i + 1);
                assert forall|k: int| 0 <= k < next.len() && (#[trigger] next[k]).l2_height
                    < all.len() implies all[next[k].l2_height as int].state_root
                    == next[k].state_root by {
                    if k < i {
                        assert(pre[k] == next[k]);
                    }
                }
            }
            i += 1;
        }
        assert(staged@.take(i as int) =~= staged@);
        true
    }

    /// Whether each staged block agrees with the anchor that stays at its
    /// height.
    fn kept_anchors_agree(&self, tx: &WriteTransaction, base_len: usize) -> (ok: bool)
        requires
            self.wf(),
            tx.wf(),
            base_len == cut_to(self@, tx@.cut).blocks.len(),
            chain_linked(cut_to(self@, tx@.cut).blocks + tx@.blocks),
        ensures
            ok == kept_agree(cut_to(self@, tx@.cut), tx@),
    {
        let ghost base = cut_to(self@, tx@.cut);
        let ghost t = tx@;
        let n = tx.blocks.len();
        let mut j: usize = 0;
        while j < n
            invariant
                j <= n,
                n == tx.blocks@.len(),
                self.wf(),
                tx.wf(),
                t == tx@,
                base == cut_to(self@, tx@.cut),
                base_len == base.blocks.len(),
                chain_linked(base.blocks + t.blocks),
                forall|k: int| 0 <= k < j ==> kept_agree_at(base, t, k),
            decreases n - j,
        {
            let b = &tx.blocks[j];
            let h = b.height;
            assert((base.blocks + t.blocks)[base_len + j] == b@);
            assert(h == base_len + j);
            if tx.anchors.get(h).is_none() {
                let within = match tx.cut {
                    Some(c) => h <= c,
                    None => true,
                };
                if within {
                    match self.anchors.get(h) {
                        Some(a) => {
                            if a.state_root != b.state_root {
                                assert(!kept_agree_at(base, t, j as int));
                                return false;
                            }
                        },
                        None => {},
                    }
                }
            }
            assert(kept_agree_at(base, t, j as int));
            j += 1;
        }
        true
    }

    /// Applies the mutations of `tx` together, or none of them where the
    /// records would then contradict each other.
    pub fn commit(&mut self, tx: WriteTransaction) -> (r: Result<(), StorageError>)
        requires
            old(self).wf(),
            tx.wf(),
        ensures
            final(self).wf(),
            r is Ok <==> effect(old(self)@, tx@).consistent(),
            r is Ok ==> final(self)@ == effect(old(self)@, tx@),
            r matches Err(e) ==> e == StorageError::Consistency && final(self)@ == old(self)@,
    {
        let mut tx = tx;
        let ghost s = self@;
        let ghost t = tx@;
        let base_len = self.base_len(tx.cut);
        let staged = tx.anchors.to_vec();
        proof {
            tx.anchors.lemma_entries();
            lemma_effect_checks(s, t, staged@);
        }
        if !self.staged_link(&tx, base_len) {
            return Err(StorageError::Consistency);
        }
        if !self.staged_anchors_agree(&tx, base_len, &staged) {
            return Err(StorageError::Consistency);
        }
        if !self.kept_anchors_agree(&tx, base_len) {
            return Err(StorageError::Consistency);
        }
        let ghost before = self.blocks@;
        self.blocks.truncate(base_len);
        match tx.cut {
            Some(c) => {
                self.anchors.truncate_above(c);
            },
            None => {},
        }
        let ghost mid = self.blocks@;
        let ghost moved = tx.blocks@;
        self.blocks.append(&mut tx.blocks);
        self.anchors.absorb(&tx.anchors);
        proof {
            assert(chain_of(mid) =~= chain_of(before).take(base_len as int));
            assert(chain_of(self.blocks@) =~= chain_of(mid) + chain_of(moved));
            assert(self@.blocks == effect(s, t).blocks);
            assert(self@.anchors == effect(s, t).anchors);
        }
        Ok(())
    }

    /// A copy of the committed state, which later commits do not touch.
    pub fn snapshot(&self) -> (s: Storage)
        requires
            self.wf(),
        ensures
            s.wf(),
            s@ == self@,
    {
        let mut blocks: Vec<Block> = Vec::new();
        let mut i: usize = 0;
        while i < self.blocks.len()
            invariant
                i <= self.blocks@.len(),
                chain_of(blocks@) == chain_of(self.blocks@).take(i as int),
            decreases self.blocks.len() - i,
        {
            let b = self.blocks[i].duplicate();
            let ghost before = blocks@;
            blocks.push(b);
            assert(chain_of(blocks@) =~= chain_of(before).push(b@));
            assert(chain_of(self.blocks@).take(i + 1) =~= chain_of(self.blocks@).take(i as int).push(
                self.blocks@[i as int]@,
            ));
            i += 1;
        }
        assert(chain_of(self.blocks@).take(i as int) =~= chain_of(self.blocks@));
        Storage { blocks, anchors: self.anchors.duplicate() }
    }
}

/// The mathematical value of a write transaction: at most one truncation,
/// which applies first, then the blocks and the anchors to insert.
pub struct TxView {
    pub cut: Option<u64>,
    pub blocks: Seq<BlockView>,
    pub anchors: Map<u64, Anchor>,
}

impl TxView {
    /// The transaction that changes nothing.
    pub open spec fn empty() -> TxView {
        TxView { cut: None, blocks: Seq::empty(), anchors: Map::empty() }
    }

    /// The transaction that also puts `b` on top.
    pub open spec fn with_block(self, b: BlockView) -> TxView {
        TxView { cut: self.cut, blocks: self.blocks.push(b), anchors: self.anchors }
    }

    /// The transaction that also makes `a` the anchor for its height.
    pub open spec fn with_anchor(self, a: Anchor) -> TxView {
        TxView { cut: self.cut, blocks: self.blocks, anchors: self.anchors.insert(a.l2_height, a) }
    }

    /// The transaction that also removes what lies above the height `h`,
    /// what was staged before included.
    pub open spec fn with_cut(self, h: u64) -> TxView {
        TxView {
            cut: Some(
                match self.cut {
                    Some(c) => if c <= h {
                        c
                    } else {
                        h
                    },
                    None => h,
                },
            ),
            blocks: self.blocks.filter(|b: BlockView| b.height <= h),
            anchors: up_to(self.anchors, h),
        }
    }
}

/// The store that a transaction's truncation leaves.
pub open spec fn cut_to(s: StoreState, cut: Option<u64>) -> StoreState {
    match cut {
        Some(c) => s.truncated(c),
        None => s,
    }
}

/// The store after the transaction `tx`: truncated, then with the staged
/// blocks on top and each staged anchor in the place for its height.
pub open spec fn effect(s: StoreState, tx: TxView) -> StoreState {
    let base = cut_to(s, tx.cut);
    StoreState {
        blocks: base.blocks + tx.blocks,
        anchors: base.anchors.union_prefer_right(tx.anchors),
    }
}

/// A transaction without mutations changes nothing.
pub proof fn lemma_effect_empty(s: StoreState)
    ensures
        effect(s, TxView::empty()) == s,
{
    let e = effect(s, TxView::empty());
    assert(e.blocks =~= s.blocks);
    assert(e.anchors =~= s.anchors);
}

/// Staging a block puts it on top of what the transaction left so far.
pub proof fn lemma_effect_with_block(s: StoreState, t: TxView, b: BlockView)
    ensures
        effect(s, t.with_block(b)) == effect(s, t).with_block(b),
{
    assert(effect(s, t.with_block(b)).blocks =~= effect(s, t).with_block(b).blocks);
}

/// Staging an anchor makes it the anchor for its height in what the
/// transaction left so far.
pub proof fn lemma_effect_with_anchor(s: StoreState, t: TxView, a: Anchor)
    ensures
        effect(s, t.with_anchor(a)) == effect(s, t).with_anchor(a),
{
    assert(effect(s, t.with_anchor(a)).anchors =~= effect(s, t).with_anchor(a).anchors);
}

/// Staging a truncation truncates what the transaction left so far, as
/// long as the blocks staged so far continue the chain.
pub proof fn lemma_effect_with_cut(s: StoreState, t: TxView, h: u64)
    requires
        chain_linked(effect(s, t).blocks),
    ensures
        effect(s, t.with_cut(h)) == effect(s, t).truncated(h),
{
    let base = cut_to(s, t.cut);
    let e = effect(s, t);
    let t2 = t.with_cut(h);
    let base2 = cut_to(s, t2.cut);
    let e2 = effect(s, t2);
    let keep = |b: BlockView| b.height <= h;
    assert(e2.anchors =~= e.truncated(h).anchors);
    assert forall|i: int| 0 <= i < t.blocks.len() implies (#[trigger] t.blocks[i]).height
        == base.blocks.len() + i by {
        assert(e.blocks[base.blocks.len() + i] == t.blocks[i]);
    }
    lemma_filter_prefix(t.blocks, base.blocks.len() as int, h);
    if h + 1 <= base.blocks.len() {
        assert(t.blocks.filter(keep) =~= Seq::<BlockView>::empty());
        assert(base2.blocks =~= base.blocks.take(h + 1));
        assert(e2.blocks =~= e.blocks.take(h + 1));
    } else {
        assert(base2.blocks =~= base.blocks);
        if h + 1 <= e.blocks.len() {
            assert(e2.blocks =~= e.blocks.take(h + 1));
        } else {
            assert(t.blocks.filter(keep) =~= t.blocks);
            assert(e2.blocks =~= e.blocks);
        }
    }
}

/// Of blocks at consecutive heights from `offset`, those at heights up to
/// `h` are a prefix.
proof fn lemma_filter_prefix(blocks: Seq<BlockView>, offset: int, h: u64)
    requires
        offset >= 0,
        forall|i: int| 0 <= i < blocks.len() ==> (#[trigger] blocks[i]).height == offset + i,
    ensures
        blocks.filter(|b: BlockView| b.height <= h) == blocks.take(
            if h + 1 - offset <= 0 {
                0
            } else if h + 1 - offset <= blocks.len() {
                h + 1 - offset
            } else {
                blocks.len() as int
            },
        ),
    decreases blocks.len(),
{
    let keep = |b: BlockView| b.height <= h;
    reveal(Seq::filter);
    if blocks.len() == 0 {
        assert(blocks.filter(keep) =~= blocks.take(0));
    } else {
        let front = blocks.drop_last();
        assert forall|i: int| 0 <= i < front.len() implies (#[trigger] front[i]).height == offset
            + i by {
            assert(blocks[i].height == offset + i);
        }
        lemma_filter_prefix(front, offset, h);
        let last = blocks.last();
        assert(last.height == offset + blocks.len() - 1);
        if keep(last) {
            assert(front.take(front.len() as int) =~= front);
            assert(front.push(last) =~= blocks);
            assert(blocks.take(blocks.len() as int) =~= blocks);
        } else {
            let k = if h + 1 - offset <= 0 {
                0
            } else {
                h + 1 - offset
            };
            assert(front.take(k) =~= blocks.take(k));
        }
    }
}

/// Of two anchors the one at the greater height, and the first where
/// both stand at one height.
pub open spec fn nearer(staged: Option<Anchor>, kept: Option<Anchor>) -> Option<Anchor> {
    match (staged, kept) {
        (Some(a), Some(b)) => if b.l2_height > a.l2_height {
            kept
        } else {
            staged
        },
        (Some(_), None) => staged,
        (None, _) => kept,
    }
}

/// The nearest anchor at or below `h` after a transaction is the nearer
/// of the nearest staged one and the nearest one that the truncation
/// keeps.
pub proof fn lemma_nearest_in_effect(s: StoreState, t: TxView, h: u64)
    requires
        keyed_by_height(s.anchors),
        keyed_by_height(t.anchors),
    ensures
        nearest_below(effect(s, t).anchors, h) == nearer(
            nearest_below(t.anchors, h),
            nearest_below(
                s.anchors,
                match t.cut {
                    Some(c) => if c < h {
                        c
                    } else {
                        h
                    },
                    None => h,
                },
            ),
        ),
{
    let e = effect(s, t).anchors;
    let bound = match t.cut {
        Some(c) => if c < h {
            c
        } else {
            h
        },
        None => h,
    };
    let x = nearest_below(t.anchors, h);
    let y = nearest_below(s.anchors, bound);
    lemma_nearest_below(t.anchors, h);
    lemma_nearest_below(s.anchors, bound);
    assert forall|k: u64| e.contains_key(k) && k <= h implies (t.anchors.contains_key(k) || (
    s.anchors.contains_key(k) && k <= bound)) by {}
    match (x, y) {
        (Some(a), Some(b)) => {
            let ka = choose|k: u64| crate::anchors::is_nearest_below(t.anchors, h, k) && t.anchors[k] == a;
            let kb = choose|k: u64| crate::anchors::is_nearest_below(s.anchors, bound, k) && s.anchors[k] == b;
            if kb > ka {
                assert(!t.anchors.contains_key(kb));
                assert(e.contains_key(kb) && e[kb] == b);
                lemma_nearest_is(e, h, kb);
            } else {
                assert(e.contains_key(ka) && e[ka] == a);
                lemma_nearest_is(e, h, ka);
            }
        },
        (Some(a), None) => {
            let ka = choose|k: u64| crate::anchors::is_nearest_below(t.anchors, h, k) && t.anchors[k] == a;
            assert(e.contains_key(ka) && e[ka] == a);
            lemma_nearest_is(e, h, ka);
        },
        (None, Some(b)) => {
            let kb = choose|k: u64| crate::anchors::is_nearest_below(s.anchors, bound, k) && s.anchors[k] == b;
            assert(!t.anchors.contains_key(kb));
            assert(e.contains_key(kb) && e[kb] == b);
            lemma_nearest_is(e, h, kb);
        },
        (None, None) => {
            lemma_nearest_none(e, h);
        },
    }
}

/// Mutations staged for one atomic commit. Dropping it abandons them.
#[derive(Debug)]
pub struct WriteTransaction {
    cut: Option<u64>,
    blocks: Vec<Block>,
    anchors: AnchorIndex,
}

impl View for WriteTransaction {
    type V = TxView;

    closed spec fn view(&self) -> TxView {
        TxView { cut: self.cut, blocks: chain_of(self.blocks@), anchors: self.anchors@ }
    }
}

impl WriteTransaction {
    /// The invariant of a transaction.
    pub closed spec fn wf(&self) -> bool {
        self.anchors.wf()
    }

    /// A transaction without mutations.
    pub fn new() -> (tx: WriteTransaction)
        ensures
            tx.wf(),
            tx@ == TxView::empty(),
    {
        let tx = WriteTransaction { cut: None, blocks: Vec::new(), anchors: AnchorIndex::new() };
        assert(tx@.blocks =~= Seq::<BlockView>::empty());
        tx
    }

    /// The height above which the transaction removes records, if it
    /// removes any.
    pub fn cut(&self) -> (r: Option<u64>)
        ensures
            r == self@.cut,
    {
        self.cut
    }

    /// The number of blocks staged.
    pub fn staged_blocks(&self) -> (n: usize)
        ensures
            n == self@.blocks.len(),
    {
        self.blocks.len()
    }

    /// The anchor staged for the given rollup height.
    pub fn staged_anchor(&self, height: u64) -> (r: Option<Anchor>)
        requires
            self.wf(),
        ensures
            r == lookup(self@.anchors, height),
    {
        self.anchors.get(height)
    }

    /// Each staged anchor stands at its own height.
    pub proof fn lemma_keyed(&self)
        requires
            self.wf(),
        ensures
            keyed_by_height(self@.anchors),
    {
        self.anchors.lemma_entries();
    }

    /// The anchor staged for the greatest height at or below `height`.
    pub fn staged_anchor_at_or_below(&self, height: u64) -> (r: Option<Anchor>)
        requires
            self.wf(),
        ensures
            r == nearest_below(self@.anchors, height),
    {
        self.anchors.last_at_or_below(height)
    }

    /// Stages the insertion of `block` on top of the chain.
    pub fn insert_block(&mut self, block: Block)
        requires
            old(self).wf(),
        ensures
            final(self).wf(),
            final(self)@ == old(self)@.with_block(block@),
    {
        let ghost before = self.blocks@;
        self.blocks.push(block);
        assert(chain_of(self.blocks@) =~= chain_of(before).push(block@));
    }

    /// Stages `anchor` as the anchor for its height.
    pub fn insert_anchor(&mut self, anchor: Anchor)
        requires
            old(self).wf(),
        ensures
            final(self).wf(),
            final(self)@ == old(self)@.with_anchor(anchor),
    {
        self.anchors.upsert(anchor);
    }

    /// Stages the removal of every record above `height`, and drops what
    /// was staged above it.
    pub fn truncate_above(&mut self, height: u64)
        requires
            old(self).wf(),
        ensures
            final(self).wf(),
            final(self)@ == old(self)@.with_cut(height),
    {
        let ghost keep = |b: BlockView| b.height <= height;
        let mut kept: Vec<Block> = Vec::new();
        let mut i: usize = 0;
        proof {
            reveal(Seq::filter);
            assert(chain_of(self.blocks@).take(0) =~= Seq::<BlockView>::empty());
            assert(chain_of(kept@) =~= Seq::<BlockView>::empty());
        }
        while i < self.blocks.len()
            invariant
                i <= self.blocks@.len(),
                keep == |b: BlockView| b.height <= height,
                chain_of(kept@) == chain_of(self.blocks@).take(i as int).filter(keep),
            decreases self.blocks.len() - i,
        {
            let ghost prefix = chain_of(self.blocks@).take(i as int);
            let ghost kept_before = kept@;
            proof {
                assert(chain_of(self.blocks@).take(i + 1) =~= prefix.push(self.blocks@[i as int]@));
                prefix.lemma_filter_push(self.blocks@[i as int]@, keep);
            }
            if self.blocks[i].height <= height {
                let b = self.blocks[i].duplicate();
                kept.push(b);
                assert(chain_of(kept@) =~= chain_of(kept_before).push(b@));
            }
            i += 1;
        }
        assert(chain_of(self.blocks@).take(i as int) =~= chain_of(self.blocks@));
        self.blocks = kept;
        self.anchors.truncate_above(height);
        self.cut = Some(
            match self.cut {
                Some(c) => if c <= height {
                    c
                } else {
                    height
                },
                None => height,
            },
        );
    }
}

/// Whether each anchor of `staged` agrees with the block of `blocks` at
/// its height, where there is one.
spec fn staged_agree(blocks: Seq<BlockView>, staged: Seq<Anchor>) -> bool {
    forall|i: int|
        0 <= i < staged.len() && (#[trigger] staged[i]).l2_height < blocks.len()
            ==> blocks[staged[i].l2_height as int].state_root == staged[i].state_root
}

/// Whether the `j`-th staged block agrees with the anchor that `base`
/// keeps for its height, where the transaction stages none.
spec fn kept_agree_at(base: StoreState, t: TxView, j: int) -> bool {
    let h = base.blocks.len() + j;
    h <= u64::MAX && !t.anchors.contains_key(h as u64) && base.anchors.contains_key(h as u64)
        ==> base.anchors[h as u64].state_root == t.blocks[j].state_root
}

spec fn kept_agree(base: StoreState, t: TxView) -> bool {
    forall|j: int| 0 <= j < t.blocks.len() ==> kept_agree_at(base, t, j)
}

/// What a commit tests is whether the records would be consistent.
proof fn lemma_effect_checks(s: StoreState, t: TxView, v: Seq<Anchor>)
    requires
        s.consistent(),
        keyed_by_height(t.anchors),
        ascending(v),
        by_height(v) == t.anchors,
    ensures
        effect(s, t).consistent() <==> (chain_linked(effect(s, t).blocks) && staged_agree(
            effect(s, t).blocks,
            v,
        ) && kept_agree(cut_to(s, t.cut), t)),
{
    let e = effect(s, t);
    let base = cut_to(s, t.cut);
    if chain_linked(e.blocks) && staged_agree(e.blocks, v) && kept_agree(base, t) {
        assert forall|h: u64| h < e.blocks.len() && e.anchors.contains_key(h) implies (#[trigger] e.anchors[h]).state_root
            == e.blocks[h as int].state_root by {
            lemma_checked_height(s, t, v, h);
        }
        assert forall|k: u64| e.anchors.contains_key(k) implies (#[trigger] e.anchors[k]).l2_height
            == k by {
            if !t.anchors.contains_key(k) {
                assert(base.anchors[k] == s.anchors[k]);
            }
        }
    }
    if e.consistent() {
        assert forall|i: int|
            0 <= i < v.len() && (#[trigger] v[i]).l2_height < e.blocks.len() implies e.blocks[v[i].l2_height as int].state_root
            == v[i].state_root by {
            crate::anchors::lemma_by_height_at(v, i);
            assert(e.anchors[v[i].l2_height] == v[i]);
        }
        assert forall|j: int| 0 <= j < t.blocks.len() implies kept_agree_at(base, t, j) by {
            let h = base.blocks.len() + j;
            if h <= u64::MAX && !t.anchors.contains_key(h as u64) && base.anchors.contains_key(
                h as u64,
            ) {
                assert(e.anchors.contains_key(h as u64));
                assert(e.anchors[h as u64] == base.anchors[h as u64]);
                assert(e.blocks[h] == t.blocks[j]);
                assert(e.anchors[h as u64].state_root == e.blocks[h as u64 as int].state_root);
            }
        }
    }
}

/// Where the tests of a commit pass, the anchor at `h` agrees with the block.
proof fn lemma_checked_height(s: StoreState, t: TxView, v: Seq<Anchor>, h: u64)
    requires
        s.consistent(),
        ascending(v),
        by_height(v) == t.anchors,
        staged_agree(effect(s, t).blocks, v),
        kept_agree(cut_to(s, t.cut), t),
        h < effect(s, t).blocks.len(),
        effect(s, t).anchors.contains_key(h),
    ensures
        effect(s, t).anchors[h].state_root == effect(s, t).blocks[h as int].state_root,
{
    let e = effect(s, t);
    let base = cut_to(s, t.cut);
    if t.anchors.contains_key(h) {
        let i = choose|i: int| 0 <= i < v.len() && (#[trigger] v[i]).l2_height == h;
        crate::anchors::lemma_by_height_at(v, i);
        assert(e.anchors[h] == v[i]);
    } else if h < base.blocks.len() {
        assert(base.anchors[h] == s.anchors[h]);
        assert(base.blocks[h as int] == s.blocks[h as int]);
        assert(s.anchors[h].state_root == s.blocks[h as int].state_root);
        assert(e.blocks[h as int] == base.blocks[h as int]);
    } else {
        let j = h - base.blocks.len();
        assert(kept_agree_at(base, t, j));
        assert(e.blocks[h as int] == t.blocks[j]);
    }
}

} // verus!
