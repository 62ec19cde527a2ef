//! The reconciliation state machine: from the state and an event of the
//! outside world to the next state and the action that the driver is to
//! take.

use crate::anchors::latest_l1;
use crate::backoff::{backoff_delay, retry_delay};
use crate::error::{IngestError, Inconsistency, StorageError, SyncError};
use crate::ingest::{check_anchor_batch, check_block_batch, heights_ascend, in_log_order};
use crate::reconcile::{
    after_anchors, after_blocks, apply_anchors, apply_blocks, lemma_chain_unbroken,
    conflicts_at_or_below, lemma_anchor_depth_stays_bounded, lemma_block_depth_stays_bounded,
    lemma_finalized_outlives_anchors, lemma_finalized_outlives_blocks, lemma_replacing_touches,
    AnchorBatchOutcome, BlockOutcome,
};
use crate::repoll::lemma_anchor_fold_grows;
use crate::storage::{Storage, StoreState};
use crate::types::{chain_of, Anchor, Block, BlockView, SyncStatus};
use vstd::prelude::*;

verus! {

/// The limits and delays of the synchronisation.
#[derive(Clone, Copy, Debug, PartialEq, Eq, Structural)]
pub struct SyncConfig {
    /// The most blocks that may be discarded between two blocks going in.
    pub max_reorg_depth: u64,
    /// The most polls of the block feed in a row that may end on a block
    /// that cannot be used.
    pub stall_budget: u32,
    /// The delay before the first retry of a poll that failed in transit.
    pub backoff_base_ms: u64,
    /// The longest delay between such retries.
    pub backoff_cap_ms: u64,
    /// The delay before the retry of a poll whose response was malformed.
    pub malformed_delay_ms: u64,
    /// The delay between two rounds of polls while catching up.
    pub catchup_delay_ms: u64,
    /// The delay between two rounds of polls while following.
    pub follow_delay_ms: u64,
}

impl Default for SyncConfig {
    fn default() -> (c: SyncConfig)
        ensures
            c == (SyncConfig {
                max_reorg_depth: 64,
                stall_budget: 16,
                backoff_base_ms: 500,
                backoff_cap_ms: 60_000,
                malformed_delay_ms: 30_000,
                catchup_delay_ms: 0,
                follow_delay_ms: 5_000,
            }),
    {
        SyncConfig {
            max_reorg_depth: 64,
            stall_budget: 16,
            backoff_base_ms: 500,
            backoff_cap_ms: 60_000,
            malformed_delay_ms: 30_000,
            catchup_delay_ms: 0,
            follow_delay_ms: 5_000,
        }
    }
}

/// Where the synchronisation stands.
#[derive(Clone, Copy, Debug, PartialEq, Eq, Structural)]
pub enum Phase {
    /// Not started: the cursors are not set yet.
    Bootstrapping,
    /// Polling without pause until both feeds have nothing new.
    CatchingUp,
    /// Caught up once; polling at the slower pace.
    Following,
    /// A rollback was made and is not durable yet.
    Reorg,
    /// Stopped for good on a fatal failure.
    Halted,
}

/// One of the two feeds.
#[derive(Clone, Copy, Debug, PartialEq, Eq, Structural)]
pub enum Feed {
    Blocks,
    Anchors,
}

/// What the engine waits for.
#[derive(Clone, Copy, Debug, PartialEq, Eq, Structural)]
pub enum Awaiting {
    Start,
    Blocks,
    Anchors,
    Persisted,
    Elapsed,
    Halted(SyncError),
}

/// What the driver is to do next.
#[derive(Clone, Copy, Debug, PartialEq, Eq, Structural)]
pub enum Action {
    /// Poll the block feed from the height `from`, and report the
    /// response as `Event::Blocks`.
    PollBlocks { from: u64 },
    /// Poll the anchor feed from the settlement-layer block `from`, and
    /// report the response as `Event::Anchors`.
    PollAnchors { from: u64 },
    /// Make the store durable, and report `Event::Persisted` or
    /// `Event::PersistFailed`.
    Persist,
    /// Wait for `millis` milliseconds, and report `Event::Elapsed`.
    Wait { millis: u64 },
    /// Stop: the failure is fatal.
    Halt(SyncError),
}

/// What the driver reports.
#[derive(Debug)]
pub enum Event {
    Start,
    Blocks(Result<Vec<Block>, IngestError>),
    Anchors(Result<Vec<Anchor>, IngestError>),
    Persisted,
    PersistFailed,
    Elapsed,
}

/// The mathematical value of an [`Event`].
pub enum EventView {
    Start,
    Blocks(Result<Seq<BlockView>, IngestError>),
    Anchors(Result<Seq<Anchor>, IngestError>),
    Persisted,
    PersistFailed,
    Elapsed,
}

impl View for Event {
    type V = EventView;

    open spec fn view(&self) -> EventView {
        match self {
            Event::Start => EventView::Start,
            Event::Blocks(Ok(batch)) => EventView::Blocks(Ok(chain_of(batch@))),
            Event::Blocks(Err(e)) => EventView::Blocks(Err(*e)),
            Event::Anchors(Ok(batch)) => EventView::Anchors(Ok(batch@)),
            Event::Anchors(Err(e)) => EventView::Anchors(Err(*e)),
            Event::Persisted => EventView::Persisted,
            Event::PersistFailed => EventView::PersistFailed,
            Event::Elapsed => EventView::Elapsed,
        }
    }
}

/// The greatest height that an anchor of `m` speaks of; 0 for none.
pub open spec fn top_anchor_height(m: Map<u64, Anchor>) -> u64 {
    if exists|k: u64| m.contains_key(k) {
        choose|k: u64| m.contains_key(k) && forall|j: u64| m.contains_key(j) ==> j <= k
    } else {
        0
    }
}

/// The greatest settlement-layer block number among the anchors of `m`;
/// 0 for none.
pub open spec fn newest_l1_block(m: Map<u64, Anchor>) -> u64 {
    if exists|n: u64| latest_l1(m, Some(n)) {
        choose|n: u64| latest_l1(m, Some(n))
    } else {
        0
    }
}

/// The mathematical value of an [`Engine`].
pub struct EngineView {
    pub store: StoreState,
    pub config: SyncConfig,
    pub phase: Phase,
    pub awaiting: Awaiting,
    /// The feed to poll once nothing else is outstanding.
    pub resume: Feed,
    /// The delay before that poll.
    pub delay_ms: u64,
    /// The settlement-layer block from which anchors are polled.
    pub l1_cursor: u64,
    /// The count of blocks discarded since the last block went in.
    pub rolled_back: u64,
    /// The count of polls of the block feed in a row that ended on a
    /// block that could not be used.
    pub stalls: u32,
    /// The count of polls in a row that failed in transit.
    pub failures: u32,
    /// Whether the most recent poll of the block feed had nothing new.
    pub blocks_idle: bool,
    /// Whether the most recent poll of the anchor feed had nothing new.
    pub anchors_idle: bool,
}

impl EngineView {
    /// The engine before its start.
    pub open spec fn initial(store: StoreState, config: SyncConfig) -> EngineView {
        EngineView {
            store,
            config,
            phase: Phase::Bootstrapping,
            awaiting: Awaiting::Start,
            resume: Feed::Blocks,
            delay_ms: 0,
            l1_cursor: 0,
            rolled_back: 0,
            stalls: 0,
            failures: 0,
            blocks_idle: false,
            anchors_idle: false,
        }
    }

    /// Whether the phase and what the engine waits for go together: the
    /// engine waits for its start exactly while bootstrapping, for nothing
    /// exactly once halted, and for the store to be made durable all
    /// through a reorg; and whether the count of discarded blocks is
    /// within its bound.
    pub open spec fn coherent(self) -> bool {
        &&& self.phase == Phase::Bootstrapping <==> self.awaiting is Start
        &&& self.phase == Phase::Halted <==> self.awaiting is Halted
        &&& self.phase == Phase::Reorg ==> self.awaiting is Persisted
        &&& self.rolled_back <= self.config.max_reorg_depth
    }

    /// The status that readers see.
    pub open spec fn status(self) -> SyncStatus {
        SyncStatus {
            highest_l1_anchor_height: top_anchor_height(self.store.anchors),
            highest_applied_l2_height: match self.store.tip() {
                Some(t) => t,
                None => 0,
            },
            is_caught_up: self.blocks_idle && self.anchors_idle,
        }
    }

    /// The action that the engine waits on.
    pub open spec fn outstanding(self) -> Action {
        match self.awaiting {
            Awaiting::Start => Action::Wait { millis: 0 },
            Awaiting::Blocks => Action::PollBlocks { from: self.store.blocks.len() as u64 },
            Awaiting::Anchors => Action::PollAnchors { from: self.l1_cursor },
            Awaiting::Persisted => Action::Persist,
            Awaiting::Elapsed => Action::Wait { millis: self.delay_ms },
            Awaiting::Halted(e) => Action::Halt(e),
        }
    }

    /// The engine polling the feed whose turn it is.
    pub open spec fn poll(self) -> EngineView {
        EngineView {
            awaiting: match self.resume {
                Feed::Blocks => Awaiting::Blocks,
                Feed::Anchors => Awaiting::Anchors,
            },
            delay_ms: 0,
            ..self
        }
    }

    /// The engine going on to the next poll, through the delay before it
    /// where there is one.
    pub open spec fn proceed(self) -> EngineView {
        if self.delay_ms > 0 {
            EngineView { awaiting: Awaiting::Elapsed, ..self }
        } else {
            self.poll()
        }
    }

    /// The engine going on after a piece of work, through making the
    /// store durable where the work touched it.
    pub open spec fn settle(self, touched: bool) -> EngineView {
        if touched {
            EngineView { awaiting: Awaiting::Persisted, ..self }
        } else {
            self.proceed()
        }
    }

    /// The engine stopped on the fatal failure `e`.
    pub open spec fn halt(self, e: SyncError) -> EngineView {
        EngineView { phase: Phase::Halted, awaiting: Awaiting::Halted(e), ..self }
    }

    /// The engine started: blocks are polled from above the stored tip,
    /// and anchors from the settlement-layer block of the newest stored
    /// anchor, or both from genesis where the store holds no block.
    pub open spec fn boot(self) -> EngineView {
        (EngineView {
            phase: Phase::CatchingUp,
            l1_cursor: if self.store.blocks.len() == 0 {
                0
            } else {
                newest_l1_block(self.store.anchors)
            },
            resume: Feed::Blocks,
            delay_ms: 0,
            ..self
        }).poll()
    }

    /// The engine after a poll of `feed` failed: the same feed is polled
    /// again, after a delay that doubles while polls fail in transit and
    /// is fixed where the response was malformed.
    pub open spec fn retry(self, feed: Feed, e: IngestError) -> EngineView {
        let noted = EngineView {
            resume: feed,
            blocks_idle: feed != Feed::Blocks && self.blocks_idle,
            anchors_idle: feed != Feed::Anchors && self.anchors_idle,
            ..self
        };
        match e {
            IngestError::Transient => (EngineView {
                failures: if self.failures < u32::MAX {
                    (self.failures + 1) as u32
                } else {
                    self.failures
                },
                delay_ms: backoff_delay(
                    self.config.backoff_base_ms,
                    self.config.backoff_cap_ms,
                    self.failures,
                ),
                ..noted
            }).proceed(),
            IngestError::Malformed => (EngineView {
                failures: 0,
                delay_ms: self.config.malformed_delay_ms,
                ..noted
            }).proceed(),
        }
    }

    /// The engine after a well-formed batch of blocks was offered to the
    /// store. Where stored blocks were discarded, for a block that took
    /// their place or for one that did not link, the engine is in a reorg
    /// until the store is durable, and polls the anchors again from the
    /// newest one that is left. A block that has to wait counts against
    /// the stall budget, whatever went in before it.
    pub open spec fn on_blocks(self, batch: Seq<BlockView>) -> EngineView {
        let f = after_blocks(self.store, batch, self.rolled_back, self.config.max_reorg_depth);
        let discarded = f.replaced || f.stopped matches Some(BlockOutcome::RolledBack { .. });
        let w = EngineView {
            store: f.store,
            rolled_back: f.rolled_back,
            failures: 0,
            blocks_idle: batch.len() == 0,
            phase: if discarded {
                Phase::Reorg
            } else {
                self.phase
            },
            l1_cursor: if discarded {
                newest_l1_block(f.store.anchors)
            } else {
                self.l1_cursor
            },
            delay_ms: 0,
            ..self
        };
        match f.stopped {
            Some(BlockOutcome::RolledBack { .. }) => (EngineView {
                stalls: 0,
                resume: Feed::Blocks,
                ..w
            }).settle(true),
            Some(BlockOutcome::Stalled(k)) => if self.stalls >= self.config.stall_budget {
                w.halt(SyncError::Inconsistent(k))
            } else {
                (EngineView { stalls: (self.stalls + 1) as u32, resume: Feed::Anchors, ..w }).settle(
                    f.touched,
                )
            },
            Some(BlockOutcome::Refused(k)) => w.halt(SyncError::Inconsistent(k)),
            _ => (EngineView { stalls: 0, resume: Feed::Anchors, ..w }).settle(f.touched),
        }
    }

    /// The engine after a well-formed batch of anchors was offered to the
    /// store.
    pub open spec fn on_anchors(self, batch: Seq<Anchor>) -> EngineView {
        let f = after_anchors(self.store, batch, self.rolled_back, self.config.max_reorg_depth);
        match f.refused {
            Some(k) => (EngineView { failures: 0, anchors_idle: false, ..self }).halt(
                SyncError::Inconsistent(k),
            ),
            None => {
                let idle = batch.len() == 0;
                let phase = if f.rolled_back != self.rolled_back {
                    Phase::Reorg
                } else if self.blocks_idle && idle {
                    Phase::Following
                } else {
                    self.phase
                };
                (EngineView {
                    store: f.store,
                    rolled_back: f.rolled_back,
                    failures: 0,
                    anchors_idle: idle,
                    l1_cursor: if idle {
                        self.l1_cursor
                    } else {
                        batch.last().l1_block_number
                    },
                    phase,
                    resume: Feed::Blocks,
                    delay_ms: if phase == Phase::Following {
                        self.config.follow_delay_ms
                    } else {
                        self.config.catchup_delay_ms
                    },
                    ..self
                }).settle(f.touched)
            },
        }
    }

    /// The engine after the event `ev`. An event that the engine does not
    /// wait for changes nothing.
    pub open spec fn after(self, ev: EventView) -> EngineView {
        match self.awaiting {
            Awaiting::Start => self.boot(),
            Awaiting::Halted(_) => self,
            Awaiting::Blocks => match ev {
                EventView::Blocks(Ok(batch)) => if heights_ascend(batch) {
                    self.on_blocks(batch)
                } else {
                    self.retry(Feed::Blocks, IngestError::Malformed)
                },
                EventView::Blocks(Err(e)) => self.retry(Feed::Blocks, e),
                _ => self,
            },
            Awaiting::Anchors => match ev {
                EventView::Anchors(Ok(batch)) => if in_log_order(self.l1_cursor, batch) {
                    self.on_anchors(batch)
                } else {
                    self.retry(Feed::Anchors, IngestError::Malformed)
                },
                EventView::Anchors(Err(e)) => self.retry(Feed::Anchors, e),
                _ => self,
            },
            Awaiting::Persisted => match ev {
                EventView::Persisted => (EngineView {
                    phase: if self.phase == Phase::Reorg {
                        Phase::CatchingUp
                    } else {
                        self.phase
                    },
                    ..self
                }).proceed(),
                EventView::PersistFailed => self.halt(SyncError::StorageFailure(StorageError::Io)),
                _ => self,
            },
            Awaiting::Elapsed => match ev {
                EventView::Elapsed => self.poll(),
                _ => self,
            },
        }
    }
}

/// Whatever the driver reports, the store of the engine stays consistent:
/// its chain is unbroken from genesis to the tip, and each stored block
/// agrees with the anchor for its height.
pub proof fn lemma_step_keeps_consistent(v: EngineView, ev: EventView)
    requires
        v.store.consistent(),
    ensures
        v.after(ev).store.consistent(),
{
    let max = v.config.max_reorg_depth;
    match ev {
        EventView::Blocks(Ok(batch)) => {
            lemma_chain_unbroken(v.store, batch, v.rolled_back, max);
        },
        EventView::Anchors(Ok(batch)) => {
            lemma_anchor_fold_grows(v.store, batch, v.rolled_back, max);
        },
        _ => {},
    }
}

/// Once a block is finalized, no report of the driver but one of anchors
/// takes it from the store or changes it.
pub proof fn lemma_finalized_outlives_step(v: EngineView, ev: EventView, h: u64)
    requires
        v.store.consistent(),
        v.store.finalized(h),
        !(ev is Anchors),
    ensures
        v.after(ev).store.finalized(h),
        v.after(ev).store.blocks[h as int] == v.store.blocks[h as int],
{
    match ev {
        EventView::Blocks(Ok(batch)) => {
            lemma_finalized_outlives_blocks(
                v.store,
                batch,
                v.rolled_back,
                v.config.max_reorg_depth,
                h,
            );
        },
        _ => {},
    }
}

/// A finalized block also outlives a report of anchors of which none
/// contradicts a block at its height or below.
pub proof fn lemma_finalized_outlives_anchor_step(v: EngineView, batch: Seq<Anchor>, h: u64)
    requires
        v.store.consistent(),
        v.store.finalized(h),
        forall|i: int|
            0 <= i < batch.len() ==> !conflicts_at_or_below(v.store, #[trigger] batch[i], h),
    ensures
        v.after(EventView::Anchors(Ok(batch))).store.finalized(h),
        v.after(EventView::Anchors(Ok(batch))).store.blocks[h as int] == v.store.blocks[h as int],
{
    lemma_finalized_outlives_anchors(
        v.store,
        batch,
        v.rolled_back,
        v.config.max_reorg_depth,
        h,
    );
}

/// What the status says of the store: where the store holds a block, the
/// applied height is that of its tip, and a block stands at that height;
/// where it holds none, the applied height is 0. The status is caught up
/// exactly when both feeds had nothing new at their most recent poll.
pub proof fn lemma_status_follows_store(v: EngineView)
    requires
        v.store.consistent(),
    ensures
        v.store.blocks.len() > 0 ==> v.status().highest_applied_l2_height + 1
            == v.store.blocks.len() && v.store.blocks[v.status().highest_applied_l2_height as int].height
            == v.status().highest_applied_l2_height,
        v.store.blocks.len() == 0 ==> v.status().highest_applied_l2_height == 0,
        v.status().is_caught_up <==> v.blocks_idle && v.anchors_idle,
{
    if v.store.blocks.len() > 0 {
        let tip = v.store.blocks.len() - 1;
        assert(v.store.blocks[tip].height == tip);
    }
}

/// A halted engine stays as it is, whatever the driver reports.
pub proof fn lemma_halt_is_final(v: EngineView, ev: EventView)
    requires
        v.awaiting is Halted,
    ensures
        v.after(ev) == v,
        v.after(ev).outstanding() is Halt,
{
}

/// Only a fatal failure halts the engine: one of the feeds against the
/// store, or one of the store itself.
pub proof fn lemma_halts_on_fatal_only(v: EngineView, ev: EventView)
    requires
        !(v.awaiting is Halted),
    ensures
        v.after(ev).awaiting matches Awaiting::Halted(e) ==> e.fatal(),
{
}

/// Whatever the driver reports, the phase and what the engine waits for
/// stay in step.
pub proof fn lemma_step_keeps_coherent(v: EngineView, ev: EventView)
    requires
        v.coherent(),
        v.store.consistent(),
    ensures
        v.after(ev).coherent(),
{
    match ev {
        EventView::Blocks(Ok(batch)) => {
            lemma_block_depth_stays_bounded(
                v.store,
                batch,
                v.rolled_back,
                v.config.max_reorg_depth,
            );
            lemma_replacing_touches(v.store, batch, v.rolled_back, v.config.max_reorg_depth);
        },
        EventView::Anchors(Ok(batch)) => {
            lemma_anchor_fold_grows(v.store, batch, v.rolled_back, v.config.max_reorg_depth);
            lemma_anchor_depth_stays_bounded(
                v.store,
                batch,
                v.rolled_back,
                v.config.max_reorg_depth,
            );
        },
        _ => {},
    }
}

/// The single driver of the synchronisation: it owns the store and the
/// sync status, and decides each step.
#[derive(Debug)]
pub struct Engine {
    storage: Storage,
    config: SyncConfig,
    phase: Phase,
    awaiting: Awaiting,
    resume: Feed,
    delay_ms: u64,
    l1_cursor: u64,
    rolled_back: u64,
    stalls: u32,
    failures: u32,
    blocks_idle: bool,
    anchors_idle: bool,
}

impl View for Engine {
    type V = EngineView;

    closed spec fn view(&self) -> EngineView {
        EngineView {
            store: self.storage@,
            config: self.config,
            phase: self.phase,
            awaiting: self.awaiting,
            resume: self.resume,
            delay_ms: self.delay_ms,
            l1_cursor: self.l1_cursor,
            rolled_back: self.rolled_back,
            stalls: self.stalls,
            failures: self.failures,
            blocks_idle: self.blocks_idle,
            anchors_idle: self.anchors_idle,
        }
    }
}

impl Engine {
    /// The invariant of the engine: its store is well formed, and its
    /// phase goes with what it waits for.
    pub closed spec fn wf(&self) -> bool {
        &&& self.storage.wf()
        &&& self@.coherent()
    }

    /// The store of a well-formed engine is consistent, and its phase
    /// goes with what it waits for.
    pub proof fn lemma_consistent(&self)
        requires
            self.wf(),
        ensures
            self@.store.consistent(),
            self@.coherent(),
    {
        self.storage.lemma_consistent();
    }

    /// An engine over the given store, not started yet.
    pub fn new(storage: Storage, config: SyncConfig) -> (e: Engine)
        requires
            storage.wf(),
        ensures
            e.wf(),
            e@ == EngineView::initial(storage@, config),
    {
        Engine {
            storage,
            config,
            phase: Phase::Bootstrapping,
            awaiting: Awaiting::Start,
            resume: Feed::Blocks,
            delay_ms: 0,
            l1_cursor: 0,
            rolled_back: 0,
            stalls: 0,
            failures: 0,
            blocks_idle: false,
            anchors_idle: false,
        }
    }

    /// Where the synchronisation stands.
    pub fn phase(&self) -> (p: Phase)
        ensures
            p == self@.phase,
    {
        self.phase
    }

    /// The store, for reading.
    pub fn storage(&self) -> (s: &Storage)
        ensures
            s@ == self@.store,
            self.wf() ==> s.wf(),
    {
        &self.storage
    }

    /// Gives the store back and ends the engine.
    pub fn into_storage(self) -> (s: Storage)
        ensures
            s@ == self@.store,
            self.wf() ==> s.wf(),
    {
        self.storage
    }

    /// The settlement-layer block from which anchors are polled.
    pub fn l1_cursor(&self) -> (c: u64)
        ensures
            c == self@.l1_cursor,
    {
        self.l1_cursor
    }

    /// The status that readers see: recomputed from the store, so that it
    /// is never a mix of two states.
    pub fn status(&self) -> (s: SyncStatus)
        requires
            self.wf(),
        ensures
            s == self@.status(),
    {
        let top = match self.storage.highest_anchor_height() {
            Some(h) => h,
            None => 0,
        };
        let tip = match self.storage.read_tip_height() {
            Some(t) => t,
            None => 0,
        };
        SyncStatus {
            highest_l1_anchor_height: top,
            highest_applied_l2_height: tip,
            is_caught_up: self.blocks_idle && self.anchors_idle,
        }
    }

    /// The action that the engine waits on.
    pub fn outstanding(&self) -> (a: Action)
        ensures
            a == self@.outstanding(),
    {
        match self.awaiting {
            Awaiting::Start => Action::Wait { millis: 0 },
            Awaiting::Blocks => Action::PollBlocks { from: self.storage.block_count() as u64 },
            Awaiting::Anchors => Action::PollAnchors { from: self.l1_cursor },
            Awaiting::Persisted => Action::Persist,
            Awaiting::Elapsed => Action::Wait { millis: self.delay_ms },
            Awaiting::Halted(e) => Action::Halt(e),
        }
    }

    /// Turns to the feed whose turn it is.
    fn poll(&mut self)
        ensures
            final(self)@ == old(self)@.poll(),
            final(self).storage == old(self).storage,
    {
        self.awaiting = match self.resume {
            Feed::Blocks => Awaiting::Blocks,
            Feed::Anchors => Awaiting::Anchors,
        };
        self.delay_ms = 0;
    }

    /// Goes on to the next poll, through the delay before it.
    fn proceed(&mut self)
        ensures
            final(self)@ == old(self)@.proceed(),
            final(self).storage == old(self).storage,
    {
        if self.delay_ms > 0 {
            self.awaiting = Awaiting::Elapsed;
        } else {
            self.poll();
        }
    }

    /// Goes on after a piece of work, through making the store durable
    /// where the work touched it.
    fn settle(&mut self, touched: bool)
        ensures
            final(self)@ == old(self)@.settle(touched),
            final(self).storage == old(self).storage,
    {
        if touched {
            self.awaiting = Awaiting::Persisted;
        } else {
            self.proceed();
        }
    }

    /// Stops on a fatal failure.
    fn halt(&mut self, e: SyncError)
        ensures
            final(self)@ == old(self)@.halt(e),
            final(self).storage == old(self).storage,
    {
        self.phase = Phase::Halted;
        self.awaiting = Awaiting::Halted(e);
    }

    /// The greatest settlement-layer block number among the stored
    /// anchors; 0 for none.
    fn newest_l1(&self) -> (n: u64)
        requires
            self.storage.wf(),
        ensures
            n == newest_l1_block(self@.store.anchors),
    {
        match self.storage.latest_anchor_l1_block() {
            Some(n) => n,
            None => 0,
        }
    }

    /// Sets the cursors from the store and turns to the block feed.
    fn boot(&mut self)
        requires
            old(self).storage.wf(),
        ensures
            final(self).storage.wf(),
            final(self)@ == old(self)@.boot(),
    {
        self.l1_cursor = if self.storage.block_count() == 0 {
            0
        } else {
            self.newest_l1()
        };
        self.phase = Phase::CatchingUp;
        self.resume = Feed::Blocks;
        self.delay_ms = 0;
        self.poll();
    }

    /// Schedules the next poll of `feed` after its poll failed.
    fn retry(&mut self, feed: Feed, e: IngestError)
        ensures
            final(self)@ == old(self)@.retry(feed, e),
            final(self).storage == old(self).storage,
    {
        self.resume = feed;
        match feed {
            Feed::Blocks => {
                self.blocks_idle = false;
            },
            Feed::Anchors => {
                self.anchors_idle = false;
            },
        }
        match e {
            IngestError::Transient => {
                self.delay_ms = retry_delay(
                    self.config.backoff_base_ms,
                    self.config.backoff_cap_ms,
                    self.failures,
                );
                if self.failures < u32::MAX {
                    self.failures = self.failures + 1;
                }
            },
            IngestError::Malformed => {
                self.failures = 0;
                self.delay_ms = self.config.malformed_delay_ms;
            },
        }
        self.proceed();
    }

    /// Offers a well-formed batch of blocks to the store and decides how
    /// to go on.
    fn on_blocks(&mut self, batch: &Vec<Block>)
        requires
            old(self).storage.wf(),
        ensures
            final(self).storage.wf(),
            final(self)@ == old(self)@.on_blocks(chain_of(batch@)),
    {
        let r = apply_blocks(
            &mut self.storage,
            batch,
            self.rolled_back,
            self.config.max_reorg_depth,
        );
        let rolled = match r.stopped {
            Some(BlockOutcome::RolledBack { .. }) => true,
            _ => false,
        };
        self.rolled_back = r.rolled_back;
        self.failures = 0;
        self.blocks_idle = batch.len() == 0;
        self.delay_ms = 0;
        if r.replaced || rolled {
            self.phase = Phase::Reorg;
            self.l1_cursor = self.newest_l1();
        }
        match r.stopped {
            Some(BlockOutcome::RolledBack { .. }) => {
                self.stalls = 0;
                self.resume = Feed::Blocks;
                self.settle(true);
            },
            Some(BlockOutcome::Stalled(k)) => {
                if self.stalls >= self.config.stall_budget {
                    self.halt(SyncError::Inconsistent(k));
                } else {
                    self.stalls = self.stalls + 1;
                    self.resume = Feed::Anchors;
                    self.settle(r.touched);
                }
            },
            Some(BlockOutcome::Refused(k)) => {
                self.halt(SyncError::Inconsistent(k));
            },
            _ => {
                self.stalls = 0;
                self.resume = Feed::Anchors;
                self.settle(r.touched);
            },
        }
    }

    /// Offers a well-formed batch of anchors to the store and decides how
    /// to go on.
    fn on_anchors(&mut self, batch: &Vec<Anchor>)
        requires
            old(self).storage.wf(),
        ensures
            final(self).storage.wf(),
            final(self)@ == old(self)@.on_anchors(batch@),
    {
        let r = apply_anchors(
            &mut self.storage,
            batch,
            self.rolled_back,
            self.config.max_reorg_depth,
        );
        match r {
            AnchorBatchOutcome::Refused(k) => {
                self.failures = 0;
                self.anchors_idle = false;
                self.halt(SyncError::Inconsistent(k));
            },
            AnchorBatchOutcome::Applied { rolled_back, touched } => {
                let idle = batch.len() == 0;
                let phase = if rolled_back != self.rolled_back {
                    Phase::Reorg
                } else if self.blocks_idle && idle {
                    Phase::Following
                } else {
                    self.phase
                };
                self.rolled_back = rolled_back;
                self.failures = 0;
                self.anchors_idle = idle;
                if !idle {
                    self.l1_cursor = batch[batch.len() - 1].l1_block_number;
                }
                self.phase = phase;
                self.resume = Feed::Blocks;
                self.delay_ms = if phase == Phase::Following {
                    self.config.follow_delay_ms
                } else {
                    self.config.catchup_delay_ms
                };
                self.settle(touched);
            },
        }
    }

    /// Takes the event that the driver reports, does what it asks for,
    /// and says what the driver is to do next.
    pub fn step(&mut self, event: Event) -> (action: Action)
        requires
            old(self).wf(),
        ensures
            final(self).wf(),
            final(self)@ == old(self)@.after(event@),
            action == final(self)@.outstanding(),
    {
        proof {
            self.storage.lemma_consistent();
            lemma_step_keeps_coherent(self@, event@);
        }
        match self.awaiting {
            Awaiting::Start => {
                self.boot();
            },
            Awaiting::Halted(_) => {},
            Awaiting::Blocks => match event {
                Event::Blocks(Ok(batch)) => {
                    match check_block_batch(&batch) {
                        Ok(()) => {
                            self.on_blocks(&batch);
                        },
                        Err(_) => {
                            self.retry(Feed::Blocks, IngestError::Malformed);
                        },
                    }
                },
                Event::Blocks(Err(e)) => {
                    self.retry(Feed::Blocks, e);
                },
                _ => {},
            },
            Awaiting::Anchors => match event {
                Event::Anchors(Ok(batch)) => {
                    match check_anchor_batch(self.l1_cursor, &batch) {
                        Ok(()) => {
                            self.on_anchors(&batch);
                        },
                        Err(_) => {
                            self.retry(Feed::Anchors, IngestError::Malformed);
                        },
                    }
                },
                Event::Anchors(Err(e)) => {
                    self.retry(Feed::Anchors, e);
                },
                _ => {},
            },
            Awaiting::Persisted => match event {
                Event::Persisted => {
                    if self.phase == Phase::Reorg {
                        self.phase = Phase::CatchingUp;
                    }
                    self.proceed();
                },
                Event::PersistFailed => {
                    self.halt(SyncError::StorageFailure(StorageError::Io));
                },
                _ => {},
            },
            Awaiting::Elapsed => match event {
                Event::Elapsed => {
                    self.poll();
                },
                _ => {},
            },
        }
        self.outstanding()
    }
}

} // verus!
