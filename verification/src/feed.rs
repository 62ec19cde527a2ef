//! What the two ingestors decide around their polls: which settlement-layer
//! blocks to look through, what a log amounts to, what a reply of the
//! sequencer amounts to, and when a response is complete.

use crate::error::IngestError;
use crate::types::Anchor;
use crate::wire::{
    decode_state_update, is_state_update, positional, state_update_anchor, u64_from_word,
};
use vstd::prelude::*;

verus! {

/// The chains that the node knows.
#[derive(Clone, Copy, Debug, PartialEq, Eq, Structural)]
pub enum Chain {
    Mainnet,
    Goerli,
}

/// The chain with the given id.
pub open spec fn chain_of_id(id: nat) -> Option<Chain> {
    if id == 1 {
        Some(Chain::Mainnet)
    } else if id == 5 {
        Some(Chain::Goerli)
    } else {
        None
    }
}

/// The chain whose id the 32-byte big-endian word `id` writes; `None` for
/// the id of another chain and for any other count of bytes.
pub fn chain_from_id(id: &Vec<u8>) -> (r: Option<Chain>)
    ensures
        r == if id@.len() == 32 {
            chain_of_id(positional(id@, 256))
        } else {
            None
        },
{
    match u64_from_word(id) {
        Some(1) => Some(Chain::Mainnet),
        Some(5) => Some(Chain::Goerli),
        _ => None,
    }
}

/// The most settlement-layer blocks that one poll looks through.
pub const L1_BLOCKS_PER_POLL: u64 = 10_000;

/// A stretch of settlement-layer blocks that was looked through without a
/// find: the cursor of that poll, and the block after the stretch.
#[derive(Clone, Copy, Debug, PartialEq, Eq, Structural)]
pub struct Scanned {
    pub cursor: u64,
    pub next: u64,
}

/// The settlement-layer blocks from `from` up to and including `to`.
#[derive(Clone, Copy, Debug, PartialEq, Eq, Structural)]
pub struct Window {
    pub from: u64,
    pub to: u64,
}

/// The block from which a poll with the given cursor looks: the cursor,
/// or, where the blocks after it were looked through without a find in
/// earlier polls with the same cursor, the block after those.
pub open spec fn window_start(cursor: u64, scanned: Option<Scanned>) -> u64 {
    match scanned {
        Some(s) => if s.cursor == cursor && s.next >= cursor {
            s.next
        } else {
            cursor
        },
        None => cursor,
    }
}

/// The blocks that a poll with the given cursor looks through when the
/// settlement layer's newest block is `head`: at most
/// `L1_BLOCKS_PER_POLL` of them, and none where the start lies beyond
/// `head`.
pub open spec fn poll_window(cursor: u64, scanned: Option<Scanned>, head: u64) -> Option<Window> {
    let from = window_start(cursor, scanned);
    if from > head {
        None
    } else {
        Some(
            Window {
                from,
                to: if from + L1_BLOCKS_PER_POLL - 1 < head {
                    (from + L1_BLOCKS_PER_POLL - 1) as u64
                } else {
                    head
                },
            },
        )
    }
}

/// The blocks that a poll with the given cursor looks through.
pub fn anchor_poll_window(cursor: u64, scanned: Option<Scanned>, head: u64) -> (r: Option<Window>)
    ensures
        r == poll_window(cursor, scanned, head),
        r matches Some(w) ==> cursor <= w.from <= w.to <= head,
{
    let from = match scanned {
        Some(s) => if s.cursor == cursor && s.next >= cursor {
            s.next
        } else {
            cursor
        },
        None => cursor,
    };
    if from > head {
        return None;
    }
    let to = if head - from >= L1_BLOCKS_PER_POLL {
        from + (L1_BLOCKS_PER_POLL - 1)
    } else {
        head
    };
    Some(Window { from, to })
}

/// What to remember of a poll that looked through `window`: nothing where
/// it found anchors, since the cursor then moves; else the stretch that
/// the next poll with the same cursor may pass over.
pub fn scanned_after(cursor: u64, window: Window, found: bool) -> (r: Option<Scanned>)
    ensures
        r == if found {
            None
        } else {
            Some(
                Scanned {
                    cursor,
                    next: if window.to < u64::MAX {
                        (window.to + 1) as u64
                    } else {
                        window.to
                    },
                },
            )
        },
{
    if found {
        None
    } else {
        Some(
            Scanned {
                cursor,
                next: if window.to < u64::MAX {
                    window.to + 1
                } else {
                    window.to
                },
            },
        )
    }
}

/// A log of the settlement layer as its node delivers it.
#[derive(Debug)]
pub struct RawLog {
    /// The data of the log.
    pub data: Vec<u8>,
    /// The number of the block that holds the log, once it is in one.
    pub block_number: Option<u64>,
    /// The position of the log in its block, as a 32-byte big-endian word,
    /// once it is in one.
    pub log_index: Option<Vec<u8>>,
    /// Whether the settlement layer has withdrawn the log.
    pub removed: bool,
}

/// The position that the log gives for itself, where it gives one within
/// 32 bits.
pub open spec fn log_position(log: RawLog) -> Option<u32> {
    match log.log_index {
        Some(w) => if w@.len() == 32 && positional(w@, 256) <= u32::MAX {
            Some(positional(w@, 256) as u32)
        } else {
            None
        },
        None => None,
    }
}

/// Whether the log has everything that an anchor needs: a block, a
/// position, and the data of a state update.
pub open spec fn log_is_anchor(log: RawLog) -> bool {
    log.block_number is Some && log_position(log) is Some && is_state_update(log.data@)
}

/// The anchor of a log: none for a log that was withdrawn, else the
/// anchor that its data describes at the place where it was logged. A log
/// without a block or a position, or with other data, is malformed.
pub fn anchor_from_log(log: &RawLog) -> (r: Result<Option<Anchor>, IngestError>)
    ensures
        log.removed ==> r == Ok::<Option<Anchor>, IngestError>(None),
        !log.removed ==> (r is Ok <==> log_is_anchor(*log)),
        !log.removed ==> (r matches Ok(found) ==> found matches Some(a) && state_update_anchor(
            log.data@,
            log.block_number.unwrap(),
            log_position(*log).unwrap(),
            a,
        )),
        r matches Err(e) ==> e == IngestError::Malformed,
{
    if log.removed {
        return Ok(None);
    }
    let block = match log.block_number {
        Some(b) => b,
        None => {
            return Err(IngestError::Malformed);
        },
    };
    let index = match &log.log_index {
        Some(w) => match u64_from_word(w) {
            Some(i) => {
                if i > u32::MAX as u64 {
                    return Err(IngestError::Malformed);
                }
                i as u32
            },
            None => {
                return Err(IngestError::Malformed);
            },
        },
        None => {
            return Err(IngestError::Malformed);
        },
    };
    match decode_state_update(&log.data, block, index) {
        Ok(a) => Ok(Some(a)),
        Err(e) => Err(e),
    }
}

/// What a reply of the sequencer amounts to, before its body is decoded.
#[derive(Clone, Copy, Debug, PartialEq, Eq, Structural)]
pub enum ReplyClass {
    /// The sequencer is in trouble; the poll failed in transit.
    Unreachable,
    /// The sequencer has no block at that height yet.
    Absent,
    /// The reply has no shape that the sequencer is known to give.
    Malformed,
    /// The body is to be decoded as a block.
    Present,
}

/// The class of a reply with the given HTTP status, whose body is or is
/// not a JSON document: a server error other than 500 is trouble in
/// transit; any other failure is the sequencer's way to say that it has
/// no such block, as long as it says so in JSON.
pub open spec fn reply_class(status: u16, body_is_json: bool) -> ReplyClass {
    if 500 < status < 600 {
        ReplyClass::Unreachable
    } else if 200 <= status < 300 {
        ReplyClass::Present
    } else if body_is_json {
        ReplyClass::Absent
    } else {
        ReplyClass::Malformed
    }
}

/// The class of a reply with the given HTTP status.
pub fn classify_reply(status: u16, body_is_json: bool) -> (r: ReplyClass)
    ensures
        r == reply_class(status, body_is_json),
{
    if 500 < status && status < 600 {
        ReplyClass::Unreachable
    } else if 200 <= status && status < 300 {
        ReplyClass::Present
    } else if body_is_json {
        ReplyClass::Absent
    } else {
        ReplyClass::Malformed
    }
}

/// The most blocks that one poll of the sequencer fetches.
pub const BLOCKS_PER_POLL: usize = 16;

/// How a poll of the sequencer goes on after one fetch.
#[derive(Clone, Copy, Debug, PartialEq, Eq, Structural)]
pub enum FetchStep {
    /// Keep the block and fetch the next height.
    Next,
    /// Keep the block and end the response with it.
    Last,
    /// There is no block; end the response with what was fetched before.
    End,
    /// The poll has failed.
    Fail(IngestError),
}

/// How a poll goes on after the fetch of the height `requested`, when
/// `fetched` blocks were kept before it. `outcome` is the height of the
/// block that came, `None` where the sequencer has none, or the failure
/// of the fetch. A block of another height than the requested one is
/// kept, for the acceptance rules to judge, and ends the response. A
/// failure fails the poll only where nothing was fetched before it.
pub open spec fn fetch_step(
    fetched: usize,
    requested: u64,
    outcome: Result<Option<u64>, IngestError>,
) -> FetchStep {
    match outcome {
        Ok(Some(h)) => if h == requested && fetched + 1 < BLOCKS_PER_POLL && requested
            < u64::MAX {
            FetchStep::Next
        } else {
            FetchStep::Last
        },
        Ok(None) => FetchStep::End,
        Err(e) => if fetched == 0 {
            FetchStep::Fail(e)
        } else {
            FetchStep::End
        },
    }
}

/// How a poll goes on after one fetch.
pub fn after_fetch(fetched: usize, requested: u64, outcome: Result<Option<u64>, IngestError>) -> (r:
    FetchStep)
    ensures
        r == fetch_step(fetched, requested, outcome),
{
    match outcome {
        Ok(Some(h)) => if h == requested && fetched < BLOCKS_PER_POLL - 1 && requested
            < u64::MAX {
            FetchStep::Next
        } else {
            FetchStep::Last
        },
        Ok(None) => FetchStep::End,
        Err(e) => if fetched == 0 {
            FetchStep::Fail(e)
        } else {
            FetchStep::End
        },
    }
}

} // verus!
