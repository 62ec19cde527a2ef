use pathfinder::error::IngestError;
use pathfinder::feed::{
    after_fetch, anchor_from_log, anchor_poll_window, chain_from_id, classify_reply,
    scanned_after, Chain, FetchStep, RawLog, ReplyClass, Scanned, Window, BLOCKS_PER_POLL,
    L1_BLOCKS_PER_POLL,
};
use pathfinder::types::{self, Anchor};
use pathfinder::wire::u64_from_word;

fn word(n: u128) -> Vec<u8> {
    let mut w = vec![0u8; 16];
    w.extend_from_slice(&n.to_be_bytes());
    w
}

fn state_update(root: u128, height: u128) -> Vec<u8> {
    let mut data = word(root);
    data.extend(word(height));
    data
}

fn log(height: u128) -> RawLog {
    RawLog {
        data: state_update(0xabc, height),
        block_number: Some(1_000),
        log_index: Some(word(3)),
        removed: false,
    }
}

#[test]
fn word_gives_its_number_within_64_bits() {
    assert_eq!(u64_from_word(&word(0)), Some(0));
    assert_eq!(u64_from_word(&word(300)), Some(300));
    assert_eq!(u64_from_word(&word(u64::MAX as u128)), Some(u64::MAX));
    assert_eq!(u64_from_word(&word(u64::MAX as u128 + 1)), None);
    let mut high = word(1);
    high[0] = 1;
    assert_eq!(u64_from_word(&high), None);
    assert_eq!(u64_from_word(&vec![0u8; 31]), None);
    assert_eq!(u64_from_word(&vec![0u8; 33]), None);
}

#[test]
fn chain_is_known_by_its_id() {
    assert_eq!(chain_from_id(&word(1)), Some(Chain::Mainnet));
    assert_eq!(chain_from_id(&word(5)), Some(Chain::Goerli));
    assert_eq!(chain_from_id(&word(0)), None);
    assert_eq!(chain_from_id(&word(4)), None);
    assert_eq!(chain_from_id(&word((1u128 << 64) + 1)), None);
    assert_eq!(chain_from_id(&vec![1u8]), None);
}

#[test]
fn poll_looks_from_the_cursor_to_the_head() {
    assert_eq!(anchor_poll_window(100, None, 250), Some(Window { from: 100, to: 250 }));
    assert_eq!(anchor_poll_window(100, None, 100), Some(Window { from: 100, to: 100 }));
    assert_eq!(anchor_poll_window(100, None, 99), None);
    assert_eq!(
        anchor_poll_window(100, None, 1_000_000),
        Some(Window { from: 100, to: 100 + L1_BLOCKS_PER_POLL - 1 })
    );
    assert_eq!(
        anchor_poll_window(100, None, 100 + L1_BLOCKS_PER_POLL - 1),
        Some(Window { from: 100, to: 100 + L1_BLOCKS_PER_POLL - 1 })
    );
    assert_eq!(
        anchor_poll_window(u64::MAX - 5, None, u64::MAX),
        Some(Window { from: u64::MAX - 5, to: u64::MAX })
    );
}

#[test]
fn poll_passes_over_what_was_looked_through() {
    let scanned = Some(Scanned { cursor: 100, next: 10_100 });
    assert_eq!(
        anchor_poll_window(100, scanned, 10_500),
        Some(Window { from: 10_100, to: 10_500 })
    );
    assert_eq!(anchor_poll_window(100, scanned, 10_099), None);
    // Another cursor starts afresh, and so does a stretch that lies below.
    assert_eq!(anchor_poll_window(90, scanned, 200), Some(Window { from: 90, to: 200 }));
    let below = Some(Scanned { cursor: 100, next: 50 });
    assert_eq!(anchor_poll_window(100, below, 200), Some(Window { from: 100, to: 200 }));
}

#[test]
fn poll_remembers_a_stretch_without_a_find() {
    let window = Window { from: 100, to: 250 };
    assert_eq!(scanned_after(100, window, true), None);
    assert_eq!(scanned_after(100, window, false), Some(Scanned { cursor: 100, next: 251 }));
    let last = Window { from: 100, to: u64::MAX };
    assert_eq!(scanned_after(7, last, false), Some(Scanned { cursor: 7, next: u64::MAX }));
}

#[test]
fn log_gives_its_anchor() {
    assert_eq!(
        anchor_from_log(&log(42)),
        Ok(Some(Anchor {
            l2_height: 42,
            state_root: types::Hash::new(0, 0xabc),
            l1_block_number: 1_000,
            l1_log_index: 3,
        }))
    );
    let mut far = log(42);
    far.log_index = Some(word(u32::MAX as u128));
    assert_eq!(anchor_from_log(&far).map(|a| a.map(|a| a.l1_log_index)), Ok(Some(u32::MAX)));
}

#[test]
fn withdrawn_log_gives_none() {
    let mut withdrawn = log(42);
    withdrawn.removed = true;
    assert_eq!(anchor_from_log(&withdrawn), Ok(None));
    withdrawn.block_number = None;
    withdrawn.data = Vec::new();
    assert_eq!(anchor_from_log(&withdrawn), Ok(None));
}

#[test]
fn log_without_its_place_or_with_other_data_is_malformed() {
    let mut pending = log(42);
    pending.block_number = None;
    assert_eq!(anchor_from_log(&pending), Err(IngestError::Malformed));
    let mut pending = log(42);
    pending.log_index = None;
    assert_eq!(anchor_from_log(&pending), Err(IngestError::Malformed));
    let mut far = log(42);
    far.log_index = Some(word(u32::MAX as u128 + 1));
    assert_eq!(anchor_from_log(&far), Err(IngestError::Malformed));
    let mut short = log(42);
    short.log_index = Some(vec![3u8]);
    assert_eq!(anchor_from_log(&short), Err(IngestError::Malformed));
    let mut other = log(42);
    other.data.pop();
    assert_eq!(anchor_from_log(&other), Err(IngestError::Malformed));
    assert_eq!(anchor_from_log(&log(u64::MAX as u128 + 1)), Err(IngestError::Malformed));
}

#[test]
fn reply_is_classed_by_status_and_body() {
    assert_eq!(classify_reply(200, true), ReplyClass::Present);
    assert_eq!(classify_reply(204, false), ReplyClass::Present);
    assert_eq!(classify_reply(299, true), ReplyClass::Present);
    assert_eq!(classify_reply(500, true), ReplyClass::Absent);
    assert_eq!(classify_reply(500, false), ReplyClass::Malformed);
    assert_eq!(classify_reply(404, true), ReplyClass::Absent);
    assert_eq!(classify_reply(404, false), ReplyClass::Malformed);
    assert_eq!(classify_reply(300, true), ReplyClass::Absent);
    assert_eq!(classify_reply(199, false), ReplyClass::Malformed);
    assert_eq!(classify_reply(501, true), ReplyClass::Unreachable);
    assert_eq!(classify_reply(503, false), ReplyClass::Unreachable);
    assert_eq!(classify_reply(599, true), ReplyClass::Unreachable);
    assert_eq!(classify_reply(600, true), ReplyClass::Absent);
}

#[test]
fn fetching_goes_on_until_the_response_is_complete() {
    assert_eq!(after_fetch(0, 7, Ok(Some(7))), FetchStep::Next);
    assert_eq!(after_fetch(BLOCKS_PER_POLL - 2, 7, Ok(Some(7))), FetchStep::Next);
    assert_eq!(after_fetch(BLOCKS_PER_POLL - 1, 7, Ok(Some(7))), FetchStep::Last);
    assert_eq!(after_fetch(0, u64::MAX, Ok(Some(u64::MAX))), FetchStep::Last);
    // A block of another height is kept and ends the response.
    assert_eq!(after_fetch(0, 7, Ok(Some(9))), FetchStep::Last);
    assert_eq!(after_fetch(3, 7, Ok(Some(6))), FetchStep::Last);
    assert_eq!(after_fetch(0, 7, Ok(None)), FetchStep::End);
    assert_eq!(after_fetch(5, 7, Ok(None)), FetchStep::End);
    assert_eq!(
        after_fetch(0, 7, Err(IngestError::Transient)),
        FetchStep::Fail(IngestError::Transient)
    );
    assert_eq!(
        after_fetch(0, 7, Err(IngestError::Malformed)),
        FetchStep::Fail(IngestError::Malformed)
    );
    assert_eq!(after_fetch(1, 7, Err(IngestError::Transient)), FetchStep::End);
}
