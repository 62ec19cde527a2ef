//! Decoding what the feeds deliver: the data of a settlement-layer log
//! and the text fields of a sequencer block.

use crate::error::IngestError;
use crate::types::{self, Anchor, Block, Transaction};
use vstd::prelude::*;

verus! {

/// `base` to the power of `n`.
pub open spec fn scale(base: nat, n: nat) -> nat
    decreases n,
{
    if n == 0 {
        1
    } else {
        base * scale(base, (n - 1) as nat)
    }
}

/// The number that `digits` write in the given base, the most significant
/// digit first.
pub open spec fn positional(digits: Seq<u8>, base: nat) -> nat
    decreases digits.len(),
{
    if digits.len() == 0 {
        0
    } else {
        positional(digits.drop_last(), base) * base + digits.last() as nat
    }
}

/// Whether every digit is below the base.
pub open spec fn digits_below(digits: Seq<u8>, base: nat) -> bool {
    forall|i: int| 0 <= i < digits.len() ==> (#[trigger] digits[i]) < base
}

/// 2^128, one more than the greatest half of a digest.
pub open spec fn half_limit() -> nat {
    0x1_0000_0000_0000_0000_0000_0000_0000_0000nat
}

proof fn lemma_scale_grows(base: nat, a: nat, b: nat)
    requires
        base >= 1,
        a <= b,
    ensures
        1 <= scale(base, a) <= scale(base, b),
    decreases b,
{
    if a == 0 {
        if b > 0 {
            lemma_scale_grows(base, 0, (b - 1) as nat);
            let x = scale(base, (b - 1) as nat) as int;
            let y = base as int;
            assert(y * x >= x) by (nonlinear_arith)
                requires
                    y >= 1,
                    x >= 1,
            ;
        }
    } else {
        lemma_scale_grows(base, (a - 1) as nat, (b - 1) as nat);
        let x = scale(base, (a - 1) as nat) as int;
        let z = scale(base, (b - 1) as nat) as int;
        let y = base as int;
        assert(y * x <= y * z && y * x >= 1) by (nonlinear_arith)
            requires
                y >= 1,
                1 <= x <= z,
        ;
    }
}

proof fn lemma_scale_adds(base: nat, a: nat, b: nat)
    ensures
        scale(base, a + b) == scale(base, a) * scale(base, b),
    decreases a,
{
    if a == 0 {
        assert(scale(base, 0) * scale(base, b) == scale(base, b)) by (nonlinear_arith)
            requires
                scale(base, 0) == 1,
        ;
    } else {
        lemma_scale_adds(base, (a - 1) as nat, b);
        let x = scale(base, (a - 1) as nat) as int;
        let z = scale(base, b) as int;
        let y = base as int;
        assert(y * (x * z) == (y * x) * z) by (nonlinear_arith);
        assert(scale(base, a + b) == base * scale(base, (a + b - 1) as nat));
    }
}

/// Sixteen bytes, like thirty-two hexadecimal digits, count up to 2^128.
proof fn lemma_half_limit()
    ensures
        scale(256, 16) == half_limit(),
        scale(16, 32) == half_limit(),
{
    assert(scale(256, 4) == 0x1_0000_0000) by {
        reveal_with_fuel(scale, 5);
    }
    lemma_scale_adds(256, 4, 4);
    lemma_scale_adds(256, 8, 8);
    let b4 = scale(256, 4);
    let b8 = scale(256, 8);
    assert(b8 == 0x1_0000_0000_0000_0000nat) by (nonlinear_arith)
        requires
            b8 == b4 * b4,
            b4 == 0x1_0000_0000,
    ;
    assert(scale(256, 16) == half_limit()) by (nonlinear_arith)
        requires
            scale(256, 16) == b8 * b8,
            b8 == 0x1_0000_0000_0000_0000nat,
            half_limit() == 0x1_0000_0000_0000_0000_0000_0000_0000_0000nat,
    ;
    assert(scale(16, 8) == 0x1_0000_0000) by {
        reveal_with_fuel(scale, 9);
    }
    lemma_scale_adds(16, 8, 8);
    lemma_scale_adds(16, 16, 16);
    let h8 = scale(16, 8);
    let h16 = scale(16, 16);
    assert(h16 == 0x1_0000_0000_0000_0000nat) by (nonlinear_arith)
        requires
            h16 == h8 * h8,
            h8 == 0x1_0000_0000,
    ;
    assert(scale(16, 32) == half_limit()) by (nonlinear_arith)
        requires
            scale(16, 32) == h16 * h16,
            h16 == 0x1_0000_0000_0000_0000nat,
            half_limit() == 0x1_0000_0000_0000_0000_0000_0000_0000_0000nat,
    ;
}

/// Digits below the base write a number below the base to the power of
/// their count.
proof fn lemma_positional_bound(digits: Seq<u8>, base: nat)
    requires
        base >= 1,
        digits_below(digits, base),
    ensures
        positional(digits, base) < scale(base, digits.len()),
    decreases digits.len(),
{
    if digits.len() > 0 {
        let front = digits.drop_last();
        assert(digits_below(front, base)) by {
            assert forall|i: int| 0 <= i < front.len() implies (#[trigger] front[i]) < base by {
                assert(digits[i] < base);
            }
        }
        lemma_positional_bound(front, base);
        let p = positional(front, base) as int;
        let s = scale(base, front.len()) as int;
        let b = base as int;
        let d = digits.last() as int;
        assert(p * b + d < b * s) by (nonlinear_arith)
            requires
                0 <= p < s,
                0 <= d < b,
        ;
    }
}

/// The number that two runs of digits write together.
proof fn lemma_positional_split(a: Seq<u8>, b: Seq<u8>, base: nat)
    ensures
        positional(a + b, base) == positional(a, base) * scale(base, b.len()) + positional(b, base),
    decreases b.len(),
{
    if b.len() == 0 {
        assert(a + b =~= a);
        assert(positional(a, base) * scale(base, 0) == positional(a, base)) by (nonlinear_arith)
            requires
                scale(base, 0) == 1,
        ;
    } else {
        let front = b.drop_last();
        assert((a + b).drop_last() =~= a + front);
        lemma_positional_split(a, front, base);
        let pa = positional(a, base) as int;
        let pf = positional(front, base) as int;
        let s = scale(base, front.len()) as int;
        let x = base as int;
        let d = b.last() as int;
        assert((pa * s + pf) * x + d == pa * (x * s) + (pf * x + d)) by (nonlinear_arith);
    }
}

/// The number that the digits of `digits` from `from` up to, not
/// including, `to` write in the base `base`.
fn accumulate(digits: &Vec<u8>, from: usize, to: usize, base: u128) -> (r: u128)
    requires
        from <= to <= digits@.len(),
        base >= 2,
        digits_below(digits@.subrange(from as int, to as int), base as nat),
        scale(base as nat, (to - from) as nat) <= half_limit(),
    ensures
        r == positional(digits@.subrange(from as int, to as int), base as nat),
{
    let ghost all = digits@.subrange(from as int, to as int);
    let mut acc: u128 = 0;
    let mut i: usize = from;
    assert(all.take(0) =~= Seq::<u8>::empty());
    while i < to
        invariant
            from <= i <= to <= digits@.len(),
            base >= 2,
            all == digits@.subrange(from as int, to as int),
            digits_below(all, base as nat),
            scale(base as nat, (to - from) as nat) <= half_limit(),
            acc == positional(all.take(i - from), base as nat),
            acc < scale(base as nat, (i - from) as nat),
        decreases to - i,
    {
        let d = digits[i];
        proof {
            let k = (i - from) as nat;
            let pre = all.take(k as int);
            let next = all.take(k as int + 1);
            assert(next.drop_last() =~= pre);
            assert(next.last() == d);
            assert(all[k as int] == d);
            assert(digits_below(next, base as nat)) by {
                assert forall|j: int| 0 <= j < next.len() implies (#[trigger] next[j]) < base by {
                    assert(all[j] < base);
                }
            }
            lemma_positional_bound(next, base as nat);
            lemma_scale_grows(base as nat, k + 1, (to - from) as nat);
        }
        acc = acc * base + d as u128;
        i += 1;
    }
    assert(all.take(to - from) =~= all);
    acc
}

/// The two halves of the 32-byte big-endian word that starts at `from`.
fn word_halves(data: &Vec<u8>, from: usize) -> (r: (u128, u128))
    requires
        from + 32 <= data.len(),
    ensures
        r.0 * half_limit() + r.1 == positional(data@.subrange(from as int, from + 32), 256),
{
    let ghost upper = data@.subrange(from as int, from + 16);
    let ghost lower = data@.subrange(from + 16, from + 32);
    proof {
        lemma_half_limit();
        assert(upper + lower =~= data@.subrange(from as int, from + 32));
        lemma_positional_split(upper, lower, 256);
    }
    let hi = accumulate(data, from, from + 16, 256);
    let lo = accumulate(data, from + 16, from + 32, 256);
    (hi, lo)
}

/// The digest that 32 bytes write, the most significant byte first;
/// `None` for any other count of bytes.
pub fn hash_from_bytes(bytes: &Vec<u8>) -> (r: Option<types::Hash>)
    ensures
        r is Some <==> bytes@.len() == 32,
        r matches Some(h) ==> h.value() == positional(bytes@, 256),
{
    if bytes.len() != 32 {
        return None;
    }
    assert(bytes@.subrange(0, 32) =~= bytes@);
    let (hi, lo) = word_halves(bytes, 0);
    Some(types::Hash { hi, lo })
}

/// The number that a 32-byte big-endian word writes, where it fits in 64
/// bits; `None` for a greater number and for any other count of bytes.
pub fn u64_from_word(word: &Vec<u8>) -> (r: Option<u64>)
    ensures
        r is Some <==> word@.len() == 32 && positional(word@, 256) <= u64::MAX,
        r matches Some(n) ==> n == positional(word@, 256),
{
    if word.len() != 32 {
        return None;
    }
    assert(word@.subrange(0, 32) =~= word@);
    let (hi, lo) = word_halves(word, 0);
    assert(hi * half_limit() + lo >= lo) by (nonlinear_arith)
        requires
            hi >= 0,
            half_limit() >= 0,
    ;
    if hi != 0 || lo > u64::MAX as u128 {
        assert(hi * half_limit() + lo > u64::MAX) by (nonlinear_arith)
            requires
                hi != 0 || lo > u64::MAX,
                hi >= 0,
                lo >= 0,
                half_limit() == 0x1_0000_0000_0000_0000_0000_0000_0000_0000nat,
        ;
        return None;
    }
    Some(lo as u64)
}

/// Whether `data` has the shape of a state update: a 32-byte word for the
/// state root, then a 32-byte word for a rollup height within 64 bits.
pub open spec fn is_state_update(data: Seq<u8>) -> bool {
    data.len() == 64 && positional(data.subrange(32, 64), 256) <= u64::MAX
}

/// Whether `a` is the anchor that the state update `data` describes, logged
/// at the given place.
pub open spec fn state_update_anchor(
    data: Seq<u8>,
    l1_block_number: u64,
    l1_log_index: u32,
    a: Anchor,
) -> bool {
    &&& a.state_root.value() == positional(data.subrange(0, 32), 256)
    &&& a.l2_height == positional(data.subrange(32, 64), 256)
    &&& a.l1_block_number == l1_block_number
    &&& a.l1_log_index == l1_log_index
}

/// The anchor that the data of a state-update log describes: a 32-byte
/// word for the state root, then a 32-byte word for the rollup height,
/// both big-endian. Data of any other length, or a height beyond 64
/// bits, is malformed.
pub fn decode_state_update(data: &Vec<u8>, l1_block_number: u64, l1_log_index: u32) -> (r: Result<
    Anchor,
    IngestError,
>)
    ensures
        r is Ok <==> is_state_update(data@),
        r matches Ok(a) ==> state_update_anchor(data@, l1_block_number, l1_log_index, a),
        r matches Err(e) ==> e == IngestError::Malformed,
{
    if data.len() != 64 {
        return Err(IngestError::Malformed);
    }
    let (root_hi, root_lo) = word_halves(data, 0);
    let (height_hi, height_lo) = word_halves(data, 32);
    assert(height_hi * half_limit() + height_lo >= height_lo) by (nonlinear_arith)
        requires
            height_hi >= 0,
            half_limit() >= 0,
    ;
    if height_hi != 0 || height_lo > u64::MAX as u128 {
        assert(height_hi * half_limit() + height_lo > u64::MAX) by (nonlinear_arith)
            requires
                height_hi != 0 || height_lo > u64::MAX,
                height_hi >= 0,
                height_lo >= 0,
                half_limit() == 0x1_0000_0000_0000_0000_0000_0000_0000_0000nat,
        ;
        return Err(IngestError::Malformed);
    }
    Ok(
        Anchor {
            l2_height: height_lo as u64,
            state_root: types::Hash { hi: root_hi, lo: root_lo },
            l1_block_number,
            l1_log_index,
        },
    )
}

/// The value of a hexadecimal digit given as an ASCII byte.
pub open spec fn hex_digit(c: u8) -> Option<u8> {
    if 0x30 <= c <= 0x39 {
        Some((c - 0x30) as u8)
    } else if 0x61 <= c <= 0x66 {
        Some((c - 0x61 + 10) as u8)
    } else if 0x41 <= c <= 0x46 {
        Some((c - 0x41 + 10) as u8)
    } else {
        None
    }
}

/// Whether `text` is `0x` followed by one to sixty-four hexadecimal
/// digits.
pub open spec fn is_hex_hash(text: Seq<u8>) -> bool {
    &&& 3 <= text.len() <= 66
    &&& text[0] == 0x30
    &&& text[1] == 0x78
    &&& forall|i: int| 2 <= i < text.len() ==> hex_digit(#[trigger] text[i]) is Some
}

/// The values of the digits of `text` after its prefix.
pub open spec fn hex_digits(text: Seq<u8>) -> Seq<u8> {
    Seq::new((text.len() - 2) as nat, |i: int| hex_digit(text[i + 2]).unwrap())
}

/// The value of a hexadecimal digit given as an ASCII byte.
fn hex_digit_of(c: u8) -> (r: Option<u8>)
    ensures
        r == hex_digit(c),
{
    if 0x30 <= c && c <= 0x39 {
        Some(c - 0x30)
    } else if 0x61 <= c && c <= 0x66 {
        Some(c - 0x61 + 10)
    } else if 0x41 <= c && c <= 0x46 {
        Some(c - 0x41 + 10)
    } else {
        None
    }
}

/// The digest that a text like `0x1f` writes in hexadecimal; `None` for
/// text of another shape.
pub fn parse_hex_hash(text: &Vec<u8>) -> (r: Option<types::Hash>)
    ensures
        r is Some <==> is_hex_hash(text@),
        r matches Some(h) ==> h.value() == positional(hex_digits(text@), 16),
{
    let n = text.len();
    if n < 3 || n > 66 || text[0] != 0x30 || text[1] != 0x78 {
        return None;
    }
    let mut digits: Vec<u8> = Vec::new();
    let mut i: usize = 2;
    while i < n
        invariant
            2 <= i <= n,
            n == text@.len(),
            digits@.len() == i - 2,
            forall|j: int| 2 <= j < i ==> hex_digit(#[trigger] text@[j]) is Some,
            forall|j: int|
                0 <= j < i - 2 ==> hex_digit(text@[j + 2]) == Some(#[trigger] digits@[j]),
        decreases n - i,
    {
        match hex_digit_of(text[i]) {
            Some(d) => {
                digits.push(d);
            },
            None => {
                return None;
            },
        }
        i += 1;
    }
    let m = digits.len();
    assert(digits@ =~= hex_digits(text@));
    let split: usize = if m > 32 {
        m - 32
    } else {
        0
    };
    proof {
        let upper = digits@.subrange(0, split as int);
        let lower = digits@.subrange(split as int, m as int);
        assert(upper + lower =~= digits@);
        lemma_positional_split(upper, lower, 16);
        lemma_half_limit();
        lemma_scale_grows(16, upper.len(), 32);
        lemma_scale_grows(16, lower.len(), 32);
        assert(digits_below(upper, 16)) by {
            assert forall|j: int| 0 <= j < upper.len() implies (#[trigger] upper[j]) < 16 by {
                assert(hex_digit(text@[j + 2]) == Some(digits@[j]));
            }
        }
        assert(digits_below(lower, 16)) by {
            assert forall|j: int| 0 <= j < lower.len() implies (#[trigger] lower[j]) < 16 by {
                assert(hex_digit(text@[j + split + 2]) == Some(digits@[j + split]));
            }
        }
        if m <= 32 {
            assert(positional(upper, 16) == 0);
        }
    }
    let hi = accumulate(&digits, 0, split, 16);
    let lo = accumulate(&digits, split, m, 16);
    proof {
        if m > 32 {
            assert(scale(16, 32) == half_limit());
        } else {
            assert(hi == 0);
            assert(hi * scale(16, (m - split) as nat) == 0) by (nonlinear_arith)
                requires
                    hi == 0,
            ;
        }
    }
    Some(types::Hash { hi, lo })
}

/// A transaction as the sequencer writes it: its fields are text.
#[derive(Debug)]
pub struct RawTransaction {
    pub hash: Vec<u8>,
    pub contract_address: Vec<u8>,
}

/// A block as the sequencer writes it: its hashes are text.
#[derive(Debug)]
pub struct RawBlock {
    pub height: u64,
    pub hash: Vec<u8>,
    pub parent_hash: Vec<u8>,
    pub state_root: Vec<u8>,
    pub transactions: Vec<RawTransaction>,
}

/// Whether every text field of the transaction is a hexadecimal digest.
pub open spec fn transaction_decodes(raw: RawTransaction) -> bool {
    is_hex_hash(raw.hash@) && is_hex_hash(raw.contract_address@)
}

/// Whether `t` is what `raw` writes.
pub open spec fn transaction_decoded(raw: RawTransaction, t: Transaction) -> bool {
    &&& t.hash.value() == positional(hex_digits(raw.hash@), 16)
    &&& t.contract_address.value() == positional(hex_digits(raw.contract_address@), 16)
}

/// Whether every text field of the block is a hexadecimal digest.
pub open spec fn block_decodes(raw: RawBlock) -> bool {
    &&& is_hex_hash(raw.hash@)
    &&& is_hex_hash(raw.parent_hash@)
    &&& is_hex_hash(raw.state_root@)
    &&& forall|i: int|
        0 <= i < raw.transactions@.len() ==> transaction_decodes(#[trigger] raw.transactions@[i])
}

/// Whether `b` is what `raw` writes.
pub open spec fn block_decoded(raw: RawBlock, b: Block) -> bool {
    &&& b.height == raw.height
    &&& b.hash.value() == positional(hex_digits(raw.hash@), 16)
    &&& b.parent_hash.value() == positional(hex_digits(raw.parent_hash@), 16)
    &&& b.state_root.value() == positional(hex_digits(raw.state_root@), 16)
    &&& b.transactions@.len() == raw.transactions@.len()
    &&& forall|i: int|
        0 <= i < raw.transactions@.len() ==> transaction_decoded(
            #[trigger] raw.transactions@[i],
            b.transactions@[i],
        )
}

/// The transaction that `raw` writes; malformed where a field is no
/// hexadecimal digest.
pub fn decode_transaction(raw: &RawTransaction) -> (r: Result<Transaction, IngestError>)
    ensures
        r is Ok <==> transaction_decodes(*raw),
        r matches Ok(t) ==> transaction_decoded(*raw, t),
        r matches Err(e) ==> e == IngestError::Malformed,
{
    let hash = match parse_hex_hash(&raw.hash) {
        Some(h) => h,
        None => {
            return Err(IngestError::Malformed);
        },
    };
    let contract_address = match parse_hex_hash(&raw.contract_address) {
        Some(h) => h,
        None => {
            return Err(IngestError::Malformed);
        },
    };
    Ok(Transaction { hash, contract_address })
}

/// The block that `raw` writes; malformed where a field is no
/// hexadecimal digest.
pub fn decode_block(raw: &RawBlock) -> (r: Result<Block, IngestError>)
    ensures
        r is Ok <==> block_decodes(*raw),
        r matches Ok(b) ==> block_decoded(*raw, b),
        r matches Err(e) ==> e == IngestError::Malformed,
{
    let hash = match parse_hex_hash(&raw.hash) {
        Some(h) => h,
        None => {
            return Err(IngestError::Malformed);
        },
    };
    let parent_hash = match parse_hex_hash(&raw.parent_hash) {
        Some(h) => h,
        None => {
            return Err(IngestError::Malformed);
        },
    };
    let state_root = match parse_hex_hash(&raw.state_root) {
        Some(h) => h,
        None => {
            return Err(IngestError::Malformed);
        },
    };
    let mut transactions: Vec<Transaction> = Vec::new();
    let mut i: usize = 0;
    while i < raw.transactions.len()
        invariant
            i <= raw.transactions@.len(),
            transactions@.len() == i,
            forall|j: int|
                0 <= j < i ==> transaction_decodes(#[trigger] raw.transactions@[j])
                    && transaction_decoded(raw.transactions@[j], transactions@[j]),
        decreases raw.transactions.len() - i,
    {
        match decode_transaction(&raw.transactions[i]) {
            Ok(t) => {
                transactions.push(t);
            },
            Err(_) => {
                return Err(IngestError::Malformed);
            },
        }
        i += 1;
    }
    Ok(Block { height: raw.height, hash, parent_hash, state_root, transactions })
}

/// The blocks that a response of the sequencer writes, in its order;
/// malformed where one of them is.
pub fn decode_blocks(raws: &Vec<RawBlock>) -> (r: Result<Vec<Block>, IngestError>)
    ensures
        r is Ok <==> forall|i: int| 0 <= i < raws@.len() ==> block_decodes(#[trigger] raws@[i]),
        r matches Ok(blocks) ==> blocks@.len() == raws@.len() && forall|i: int|
            0 <= i < raws@.len() ==> block_decoded(#[trigger] raws@[i], blocks@[i]),
        r matches Err(e) ==> e == IngestError::Malformed,
{
    let mut blocks: Vec<Block> = Vec::new();
    let mut i: usize = 0;
    while i < raws.len()
        invariant
            i <= raws@.len(),
            blocks@.len() == i,
            forall|j: int|
                0 <= j < i ==> block_decodes(#[trigger] raws@[j]) && block_decoded(
                    raws@[j],
                    blocks@[j],
                ),
        decreases raws.len() - i,
    {
        match decode_block(&raws[i]) {
            Ok(b) => {
                blocks.push(b);
            },
            Err(_) => {
                return Err(IngestError::Malformed);
            },
        }
        i += 1;
    }
    Ok(blocks)
}

} // verus!
