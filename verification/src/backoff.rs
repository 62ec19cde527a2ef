//! How long to wait before a failed poll is tried again.

use vstd::arithmetic::power2::{lemma2_to64, lemma_pow2_strictly_increases, lemma_pow2_unfold, pow2};
use vstd::prelude::*;

verus! {

/// The delay before the retry that follows `attempt` earlier failures in
/// a row: `base` doubled once for each of them, and no more than `cap`.
pub open spec fn backoff_delay(base: u64, cap: u64, attempt: u32) -> u64 {
    let d = base * pow2(attempt as nat);
    if d <= cap {
        d as u64
    } else {
        cap
    }
}

/// The delay grows with the number of failures and never exceeds the cap.
pub proof fn lemma_backoff_bounded(base: u64, cap: u64, attempt: u32, later: u32)
    requires
        attempt <= later,
    ensures
        backoff_delay(base, cap, attempt) <= backoff_delay(base, cap, later) <= cap,
        base <= cap ==> base <= backoff_delay(base, cap, attempt),
{
    lemma_doubling_grows(base, attempt as nat, later as nat);
    lemma_doubling_grows(base, 0, attempt as nat);
    lemma2_to64();
}

proof fn lemma_doubling_grows(base: u64, k: nat, n: nat)
    requires
        k <= n,
    ensures
        base * pow2(k) <= base * pow2(n),
{
    if k < n {
        lemma_pow2_strictly_increases(k, n);
    }
    let a = pow2(k) as int;
    let b = pow2(n) as int;
    let c = base as int;
    assert(c * a <= c * b) by (nonlinear_arith)
        requires
            a <= b,
            c >= 0,
    ;
}

/// The delay before the retry that follows `attempt` earlier failures in
/// a row.
pub fn retry_delay(base: u64, cap: u64, attempt: u32) -> (d: u64)
    ensures
        d == backoff_delay(base, cap, attempt),
{
    if base == 0 {
        assert(base * pow2(attempt as nat) == 0) by (nonlinear_arith)
            requires
                base == 0,
        ;
        return 0;
    }
    let mut d: u64 = base;
    let mut k: u32 = 0;
    proof {
        lemma2_to64();
        assert(base * pow2(0) == base) by (nonlinear_arith)
            requires
                pow2(0) == 1,
        ;
    }
    while k < attempt
        invariant
            k <= attempt,
            d == base * pow2(k as nat),
            d > 0,
        decreases attempt - k,
    {
        if d > cap || d > u64::MAX / 2 {
            proof {
                lemma_doubling_grows(base, k as nat, attempt as nat);
                if d <= cap {
                    lemma_pow2_unfold((k + 1) as nat);
                    lemma_doubling_grows(base, (k + 1) as nat, attempt as nat);
                    let p = pow2(k as nat) as int;
                    let b = base as int;
                    assert(b * (2 * p) == 2 * (b * p)) by (nonlinear_arith);
                }
            }
            return cap;
        }
        proof {
            lemma_pow2_unfold((k + 1) as nat);
            let p = pow2(k as nat) as int;
            let b = base as int;
            assert(b * (2 * p) == 2 * (b * p)) by (nonlinear_arith);
        }
        d = d * 2;
        k = k + 1;
    }
    if d <= cap {
        d
    } else {
        cap
    }
}

} // verus!
