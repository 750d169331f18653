//! Retry policy: exponential backoff and fee escalation.

use vstd::prelude::*;

verus! {

/// Two to the power `n`.
pub open spec fn pow2(n: nat) -> nat
    decreases n,
{
    if n == 0 {
        1
    } else {
        2 * pow2((n - 1) as nat)
    }
}

/// The delay before retry number `attempt + 1`: `base * 2^attempt`, but never
/// more than `max_delay`.
pub open spec fn backoff(base: nat, attempt: nat, max_delay: nat) -> nat {
    if base * pow2(attempt) <= max_delay {
        base * pow2(attempt)
    } else {
        max_delay
    }
}

/// The fee bid that follows `fee` after a node rejection: `fee * factor`, but
/// never more than `max_fee`.
pub open spec fn escalated(fee: nat, factor: nat, max_fee: nat) -> nat {
    if fee * factor <= max_fee {
        fee * factor
    } else {
        max_fee
    }
}

/// The fee bid after `k` consecutive node rejections, starting from `fee`.
pub open spec fn fee_after(fee: nat, factor: nat, max_fee: nat, k: nat) -> nat
    decreases k,
{
    if k == 0 {
        fee
    } else {
        escalated(fee_after(fee, factor, max_fee, (k - 1) as nat), factor, max_fee)
    }
}

/// The sum of two instants, held at the largest representable tick.
pub open spec fn saturating_sum(a: nat, b: nat) -> nat {
    if a + b <= u64::MAX {
        a + b
    } else {
        u64::MAX as nat
    }
}

/// Powers of two never shrink as the exponent grows.
pub proof fn lemma_pow2_monotone(i: nat, j: nat)
    requires
        i <= j,
    ensures
        1 <= pow2(i) <= pow2(j),
    decreases j,
{
    if j == 0 {
    } else if i == j {
        lemma_pow2_monotone(0, (j - 1) as nat);
    } else {
        lemma_pow2_monotone(i, (j - 1) as nat);
    }
}

/// A backoff delay never exceeds the ceiling and never shrinks from one
/// attempt to the next.
pub proof fn lemma_backoff_bounded_monotone(base: nat, attempt: nat, max_delay: nat)
    ensures
        backoff(base, attempt, max_delay) <= max_delay,
        backoff(base, attempt, max_delay) <= backoff(base, attempt + 1, max_delay),
{
    lemma_pow2_monotone(attempt, attempt + 1);
    assert(base * pow2(attempt) <= base * pow2(attempt + 1)) by (nonlinear_arith)
        requires
            pow2(attempt) <= pow2(attempt + 1),
    ;
}

/// One escalation never lowers a bid that is within the ceiling, and never
/// leaves the ceiling.
pub proof fn lemma_escalated_bounds(fee: nat, factor: nat, max_fee: nat)
    requires
        factor >= 1,
        fee <= max_fee,
    ensures
        fee <= escalated(fee, factor, max_fee) <= max_fee,
{
    assert(fee <= fee * factor) by (nonlinear_arith)
        requires
            factor >= 1,
    ;
}

/// Over any run of consecutive node rejections the fee bid is non-decreasing
/// and stays within the configured maximum.
pub proof fn lemma_fee_escalation(fee: nat, factor: nat, max_fee: nat, k: nat)
    requires
        factor >= 1,
        fee <= max_fee,
    ensures
        fee <= fee_after(fee, factor, max_fee, k),
        fee_after(fee, factor, max_fee, k) <= fee_after(fee, factor, max_fee, k + 1),
        fee_after(fee, factor, max_fee, k + 1) <= max_fee,
    decreases k,
{
    if k > 0 {
        lemma_fee_escalation(fee, factor, max_fee, (k - 1) as nat);
    }
    lemma_escalated_bounds(fee_after(fee, factor, max_fee, k), factor, max_fee);
}

/// Computes the delay before the next retry of an account that has already
/// failed `attempt` times.
pub fn backoff_delay(base: u64, attempt: u32, max_delay: u64) -> (d: u64)
    ensures
        d == backoff(base as nat, attempt as nat, max_delay as nat),
{
    if base > max_delay {
        proof {
            lemma_pow2_monotone(0, attempt as nat);
            assert(base * pow2(attempt as nat) >= base) by (nonlinear_arith)
                requires
                    pow2(attempt as nat) >= 1,
            ;
        }
        return max_delay;
    }
    let mut d: u64 = base;
    let mut k: u32 = 0;
    assert(base * pow2(0) == base) by (nonlinear_arith)
        requires
            pow2(0) == 1,
    ;
    while k < attempt
        invariant
            k <= attempt,
            d == base * pow2(k as nat),
            d <= max_delay,
        decreases attempt - k,
    {
        if d > max_delay - d {
            proof {
                lemma_pow2_monotone((k + 1) as nat, attempt as nat);
                assert(base * pow2((k + 1) as nat) <= base * pow2(attempt as nat))
                    by (nonlinear_arith)
                    requires
                        pow2((k + 1) as nat) <= pow2(attempt as nat),
                ;
                assert(base * pow2((k + 1) as nat) == 2 * (base * pow2(k as nat)))
                    by (nonlinear_arith)
                    requires
                        pow2((k + 1) as nat) == 2 * pow2(k as nat),
                ;
            }
            return max_delay;
        }
        proof {
            assert(base * pow2((k + 1) as nat) == 2 * (base * pow2(k as nat)))
                by (nonlinear_arith)
                requires
                    pow2((k + 1) as nat) == 2 * pow2(k as nat),
            ;
        }
        d = d + d;
        k = k + 1;
    }
    d
}

/// Computes the fee bid that follows `fee` after a node rejection.
pub fn escalate_fee(fee: u64, factor: u64, max_fee: u64) -> (f: u64)
    ensures
        f == escalated(fee as nat, factor as nat, max_fee as nat),
{
    assert(fee * factor <= u64::MAX * u64::MAX) by (nonlinear_arith)
        requires
            fee <= u64::MAX,
            factor <= u64::MAX,
    ;
    let wide: u128 = (fee as u128) * (factor as u128);
    if wide <= max_fee as u128 {
        wide as u64
    } else {
        max_fee
    }
}

/// Adds a delay to an instant, stopping at the largest representable tick.
pub fn saturating_deadline(now: u64, delay: u64) -> (t: u64)
    ensures
        t == saturating_sum(now as nat, delay as nat),
{
    if delay <= u64::MAX - now {
        now + delay
    } else {
        u64::MAX
    }
}

} // verus!
