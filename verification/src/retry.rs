//! When a request is worth another try, and how long to wait before it.

use vstd::prelude::*;

verus! {

/// Whether the status reports success.
pub open spec fn successful(status: u16) -> bool {
    200 <= status < 300
}

/// Whether the status reports a trouble that may pass: too many requests, or a failing server.
pub open spec fn transient(status: u16) -> bool {
    status == 429 || 500 <= status < 600
}

/// The pause after the attempt of that number, which counts from zero, in milliseconds.
pub open spec fn pause(delay_ms: u64, attempt: u32) -> u64 {
    let wanted = delay_ms * (attempt + 1);
    if wanted > u64::MAX {
        u64::MAX
    } else if wanted < 300 {
        300
    } else {
        wanted as u64
    }
}

/// Whether the status reports success.
pub fn is_success(status: u16) -> (yes: bool)
    ensures
        yes == successful(status),
{
    200 <= status && status < 300
}

/// Whether the status reports a trouble that may pass.
pub fn should_retry(status: u16) -> (yes: bool)
    ensures
        yes == transient(status),
{
    status == 429 || (500 <= status && status < 600)
}

/// The pause after the attempt of that number: longer each time, and never below 300 ms.
pub fn backoff(delay_ms: u64, attempt: u32) -> (pause_ms: u64)
    ensures
        pause_ms == pause(delay_ms, attempt),
{
    proof {
        assert(0 <= delay_ms * (attempt + 1) <= u64::MAX * 0x1_0000_0000) by (nonlinear_arith)
            requires
                delay_ms <= u64::MAX,
                attempt < 0x1_0000_0000,
        ;
    }
    let wanted: u128 = delay_ms as u128 * (attempt as u128 + 1);
    if wanted > u64::MAX as u128 {
        u64::MAX
    } else if wanted < 300 {
        300
    } else {
        wanted as u64
    }
}

/// The pauses of one request never get shorter, and each lasts at least 300 ms.
pub proof fn pause_grows(delay_ms: u64, attempt: u32, later: u32)
    requires
        attempt <= later,
    ensures
        300 <= pause(delay_ms, attempt) <= pause(delay_ms, later),
{
    assert(delay_ms * (attempt + 1) <= delay_ms * (later + 1)) by (nonlinear_arith)
        requires
            attempt <= later,
            0 <= delay_ms,
    ;
    assert(0 <= delay_ms * (attempt + 1)) by (nonlinear_arith)
        requires
            0 <= delay_ms,
            0 <= attempt,
    ;
}

} // verus!
