use vstd::prelude::*;

verus! {

/// Nanoseconds in a millisecond.
pub const MILLISECOND: u32 = 1_000_000;
/// Step by which the wait between sends grows when the backlog is small.
pub const WAIT_ADJUST: u32 = 1_000_000;
/// Longest wait between two sends, in nanoseconds.
pub const MAX_WAIT: u32 = 50_000_000;

/// The wait after an adjustment: halved (plus one) when more than three
/// quarters of the queue is full, then grown by `WAIT_ADJUST` up to
/// `MAX_WAIT` when less than a quarter is.
pub open spec fn adjusted_wait(wait: nat, pending: nat, max_pending: nat) -> nat {
    let w = if pending > 3 * max_pending / 4 {
        (wait / 2 + 1) as nat
    } else {
        wait
    };
    if pending < max_pending / 4 {
        if w + WAIT_ADJUST > MAX_WAIT {
            MAX_WAIT as nat
        } else {
            (w + WAIT_ADJUST) as nat
        }
    } else {
        w
    }
}

/// Adjust the wait between two sends to the backlog of `pending_len` items
/// in a queue of `max_pending_items`.
pub fn adjust_wait(wait_nano: u32, pending_len: usize, max_pending_items: usize) -> (r: u32)
    requires
        wait_nano <= MAX_WAIT,
    ensures
        r == adjusted_wait(wait_nano as nat, pending_len as nat, max_pending_items as nat),
        r <= MAX_WAIT,
{
    let mut wait = wait_nano;
    if pending_len as u128 > (3 * (max_pending_items as u128)) / 4 {
        wait = wait / 2 + 1;
    }
    if pending_len < max_pending_items / 4 {
        wait = if wait + WAIT_ADJUST > MAX_WAIT {
            MAX_WAIT
        } else {
            wait + WAIT_ADJUST
        };
    }
    wait
}

} // verus!
