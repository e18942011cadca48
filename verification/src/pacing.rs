use vstd::prelude::*;

verus! {

/// How long the input listener may block waiting for a keystroke before
/// it must wake again: the tick interval less the time already spent
/// since the last heartbeat, saturating at zero.  This bounds the
/// worst-case event latency to one tick interval even with no input.
pub fn poll_timeout_ms(tick_rate_ms: u64, elapsed_ms: u64) -> (r: u64)
    ensures
        r == if elapsed_ms <= tick_rate_ms {
            (tick_rate_ms - elapsed_ms) as int
        } else {
            0
        },
{
    if elapsed_ms <= tick_rate_ms {
        tick_rate_ms - elapsed_ms
    } else {
        0
    }
}

/// Whether a full tick interval has passed since the last heartbeat, so
/// the listener owes the aggregator a `Tick` event.
pub fn tick_due(tick_rate_ms: u64, elapsed_ms: u64) -> (r: bool)
    ensures
        r == (elapsed_ms >= tick_rate_ms),
{
    elapsed_ms >= tick_rate_ms
}

} // verus!
