use vstd::prelude::*;

verus! {

/// Minimum number of milliseconds that must have elapsed since the last
/// accepted key press before the next one is accepted.
pub const DEBOUNCE_THRESHOLD_MS: u64 = 150;

/// Rate limiter for key-press events.
///
/// It remembers when the last accepted event happened and drops every event
/// that arrives less than [`DEBOUNCE_THRESHOLD_MS`] milliseconds later.  A
/// clock that moves backward is tolerated: a non-positive elapsed time counts
/// as below the threshold, so the event is dropped rather than faulted on.
pub struct DebounceGate {
    last_ms: u64,
}

impl DebounceGate {
    /// Timestamp (in milliseconds) of the last accepted event.
    pub closed spec fn last_accepted(self) -> u64 {
        self.last_ms
    }

    /// Creates a gate as of time `now_ms`; the first key press is accepted
    /// only once the threshold has elapsed from this point.
    pub fn new(now_ms: u64) -> (gate: DebounceGate)
        ensures
            gate.last_accepted() == now_ms,
    {
        DebounceGate { last_ms: now_ms }
    }

    /// Timestamp of the last accepted event, for display and logging.
    pub fn last_accepted_ms(&self) -> (t: u64)
        ensures
            t == self.last_accepted(),
    {
        self.last_ms
    }

    /// Decides whether an event at time `now_ms` is accepted.
    ///
    /// The event is accepted exactly when at least the threshold has elapsed
    /// since the last accepted event; only then is the remembered timestamp
    /// moved forward to `now_ms`.
    pub fn accept(&mut self, now_ms: u64) -> (accepted: bool)
        ensures
            accepted == (now_ms >= old(self).last_accepted() + DEBOUNCE_THRESHOLD_MS),
            accepted ==> final(self).last_accepted() == now_ms,
            !accepted ==> *final(self) == *old(self),
    {
        let accepted = now_ms >= self.last_ms
            && now_ms - self.last_ms >= DEBOUNCE_THRESHOLD_MS;
        if accepted {
            self.last_ms = now_ms;
        }
        accepted
    }
}

} // verus!
