use rand::Rng;
use vstd::prelude::*;

verus! {

/// Lower end, inclusive, of the window from which the default wait is drawn (ms).
pub const JITTER_MIN_MS: u64 = 100;

/// Upper end, exclusive, of the window from which the default wait is drawn (ms).
pub const JITTER_MAX_MS: u64 = 200;

/// What each transient failure adds to the wait (ms).
pub const BACKOFF_INCREMENT_MS: u64 = 5000;

/// Relies on rand's `Rng::gen_range` on the thread-local generator: a value of the
/// half-open range, which must not be empty.
#[verifier::external_body]
fn random_in_range(low: u64, high: u64) -> (r: u64)
    requires
        low < high,
    ensures
        low <= r < high,
{
    rand::thread_rng().gen_range(low..high)
}

/// The wait after one more transient failure. Growth is linear and unbounded but
/// for the width of `u64`, where it stays.
pub open spec fn grown(current: u64, increment: u64) -> u64 {
    if current as int + increment as int > u64::MAX as int {
        u64::MAX
    } else {
        (current + increment) as u64
    }
}

/// A retry wait that grows linearly with each transient failure and returns to its
/// default on the first success.
pub struct Backoff {
    pub current_ms: u64,
    pub default_ms: u64,
    pub increment_ms: u64,
}

impl Backoff {
    /// A backoff that starts at, and resets to, `default_ms`.
    pub fn new(default_ms: u64, increment_ms: u64) -> (r: Backoff)
        ensures
            r.current_ms == default_ms,
            r.default_ms == default_ms,
            r.increment_ms == increment_ms,
    {
        Backoff { current_ms: default_ms, default_ms, increment_ms }
    }

    /// A backoff whose default wait is drawn at random from the jitter window and
    /// whose increment is the standard one.
    pub fn jittered() -> (r: Backoff)
        ensures
            JITTER_MIN_MS <= r.default_ms < JITTER_MAX_MS,
            r.current_ms == r.default_ms,
            r.increment_ms == BACKOFF_INCREMENT_MS,
    {
        let default_ms = random_in_range(JITTER_MIN_MS, JITTER_MAX_MS);
        Backoff::new(default_ms, BACKOFF_INCREMENT_MS)
    }

    /// A transient failure: the wait grows by the increment.
    pub fn on_failure(&mut self)
        ensures
            final(self).current_ms == grown(old(self).current_ms, old(self).increment_ms),
            final(self).default_ms == old(self).default_ms,
            final(self).increment_ms == old(self).increment_ms,
    {
        self.current_ms = self.current_ms.saturating_add(self.increment_ms);
    }

    /// A success: the wait returns to its default.
    pub fn on_success(&mut self)
        ensures
            final(self).current_ms == old(self).default_ms,
            final(self).default_ms == old(self).default_ms,
            final(self).increment_ms == old(self).increment_ms,
    {
        self.current_ms = self.default_ms;
    }
}

/// Across consecutive transient failures the wait strictly increases, by the
/// increment each time, as long as the increment is positive and the sum fits in
/// `u64`. (A success brings it back to the default: see `on_success`.)
pub proof fn lemma_backoff_strictly_grows(current: u64, increment: u64)
    requires
        increment > 0,
        current as int + 2 * increment as int <= u64::MAX as int,
    ensures
        grown(current, increment) > current,
        grown(grown(current, increment), increment) > grown(current, increment),
        grown(grown(current, increment), increment) == current + 2 * increment,
{
}

} // verus!
