//! Settings of the stream adapter.

use vstd::prelude::*;

verus! {

/// How the receiver polls.
#[derive(Debug, Clone, Copy)]
pub struct StreamConfig {
    /// The period, in milliseconds, of the timer that wakes the receiver even
    /// without a notification.
    pub poll_interval_ms: u64,
    /// The number of items the receiver aims to take from the rings per wake-up.
    pub batch_hint: usize,
}

impl StreamConfig {
    /// A short timer period and small batches: 1 ms, 16 items.
    pub fn low_latency() -> (config: Self)
        ensures
            config == (StreamConfig { poll_interval_ms: 1, batch_hint: 16 }),
    {
        StreamConfig { poll_interval_ms: 1, batch_hint: 16 }
    }

    /// A long timer period and large batches: 50 ms, 256 items.
    pub fn high_throughput() -> (config: Self)
        ensures
            config == (StreamConfig { poll_interval_ms: 50, batch_hint: 256 }),
    {
        StreamConfig { poll_interval_ms: 50, batch_hint: 256 }
    }

    /// The same settings with the timer period replaced.
    pub fn with_poll_interval(self, interval_ms: u64) -> (config: Self)
        ensures
            config == (StreamConfig { poll_interval_ms: interval_ms, ..self }),
    {
        StreamConfig { poll_interval_ms: interval_ms, batch_hint: self.batch_hint }
    }

    /// The same settings with the batch size replaced.
    pub fn with_batch_hint(self, hint: usize) -> (config: Self)
        ensures
            config == (StreamConfig { batch_hint: hint, ..self }),
    {
        StreamConfig { poll_interval_ms: self.poll_interval_ms, batch_hint: hint }
    }
}

impl Default for StreamConfig {
    /// A timer period of 10 ms and batches of 64 items.
    fn default() -> (config: Self)
        ensures
            config == (StreamConfig { poll_interval_ms: 10, batch_hint: 64 }),
    {
        StreamConfig { poll_interval_ms: 10, batch_hint: 64 }
    }
}

} // verus!
