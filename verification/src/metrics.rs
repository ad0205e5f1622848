//! Counters a ring keeps when its configuration asks for them.

use vstd::prelude::*;

verus! {

/// Counts of items and batches that went through a ring. Each counter wraps at 2^64.
#[derive(Debug, Clone, Copy)]
pub struct Metrics {
    /// Items committed by the producer.
    pub messages_sent: u64,
    /// Items handed to the consumer.
    pub messages_received: u64,
    /// Commits made by the producer.
    pub batches_sent: u64,
    /// Head updates made by the consumer.
    pub batches_received: u64,
    /// Failed attempts counted by a reserving producer.
    pub reserve_spins: u64,
}

impl Metrics {
    /// The counters with every count at zero.
    pub open spec fn zero() -> Metrics {
        Metrics {
            messages_sent: 0,
            messages_received: 0,
            batches_sent: 0,
            batches_received: 0,
            reserve_spins: 0,
        }
    }

    /// The counters after a commit of `n` items.
    pub open spec fn after_send(self, n: u64) -> Metrics {
        Metrics {
            messages_sent: self.messages_sent.wrapping_add(n),
            batches_sent: self.batches_sent.wrapping_add(1),
            ..self
        }
    }

    /// The counters after a head update that released `n` items.
    pub open spec fn after_receive(self, n: u64) -> Metrics {
        Metrics {
            messages_received: self.messages_received.wrapping_add(n),
            batches_received: self.batches_received.wrapping_add(1),
            ..self
        }
    }

    /// The counter-wise sum of two sets of counters, each sum wrapping at 2^64.
    pub open spec fn plus(self, other: Metrics) -> Metrics {
        Metrics {
            messages_sent: self.messages_sent.wrapping_add(other.messages_sent),
            messages_received: self.messages_received.wrapping_add(other.messages_received),
            batches_sent: self.batches_sent.wrapping_add(other.batches_sent),
            batches_received: self.batches_received.wrapping_add(other.batches_received),
            reserve_spins: self.reserve_spins.wrapping_add(other.reserve_spins),
        }
    }

    /// Fresh counters, all zero.
    pub fn new() -> (metrics: Self)
        ensures
            metrics == Metrics::zero(),
    {
        Metrics {
            messages_sent: 0,
            messages_received: 0,
            batches_sent: 0,
            batches_received: 0,
            reserve_spins: 0,
        }
    }

    /// Counts one commit of `n` items.
    pub fn record_send(&mut self, n: u64)
        ensures
            *final(self) == old(self).after_send(n),
    {
        self.messages_sent = self.messages_sent.wrapping_add(n);
        self.batches_sent = self.batches_sent.wrapping_add(1);
    }

    /// Counts one head update that released `n` items.
    pub fn record_receive(&mut self, n: u64)
        ensures
            *final(self) == old(self).after_receive(n),
    {
        self.messages_received = self.messages_received.wrapping_add(n);
        self.batches_received = self.batches_received.wrapping_add(1);
    }

    /// Adds the counters of `other` to these.
    pub fn merge(&mut self, other: &Metrics)
        ensures
            *final(self) == old(self).plus(*other),
    {
        self.messages_sent = self.messages_sent.wrapping_add(other.messages_sent);
        self.messages_received = self.messages_received.wrapping_add(other.messages_received);
        self.batches_sent = self.batches_sent.wrapping_add(other.batches_sent);
        self.batches_received = self.batches_received.wrapping_add(other.batches_received);
        self.reserve_spins = self.reserve_spins.wrapping_add(other.reserve_spins);
    }
}

impl Default for Metrics {
    fn default() -> (metrics: Self)
        ensures
            metrics == Metrics::zero(),
    {
        Metrics::new()
    }
}

} // verus!
