//! Sizing of rings and channels.

use vstd::prelude::*;
use vstd::arithmetic::power2::{lemma2_to64, lemma_pow2_pos, lemma_pow2_strictly_increases, pow2};
use vstd::bits::lemma_usize_shl_is_mul;
use crate::sequence::is_power_of_two;

verus! {

/// The largest ring size exponent a channel is built with.
pub const MAX_RING_BITS: u8 = 20;

/// The largest number of producers a channel is built for.
pub const MAX_PRODUCERS: usize = 128;

/// Configuration of a ring and of a channel.
#[derive(Debug, Clone, Copy)]
pub struct Config {
    /// The ring holds `2^ring_bits` slots.
    pub ring_bits: u8,
    /// The number of rings a channel allocates, which caps its producers.
    pub max_producers: usize,
    /// Whether the rings count items and batches.
    pub enable_metrics: bool,
}

impl Config {
    /// The settings a ring or channel can be built from: between 2 and 2^20 slots,
    /// between 1 and 128 producers.
    pub open spec fn valid(&self) -> bool {
        &&& 1 <= self.ring_bits <= MAX_RING_BITS
        &&& 1 <= self.max_producers <= MAX_PRODUCERS
    }

    /// The number of slots: `2^ring_bits`.
    pub open spec fn capacity_spec(&self) -> nat {
        pow2(self.ring_bits as nat)
    }

    /// A configuration with the given settings.
    pub fn new(ring_bits: u8, max_producers: usize, enable_metrics: bool) -> (config: Self)
        ensures
            config == (Config { ring_bits, max_producers, enable_metrics }),
    {
        Config { ring_bits, max_producers, enable_metrics }
    }

    /// 4096 slots, 16 producers, no metrics.
    pub fn low_latency() -> (config: Self)
        ensures
            config == (Config { ring_bits: 12, max_producers: 16, enable_metrics: false }),
            config.valid(),
    {
        Config { ring_bits: 12, max_producers: 16, enable_metrics: false }
    }

    /// 262144 slots, 32 producers, no metrics.
    pub fn high_throughput() -> (config: Self)
        ensures
            config == (Config { ring_bits: 18, max_producers: 32, enable_metrics: false }),
            config.valid(),
    {
        Config { ring_bits: 18, max_producers: 32, enable_metrics: false }
    }

    /// The number of slots of a ring.
    pub fn capacity(&self) -> (capacity: usize)
        requires
            self.ring_bits < usize::BITS,
        ensures
            capacity == self.capacity_spec(),
            capacity >= 1,
    {
        proof {
            self.lemma_capacity_fits();
            lemma_usize_shl_is_mul(1usize, self.ring_bits as usize);
        }
        1usize << self.ring_bits
    }

    /// The mask that maps a sequence number to its slot: `capacity - 1`.
    pub fn mask(&self) -> (mask: usize)
        requires
            self.ring_bits < usize::BITS,
        ensures
            mask == self.capacity_spec() - 1,
    {
        self.capacity() - 1
    }

    /// A shift by less than the width of `usize` stays within `usize`.
    pub proof fn lemma_capacity_fits(&self)
        requires
            self.ring_bits < usize::BITS,
        ensures
            1 <= self.capacity_spec() <= usize::MAX,
            is_power_of_two(self.capacity_spec()),
    {
        let bits = self.ring_bits as nat;
        lemma_pow2_pos(bits);
        vstd::bits::lemma_usize_pow2_no_overflow(bits);
        assert(bits < 64);
    }

    /// A valid configuration has a capacity between 2 and 2^20.
    pub proof fn lemma_valid_capacity(&self)
        requires
            self.valid(),
        ensures
            self.ring_bits < usize::BITS,
            2 <= self.capacity_spec() <= 0x10_0000,
            is_power_of_two(self.capacity_spec()),
    {
        let bits = self.ring_bits as nat;
        lemma2_to64();
        if bits > 1 {
            lemma_pow2_strictly_increases(1, bits);
        }
        if bits < 20 {
            lemma_pow2_strictly_increases(bits, 20);
        }
        assert(bits < 64);
    }
}

impl Default for Config {
    /// 65536 slots, 16 producers, no metrics.
    fn default() -> (config: Self)
        ensures
            config == (Config { ring_bits: 16, max_producers: 16, enable_metrics: false }),
    {
        Config { ring_bits: 16, max_producers: 16, enable_metrics: false }
    }
}

} // verus!
