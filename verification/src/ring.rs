//! The single-producer single-consumer ring.
//!
//! The producer reserves a run of slots, fills it and commits it; the consumer drains
//! what was committed. Both count in 64-bit sequence numbers that wrap, and each keeps
//! a snapshot of the other's counter so that it looks at the other side only when its
//! snapshot leaves it without room or without items.

use vstd::prelude::*;
use vstd::slice::slice_subrange;
use crate::backoff::{Backoff, YIELD_LIMIT};
use crate::config::Config;
use crate::metrics::Metrics;
use crate::reservation::Reservation;
use crate::ring_model::{vacate, RingModel};
use crate::sequence::{lemma_stamp_advance, lemma_stamp_distance, lemma_stamp_slot, min_nat, slot, stamp};

verus! {

/// A ring of `2^ring_bits` slots for items of type `T`.
pub struct Ring<T> {
    /// The producer's counter: the number of items ever published, wrapped.
    tail: u64,
    /// The producer's snapshot of `head`.
    cached_head: u64,
    /// The consumer's counter: the number of items ever released, wrapped.
    head: u64,
    /// The consumer's snapshot of `tail`.
    cached_tail: u64,
    active: bool,
    closed: bool,
    metrics: Metrics,
    config: Config,
    buffer: Vec<Option<T>>,
    tail_count: Ghost<nat>,
    cached_head_count: Ghost<nat>,
    head_count: Ghost<nat>,
    cached_tail_count: Ghost<nat>,
}

impl<T> View for Ring<T> {
    type V = RingModel<T>;

    closed spec fn view(&self) -> RingModel<T> {
        RingModel {
            slots: self.buffer@,
            head: self.head_count@,
            tail: self.tail_count@,
            cached_head: self.cached_head_count@,
            cached_tail: self.cached_tail_count@,
            closed: self.closed,
            active: self.active,
            metrics: self.metrics,
            metrics_enabled: self.config.enable_metrics,
        }
    }
}

impl<T> Ring<T> {
    /// The configuration the ring was built with.
    pub closed spec fn config(&self) -> Config {
        self.config
    }

    /// The stored counters are the wrapped counts, and the buffer has the configured
    /// size.
    pub closed spec fn inv(&self) -> bool {
        &&& self.config.valid()
        &&& self.buffer@.len() == self.config.capacity_spec()
        &&& self.tail == stamp(self.tail_count@)
        &&& self.head == stamp(self.head_count@)
        &&& self.cached_head == stamp(self.cached_head_count@)
        &&& self.cached_tail == stamp(self.cached_tail_count@)
    }

    /// The ring is well formed: its representation is consistent and its state meets
    /// the ring invariant.
    pub open spec fn wf(&self) -> bool {
        &&& self.inv()
        &&& self@.wf()
        &&& self@.capacity() == self.config().capacity_spec()
        &&& self.config().valid()
        &&& self@.metrics_enabled == self.config().enable_metrics
    }

    /// What the fields but the buffer hold is the same in both rings.
    closed spec fn same_control(&self, other: &Self) -> bool {
        &&& self.tail == other.tail
        &&& self.head == other.head
        &&& self.cached_head == other.cached_head
        &&& self.cached_tail == other.cached_tail
        &&& self.active == other.active
        &&& self.closed == other.closed
        &&& self.metrics == other.metrics
        &&& self.config == other.config
        &&& self.tail_count == other.tail_count
        &&& self.head_count == other.head_count
        &&& self.cached_head_count == other.cached_head_count
        &&& self.cached_tail_count == other.cached_tail_count
    }

    /// The facts about counters that the code below rests on.
    proof fn lemma_counters(&self)
        requires
            self.wf(),
        ensures
            self.config.ring_bits < usize::BITS,
            2 <= self@.capacity() <= 0x10_0000,
            self.tail.wrapping_sub(self.head) == self@.len(),
            self.tail.wrapping_sub(self.cached_head) == self@.tail - self@.cached_head,
            self.cached_tail.wrapping_sub(self.head) == self@.cached_tail - self@.head,
            (self.tail & ((self@.capacity() - 1) as u64)) == slot(self@.tail, self@.capacity()),
            (self.head & ((self@.capacity() - 1) as u64)) == slot(self@.head, self@.capacity()),
            0 <= slot(self@.tail, self@.capacity()) < self@.capacity(),
            0 <= slot(self@.head, self@.capacity()) < self@.capacity(),
    {
        self.config.lemma_valid_capacity();
        lemma_stamp_distance(self@.tail, self@.head);
        lemma_stamp_distance(self@.tail, self@.cached_head);
        lemma_stamp_distance(self@.cached_tail, self@.head);
        lemma_stamp_slot(self@.tail, self@.capacity());
        lemma_stamp_slot(self@.head, self@.capacity());
    }

    /// A new, empty, open ring.
    pub fn new(config: Config) -> (ring: Self)
        requires
            config.valid(),
        ensures
            ring.wf(),
            ring.config() == config,
            ring@ == RingModel::<T>::fresh(config.capacity_spec(), config.enable_metrics),
    {
        proof {
            config.lemma_valid_capacity();
        }
        let capacity: usize = config.capacity();
        let mut buffer: Vec<Option<T>> = Vec::with_capacity(capacity);
        let mut filled: usize = 0;
        while filled < capacity
            invariant
                filled <= capacity,
                buffer@.len() == filled,
                forall|i: int| 0 <= i < filled ==> buffer@[i] is None,
            decreases capacity - filled,
        {
            buffer.push(None);
            filled = filled + 1;
        }
        let ring = Ring {
            tail: 0,
            cached_head: 0,
            head: 0,
            cached_tail: 0,
            active: false,
            closed: false,
            metrics: Metrics::new(),
            config,
            buffer,
            tail_count: Ghost(0),
            cached_head_count: Ghost(0),
            head_count: Ghost(0),
            cached_tail_count: Ghost(0),
        };
        proof {
            assert(ring@.slots =~= RingModel::<T>::fresh(
                config.capacity_spec(),
                config.enable_metrics,
            ).slots);
            RingModel::<T>::lemma_fresh(config.capacity_spec(), config.enable_metrics);
        }
        ring
    }

    // ----- status -----

    /// The number of slots.
    pub fn capacity(&self) -> (capacity: usize)
        requires
            self.wf(),
        ensures
            capacity == self@.capacity(),
    {
        proof {
            self.lemma_counters();
        }
        self.config.capacity()
    }

    /// The mask that maps a counter to its slot, as a counter.
    fn mask(&self) -> (mask: u64)
        requires
            self.wf(),
        ensures
            mask == self@.capacity() - 1,
    {
        proof {
            self.lemma_counters();
        }
        self.config.mask() as u64
    }

    /// The number of items in flight.
    pub fn len(&self) -> (len: usize)
        requires
            self.wf(),
        ensures
            len == self@.len(),
            len == self@.items().len(),
    {
        proof {
            self.lemma_counters();
            self@.lemma_bounded();
        }
        self.tail.wrapping_sub(self.head) as usize
    }

    /// Whether no item is in flight.
    pub fn is_empty(&self) -> (empty: bool)
        requires
            self.wf(),
        ensures
            empty == (self@.len() == 0),
    {
        proof {
            self.lemma_counters();
        }
        self.tail == self.head
    }

    /// Whether every slot holds an item in flight.
    pub fn is_full(&self) -> (full: bool)
        requires
            self.wf(),
        ensures
            full == (self@.len() == self@.capacity()),
    {
        proof {
            self@.lemma_bounded();
        }
        self.len() >= self.capacity()
    }

    /// Whether the ring was closed.
    pub fn is_closed(&self) -> (closed: bool)
        ensures
            closed == self@.closed,
    {
        self.closed
    }

    /// Marks the ring as bound to a producer, or as unbound.
    pub fn set_active(&mut self, active: bool)
        requires
            old(self).wf(),
        ensures
            final(self).wf(),
            final(self).config() == old(self).config(),
            final(self)@ == (RingModel { active, ..old(self)@ }),
    {
        self.active = active;
    }

    // ----- producer side -----

    /// Decides a request for `n` slots, as `reserve` does, without handing the slots
    /// out. On the way the producer's snapshot of `head` is brought up to date if the
    /// request cannot be granted from what the producer knows.
    pub(crate) fn grant(&mut self, n: usize) -> (granted: bool)
        requires
            old(self).wf(),
        ensures
            final(self).wf(),
            final(self).config() == old(self).config(),
            final(self)@ == old(self)@.after_reserve(n as nat),
            granted == old(self)@.accepts(n as nat),
            granted ==> final(self)@.known_free() >= n,
    {
        proof {
            self.lemma_counters();
            self@.lemma_bounded();
            self@.lemma_after_reserve(n as nat);
        }
        let capacity: usize = self.capacity();
        if n == 0 || n > capacity || self.closed {
            return false;
        }
        let used: usize = self.tail.wrapping_sub(self.cached_head) as usize;
        let space: usize = capacity.saturating_sub(used);
        if space >= n {
            return true;
        }
        self.cached_head = self.head;
        self.cached_head_count = Ghost(self.head_count@);
        let used: usize = self.tail.wrapping_sub(self.head) as usize;
        let space: usize = capacity.saturating_sub(used);
        space >= n
    }

    /// Hands out the run of slots for a granted request of `n` slots: the slots after
    /// the last published one, up to the end of the buffer.
    pub(crate) fn make_reservation(&mut self, n: usize) -> (reservation: Reservation<'_, T>)
        requires
            old(self).wf(),
            1 <= n <= old(self)@.known_free(),
        ensures
            reservation.wf(),
            *reservation.ring == *old(self),
            reservation.len == old(self)@.contiguous(n as nat),
            reservation.start == slot(old(self)@.tail, old(self)@.capacity()),
            *final(self) == *final(reservation.ring),
    {
        proof {
            self.lemma_counters();
            self@.lemma_bounded();
        }
        let mask: u64 = self.mask();
        let start: usize = (self.tail & mask) as usize;
        let to_end: usize = self.capacity() - start;
        let len: usize = if n <= to_end {
            n
        } else {
            to_end
        };
        Reservation { ring: self, start, len }
    }

    /// Reserves up to `n` slots for writing. The request is granted if `n` is between
    /// 1 and the capacity, the ring is open and `n` slots are free. The reservation
    /// covers the slots after the last published one; it is shorter than `n` where those
    /// reach the end of the buffer. Nothing is published until the reservation is
    /// committed, and a reservation that is dropped leaves the queue as it was.
    pub fn reserve(&mut self, n: usize) -> (reservation: Option<Reservation<'_, T>>)
        requires
            old(self).wf(),
        ensures
            reservation is Some <==> old(self)@.accepts(n as nat),
            match reservation {
                Some(granted) => {
                    &&& granted.wf()
                    &&& granted.ring.config() == old(self).config()
                    &&& granted.ring@ == old(self)@.after_reserve(n as nat)
                    &&& granted.len == old(self)@.contiguous(n as nat)
                    &&& granted.start == slot(old(self)@.tail, old(self)@.capacity())
                    &&& *final(self) == *final(granted.ring)
                },
                None => {
                    &&& final(self).wf()
                    &&& final(self).config() == old(self).config()
                    &&& final(self)@ == old(self)@.after_reserve(n as nat)
                },
            },
    {
        if self.grant(n) {
            Some(self.make_reservation(n))
        } else {
            None
        }
    }

    /// Reserves as `reserve` does, trying again with growing patience until the
    /// request is granted, the ring is found closed or the patience is exhausted.
    /// While the caller holds the ring no consumer can free a slot, so the outcome is
    /// that of the first attempt.
    pub fn reserve_with_backoff(&mut self, n: usize) -> (reservation: Option<Reservation<'_, T>>)
        requires
            old(self).wf(),
        ensures
            reservation is Some <==> old(self)@.accepts(n as nat),
            match reservation {
                Some(granted) => {
                    &&& granted.wf()
                    &&& granted.ring.config() == old(self).config()
                    &&& granted.ring@ == old(self)@.after_reserve(n as nat)
                    &&& granted.len == old(self)@.contiguous(n as nat)
                    &&& granted.start == slot(old(self)@.tail, old(self)@.capacity())
                    &&& *final(self) == *final(granted.ring)
                },
                None => {
                    &&& final(self).wf()
                    &&& final(self).config() == old(self).config()
                    &&& final(self)@ == old(self)@.after_reserve(n as nat)
                },
            },
    {
        if self.grant_with_backoff(n) {
            Some(self.make_reservation(n))
        } else {
            None
        }
    }

    /// Decides a request for `n` slots as `grant` does, trying again with growing
    /// patience until the request is granted, the ring is found closed or the patience
    /// is exhausted.
    pub(crate) fn grant_with_backoff(&mut self, n: usize) -> (granted: bool)
        requires
            old(self).wf(),
        ensures
            final(self).wf(),
            final(self).config() == old(self).config(),
            final(self)@ == old(self)@.after_reserve(n as nat),
            granted == old(self)@.accepts(n as nat),
            granted ==> final(self)@.known_free() >= n,
    {
        let mut backoff = Backoff::new();
        let mut granted: bool = self.grant(n);
        while !granted && !self.closed && !backoff.is_completed()
            invariant
                self.wf(),
                self.config() == old(self).config(),
                self@ == old(self)@.after_reserve(n as nat),
                granted == old(self)@.accepts(n as nat),
                granted ==> self@.known_free() >= n,
                backoff.step_spec() <= YIELD_LIMIT + 1,
            decreases YIELD_LIMIT + 1 - backoff.step_spec(),
        {
            let _must_yield: bool = backoff.snooze();
            granted = self.grant(n);
        }
        granted
    }

    /// The `len` slots from index `start` on, for writing.
    pub(crate) fn region_mut(&mut self, start: usize, len: usize) -> (region: &mut [Option<T>])
        requires
            old(self).inv(),
            start + len <= old(self)@.capacity(),
        ensures
            region@ == old(self)@.region(start as int, len as int),
            final(region)@.len() == len ==> {
                &&& final(self).inv()
                &&& final(self).config() == old(self).config()
                &&& final(self)@ == old(self)@.with_region(start as int, final(region)@)
            },
    {
        let ghost before = self.buffer@;
        let whole: &mut [Option<T>] = self.buffer.as_mut_slice();
        let (prefix, rest) = whole.split_at_mut(start);
        let (region, suffix) = rest.split_at_mut(len);
        assert(final(prefix)@ == before.subrange(0, start as int));
        assert(final(suffix)@ == before.subrange(start + len, before.len() as int));
        assert(final(region)@.len() == len ==> final(prefix)@ + (final(region)@ + final(suffix)@)
            =~= Seq::new(
            before.len(),
            |i: int|
                if start <= i < start + final(region)@.len() {
                    final(region)@[i - start]
                } else {
                    before[i]
                },
        ));
        region
    }

    /// Publishes the `n` slots after the last published one.
    pub(crate) fn commit_internal(&mut self, n: usize)
        requires
            old(self).wf(),
            n <= old(self)@.known_free(),
            old(self)@.written(n as nat),
        ensures
            final(self).wf(),
            final(self).config() == old(self).config(),
            final(self)@ == old(self)@.after_commit(n as nat),
    {
        proof {
            self.lemma_counters();
            self@.lemma_bounded();
            self@.lemma_after_commit(n as nat);
            lemma_stamp_advance(self@.tail, n as nat);
        }
        self.tail = self.tail.wrapping_add(n as u64);
        self.tail_count = Ghost((self.tail_count@ + n) as nat);
        if self.config.enable_metrics {
            self.metrics.record_send(n as u64);
        }
    }

    // ----- consumer side -----

    /// The oldest items in flight that lie in one run of slots and that the consumer
    /// knows of: what its snapshot of `tail` shows, or, where that shows nothing, what
    /// `tail` itself shows. `None` where the ring is empty. Each slot of the run holds
    /// `Some` of its item. The items stay in flight until `advance` releases them.
    pub fn readable(&mut self) -> (region: Option<&[Option<T>]>)
        requires
            old(self).wf(),
        ensures
            final(self).wf(),
            final(self).config() == old(self).config(),
            final(self)@ == old(self)@.after_readable(),
            region is None <==> old(self)@.len() == 0,
            region matches Some(run) ==> {
                &&& run@.len() == old(self)@.readable_len()
                &&& run@ == old(self)@.region(
                    slot(old(self)@.head, old(self)@.capacity()),
                    old(self)@.readable_len() as int,
                )
                &&& forall|i: int|
                    0 <= i < run@.len() ==> #[trigger] run@[i] == Some(old(self)@.items()[i])
            },
    {
        proof {
            self.lemma_counters();
            self@.lemma_bounded();
            self@.lemma_after_readable();
        }
        let mut avail: usize = self.cached_tail.wrapping_sub(self.head) as usize;
        if avail == 0 {
            self.cached_tail = self.tail;
            self.cached_tail_count = Ghost(self.tail_count@);
            avail = self.cached_tail.wrapping_sub(self.head) as usize;
            if avail == 0 {
                return None;
            }
        }
        let mask: u64 = self.mask();
        let start: usize = (self.head & mask) as usize;
        let to_end: usize = self.capacity() - start;
        let len: usize = if avail <= to_end {
            avail
        } else {
            to_end
        };
        Some(slice_subrange(self.buffer.as_slice(), start, start + len))
    }

    /// Moves `head` on by `n`, where the counts are in order and `n` items are in
    /// flight, whatever the slots hold.
    fn release(&mut self, n: usize)
        requires
            old(self).inv(),
            crate::sequence::is_power_of_two(old(self)@.capacity()),
            old(self)@.cached_head <= old(self)@.head <= old(self)@.cached_tail <= old(self)@.tail,
            old(self)@.tail <= old(self)@.cached_head + old(self)@.capacity(),
            n <= old(self)@.len(),
        ensures
            final(self).inv(),
            final(self).config() == old(self).config(),
            final(self)@ == old(self)@.after_advance(n as nat),
    {
        proof {
            crate::sequence::lemma_power_of_two_bounds(self@.capacity());
            lemma_stamp_distance(self@.cached_tail, self@.head);
            lemma_stamp_advance(self@.head, n as nat);
        }
        if self.cached_tail.wrapping_sub(self.head) < n as u64 {
            self.cached_tail = self.tail;
            self.cached_tail_count = Ghost(self.tail_count@);
        }
        self.head = self.head.wrapping_add(n as u64);
        self.head_count = Ghost((self.head_count@ + n) as nat);
        if self.config.enable_metrics {
            self.metrics.record_receive(n as u64);
        }
    }

    /// Releases the `n` oldest items in flight, which the consumer has read from the
    /// readable region. The slots keep what they held until the producer fills them
    /// again.
    pub fn advance(&mut self, n: usize)
        requires
            old(self).wf(),
            n <= old(self)@.len(),
        ensures
            final(self).wf(),
            final(self).config() == old(self).config(),
            final(self)@ == old(self)@.after_advance(n as nat),
            final(self)@.items() == old(self)@.items().skip(n as int),
    {
        proof {
            self@.lemma_after_advance(n as nat);
        }
        self.release(n);
    }

    /// Appends copies of the `count` oldest items in flight to `out`, oldest first.
    fn copy_out(&self, count: usize, out: &mut Vec<T>) where T: Copy
        requires
            self.wf(),
            count <= self@.len(),
        ensures
            final(out)@ == old(out)@ + self@.items().take(count as int),
    {
        proof {
            self.lemma_counters();
            self@.lemma_bounded();
        }
        let mask: u64 = self.mask();
        let mut pos: u64 = self.head;
        let mut done: usize = 0;
        while done < count
            invariant
                self.wf(),
                done <= count <= self@.len(),
                pos == stamp((self@.head + done) as nat),
                mask == self@.capacity() - 1,
                self.buffer@ == self@.slots,
                out@ == old(out)@ + self@.items().take(done as int),
            decreases count - done,
        {
            proof {
                let s = (self@.head + done) as nat;
                self.lemma_counters();
                lemma_stamp_slot(s, self@.capacity());
                lemma_stamp_advance(s, 1);
                assert(self@.slots[slot(s, self@.capacity())] is Some);
                assert(self@.items()[done as int] == self@.slots[slot(s, self@.capacity())].unwrap());
            }
            let index: usize = (pos & mask) as usize;
            let item: Option<T> = self.buffer[index];
            if let Some(value) = item {
                out.push(value);
            }
            pos = pos.wrapping_add(1);
            done = done + 1;
            proof {
                assert(out@ =~= old(out)@ + self@.items().take(done as int));
            }
        }
    }

    /// Moves the `count` oldest items in flight out of their slots and appends them to
    /// `out`, oldest first. The counters stay as they were.
    fn take_out(&mut self, count: usize, out: &mut Vec<T>)
        requires
            old(self).wf(),
            count <= old(self)@.len(),
        ensures
            final(self).inv(),
            final(self).config() == old(self).config(),
            final(self)@ == (RingModel {
                slots: vacate(old(self)@.slots, old(self)@.head, count as nat),
                ..old(self)@
            }),
            final(out)@ == old(out)@ + old(self)@.items().take(count as int),
            old(self)@.len() == 0 ==> count == 0 && final(out)@ == old(out)@ && final(self)@ == old(self)@,
    {
        proof {
            self.lemma_counters();
            self@.lemma_bounded();
        }
        let ghost before = self@;
        let mask: u64 = self.mask();
        let mut pos: u64 = self.head;
        let mut done: usize = 0;
        while done < count
            invariant
                old(self).wf(),
                before == old(self)@,
                self.same_control(old(self)),
                done <= count <= before.len(),
                pos == stamp((before.head + done) as nat),
                mask == before.capacity() - 1,
                2 <= before.capacity() <= 0x10_0000,
                self.buffer@ == vacate(before.slots, before.head, done as nat),
                self.buffer@.len() == before.capacity(),
                out@ == old(out)@ + before.items().take(done as int),
            decreases count - done,
        {
            proof {
                let s = (before.head + done) as nat;
                lemma_stamp_slot(s, before.capacity());
                lemma_stamp_advance(s, 1);
                before.lemma_vacate_keeps_later(done as nat, s);
                before.lemma_vacate_len((done + 1) as nat);
                assert(before.slots[slot(s, before.capacity())] is Some);
                assert(before.items()[done as int] == before.slots[slot(s, before.capacity())].unwrap());
            }
            let index: usize = (pos & mask) as usize;
            let item: Option<T> = self.buffer[index].take();
            if let Some(value) = item {
                out.push(value);
            }
            pos = pos.wrapping_add(1);
            done = done + 1;
            proof {
                assert(out@ =~= old(out)@ + before.items().take(done as int));
            }
        }
    }

    /// Drains every item in flight: appends copies of them to `out`, oldest first, and
    /// releases them with one update of `head`. Returns how many there were. A drain
    /// of an empty ring changes nothing.
    pub fn consume_batch(&mut self, out: &mut Vec<T>) -> (count: usize) where T: Copy
        requires
            old(self).wf(),
        ensures
            count == old(self)@.len(),
            final(self).wf(),
            final(self).config() == old(self).config(),
            final(self)@ == old(self)@.after_consume(count as nat),
            final(self)@.items() == Seq::<T>::empty(),
            final(out)@ == old(out)@ + old(self)@.items(),
            old(self)@.len() == 0 ==> count == 0 && final(out)@ == old(out)@ && final(self)@ == old(self)@,
    {
        proof {
            self@.lemma_bounded();
            self@.lemma_after_consume(self@.len());
            assert(self@.items().take(self@.len() as int) =~= self@.items());
            assert(self@.items().skip(self@.len() as int) =~= Seq::<T>::empty());
            assert(old(out)@ + Seq::<T>::empty() =~= old(out)@);
        }
        let avail: usize = self.len();
        if avail == 0 {
            return 0;
        }
        self.copy_out(avail, out);
        self.release(avail);
        avail
    }

    /// Drains every item in flight: moves them out of their slots into `out`, oldest
    /// first, and releases them with one update of `head`. Returns how many there
    /// were. A drain of an empty ring changes nothing.
    pub fn consume_batch_owned(&mut self, out: &mut Vec<T>) -> (count: usize)
        requires
            old(self).wf(),
        ensures
            count == old(self)@.len(),
            final(self).wf(),
            final(self).config() == old(self).config(),
            final(self)@ == old(self)@.after_take(count as nat),
            final(self)@.items() == Seq::<T>::empty(),
            final(out)@ == old(out)@ + old(self)@.items(),
            old(self)@.len() == 0 ==> count == 0 && final(out)@ == old(out)@ && final(self)@ == old(self)@,
    {
        proof {
            self@.lemma_bounded();
            self@.lemma_after_take(self@.len());
            assert(self@.items().take(self@.len() as int) =~= self@.items());
            assert(self@.items().skip(self@.len() as int) =~= Seq::<T>::empty());
            assert(old(out)@ + Seq::<T>::empty() =~= old(out)@);
        }
        let avail: usize = self.len();
        if avail == 0 {
            return 0;
        }
        self.take_out(avail, out);
        self.release(avail);
        avail
    }

    /// Drains up to `max_items` items: appends copies of the oldest of them to `out`,
    /// oldest first, and releases them with one update of `head`. Returns how many
    /// were drained. A drain of nothing changes nothing.
    pub fn consume_up_to(&mut self, max_items: usize, out: &mut Vec<T>) -> (count: usize) where
        T: Copy,

        requires
            old(self).wf(),
        ensures
            count == min_nat(old(self)@.len(), max_items as nat),
            final(self).wf(),
            final(self).config() == old(self).config(),
            final(self)@ == old(self)@.after_consume(count as nat),
            final(self)@.items() == old(self)@.items().skip(count as int),
            final(out)@ == old(out)@ + old(self)@.items().take(count as int),
            old(self)@.len() == 0 ==> count == 0 && final(out)@ == old(out)@ && final(self)@ == old(self)@,
    {
        proof {
            self@.lemma_bounded();
            self@.lemma_after_consume(min_nat(self@.len(), max_items as nat));
            assert(self@.items().take(0) =~= Seq::<T>::empty());
            assert(old(out)@ + Seq::<T>::empty() =~= old(out)@);
        }
        if max_items == 0 {
            return 0;
        }
        let avail: usize = self.len();
        if avail == 0 {
            return 0;
        }
        let to_consume: usize = if avail <= max_items {
            avail
        } else {
            max_items
        };
        self.copy_out(to_consume, out);
        self.release(to_consume);
        to_consume
    }

    /// Drains up to `max_items` items: moves the oldest of them out of their slots
    /// into `out`, oldest first, and releases them with one update of `head`. Returns
    /// how many were drained. A drain of nothing changes nothing.
    pub fn consume_up_to_owned(&mut self, max_items: usize, out: &mut Vec<T>) -> (count: usize)
        requires
            old(self).wf(),
        ensures
            count == min_nat(old(self)@.len(), max_items as nat),
            final(self).wf(),
            final(self).config() == old(self).config(),
            final(self)@ == old(self)@.after_take(count as nat),
            final(self)@.items() == old(self)@.items().skip(count as int),
            final(out)@ == old(out)@ + old(self)@.items().take(count as int),
            old(self)@.len() == 0 ==> count == 0 && final(out)@ == old(out)@ && final(self)@ == old(self)@,
    {
        proof {
            self@.lemma_bounded();
            self@.lemma_after_take(min_nat(self@.len(), max_items as nat));
            assert(self@.items().take(0) =~= Seq::<T>::empty());
            assert(old(out)@ + Seq::<T>::empty() =~= old(out)@);
        }
        if max_items == 0 {
            return 0;
        }
        let avail: usize = self.len();
        if avail == 0 {
            return 0;
        }
        let to_consume: usize = if avail <= max_items {
            avail
        } else {
            max_items
        };
        self.take_out(to_consume, out);
        self.release(to_consume);
        to_consume
    }

    // ----- convenience -----

    /// Sends one item: reserves one slot, writes the item and commits. Returns
    /// whether the item was accepted; it is refused where the ring is full or closed.
    pub fn push(&mut self, item: T) -> (accepted: bool)
        requires
            old(self).wf(),
        ensures
            accepted == old(self)@.accepts(1),
            final(self).wf(),
            final(self).config() == old(self).config(),
            final(self)@ == old(self)@.after_push(item),
            final(self)@.items() == if accepted {
                old(self)@.items().push(item)
            } else {
                old(self)@.items()
            },
    {
        proof {
            self@.lemma_after_push(item);
        }
        match self.reserve(1) {
            Some(mut reservation) => {
                let slice = reservation.as_mut_slice();
                slice[0] = Some(item);
                assert(slice@ =~= seq![Some(item)]);
                reservation.commit();
                true
            },
            None => false,
        }
    }

    /// Sends a batch: reserves as many slots as there are items, copies the items
    /// into the reserved run and commits it. Returns how many items were sent: none
    /// where the ring does not grant the slots, and fewer than all where the run ends
    /// at the end of the buffer.
    pub fn send(&mut self, items: &[T]) -> (sent: usize) where T: Copy
        requires
            old(self).wf(),
        ensures
            sent == old(self)@.sent(items@.len()),
            final(self).wf(),
            final(self).config() == old(self).config(),
            final(self)@ == old(self)@.after_send(items@),
            final(self)@.items() == old(self)@.items() + items@.take(sent as int),
    {
        proof {
            self@.lemma_after_send(items@);
        }
        match self.reserve(items.len()) {
            Some(mut reservation) => {
                let n: usize = reservation.len();
                let slice = reservation.as_mut_slice();
                let mut i: usize = 0;
                while i < n
                    invariant
                        i <= n <= items@.len(),
                        slice@.len() == n,
                        forall|j: int| 0 <= j < i ==> #[trigger] slice@[j] == Some(items@[j]),
                    decreases n - i,
                {
                    slice[i] = Some(items[i]);
                    i = i + 1;
                }
                assert(slice@ =~= Seq::new(n as nat, |j: int| Some(items@[j])));
                reservation.commit();
                n
            },
            None => 0,
        }
    }

    /// Receives a batch: copies the oldest items of the readable region into the
    /// front of `out`, as many as fit, and releases them. Returns how many were copied.
    pub fn recv(&mut self, out: &mut [T]) -> (received: usize) where T: Copy
        requires
            old(self).wf(),
        ensures
            received == old(self)@.received(old(out)@.len()),
            final(self).wf(),
            final(self).config() == old(self).config(),
            final(self)@ == old(self)@.after_recv(old(out)@.len()),
            final(self)@.items() == old(self)@.items().skip(received as int),
            final(out)@.len() == old(out)@.len(),
            final(out)@ == old(self)@.items().take(received as int) + old(out)@.skip(
                received as int,
            ),
    {
        proof {
            self@.lemma_bounded();
            self@.lemma_after_readable();
            self@.lemma_after_recv(old(out)@.len());
        }
        let ghost before = self@;
        let room: usize = out.len();
        let mut copied: usize = 0;
        match self.readable() {
            Some(run) => {
                let n: usize = if run.len() <= room {
                    run.len()
                } else {
                    room
                };
                while copied < n
                    invariant
                        copied <= n,
                        n <= run@.len(),
                        n <= out@.len(),
                        out@.len() == old(out)@.len(),
                        forall|i: int| 0 <= i < run@.len() ==> #[trigger] run@[i] == Some(before.items()[i]),
                        run@.len() <= before.items().len(),
                        out@ == before.items().take(copied as int) + old(out)@.skip(copied as int),
                    decreases n - copied,
                {
                    let item: Option<T> = run[copied];
                    if let Some(value) = item {
                        out[copied] = value;
                    }
                    copied = copied + 1;
                    proof {
                        assert(out@ =~= before.items().take(copied as int) + old(out)@.skip(
                            copied as int,
                        ));
                    }
                }
            },
            None => {
                proof {
                    assert(out@ =~= before.items().take(0) + old(out)@.skip(0));
                }
                return 0;
            },
        }
        self.advance(copied);
        copied
    }

    // ----- lifecycle -----

    /// Closes the ring: requests for slots are refused from now on, what is in flight
    /// can still be drained. Closing a closed ring changes nothing.
    pub fn close(&mut self)
        requires
            old(self).wf(),
        ensures
            final(self).wf(),
            final(self).config() == old(self).config(),
            final(self)@ == old(self)@.after_close(),
    {
        proof {
            self@.lemma_after_close();
        }
        self.closed = true;
    }

    /// The counters, or zeros where the ring does not count.
    pub fn metrics(&self) -> (metrics: Metrics)
        ensures
            metrics == if self@.metrics_enabled {
                self@.metrics
            } else {
                Metrics::zero()
            },
    {
        if self.config.enable_metrics {
            self.metrics
        } else {
            Metrics::new()
        }
    }
}

} // verus!
