//! The mathematical model of a channel: one ring per producer slot, the number of
//! producers registered so far and the closed flag.
//!
//! The consumer sees the rings of the registered producers one after the other, in
//! the order of registration. A drain with a budget takes from each ring in turn what
//! the budget still allows.

use vstd::prelude::*;
use crate::metrics::Metrics;
use crate::ring_model::RingModel;
use crate::sequence::min_nat;

verus! {

/// The state of a channel.
pub ghost struct ChannelModel<T> {
    /// The rings, by producer index. All of them exist from the start.
    pub rings: Seq<RingModel<T>>,
    /// The number of producers registered so far: the rings below this index are
    /// bound to a producer.
    pub producer_count: nat,
    /// Whether the channel was closed.
    pub closed: bool,
    /// The number of slots of each ring.
    pub capacity: nat,
    /// Whether the rings count items and batches.
    pub metrics_enabled: bool,
}

impl<T> ChannelModel<T> {
    /// A new channel of `max_producers` empty rings.
    pub open spec fn fresh(max_producers: nat, capacity: nat, metrics_enabled: bool) -> Self {
        ChannelModel {
            rings: Seq::new(max_producers, |i: int| RingModel::<T>::fresh(capacity, metrics_enabled)),
            producer_count: 0,
            closed: false,
            capacity,
            metrics_enabled,
        }
    }

    /// The producer cap: the number of rings.
    pub open spec fn max_producers(self) -> nat {
        self.rings.len()
    }

    /// The invariant of a channel: there is at least one ring, no more producers are
    /// registered than there are rings, every ring is well formed and of the same
    /// size, the rings of registered producers are marked active, the other rings are
    /// untouched, and in a closed channel every ring of a registered producer is closed.
    pub open spec fn wf(self) -> bool {
        &&& 1 <= self.rings.len()
        &&& self.producer_count <= self.rings.len()
        &&& forall|i: int|
            0 <= i < self.rings.len() ==> {
                &&& (#[trigger] self.rings[i]).wf()
                &&& self.rings[i].capacity() == self.capacity
                &&& self.rings[i].metrics_enabled == self.metrics_enabled
            }
        &&& forall|i: int| 0 <= i < self.producer_count ==> (#[trigger] self.rings[i]).active
        &&& forall|i: int|
            self.producer_count <= i < self.rings.len() ==> #[trigger] self.rings[i]
                == RingModel::<T>::fresh(self.capacity, self.metrics_enabled)
        &&& self.closed ==> forall|i: int|
            0 <= i < self.producer_count ==> (#[trigger] self.rings[i]).closed
    }

    /// The channel with ring `index` replaced by `ring`.
    pub open spec fn with_ring(self, index: int, ring: RingModel<T>) -> Self {
        ChannelModel { rings: self.rings.update(index, ring), ..self }
    }

    // ----- registration -----

    /// Whether a registration succeeds: the channel is open and a ring is left.
    pub open spec fn registers(self) -> bool {
        !self.closed && self.producer_count < self.rings.len()
    }

    /// The channel after a registration, granted or not. A granted registration binds
    /// the next ring and marks it active.
    pub open spec fn after_register(self) -> Self {
        if self.registers() {
            ChannelModel {
                rings: self.rings.update(
                    self.producer_count as int,
                    RingModel { active: true, ..self.rings[self.producer_count as int] },
                ),
                producer_count: self.producer_count + 1,
                ..self
            }
        } else {
            self
        }
    }

    // ----- draining -----

    /// The number of items in flight in the first `k` rings.
    pub open spec fn total_len(self, k: nat) -> nat
        decreases k,
    {
        if k == 0 {
            0
        } else {
            self.total_len((k - 1) as nat) + self.rings[k - 1].len()
        }
    }

    /// The items in flight in the first `k` rings, ring by ring, each ring's oldest
    /// first.
    pub open spec fn all_items(self, k: nat) -> Seq<T>
        decreases k,
    {
        if k == 0 {
            Seq::empty()
        } else {
            self.all_items((k - 1) as nat) + self.rings[k - 1].items()
        }
    }

    /// The number of items that a drain with budget `max` takes from the first `k`
    /// rings.
    pub open spec fn taken(self, k: nat, max: nat) -> nat
        decreases k,
    {
        if k == 0 {
            0
        } else {
            let before = self.taken((k - 1) as nat, max);
            before + min_nat(self.rings[k - 1].len(), (max - before) as nat)
        }
    }

    /// The number of items that a drain with budget `max` takes from ring `index`:
    /// what is in flight there, cut to what the earlier rings left of the budget.
    pub open spec fn share(self, index: nat, max: nat) -> nat {
        min_nat(self.rings[index as int].len(), (max - self.taken(index, max)) as nat)
    }

    /// The items that a drain with budget `max` takes from the first `k` rings, in
    /// the order in which it delivers them.
    pub open spec fn delivered(self, k: nat, max: nat) -> Seq<T>
        decreases k,
    {
        if k == 0 {
            Seq::empty()
        } else {
            self.delivered((k - 1) as nat, max) + self.rings[k - 1].items().take(
                self.share((k - 1) as nat, max) as int,
            )
        }
    }

    /// The channel after a drain of everything that copied the items out.
    pub open spec fn after_consume_all(self) -> Self {
        ChannelModel {
            rings: Seq::new(
                self.rings.len(),
                |i: int|
                    if i < self.producer_count {
                        self.rings[i].after_consume(self.rings[i].len())
                    } else {
                        self.rings[i]
                    },
            ),
            ..self
        }
    }

    /// The channel after a drain of everything that moved the items out.
    pub open spec fn after_take_all(self) -> Self {
        ChannelModel {
            rings: Seq::new(
                self.rings.len(),
                |i: int|
                    if i < self.producer_count {
                        self.rings[i].after_take(self.rings[i].len())
                    } else {
                        self.rings[i]
                    },
            ),
            ..self
        }
    }

    /// The channel after a drain with budget `max` that copied the items out.
    pub open spec fn after_consume_up_to(self, max: nat) -> Self {
        ChannelModel {
            rings: Seq::new(
                self.rings.len(),
                |i: int|
                    if 0 <= i < self.producer_count {
                        self.rings[i].after_consume(self.share(i as nat, max))
                    } else {
                        self.rings[i]
                    },
            ),
            ..self
        }
    }

    /// The channel after a drain with budget `max` that moved the items out.
    pub open spec fn after_take_up_to(self, max: nat) -> Self {
        ChannelModel {
            rings: Seq::new(
                self.rings.len(),
                |i: int|
                    if 0 <= i < self.producer_count {
                        self.rings[i].after_take(self.share(i as nat, max))
                    } else {
                        self.rings[i]
                    },
            ),
            ..self
        }
    }

    // ----- batch receive -----

    /// The number of items that a batch receive into a buffer of `room` items copies
    /// from the first `k` rings: each ring in turn fills what is left of the buffer
    /// from its readable region, until the buffer is full.
    pub open spec fn received(self, k: nat, room: nat) -> nat
        decreases k,
    {
        if k == 0 {
            0
        } else {
            let before = self.received((k - 1) as nat, room);
            if before >= room {
                before
            } else {
                before + self.rings[k - 1].received((room - before) as nat)
            }
        }
    }

    /// The items that a batch receive into a buffer of `room` items copies from the
    /// first `k` rings, in the order in which they land in the buffer.
    pub open spec fn received_items(self, k: nat, room: nat) -> Seq<T>
        decreases k,
    {
        if k == 0 {
            Seq::empty()
        } else {
            let before = self.received((k - 1) as nat, room);
            if before >= room {
                self.received_items((k - 1) as nat, room)
            } else {
                self.received_items((k - 1) as nat, room) + self.rings[k - 1].items().take(
                    self.rings[k - 1].received((room - before) as nat) as int,
                )
            }
        }
    }

    /// The channel after a batch receive into a buffer of `room` items.
    pub open spec fn after_recv(self, room: nat) -> Self {
        ChannelModel {
            rings: Seq::new(
                self.rings.len(),
                |i: int|
                    if 0 <= i < self.producer_count && self.received(i as nat, room) < room {
                        self.rings[i].after_recv((room - self.received(i as nat, room)) as nat)
                    } else {
                        self.rings[i]
                    },
            ),
            ..self
        }
    }

    // ----- lifecycle and metrics -----

    /// The channel after it was closed: it is closed, and so is every ring of a
    /// registered producer.
    pub open spec fn after_close(self) -> Self {
        ChannelModel {
            rings: Seq::new(
                self.rings.len(),
                |i: int|
                    if i < self.producer_count {
                        self.rings[i].after_close()
                    } else {
                        self.rings[i]
                    },
            ),
            closed: true,
            ..self
        }
    }

    /// The counters that ring `index` reports.
    pub open spec fn ring_metrics(self, index: int) -> Metrics {
        if self.rings[index].metrics_enabled {
            self.rings[index].metrics
        } else {
            Metrics::zero()
        }
    }

    /// The sum of the counters of the first `k` rings.
    pub open spec fn metrics_sum(self, k: nat) -> Metrics
        decreases k,
    {
        if k == 0 {
            Metrics::zero()
        } else {
            self.metrics_sum((k - 1) as nat).plus(self.ring_metrics(k - 1))
        }
    }

    // ----- facts -----

    /// A new channel is well formed.
    pub proof fn lemma_fresh(max_producers: nat, capacity: nat, metrics_enabled: bool)
        requires
            1 <= max_producers,
            crate::sequence::is_power_of_two(capacity),
        ensures
            Self::fresh(max_producers, capacity, metrics_enabled).wf(),
            Self::fresh(max_producers, capacity, metrics_enabled).total_len(0) == 0,
    {
        RingModel::<T>::lemma_fresh(capacity, metrics_enabled);
    }

    /// A registration keeps the channel well formed and changes no queue.
    pub proof fn lemma_after_register(self)
        requires
            self.wf(),
        ensures
            self.after_register().wf(),
            self.after_register().producer_count == if self.registers() {
                self.producer_count + 1
            } else {
                self.producer_count
            },
            forall|i: int|
                0 <= i < self.rings.len() ==> (#[trigger] self.after_register().rings[i]).items()
                    == self.rings[i].items(),
    {
        if self.registers() {
            let p = self.producer_count as int;
            let bound = RingModel { active: true, ..self.rings[p] };
            assert(self.rings[p].wf());
            assert(bound.items() =~= self.rings[p].items());
            assert forall|i: int| 0 <= i < self.rings.len() implies {
                &&& (#[trigger] self.after_register().rings[i]).wf()
                &&& self.after_register().rings[i].capacity() == self.capacity
                &&& self.after_register().rings[i].metrics_enabled == self.metrics_enabled
            } by {
                assert(self.rings[i].wf());
            }
            assert forall|i: int| 0 <= i < self.producer_count + 1 implies (
            #[trigger] self.after_register().rings[i]).active by {
                if i < p {
                    assert(self.rings[i].active);
                }
            }
            assert forall|i: int|
                self.producer_count + 1 <= i < self.rings.len() implies #[trigger] self.after_register().rings[i]
                == RingModel::<T>::fresh(self.capacity, self.metrics_enabled) by {
                assert(self.rings[i] == RingModel::<T>::fresh(self.capacity, self.metrics_enabled));
            }
        }
    }

    /// Replacing the ring of a registered producer by a well-formed ring of the same
    /// size that is active, and closed if the channel is, keeps the channel well
    /// formed.
    pub proof fn lemma_with_ring(self, index: int, ring: RingModel<T>)
        requires
            self.wf(),
            0 <= index < self.producer_count,
            ring.wf(),
            ring.capacity() == self.capacity,
            ring.metrics_enabled == self.metrics_enabled,
            ring.active,
            self.closed ==> ring.closed,
        ensures
            self.with_ring(index, ring).wf(),
    {
        let after = self.with_ring(index, ring);
        assert forall|i: int| 0 <= i < after.rings.len() implies {
            &&& (#[trigger] after.rings[i]).wf()
            &&& after.rings[i].capacity() == after.capacity
            &&& after.rings[i].metrics_enabled == after.metrics_enabled
        } by {
            if i != index {
                assert(self.rings[i].wf());
            }
        }
        assert forall|i: int| 0 <= i < after.producer_count implies (#[trigger] after.rings[i]).active by {
            if i != index {
                assert(self.rings[i].active);
            }
        }
        assert forall|i: int| after.producer_count <= i < after.rings.len() implies #[trigger] after.rings[i]
            == RingModel::<T>::fresh(after.capacity, after.metrics_enabled) by {
            assert(self.rings[i] == RingModel::<T>::fresh(self.capacity, self.metrics_enabled));
        }
        if after.closed {
            assert forall|i: int| 0 <= i < after.producer_count implies (#[trigger] after.rings[i]).closed by {
                if i != index {
                    assert(self.rings[i].closed);
                }
            }
        }
    }

    /// A drain never takes more than its budget, nor more than is in flight.
    pub proof fn lemma_taken_bounds(self, k: nat, max: nat)
        ensures
            self.taken(k, max) <= max,
            self.taken(k, max) <= self.total_len(k),
        decreases k,
    {
        if k > 0 {
            self.lemma_taken_bounds((k - 1) as nat, max);
        }
    }

    /// Once the budget is spent the later rings give nothing.
    pub proof fn lemma_budget_spent(self, from: nat, to: nat, max: nat)
        requires
            from <= to,
            self.taken(from, max) >= max,
        ensures
            self.taken(to, max) == self.taken(from, max),
            self.delivered(to, max) == self.delivered(from, max),
            forall|i: nat| from <= i < to ==> #[trigger] self.share(i, max) == 0,
        decreases to - from,
    {
        self.lemma_taken_bounds(from, max);
        if from < to {
            self.lemma_budget_spent(from, (to - 1) as nat, max);
            assert(self.share((to - 1) as nat, max) == 0);
            assert(self.rings[to - 1].items().take(0) =~= Seq::<T>::empty());
            assert(self.delivered((to - 1) as nat, max) + Seq::<T>::empty() =~= self.delivered(
                (to - 1) as nat,
                max,
            ));
        }
    }

    /// A drain with no budget takes nothing and changes nothing.
    pub proof fn lemma_no_budget(self, k: nat)
        ensures
            self.taken(k, 0) == 0,
            self.delivered(k, 0) == Seq::<T>::empty(),
            self.after_take_up_to(0) == self,
            self.after_consume_up_to(0) == self,
        decreases k,
    {
        if k > 0 {
            self.lemma_no_budget((k - 1) as nat);
            assert(self.rings[k - 1].items().take(0) =~= Seq::<T>::empty());
            assert(self.delivered(k, 0) =~= Seq::<T>::empty());
        }
        assert forall|i: nat| #[trigger] self.share(i, 0) == 0 by {
            self.lemma_taken_bounds(i, 0);
        }
        assert(self.after_take_up_to(0).rings =~= self.rings);
        assert(self.after_consume_up_to(0).rings =~= self.rings);
    }

    /// What a drain delivers is as long as what it takes.
    pub proof fn lemma_delivered_len(self, k: nat, max: nat)
        requires
            self.wf(),
            k <= self.rings.len(),
        ensures
            self.delivered(k, max).len() == self.taken(k, max),
            self.all_items(k).len() == self.total_len(k),
        decreases k,
    {
        if k > 0 {
            self.lemma_delivered_len((k - 1) as nat, max);
            assert(self.rings[k - 1].wf());
            self.rings[k - 1].lemma_bounded();
        }
    }

    /// Once the buffer is full the later rings are left alone.
    pub proof fn lemma_buffer_full(self, from: nat, to: nat, room: nat)
        requires
            from <= to,
            self.received(from, room) >= room,
        ensures
            self.received(to, room) == self.received(from, room),
            self.received_items(to, room) == self.received_items(from, room),
        decreases to - from,
    {
        if from < to {
            self.lemma_buffer_full(from, (to - 1) as nat, room);
        }
    }

    /// A batch receive never copies more than the buffer holds.
    pub proof fn lemma_received_bounds(self, k: nat, room: nat)
        requires
            self.wf(),
            k <= self.rings.len(),
        ensures
            self.received(k, room) <= room,
            self.received_items(k, room).len() == self.received(k, room),
        decreases k,
    {
        if k > 0 {
            self.lemma_received_bounds((k - 1) as nat, room);
            let before = self.received((k - 1) as nat, room);
            if before < room {
                let ring = self.rings[k - 1];
                assert(ring.wf());
                ring.lemma_after_readable();
                ring.lemma_bounded();
            }
        }
    }

    /// Closing an already closed channel changes nothing.
    pub proof fn lemma_close_idempotent(self)
        requires
            self.wf(),
        ensures
            self.after_close().wf(),
            self.after_close().after_close() == self.after_close(),
            self.closed ==> self.after_close() == self,
            forall|i: int|
                0 <= i < self.rings.len() ==> (#[trigger] self.after_close().rings[i]).items()
                    == self.rings[i].items(),
    {
        let once = self.after_close();
        assert forall|i: int| 0 <= i < self.rings.len() implies {
            &&& (#[trigger] once.rings[i]).wf()
            &&& once.rings[i].capacity() == once.capacity
            &&& once.rings[i].metrics_enabled == once.metrics_enabled
            &&& once.rings[i].items() == self.rings[i].items()
        } by {
            assert(self.rings[i].wf());
            self.rings[i].lemma_after_close();
        }
        assert forall|i: int| 0 <= i < once.producer_count implies (#[trigger] once.rings[i]).active by {
            assert(self.rings[i].active);
        }
        assert forall|i: int| once.producer_count <= i < once.rings.len() implies #[trigger] once.rings[i]
            == RingModel::<T>::fresh(once.capacity, once.metrics_enabled) by {
            assert(self.rings[i] == RingModel::<T>::fresh(self.capacity, self.metrics_enabled));
        }
        assert(once.after_close().rings =~= once.rings);
        if self.closed {
            assert forall|i: int| 0 <= i < self.rings.len() implies once.rings[i]
                == self.rings[i] by {
                if i < self.producer_count {
                    assert(self.rings[i].closed);
                }
            }
            assert(once.rings =~= self.rings);
        }
    }
}

} // verus!
