//! The multi-producer single-consumer channel: one ring per producer, drained by one
//! consumer in the order of registration.

use vstd::prelude::*;
use crate::channel_model::ChannelModel;
use crate::config::Config;
use crate::metrics::Metrics;
use crate::reservation::Reservation;
use crate::ring::Ring;
use crate::ring_model::RingModel;
use crate::sequence::slot;

verus! {

/// Why a registration was refused.
#[derive(Debug, Clone, Copy, PartialEq, Eq, Structural)]
pub enum ChannelError {
    /// Every ring is bound to a producer already.
    TooManyProducers {
        /// The producer cap of the channel.
        max: usize,
    },
    /// The channel is closed.
    Closed,
}

/// A channel for items of type `T`.
pub struct Channel<T> {
    rings: Vec<Ring<T>>,
    producer_count: usize,
    closed: bool,
    config: Config,
}

/// The handle of a registered producer: the index of its ring. It cannot be copied,
/// so that each ring has one writer.
#[derive(Debug)]
pub struct Producer {
    id: usize,
}

impl<T> View for Channel<T> {
    type V = ChannelModel<T>;

    open spec fn view(&self) -> ChannelModel<T> {
        ChannelModel {
            rings: Seq::new(self.ring_count(), |i: int| self.ring(i)@),
            producer_count: self.producer_count_spec(),
            closed: self.closed_spec(),
            capacity: self.config().capacity_spec(),
            metrics_enabled: self.config().enable_metrics,
        }
    }
}

impl<T> Channel<T> {
    /// The ring of producer index `index`.
    pub closed spec fn ring(&self, index: int) -> Ring<T> {
        self.rings@[index]
    }

    /// The number of rings.
    pub closed spec fn ring_count(&self) -> nat {
        self.rings@.len()
    }

    /// The number of producers registered so far.
    pub closed spec fn producer_count_spec(&self) -> nat {
        self.producer_count as nat
    }

    /// Whether the channel was closed.
    pub closed spec fn closed_spec(&self) -> bool {
        self.closed
    }

    /// The configuration the channel was built with.
    pub closed spec fn config(&self) -> Config {
        self.config
    }

    /// The channel is well formed: it has one well-formed ring of the configured size
    /// for each producer slot, and its state meets the channel invariant.
    pub open spec fn wf(&self) -> bool {
        &&& self.config().valid()
        &&& self.ring_count() == self.config().max_producers
        &&& forall|i: int|
            0 <= i < self.ring_count() ==> (#[trigger] self.ring(i)).wf() && self.ring(i).config()
                == self.config()
        &&& self@.wf()
    }

    /// This channel is `before` but for ring `index`.
    pub open spec fn frame(&self, before: &Self, index: int) -> bool {
        &&& self.config() == before.config()
        &&& self.ring_count() == before.ring_count()
        &&& self.producer_count_spec() == before.producer_count_spec()
        &&& self.closed_spec() == before.closed_spec()
        &&& forall|i: int|
            0 <= i < self.ring_count() && i != index ==> #[trigger] self.ring(i) == before.ring(i)
    }

    /// A channel that differs from a well-formed one in the ring of one registered
    /// producer is well formed, provided that ring is well formed, of the same
    /// configuration, still active, and closed if the channel is.
    pub proof fn lemma_frame(&self, before: &Self, index: int)
        requires
            before.wf(),
            self.frame(before, index),
            0 <= index < before@.producer_count,
            self.ring(index).wf(),
            self.ring(index).config() == before.config(),
            self.ring(index)@.active,
            before@.closed ==> self.ring(index)@.closed,
        ensures
            self.wf(),
            self@ == before@.with_ring(index, self.ring(index)@),
    {
        assert(self@.rings =~= before@.with_ring(index, self.ring(index)@).rings) by {
            assert forall|i: int| 0 <= i < self.ring_count() implies self@.rings[i]
                == before@.with_ring(index, self.ring(index)@).rings[i] by {
                if i != index {
                    assert(self.ring(i) == before.ring(i));
                }
            }
        }
        before@.lemma_with_ring(index, self.ring(index)@);
        assert forall|i: int| 0 <= i < self.ring_count() implies (#[trigger] self.ring(i)).wf()
            && self.ring(i).config() == self.config() by {
            if i != index {
                assert(self.ring(i) == before.ring(i));
                assert(before.ring(i).wf());
            }
        }
    }

    /// A channel whose rings went through changes that keep each ring well formed,
    /// of the same configuration, as active as before and closed where it was, and
    /// that left the rings of unregistered producers alone, is well formed.
    proof fn lemma_rings_changed(&self, before: &Self)
        requires
            before.wf(),
            self.config == before.config,
            self.producer_count == before.producer_count,
            self.closed == before.closed,
            self.rings@.len() == before.rings@.len(),
            forall|i: int|
                0 <= i < self.rings@.len() ==> {
                    &&& (#[trigger] self.rings@[i]).wf()
                    &&& self.rings@[i].config() == before.config
                    &&& self.rings@[i]@.active == before.rings@[i]@.active
                    &&& before.rings@[i]@.closed ==> self.rings@[i]@.closed
                },
            forall|i: int|
                before.producer_count <= i < self.rings@.len() ==> (#[trigger] self.rings@[i])@
                    == before.rings@[i]@,
        ensures
            self.wf(),
    {
        assert forall|i: int| 0 <= i < self@.rings.len() implies {
            &&& (#[trigger] self@.rings[i]).wf()
            &&& self@.rings[i].capacity() == self@.capacity
            &&& self@.rings[i].metrics_enabled == self@.metrics_enabled
        } by {
            assert(self.ring(i).wf());
        }
        assert forall|i: int| 0 <= i < self@.producer_count implies (#[trigger] self@.rings[i]).active by {
            assert(before@.rings[i].active);
            assert(self.rings@[i]@.active == before.rings@[i]@.active);
        }
        assert forall|i: int| self@.producer_count <= i < self@.rings.len() implies #[trigger] self@.rings[i]
            == RingModel::<T>::fresh(self@.capacity, self@.metrics_enabled) by {
            assert(before@.rings[i] == RingModel::<T>::fresh(
                before@.capacity,
                before@.metrics_enabled,
            ));
            assert(self.rings@[i]@ == before.rings@[i]@);
        }
        if self@.closed {
            assert forall|i: int| 0 <= i < self@.producer_count implies (#[trigger] self@.rings[i]).closed by {
                assert(before@.rings[i].closed);
                assert(self.rings@[i].wf());
            }
        }
    }

    /// The number of items in flight stays below 2^27.
    proof fn lemma_total_len_bound(&self, k: nat)
        requires
            self.wf(),
            k <= self.ring_count(),
        ensures
            self@.total_len(k) <= k * 0x10_0000,
            self@.total_len(k) <= 0x800_0000,
        decreases k,
    {
        self.config.lemma_valid_capacity();
        if k > 0 {
            self.lemma_total_len_bound((k - 1) as nat);
            assert(self.ring(k - 1).wf());
            self@.rings[k - 1].lemma_bounded();
        }
    }

    /// A new, open channel with one empty ring for each of `max_producers` producers.
    pub fn new(config: Config) -> (channel: Self)
        requires
            config.valid(),
        ensures
            channel.wf(),
            channel.config() == config,
            channel@ == ChannelModel::<T>::fresh(
                config.max_producers as nat,
                config.capacity_spec(),
                config.enable_metrics,
            ),
    {
        let mut rings: Vec<Ring<T>> = Vec::with_capacity(config.max_producers);
        let mut built: usize = 0;
        while built < config.max_producers
            invariant
                config.valid(),
                built <= config.max_producers,
                rings@.len() == built,
                forall|i: int|
                    0 <= i < built ==> {
                        &&& (#[trigger] rings@[i]).wf()
                        &&& rings@[i].config() == config
                        &&& rings@[i]@ == RingModel::<T>::fresh(
                            config.capacity_spec(),
                            config.enable_metrics,
                        )
                    },
            decreases config.max_producers - built,
        {
            rings.push(Ring::new(config));
            built = built + 1;
        }
        let channel = Channel { rings, producer_count: 0, closed: false, config };
        proof {
            config.lemma_valid_capacity();
            ChannelModel::<T>::lemma_fresh(
                config.max_producers as nat,
                config.capacity_spec(),
                config.enable_metrics,
            );
            assert(channel@.rings =~= ChannelModel::<T>::fresh(
                config.max_producers as nat,
                config.capacity_spec(),
                config.enable_metrics,
            ).rings);
        }
        channel
    }

    /// Registers a producer: binds the next ring and hands out its handle. A closed
    /// channel refuses with `Closed`; an open channel whose rings are all bound
    /// refuses with `TooManyProducers` and its cap. A refusal changes nothing.
    pub fn register(&mut self) -> (result: Result<Producer, ChannelError>)
        requires
            old(self).wf(),
        ensures
            final(self).wf(),
            final(self).config() == old(self).config(),
            final(self)@ == old(self)@.after_register(),
            match result {
                Ok(producer) => {
                    &&& old(self)@.registers()
                    &&& producer.id_spec() == old(self)@.producer_count
                    &&& producer.bound_to(final(self))
                },
                Err(ChannelError::Closed) => old(self)@.closed,
                Err(ChannelError::TooManyProducers { max }) => {
                    &&& !old(self)@.closed
                    &&& old(self)@.producer_count == old(self)@.max_producers()
                    &&& max == old(self)@.max_producers()
                },
            },
    {
        if self.closed {
            return Err(ChannelError::Closed);
        }
        let id: usize = self.producer_count;
        if id >= self.config.max_producers {
            return Err(ChannelError::TooManyProducers { max: self.config.max_producers });
        }
        proof {
            old(self)@.lemma_after_register();
            assert(old(self).ring(id as int).wf());
        }
        self.producer_count = id + 1;
        self.rings[id].set_active(true);
        proof {
            assert(self@.rings =~= old(self)@.after_register().rings) by {
                assert forall|i: int| 0 <= i < self.ring_count() implies self@.rings[i]
                    == old(self)@.after_register().rings[i] by {
                    if i != id {
                        assert(self.ring(i) == old(self).ring(i));
                    }
                }
            }
            assert forall|i: int| 0 <= i < self.ring_count() implies (#[trigger] self.ring(i)).wf()
                && self.ring(i).config() == self.config() by {
                if i != id {
                    assert(self.ring(i) == old(self).ring(i));
                    assert(old(self).ring(i).wf());
                }
            }
        }
        Ok(Producer { id })
    }

    // ----- consumer side -----

    /// Batch receive: copies into the front of `out`, ring after ring in the order of
    /// registration, what each ring's readable region holds and the buffer still has
    /// room for, and releases what was copied. Returns how many items were copied.
    pub fn recv(&mut self, out: &mut [T]) -> (total: usize) where T: Copy
        requires
            old(self).wf(),
        ensures
            final(self).wf(),
            final(self).config() == old(self).config(),
            total == old(self)@.received(old(self)@.producer_count, old(out)@.len()),
            final(self)@ == old(self)@.after_recv(old(out)@.len()),
            final(out)@.len() == old(out)@.len(),
            final(out)@ == old(self)@.received_items(old(self)@.producer_count, old(out)@.len())
                + old(out)@.skip(total as int),
    {
        let ghost before = self@;
        let ghost room = out@.len();
        let mut total: usize = 0;
        let count: usize = self.producer_count;
        let mut i: usize = 0;
        proof {
            assert(out@ =~= before.received_items(0, room) + old(out)@.skip(0));
        }
        while i < count && total < out.len()
            invariant
                old(self).wf(),
                before == old(self)@,
                room == old(out)@.len(),
                out@.len() == room,
                i <= count,
                count == old(self).producer_count,
                count <= self.rings@.len(),
                self.config == old(self).config,
                self.producer_count == old(self).producer_count,
                self.closed == old(self).closed,
                self.rings@.len() == old(self).rings@.len(),
                total == before.received(i as nat, room),
                total <= room,
                out@ == before.received_items(i as nat, room) + old(out)@.skip(total as int),
                forall|j: int|
                    0 <= j < i ==> {
                        &&& (#[trigger] self.rings@[j]).wf()
                        &&& self.rings@[j].config() == old(self).config
                        &&& self.rings@[j]@ == before.after_recv(room).rings[j]
                    },
                forall|j: int| i <= j < self.rings@.len() ==> #[trigger] self.rings@[j] == old(self).rings@[j],
            decreases count - i,
        {
            proof {
                assert(old(self).ring(i as int).wf());
                before.lemma_received_bounds(i as nat, room);
                before.lemma_received_bounds((i + 1) as nat, room);
                before.rings[i as int].lemma_after_recv((room - total) as nat);
            }
            let ghost filled = out@;
            let (_, rest) = out.split_at_mut(total);
            let copied: usize = self.rings[i].recv(rest);
            total = total + copied;
            i = i + 1;
            proof {
                assert(out@ =~= before.received_items(i as nat, room) + old(out)@.skip(total as int));
            }
        }
        proof {
            before.lemma_received_bounds(i as nat, room);
            if i < count {
                before.lemma_buffer_full(i as nat, count as nat, room);
            }
            assert(self@.rings =~= before.after_recv(room).rings) by {
                assert forall|j: int| 0 <= j < self.ring_count() implies self@.rings[j]
                    == before.after_recv(room).rings[j] by {
                    if j >= i {
                        assert(self.rings@[j] == old(self).rings@[j]);
                        if j < count {
                            before.lemma_buffer_full(i as nat, j as nat, room);
                        }
                    }
                }
            }
            assert forall|j: int| 0 <= j < self.rings@.len() implies {
                &&& (#[trigger] self.rings@[j]).wf()
                &&& self.rings@[j].config() == old(self).config
                &&& self.rings@[j]@.active == old(self).rings@[j]@.active
                &&& old(self).rings@[j]@.closed ==> self.rings@[j]@.closed
            } by {
                assert(old(self).ring(j).wf());
            }
            self.lemma_rings_changed(old(self));
        }
        total
    }

    /// Drains every ring of a registered producer, in the order of registration:
    /// appends copies of the items to `out`, each ring's oldest first, and releases
    /// them. Returns how many items were drained.
    pub fn consume_all(&mut self, out: &mut Vec<T>) -> (total: usize) where T: Copy
        requires
            old(self).wf(),
        ensures
            final(self).wf(),
            final(self).config() == old(self).config(),
            total == old(self)@.total_len(old(self)@.producer_count),
            final(self)@ == old(self)@.after_consume_all(),
            final(out)@ == old(out)@ + old(self)@.all_items(old(self)@.producer_count),
    {
        let ghost before = self@;
        let mut total: usize = 0;
        let count: usize = self.producer_count;
        let mut i: usize = 0;
        proof {
            assert(out@ =~= old(out)@ + before.all_items(0));
        }
        while i < count
            invariant
                old(self).wf(),
                before == old(self)@,
                i <= count,
                count == old(self).producer_count,
                count <= self.rings@.len(),
                self.config == old(self).config,
                self.producer_count == old(self).producer_count,
                self.closed == old(self).closed,
                self.rings@.len() == old(self).rings@.len(),
                total == before.total_len(i as nat),
                out@ == old(out)@ + before.all_items(i as nat),
                forall|j: int|
                    0 <= j < i ==> {
                        &&& (#[trigger] self.rings@[j]).wf()
                        &&& self.rings@[j].config() == old(self).config
                        &&& self.rings@[j]@ == before.rings[j].after_consume(before.rings[j].len())
                    },
                forall|j: int| i <= j < self.rings@.len() ==> #[trigger] self.rings@[j] == old(self).rings@[j],
            decreases count - i,
        {
            proof {
                assert(old(self).ring(i as int).wf());
                old(self).lemma_total_len_bound((i + 1) as nat);
            }
            let consumed: usize = self.rings[i].consume_batch(out);
            total = total + consumed;
            i = i + 1;
            proof {
                assert(out@ =~= old(out)@ + before.all_items(i as nat));
            }
        }
        proof {
            assert(self@.rings =~= before.after_consume_all().rings) by {
                assert forall|j: int| 0 <= j < self.ring_count() implies self@.rings[j]
                    == before.after_consume_all().rings[j] by {
                    if j >= count {
                        assert(self.rings@[j] == old(self).rings@[j]);
                    }
                }
            }
            assert forall|j: int| 0 <= j < self.rings@.len() implies {
                &&& (#[trigger] self.rings@[j]).wf()
                &&& self.rings@[j].config() == old(self).config
                &&& self.rings@[j]@.active == old(self).rings@[j]@.active
                &&& old(self).rings@[j]@.closed ==> self.rings@[j]@.closed
            } by {
                assert(old(self).ring(j).wf());
            }
            self.lemma_rings_changed(old(self));
        }
        total
    }

    /// Drains up to `max_total` items, ring after ring in the order of registration,
    /// each ring giving what the earlier rings left of the budget: appends copies of the
    /// items to `out` and releases them. Returns how many items were drained.
    pub fn consume_all_up_to(&mut self, max_total: usize, out: &mut Vec<T>) -> (total: usize) where
        T: Copy,

        requires
            old(self).wf(),
        ensures
            final(self).wf(),
            final(self).config() == old(self).config(),
            total == old(self)@.taken(old(self)@.producer_count, max_total as nat),
            total <= max_total,
            final(self)@ == old(self)@.after_consume_up_to(max_total as nat),
            final(out)@ == old(out)@ + old(self)@.delivered(
                old(self)@.producer_count,
                max_total as nat,
            ),
    {
        let ghost before = self@;
        let ghost max = max_total as nat;
        let mut total: usize = 0;
        let count: usize = self.producer_count;
        let mut i: usize = 0;
        proof {
            assert(out@ =~= old(out)@ + before.delivered(0, max));
        }
        while i < count && total < max_total
            invariant
                old(self).wf(),
                before == old(self)@,
                max == max_total,
                i <= count,
                count == old(self).producer_count,
                count <= self.rings@.len(),
                self.config == old(self).config,
                self.producer_count == old(self).producer_count,
                self.closed == old(self).closed,
                self.rings@.len() == old(self).rings@.len(),
                total == before.taken(i as nat, max),
                total <= max_total,
                out@ == old(out)@ + before.delivered(i as nat, max),
                forall|j: int|
                    0 <= j < i ==> {
                        &&& (#[trigger] self.rings@[j]).wf()
                        &&& self.rings@[j].config() == old(self).config
                        &&& self.rings@[j]@ == before.rings[j].after_consume(before.share(j as nat, max))
                    },
                forall|j: int| i <= j < self.rings@.len() ==> #[trigger] self.rings@[j] == old(self).rings@[j],
            decreases count - i,
        {
            proof {
                assert(old(self).ring(i as int).wf());
            }
            let remaining: usize = max_total - total;
            let consumed: usize = self.rings[i].consume_up_to(remaining, out);
            total = total + consumed;
            i = i + 1;
            proof {
                assert(out@ =~= old(out)@ + before.delivered(i as nat, max));
            }
        }
        proof {
            if i < count {
                before.lemma_budget_spent(i as nat, count as nat, max);
            }
            assert(self@.rings =~= before.after_consume_up_to(max).rings) by {
                assert forall|j: int| 0 <= j < self.ring_count() implies self@.rings[j]
                    == before.after_consume_up_to(max).rings[j] by {
                    if j >= i {
                        assert(self.rings@[j] == old(self).rings@[j]);
                        if j < count {
                            assert(before.share(j as nat, max) == 0);
                        }
                    }
                }
            }
            assert forall|j: int| 0 <= j < self.rings@.len() implies {
                &&& (#[trigger] self.rings@[j]).wf()
                &&& self.rings@[j].config() == old(self).config
                &&& self.rings@[j]@.active == old(self).rings@[j]@.active
                &&& old(self).rings@[j]@.closed ==> self.rings@[j]@.closed
            } by {
                assert(old(self).ring(j).wf());
            }
            self.lemma_rings_changed(old(self));
        }
        total
    }

    /// Drains every ring of a registered producer, in the order of registration:
    /// moves the items into `out`, each ring's oldest first, and releases them.
    /// Returns how many items were drained.
    pub fn consume_all_owned(&mut self, out: &mut Vec<T>) -> (total: usize)
        requires
            old(self).wf(),
        ensures
            final(self).wf(),
            final(self).config() == old(self).config(),
            total == old(self)@.total_len(old(self)@.producer_count),
            final(self)@ == old(self)@.after_take_all(),
            final(out)@ == old(out)@ + old(self)@.all_items(old(self)@.producer_count),
    {
        let ghost before = self@;
        let mut total: usize = 0;
        let count: usize = self.producer_count;
        let mut i: usize = 0;
        proof {
            assert(out@ =~= old(out)@ + before.all_items(0));
        }
        while i < count
            invariant
                old(self).wf(),
                before == old(self)@,
                i <= count,
                count == old(self).producer_count,
                count <= self.rings@.len(),
                self.config == old(self).config,
                self.producer_count == old(self).producer_count,
                self.closed == old(self).closed,
                self.rings@.len() == old(self).rings@.len(),
                total == before.total_len(i as nat),
                out@ == old(out)@ + before.all_items(i as nat),
                forall|j: int|
                    0 <= j < i ==> {
                        &&& (#[trigger] self.rings@[j]).wf()
                        &&& self.rings@[j].config() == old(self).config
                        &&& self.rings@[j]@ == before.rings[j].after_take(before.rings[j].len())
                    },
                forall|j: int| i <= j < self.rings@.len() ==> #[trigger] self.rings@[j] == old(self).rings@[j],
            decreases count - i,
        {
            proof {
                assert(old(self).ring(i as int).wf());
                old(self).lemma_total_len_bound((i + 1) as nat);
            }
            let consumed: usize = self.rings[i].consume_batch_owned(out);
            total = total + consumed;
            i = i + 1;
            proof {
                assert(out@ =~= old(out)@ + before.all_items(i as nat));
            }
        }
        proof {
            assert(self@.rings =~= before.after_take_all().rings) by {
                assert forall|j: int| 0 <= j < self.ring_count() implies self@.rings[j]
                    == before.after_take_all().rings[j] by {
                    if j >= count {
                        assert(self.rings@[j] == old(self).rings@[j]);
                    }
                }
            }
            assert forall|j: int| 0 <= j < self.rings@.len() implies {
                &&& (#[trigger] self.rings@[j]).wf()
                &&& self.rings@[j].config() == old(self).config
                &&& self.rings@[j]@.active == old(self).rings@[j]@.active
                &&& old(self).rings@[j]@.closed ==> self.rings@[j]@.closed
            } by {
                assert(old(self).ring(j).wf());
            }
            self.lemma_rings_changed(old(self));
        }
        total
    }

    /// Drains up to `max_total` items, ring after ring in the order of registration,
    /// each ring giving what the earlier rings left of the budget: moves the items
    /// into `out` and releases them. Returns how many items were drained.
    pub fn consume_all_up_to_owned(&mut self, max_total: usize, out: &mut Vec<T>) -> (total: usize)
        requires
            old(self).wf(),
        ensures
            final(self).wf(),
            final(self).config() == old(self).config(),
            total == old(self)@.taken(old(self)@.producer_count, max_total as nat),
            total <= max_total,
            final(self)@ == old(self)@.after_take_up_to(max_total as nat),
            final(out)@ == old(out)@ + old(self)@.delivered(
                old(self)@.producer_count,
                max_total as nat,
            ),
    {
        let ghost before = self@;
        let ghost max = max_total as nat;
        let mut total: usize = 0;
        let count: usize = self.producer_count;
        let mut i: usize = 0;
        proof {
            assert(out@ =~= old(out)@ + before.delivered(0, max));
        }
        while i < count && total < max_total
            invariant
                old(self).wf(),
                before == old(self)@,
                max == max_total,
                i <= count,
                count == old(self).producer_count,
                count <= self.rings@.len(),
                self.config == old(self).config,
                self.producer_count == old(self).producer_count,
                self.closed == old(self).closed,
                self.rings@.len() == old(self).rings@.len(),
                total == before.taken(i as nat, max),
                total <= max_total,
                out@ == old(out)@ + before.delivered(i as nat, max),
                forall|j: int|
                    0 <= j < i ==> {
                        &&& (#[trigger] self.rings@[j]).wf()
                        &&& self.rings@[j].config() == old(self).config
                        &&& self.rings@[j]@ == before.rings[j].after_take(before.share(j as nat, max))
                    },
                forall|j: int| i <= j < self.rings@.len() ==> #[trigger] self.rings@[j] == old(self).rings@[j],
            decreases count - i,
        {
            proof {
                assert(old(self).ring(i as int).wf());
            }
            let remaining: usize = max_total - total;
            let consumed: usize = self.rings[i].consume_up_to_owned(remaining, out);
            total = total + consumed;
            i = i + 1;
            proof {
                assert(out@ =~= old(out)@ + before.delivered(i as nat, max));
            }
        }
        proof {
            if i < count {
                before.lemma_budget_spent(i as nat, count as nat, max);
            }
            assert(self@.rings =~= before.after_take_up_to(max).rings) by {
                assert forall|j: int| 0 <= j < self.ring_count() implies self@.rings[j]
                    == before.after_take_up_to(max).rings[j] by {
                    if j >= i {
                        assert(self.rings@[j] == old(self).rings@[j]);
                        if j < count {
                            assert(before.share(j as nat, max) == 0);
                        }
                    }
                }
            }
            assert forall|j: int| 0 <= j < self.rings@.len() implies {
                &&& (#[trigger] self.rings@[j]).wf()
                &&& self.rings@[j].config() == old(self).config
                &&& self.rings@[j]@.active == old(self).rings@[j]@.active
                &&& old(self).rings@[j]@.closed ==> self.rings@[j]@.closed
            } by {
                assert(old(self).ring(j).wf());
            }
            self.lemma_rings_changed(old(self));
        }
        total
    }

    /// Closes the channel and the ring of every registered producer. Registrations
    /// and reservations are refused from now on; what is in flight can still be
    /// drained. Closing a closed channel changes nothing.
    pub fn close(&mut self)
        requires
            old(self).wf(),
        ensures
            final(self).wf(),
            final(self).config() == old(self).config(),
            final(self)@ == old(self)@.after_close(),
    {
        self.closed = true;
        let count: usize = self.producer_count;
        let mut i: usize = 0;
        while i < count
            invariant
                old(self).wf(),
                i <= count,
                count == old(self).producer_count,
                count <= self.rings@.len(),
                self.config == old(self).config,
                self.producer_count == old(self).producer_count,
                self.closed,
                self.rings@.len() == old(self).rings@.len(),
                forall|j: int|
                    0 <= j < i ==> {
                        &&& (#[trigger] self.rings@[j]).wf()
                        &&& self.rings@[j].config() == old(self).config
                        &&& self.rings@[j]@ == old(self).rings@[j]@.after_close()
                    },
                forall|j: int| i <= j < self.rings@.len() ==> #[trigger] self.rings@[j] == old(self).rings@[j],
            decreases count - i,
        {
            proof {
                assert(old(self).ring(i as int).wf());
            }
            self.rings[i].close();
            i = i + 1;
        }
        proof {
            old(self)@.lemma_close_idempotent();
            assert(self@.rings =~= old(self)@.after_close().rings) by {
                assert forall|j: int| 0 <= j < self.ring_count() implies self@.rings[j]
                    == old(self)@.after_close().rings[j] by {
                    if j >= count {
                        assert(self.rings@[j] == old(self).rings@[j]);
                    }
                }
            }
            assert forall|j: int| 0 <= j < self.ring_count() implies (#[trigger] self.ring(j)).wf()
                && self.ring(j).config() == self.config() by {
                if j >= count {
                    assert(self.rings@[j] == old(self).rings@[j]);
                    assert(old(self).ring(j).wf());
                }
            }
        }
    }

    /// Whether the channel was closed.
    pub fn is_closed(&self) -> (closed: bool)
        ensures
            closed == self@.closed,
    {
        self.closed
    }

    /// The number of producers registered so far.
    pub fn producer_count(&self) -> (count: usize)
        ensures
            count == self@.producer_count,
    {
        self.producer_count
    }

    /// The sum of the counters of the rings of the registered producers.
    pub fn metrics(&self) -> (metrics: Metrics)
        requires
            self.wf(),
        ensures
            metrics == self@.metrics_sum(self@.producer_count),
    {
        let mut metrics = Metrics::new();
        let count: usize = self.producer_count;
        let mut i: usize = 0;
        while i < count
            invariant
                self.wf(),
                i <= count,
                count == self.producer_count,
                metrics == self@.metrics_sum(i as nat),
            decreases count - i,
        {
            let ring_metrics: Metrics = self.rings[i].metrics();
            metrics.merge(&ring_metrics);
            i = i + 1;
        }
        metrics
    }

    /// The ring of producer index `ring_id`, or `None` where the channel has no such
    /// ring.
    pub fn get_ring(&self, ring_id: usize) -> (ring: Option<&Ring<T>>)
        requires
            self.wf(),
        ensures
            ring is Some <==> ring_id < self@.max_producers(),
            ring matches Some(found) ==> *found == self.ring(ring_id as int),
    {
        if ring_id < self.config.max_producers {
            Some(&self.rings[ring_id])
        } else {
            None
        }
    }
}

impl Producer {
    /// The index of the producer's ring.
    pub closed spec fn id_spec(&self) -> nat {
        self.id as nat
    }

    /// Whether `channel` has registered a producer with this handle's ring index.
    pub open spec fn bound_to<T>(&self, channel: &Channel<T>) -> bool {
        self.id_spec() < channel@.producer_count
    }

    /// The index of the producer's ring.
    pub fn id(&self) -> (id: usize)
        ensures
            id == self.id_spec(),
    {
        self.id
    }

    /// Reserves up to `n` slots of the producer's ring, as `Ring::reserve` does. A
    /// handle that `channel` did not hand out for one of its rings is refused.
    pub fn reserve<'a, T>(&self, channel: &'a mut Channel<T>, n: usize) -> (reservation: Option<
        Reservation<'a, T>,
    >)
        requires
            old(channel).wf(),
        ensures
            reservation is Some <==> self.bound_to(old(channel)) && old(channel)@.rings[self.id_spec() as int].accepts(
                n as nat,
            ),
            match reservation {
                Some(granted) => {
                    &&& granted.wf()
                    &&& granted.ring.config() == old(channel).config()
                    &&& granted.ring@ == old(channel)@.rings[self.id_spec() as int].after_reserve(
                        n as nat,
                    )
                    &&& granted.len == granted.ring@.contiguous(n as nat)
                    &&& granted.start == slot(granted.ring@.tail, granted.ring@.capacity())
                    &&& final(channel).frame(old(channel), self.id_spec() as int)
                    &&& final(channel).ring(self.id_spec() as int) == *final(granted.ring)
                },
                None => {
                    &&& final(channel).wf()
                    &&& final(channel).config() == old(channel).config()
                    &&& final(channel)@ == if self.bound_to(old(channel)) {
                        old(channel)@.with_ring(
                            self.id_spec() as int,
                            old(channel)@.rings[self.id_spec() as int].after_reserve(n as nat),
                        )
                    } else {
                        old(channel)@
                    }
                },
            },
    {
        if self.id >= channel.producer_count {
            return None;
        }
        proof {
            assert(channel.ring(self.id as int).wf());
            channel@.rings[self.id as int].lemma_after_reserve(n as nat);
        }
        if channel.rings[self.id].grant(n) {
            Some(channel.rings[self.id].make_reservation(n))
        } else {
            proof {
                channel.lemma_frame(old(channel), self.id as int);
            }
            None
        }
    }

    /// Reserves up to `n` slots of the producer's ring, as `Ring::reserve_with_backoff`
    /// does. A handle that `channel` did not hand out for one of its rings is refused.
    pub fn reserve_with_backoff<'a, T>(
        &self,
        channel: &'a mut Channel<T>,
        n: usize,
    ) -> (reservation: Option<
        Reservation<'a, T>,
    >)
        requires
            old(channel).wf(),
        ensures
            reservation is Some <==> self.bound_to(old(channel)) && old(channel)@.rings[self.id_spec() as int].accepts(
                n as nat,
            ),
            match reservation {
                Some(granted) => {
                    &&& granted.wf()
                    &&& granted.ring.config() == old(channel).config()
                    &&& granted.ring@ == old(channel)@.rings[self.id_spec() as int].after_reserve(
                        n as nat,
                    )
                    &&& granted.len == granted.ring@.contiguous(n as nat)
                    &&& granted.start == slot(granted.ring@.tail, granted.ring@.capacity())
                    &&& final(channel).frame(old(channel), self.id_spec() as int)
                    &&& final(channel).ring(self.id_spec() as int) == *final(granted.ring)
                },
                None => {
                    &&& final(channel).wf()
                    &&& final(channel).config() == old(channel).config()
                    &&& final(channel)@ == if self.bound_to(old(channel)) {
                        old(channel)@.with_ring(
                            self.id_spec() as int,
                            old(channel)@.rings[self.id_spec() as int].after_reserve(n as nat),
                        )
                    } else {
                        old(channel)@
                    }
                },
            },
    {
        if self.id >= channel.producer_count {
            return None;
        }
        proof {
            assert(channel.ring(self.id as int).wf());
            channel@.rings[self.id as int].lemma_after_reserve(n as nat);
        }
        if channel.rings[self.id].grant_with_backoff(n) {
            Some(channel.rings[self.id].make_reservation(n))
        } else {
            proof {
                channel.lemma_frame(old(channel), self.id as int);
            }
            None
        }
    }

    /// Sends one item through the producer's ring. Returns whether the item was
    /// accepted; it is refused where the ring is full or closed, and where `channel`
    /// did not hand out this handle.
    pub fn push<T>(&self, channel: &mut Channel<T>, item: T) -> (accepted: bool)
        requires
            old(channel).wf(),
        ensures
            final(channel).wf(),
            final(channel).config() == old(channel).config(),
            accepted == (self.bound_to(old(channel)) && old(channel)@.rings[self.id_spec() as int].accepts(
                1,
            )),
            final(channel)@ == if self.bound_to(old(channel)) {
                old(channel)@.with_ring(
                    self.id_spec() as int,
                    old(channel)@.rings[self.id_spec() as int].after_push(item),
                )
            } else {
                old(channel)@
            },
    {
        if self.id >= channel.producer_count {
            return false;
        }
        proof {
            assert(channel.ring(self.id as int).wf());
        }
        let accepted: bool = channel.rings[self.id].push(item);
        proof {
            assert(old(channel)@.rings[self.id as int].active);
            channel.lemma_frame(old(channel), self.id as int);
        }
        accepted
    }

    /// Sends a batch through the producer's ring, as `Ring::send` does. Returns how
    /// many items were sent; none where `channel` did not hand out this handle.
    pub fn send<T: Copy>(&self, channel: &mut Channel<T>, items: &[T]) -> (sent: usize)
        requires
            old(channel).wf(),
        ensures
            final(channel).wf(),
            final(channel).config() == old(channel).config(),
            sent == if self.bound_to(old(channel)) {
                old(channel)@.rings[self.id_spec() as int].sent(items@.len())
            } else {
                0
            },
            final(channel)@ == if self.bound_to(old(channel)) {
                old(channel)@.with_ring(
                    self.id_spec() as int,
                    old(channel)@.rings[self.id_spec() as int].after_send(items@),
                )
            } else {
                old(channel)@
            },
    {
        if self.id >= channel.producer_count {
            return 0;
        }
        proof {
            assert(channel.ring(self.id as int).wf());
        }
        let sent: usize = channel.rings[self.id].send(items);
        proof {
            assert(old(channel)@.rings[self.id as int].active);
            channel.lemma_frame(old(channel), self.id as int);
        }
        sent
    }

    /// Closes the producer's ring: it refuses reservations from now on, and what is
    /// in flight can still be drained. Nothing happens where `channel` did not hand
    /// out this handle.
    pub fn close<T>(&self, channel: &mut Channel<T>)
        requires
            old(channel).wf(),
        ensures
            final(channel).wf(),
            final(channel).config() == old(channel).config(),
            final(channel)@ == if self.bound_to(old(channel)) {
                old(channel)@.with_ring(
                    self.id_spec() as int,
                    old(channel)@.rings[self.id_spec() as int].after_close(),
                )
            } else {
                old(channel)@
            },
    {
        if self.id >= channel.producer_count {
            return ;
        }
        proof {
            assert(channel.ring(self.id as int).wf());
        }
        channel.rings[self.id].close();
        proof {
            assert(old(channel)@.rings[self.id as int].active);
            channel.lemma_frame(old(channel), self.id as int);
        }
    }

    /// Whether the producer's ring is closed. A handle that `channel` did not hand
    /// out has no ring to send through and counts as closed.
    pub fn is_closed<T>(&self, channel: &Channel<T>) -> (closed: bool)
        requires
            channel.wf(),
        ensures
            closed == (self.bound_to(channel) ==> channel@.rings[self.id_spec() as int].closed),
    {
        if self.id >= channel.producer_count {
            return true;
        }
        channel.rings[self.id].is_closed()
    }
}

} // verus!
