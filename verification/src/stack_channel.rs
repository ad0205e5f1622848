//! The multi-producer single-consumer channel whose rings and producer cap are fixed
//! by its type and held in place: `P` rings of `N` slots each.

use vstd::prelude::*;
use crate::channel_model::ChannelModel;
use crate::ring_model::RingModel;
use crate::sequence::{is_power_of_two, slot};
use crate::stack_ring::{array_from_fn, StackRing};

verus! {

/// Why a registration was refused.
#[derive(Debug, Clone, Copy, PartialEq, Eq, Structural)]
pub enum StackChannelError {
    /// Every ring is bound to a producer already.
    TooManyProducers {
        /// The producer cap of the channel.
        max: usize,
    },
    /// The channel is closed.
    Closed,
}

/// A channel of `P` rings of `N` slots for items of type `T`.
pub struct StackChannel<T, const N: usize, const P: usize> {
    producer_count: usize,
    closed: bool,
    rings: [StackRing<T, N>; P],
}

/// The handle of a registered producer of a channel of `P` rings of `N` slots: the
/// index of its ring. It cannot be copied, so that each ring has one writer.
#[derive(Debug)]
pub struct StackProducer<const N: usize, const P: usize> {
    id: usize,
}

/// A new ring, whatever its index.
fn new_ring<T, const N: usize>(index: usize) -> (ring: StackRing<T, N>)
    requires
        is_power_of_two(N as nat),
    ensures
        ring.wf(),
        ring@ == RingModel::<T>::fresh(N as nat, false),
{
    StackRing::new()
}

impl<T, const N: usize, const P: usize> View for StackChannel<T, N, P> {
    type V = ChannelModel<T>;

    open spec fn view(&self) -> ChannelModel<T> {
        ChannelModel {
            rings: Seq::new(P as nat, |i: int| self.ring(i)@),
            producer_count: self.producer_count_spec(),
            closed: self.closed_spec(),
            capacity: N as nat,
            metrics_enabled: false,
        }
    }
}

impl<T, const N: usize, const P: usize> StackChannel<T, N, P> {
    /// The ring of producer index `index`.
    pub closed spec fn ring(&self, index: int) -> StackRing<T, N> {
        self.rings@[index]
    }

    /// The number of producers registered so far.
    pub closed spec fn producer_count_spec(&self) -> nat {
        self.producer_count as nat
    }

    /// Whether the channel was closed.
    pub closed spec fn closed_spec(&self) -> bool {
        self.closed
    }

    /// The shapes a channel can have: a ring size that is a power of two, between 1
    /// and 128 producers, and no more slots in all than can be counted.
    pub open spec fn valid_shape() -> bool {
        &&& is_power_of_two(N as nat)
        &&& 1 <= P <= 128
        &&& N * P <= usize::MAX
    }

    /// The channel is well formed: its shape is valid, each of its rings is well
    /// formed, and its state meets the channel invariant.
    pub open spec fn wf(&self) -> bool {
        &&& Self::valid_shape()
        &&& forall|i: int| 0 <= i < P ==> (#[trigger] self.ring(i)).wf()
        &&& self@.wf()
    }

    /// This channel is `before` but for ring `index`.
    pub open spec fn frame(&self, before: &Self, index: int) -> bool {
        &&& self.producer_count_spec() == before.producer_count_spec()
        &&& self.closed_spec() == before.closed_spec()
        &&& forall|i: int| 0 <= i < P && i != index ==> #[trigger] self.ring(i) == before.ring(i)
    }

    /// A channel that differs from a well-formed one in the ring of one registered
    /// producer is well formed, provided that ring is well formed, still bound, and
    /// closed if the channel is.
    pub proof fn lemma_frame(&self, before: &Self, index: int)
        requires
            before.wf(),
            self.frame(before, index),
            0 <= index < before@.producer_count,
            self.ring(index).wf(),
            self.ring(index)@.active,
            before@.closed ==> self.ring(index)@.closed,
        ensures
            self.wf(),
            self@ == before@.with_ring(index, self.ring(index)@),
    {
        assert(self@.rings =~= before@.with_ring(index, self.ring(index)@).rings) by {
            assert forall|i: int| 0 <= i < P implies self@.rings[i] == before@.with_ring(
                index,
                self.ring(index)@,
            ).rings[i] by {
                if i != index {
                    assert(self.ring(i) == before.ring(i));
                }
            }
        }
        before@.lemma_with_ring(index, self.ring(index)@);
        assert forall|i: int| 0 <= i < P implies (#[trigger] self.ring(i)).wf() by {
            if i != index {
                assert(self.ring(i) == before.ring(i));
                assert(before.ring(i).wf());
            }
        }
    }

    /// A channel whose rings went through changes that keep each ring well formed,
    /// as bound as before and closed where it was, and that left the rings of
    /// unregistered producers alone, is well formed.
    proof fn lemma_rings_changed(&self, before: &Self)
        requires
            before.wf(),
            self.producer_count == before.producer_count,
            self.closed == before.closed,
            forall|i: int|
                0 <= i < P ==> {
                    &&& (#[trigger] self.rings@[i]).wf()
                    &&& self.rings@[i]@.active == before.rings@[i]@.active
                    &&& before.rings@[i]@.closed ==> self.rings@[i]@.closed
                },
            forall|i: int|
                before.producer_count <= i < P ==> (#[trigger] self.rings@[i])@ == before.rings@[i]@,
        ensures
            self.wf(),
    {
        assert forall|i: int| 0 <= i < self@.rings.len() implies {
            &&& (#[trigger] self@.rings[i]).wf()
            &&& self@.rings[i].capacity() == self@.capacity
            &&& self@.rings[i].metrics_enabled == self@.metrics_enabled
        } by {
            assert(self.ring(i).wf());
        }
        assert forall|i: int| 0 <= i < self@.producer_count implies (#[trigger] self@.rings[i]).active by {
            assert(before@.rings[i].active);
            assert(self.rings@[i]@.active == before.rings@[i]@.active);
        }
        assert forall|i: int| self@.producer_count <= i < self@.rings.len() implies #[trigger] self@.rings[i]
            == RingModel::<T>::fresh(self@.capacity, self@.metrics_enabled) by {
            assert(before@.rings[i] == RingModel::<T>::fresh(
                before@.capacity,
                before@.metrics_enabled,
            ));
            assert(self.rings@[i]@ == before.rings@[i]@);
        }
        if self@.closed {
            assert forall|i: int| 0 <= i < self@.producer_count implies (#[trigger] self@.rings[i]).closed by {
                assert(before@.rings[i].closed);
                assert(self.rings@[i].wf());
            }
        }
    }

    /// The number of items in flight can be counted.
    proof fn lemma_total_len_bound(&self, k: nat)
        requires
            self.wf(),
            k <= P,
        ensures
            self@.total_len(k) <= k * N,
            self@.total_len(k) <= usize::MAX,
        decreases k,
    {
        if k > 0 {
            self.lemma_total_len_bound((k - 1) as nat);
            assert(self.ring(k - 1).wf());
            self@.rings[k - 1].lemma_bounded();
            assert((k - 1) * N + N == k * N) by (nonlinear_arith);
        }
        assert(k * N <= P * N) by (nonlinear_arith)
            requires
                k <= P,
        ;
        assert(P * N == N * P) by (nonlinear_arith);
    }

    /// A new, open channel with `P` empty rings.
    pub fn new() -> (channel: Self)
        requires
            Self::valid_shape(),
        ensures
            channel.wf(),
            channel@ == ChannelModel::<T>::fresh(P as nat, N as nat, false),
    {
        let channel = StackChannel {
            producer_count: 0,
            closed: false,
            rings: array_from_fn(new_ring::<T, N>),
        };
        proof {
            ChannelModel::<T>::lemma_fresh(P as nat, N as nat, false);
            assert(channel@.rings =~= ChannelModel::<T>::fresh(P as nat, N as nat, false).rings);
        }
        channel
    }

    // ----- status -----

    /// The number of slots of each ring: `N`.
    pub fn ring_capacity(&self) -> (capacity: usize)
        ensures
            capacity == N,
    {
        N
    }

    /// The producer cap: `P`.
    pub fn max_producers(&self) -> (max: usize)
        ensures
            max == P,
    {
        P
    }

    /// The number of producers registered so far.
    pub fn producer_count(&self) -> (count: usize)
        ensures
            count == self@.producer_count,
    {
        self.producer_count
    }

    /// Whether the channel was closed.
    pub fn is_closed(&self) -> (closed: bool)
        ensures
            closed == self@.closed,
    {
        self.closed
    }

    // ----- registration -----

    /// Registers a producer: binds the next ring and hands out its handle. A closed
    /// channel refuses with `Closed`; an open channel whose rings are all bound
    /// refuses with `TooManyProducers` and its cap. A refusal changes nothing.
    pub fn register(&mut self) -> (result: Result<StackProducer<N, P>, StackChannelError>)
        requires
            old(self).wf(),
        ensures
            final(self).wf(),
            final(self)@ == old(self)@.after_register(),
            match result {
                Ok(producer) => {
                    &&& old(self)@.registers()
                    &&& producer.id_spec() == old(self)@.producer_count
                    &&& producer.bound_to(final(self))
                },
                Err(StackChannelError::Closed) => old(self)@.closed,
                Err(StackChannelError::TooManyProducers { max }) => {
                    &&& !old(self)@.closed
                    &&& old(self)@.producer_count == P
                    &&& max == P
                },
            },
    {
        if self.closed {
            return Err(StackChannelError::Closed);
        }
        let id: usize = self.producer_count;
        if id >= P {
            return Err(StackChannelError::TooManyProducers { max: P });
        }
        proof {
            old(self)@.lemma_after_register();
            assert(old(self).ring(id as int).wf());
        }
        self.producer_count = id + 1;
        self.rings[id].bind();
        proof {
            assert(self@.rings =~= old(self)@.after_register().rings) by {
                assert forall|i: int| 0 <= i < P implies self@.rings[i]
                    == old(self)@.after_register().rings[i] by {
                    if i != id {
                        assert(self.ring(i) == old(self).ring(i));
                    }
                }
            }
            assert forall|i: int| 0 <= i < P implies (#[trigger] self.ring(i)).wf() by {
                if i != id {
                    assert(self.ring(i) == old(self).ring(i));
                    assert(old(self).ring(i).wf());
                }
            }
        }
        Ok(StackProducer { id })
    }

    // ----- consumer side -----

    /// Drains every ring of a registered producer, in the order of registration:
    /// appends copies of the items to `out`, each ring's oldest first, and releases
    /// them. Returns how many items were drained.
    pub fn consume_all(&mut self, out: &mut Vec<T>) -> (total: usize) where T: Copy
        requires
            old(self).wf(),
        ensures
            final(self).wf(),
            total == old(self)@.total_len(old(self)@.producer_count),
            final(self)@ == old(self)@.after_consume_all(),
            final(out)@ == old(out)@ + old(self)@.all_items(old(self)@.producer_count),
    {
        let ghost before = self@;
        let mut total: usize = 0;
        let count: usize = self.producer_count;
        let mut i: usize = 0;
        proof {
            assert(out@ =~= old(out)@ + before.all_items(0));
        }
        while i < count
            invariant
                old(self).wf(),
                before == old(self)@,
                i <= count,
                count == old(self).producer_count,
                count <= P,
                self.producer_count == old(self).producer_count,
                self.closed == old(self).closed,
                total == before.total_len(i as nat),
                out@ == old(out)@ + before.all_items(i as nat),
                forall|j: int|
                    0 <= j < i ==> {
                        &&& (#[trigger] self.rings@[j]).wf()
                        &&& self.rings@[j]@ == before.rings[j].after_consume(before.rings[j].len())
                    },
                forall|j: int| i <= j < P ==> #[trigger] self.rings@[j] == old(self).rings@[j],
            decreases count - i,
        {
            proof {
                assert(old(self).ring(i as int).wf());
                old(self).lemma_total_len_bound((i + 1) as nat);
            }
            let consumed: usize = self.rings[i].consume_batch(out);
            total = total + consumed;
            i = i + 1;
            proof {
                assert(out@ =~= old(out)@ + before.all_items(i as nat));
            }
        }
        proof {
            assert(self@.rings =~= before.after_consume_all().rings) by {
                assert forall|j: int| 0 <= j < P implies self@.rings[j]
                    == before.after_consume_all().rings[j] by {
                    if j >= count {
                        assert(self.rings@[j] == old(self).rings@[j]);
                    }
                }
            }
            assert forall|j: int| 0 <= j < P implies {
                &&& (#[trigger] self.rings@[j]).wf()
                &&& self.rings@[j]@.active == old(self).rings@[j]@.active
                &&& old(self).rings@[j]@.closed ==> self.rings@[j]@.closed
            } by {
                assert(old(self).ring(j).wf());
            }
            self.lemma_rings_changed(old(self));
        }
        total
    }

    /// Drains every ring of a registered producer, in the order of registration:
    /// moves the items into `out`, each ring's oldest first, and releases them.
    /// Returns how many items were drained.
    pub fn consume_all_owned(&mut self, out: &mut Vec<T>) -> (total: usize)
        requires
            old(self).wf(),
        ensures
            final(self).wf(),
            total == old(self)@.total_len(old(self)@.producer_count),
            final(self)@ == old(self)@.after_take_all(),
            final(out)@ == old(out)@ + old(self)@.all_items(old(self)@.producer_count),
    {
        let ghost before = self@;
        let mut total: usize = 0;
        let count: usize = self.producer_count;
        let mut i: usize = 0;
        proof {
            assert(out@ =~= old(out)@ + before.all_items(0));
        }
        while i < count
            invariant
                old(self).wf(),
                before == old(self)@,
                i <= count,
                count == old(self).producer_count,
                count <= P,
                self.producer_count == old(self).producer_count,
                self.closed == old(self).closed,
                total == before.total_len(i as nat),
                out@ == old(out)@ + before.all_items(i as nat),
                forall|j: int|
                    0 <= j < i ==> {
                        &&& (#[trigger] self.rings@[j]).wf()
                        &&& self.rings@[j]@ == before.rings[j].after_take(before.rings[j].len())
                    },
                forall|j: int| i <= j < P ==> #[trigger] self.rings@[j] == old(self).rings@[j],
            decreases count - i,
        {
            proof {
                assert(old(self).ring(i as int).wf());
                old(self).lemma_total_len_bound((i + 1) as nat);
            }
            let consumed: usize = self.rings[i].consume_batch_owned(out);
            total = total + consumed;
            i = i + 1;
            proof {
                assert(out@ =~= old(out)@ + before.all_items(i as nat));
            }
        }
        proof {
            assert(self@.rings =~= before.after_take_all().rings) by {
                assert forall|j: int| 0 <= j < P implies self@.rings[j]
                    == before.after_take_all().rings[j] by {
                    if j >= count {
                        assert(self.rings@[j] == old(self).rings@[j]);
                    }
                }
            }
            assert forall|j: int| 0 <= j < P implies {
                &&& (#[trigger] self.rings@[j]).wf()
                &&& self.rings@[j]@.active == old(self).rings@[j]@.active
                &&& old(self).rings@[j]@.closed ==> self.rings@[j]@.closed
            } by {
                assert(old(self).ring(j).wf());
            }
            self.lemma_rings_changed(old(self));
        }
        total
    }

    /// Drains up to `max_total` items, ring after ring in the order of registration,
    /// each ring giving what the earlier rings left of the budget: appends copies of the
    /// items to `out` and releases them. Returns how many items were drained.
    pub fn consume_all_up_to(&mut self, max_total: usize, out: &mut Vec<T>) -> (total: usize) where
        T: Copy,

        requires
            old(self).wf(),
        ensures
            final(self).wf(),
            total == old(self)@.taken(old(self)@.producer_count, max_total as nat),
            total <= max_total,
            final(self)@ == old(self)@.after_consume_up_to(max_total as nat),
            final(out)@ == old(out)@ + old(self)@.delivered(
                old(self)@.producer_count,
                max_total as nat,
            ),
    {
        let ghost before = self@;
        let ghost max = max_total as nat;
        let mut total: usize = 0;
        let count: usize = self.producer_count;
        let mut i: usize = 0;
        proof {
            assert(out@ =~= old(out)@ + before.delivered(0, max));
        }
        while i < count && total < max_total
            invariant
                old(self).wf(),
                before == old(self)@,
                max == max_total,
                i <= count,
                count == old(self).producer_count,
                count <= P,
                self.producer_count == old(self).producer_count,
                self.closed == old(self).closed,
                total == before.taken(i as nat, max),
                total <= max_total,
                out@ == old(out)@ + before.delivered(i as nat, max),
                forall|j: int|
                    0 <= j < i ==> {
                        &&& (#[trigger] self.rings@[j]).wf()
                        &&& self.rings@[j]@ == before.rings[j].after_consume(before.share(j as nat, max))
                    },
                forall|j: int| i <= j < P ==> #[trigger] self.rings@[j] == old(self).rings@[j],
            decreases count - i,
        {
            proof {
                assert(old(self).ring(i as int).wf());
            }
            let remaining: usize = max_total - total;
            let consumed: usize = self.rings[i].consume_up_to(remaining, out);
            total = total + consumed;
            i = i + 1;
            proof {
                assert(out@ =~= old(out)@ + before.delivered(i as nat, max));
            }
        }
        proof {
            if i < count {
                before.lemma_budget_spent(i as nat, count as nat, max);
            }
            assert(self@.rings =~= before.after_consume_up_to(max).rings) by {
                assert forall|j: int| 0 <= j < P implies self@.rings[j]
                    == before.after_consume_up_to(max).rings[j] by {
                    if j >= i {
                        assert(self.rings@[j] == old(self).rings@[j]);
                        if j < count {
                            assert(before.share(j as nat, max) == 0);
                        }
                    }
                }
            }
            assert forall|j: int| 0 <= j < P implies {
                &&& (#[trigger] self.rings@[j]).wf()
                &&& self.rings@[j]@.active == old(self).rings@[j]@.active
                &&& old(self).rings@[j]@.closed ==> self.rings@[j]@.closed
            } by {
                assert(old(self).ring(j).wf());
            }
            self.lemma_rings_changed(old(self));
        }
        total
    }

    /// The ring of producer index `ring_id`, or `None` where the channel has no such
    /// ring.
    pub fn get_ring(&self, ring_id: usize) -> (ring: Option<&StackRing<T, N>>)
        ensures
            ring is Some <==> ring_id < P,
            ring matches Some(found) ==> *found == self.ring(ring_id as int),
    {
        if ring_id < P {
            Some(&self.rings[ring_id])
        } else {
            None
        }
    }

    // ----- lifecycle -----

    /// Closes the channel and the ring of every registered producer. Registrations
    /// and reservations are refused from now on; what is in flight can still be
    /// drained. Closing a closed channel changes nothing.
    pub fn close(&mut self)
        requires
            old(self).wf(),
        ensures
            final(self).wf(),
            final(self)@ == old(self)@.after_close(),
    {
        self.closed = true;
        let count: usize = self.producer_count;
        let mut i: usize = 0;
        while i < count
            invariant
                old(self).wf(),
                i <= count,
                count == old(self).producer_count,
                count <= P,
                self.producer_count == old(self).producer_count,
                self.closed,
                forall|j: int|
                    0 <= j < i ==> {
                        &&& (#[trigger] self.rings@[j]).wf()
                        &&& self.rings@[j]@ == old(self).rings@[j]@.after_close()
                    },
                forall|j: int| i <= j < P ==> #[trigger] self.rings@[j] == old(self).rings@[j],
            decreases count - i,
        {
            proof {
                assert(old(self).ring(i as int).wf());
            }
            self.rings[i].close();
            i = i + 1;
        }
        proof {
            old(self)@.lemma_close_idempotent();
            assert(self@.rings =~= old(self)@.after_close().rings) by {
                assert forall|j: int| 0 <= j < P implies self@.rings[j]
                    == old(self)@.after_close().rings[j] by {
                    if j >= count {
                        assert(self.rings@[j] == old(self).rings@[j]);
                    }
                }
            }
            assert forall|j: int| 0 <= j < P implies (#[trigger] self.ring(j)).wf() by {
                if j >= count {
                    assert(self.rings@[j] == old(self).rings@[j]);
                    assert(old(self).ring(j).wf());
                }
            }
        }
    }
}

impl<const N: usize, const P: usize> StackProducer<N, P> {
    /// The index of the producer's ring.
    pub closed spec fn id_spec(&self) -> nat {
        self.id as nat
    }

    /// Whether `channel` has registered a producer with this handle's ring index.
    pub open spec fn bound_to<T>(&self, channel: &StackChannel<T, N, P>) -> bool {
        self.id_spec() < channel@.producer_count
    }

    /// The index of the producer's ring.
    pub fn id(&self) -> (id: usize)
        ensures
            id == self.id_spec(),
    {
        self.id
    }

    /// The number of slots of the producer's ring: `N`.
    pub fn capacity(&self) -> (capacity: usize)
        ensures
            capacity == N,
    {
        N
    }

    /// Reserves up to `n` slots of the producer's ring, as `StackRing::reserve` does.
    /// A handle that `channel` did not hand out for one of its rings is refused. Once
    /// the run is given back, the channel differs from what it was in the producer's
    /// ring alone, and `lemma_frame` shows it well formed.
    pub fn reserve<'a, T>(&self, channel: &'a mut StackChannel<T, N, P>, n: usize) -> (reservation:
        Option<(&'a mut [Option<T>], usize)>)
        requires
            old(channel).wf(),
        ensures
            reservation is Some <==> self.bound_to(old(channel)) && old(channel)@.rings[self.id_spec() as int].accepts(
                n as nat,
            ),
            reservation matches Some((run, len)) ==> len == old(channel)@.rings[self.id_spec() as int].contiguous(
                n as nat,
            ) && run@ == old(channel)@.rings[self.id_spec() as int].region(
                slot(old(channel)@.rings[self.id_spec() as int].tail, N as nat),
                len as int,
            ),
            reservation matches Some((run, len)) ==> (final(run)@.len() == len ==> final(channel).frame(
                old(channel),
                self.id_spec() as int,
            )),
            reservation matches Some((run, len)) ==> (final(run)@.len() == len ==> final(channel).ring(
                self.id_spec() as int,
            ).wf()),
            reservation matches Some((run, len)) ==> (final(run)@.len() == len ==> final(channel).ring(
                self.id_spec() as int,
            )@ == old(channel)@.rings[self.id_spec() as int].after_reserve(n as nat).with_region(
                slot(old(channel)@.rings[self.id_spec() as int].tail, N as nat),
                final(run)@,
            )),
            reservation is None ==> final(channel).wf(),
            reservation is None ==> final(channel)@ == if self.bound_to(old(channel)) {
                old(channel)@.with_ring(
                    self.id_spec() as int,
                    old(channel)@.rings[self.id_spec() as int].after_reserve(n as nat),
                )
            } else {
                old(channel)@
            },
    {
        if self.id >= channel.producer_count {
            return None;
        }
        proof {
            assert(channel.ring(self.id as int).wf());
            assert(channel@.rings[self.id as int].active);
            channel@.rings[self.id as int].lemma_after_reserve(n as nat);
        }
        if channel.rings[self.id].grant(n) {
            Some(channel.rings[self.id].make_reservation(n))
        } else {
            proof {
                channel.lemma_frame(old(channel), self.id as int);
            }
            None
        }
    }

    /// Publishes the `n` slots after the last published one of the producer's ring,
    /// which the caller has filled through the run that the last reservation handed
    /// out. Nothing happens where `channel` did not hand out this handle.
    pub fn commit<T>(&self, channel: &mut StackChannel<T, N, P>, n: usize)
        requires
            old(channel).wf(),
            self.bound_to(old(channel)) ==> n <= old(channel)@.rings[self.id_spec() as int].known_free()
                && old(channel)@.rings[self.id_spec() as int].written(n as nat),
        ensures
            final(channel).wf(),
            final(channel)@ == if self.bound_to(old(channel)) {
                old(channel)@.with_ring(
                    self.id_spec() as int,
                    old(channel)@.rings[self.id_spec() as int].after_commit(n as nat),
                )
            } else {
                old(channel)@
            },
    {
        if self.id >= channel.producer_count {
            return ;
        }
        proof {
            assert(channel.ring(self.id as int).wf());
            assert(old(channel)@.rings[self.id as int].active);
        }
        channel.rings[self.id].commit(n);
        proof {
            channel.lemma_frame(old(channel), self.id as int);
        }
    }

    /// Sends one item through the producer's ring. Returns whether the item was
    /// accepted; it is refused where the ring is full or closed, and where `channel`
    /// did not hand out this handle.
    pub fn push<T>(&self, channel: &mut StackChannel<T, N, P>, item: T) -> (accepted: bool)
        requires
            old(channel).wf(),
        ensures
            final(channel).wf(),
            accepted == (self.bound_to(old(channel)) && old(channel)@.rings[self.id_spec() as int].accepts(
                1,
            )),
            final(channel)@ == if self.bound_to(old(channel)) {
                old(channel)@.with_ring(
                    self.id_spec() as int,
                    old(channel)@.rings[self.id_spec() as int].after_push(item),
                )
            } else {
                old(channel)@
            },
    {
        if self.id >= channel.producer_count {
            return false;
        }
        proof {
            assert(channel.ring(self.id as int).wf());
            assert(old(channel)@.rings[self.id as int].active);
        }
        let accepted: bool = channel.rings[self.id].push(item);
        proof {
            channel.lemma_frame(old(channel), self.id as int);
        }
        accepted
    }

    /// Sends a batch through the producer's ring: all of the items, in order, or none
    /// of them where the ring does not grant as many slots as there are items.
    /// Returns how many items were sent; none where `channel` did not hand out this
    /// handle.
    pub fn send<T: Copy>(&self, channel: &mut StackChannel<T, N, P>, items: &[T]) -> (sent: usize)
        requires
            old(channel).wf(),
        ensures
            final(channel).wf(),
            sent == if self.bound_to(old(channel)) && old(channel)@.rings[self.id_spec() as int].accepts(
                items@.len(),
            ) {
                items@.len()
            } else {
                0
            },
            final(channel).frame(old(channel), self.id_spec() as int),
            self.bound_to(old(channel)) ==> {
                &&& final(channel)@.rings[self.id_spec() as int].items() == old(channel)@.rings[self.id_spec() as int].items() + items@.take(sent as int)
                &&& final(channel)@.rings[self.id_spec() as int].tail == old(channel)@.rings[self.id_spec() as int].tail + sent
                &&& final(channel)@.rings[self.id_spec() as int].head == old(channel)@.rings[self.id_spec() as int].head
            },
            !self.bound_to(old(channel)) ==> final(channel)@ == old(channel)@,
    {
        if self.id >= channel.producer_count {
            return 0;
        }
        proof {
            assert(channel.ring(self.id as int).wf());
            assert(old(channel)@.rings[self.id as int].active);
            old(channel)@.rings[self.id as int].lemma_after_reserve(items@.len());
        }
        let sent: usize = channel.rings[self.id].send_all(items);
        proof {
            channel.lemma_frame(old(channel), self.id as int);
        }
        sent
    }

    /// Closes the producer's ring: it refuses reservations from now on, and what is
    /// in flight can still be drained. Nothing happens where `channel` did not hand
    /// out this handle.
    pub fn close<T>(&self, channel: &mut StackChannel<T, N, P>)
        requires
            old(channel).wf(),
        ensures
            final(channel).wf(),
            final(channel)@ == if self.bound_to(old(channel)) {
                old(channel)@.with_ring(
                    self.id_spec() as int,
                    old(channel)@.rings[self.id_spec() as int].after_close(),
                )
            } else {
                old(channel)@
            },
    {
        if self.id >= channel.producer_count {
            return ;
        }
        proof {
            assert(channel.ring(self.id as int).wf());
            assert(old(channel)@.rings[self.id as int].active);
        }
        channel.rings[self.id].close();
        proof {
            channel.lemma_frame(old(channel), self.id as int);
        }
    }

    /// Whether the producer's ring is closed. A handle that `channel` did not hand
    /// out has no ring to send through and counts as closed.
    pub fn is_closed<T>(&self, channel: &StackChannel<T, N, P>) -> (closed: bool)
        requires
            channel.wf(),
        ensures
            closed == (self.bound_to(channel) ==> channel@.rings[self.id_spec() as int].closed),
    {
        if self.id >= channel.producer_count {
            return true;
        }
        channel.rings[self.id].is_closed()
    }

    /// The number of items in flight in the producer's ring; zero where `channel`
    /// did not hand out this handle.
    pub fn len<T>(&self, channel: &StackChannel<T, N, P>) -> (len: usize)
        requires
            channel.wf(),
        ensures
            len == if self.bound_to(channel) {
                channel@.rings[self.id_spec() as int].len()
            } else {
                0
            },
    {
        if self.id >= channel.producer_count {
            return 0;
        }
        proof {
            assert(channel.ring(self.id as int).wf());
        }
        channel.rings[self.id].len()
    }

    /// Whether no item is in flight in the producer's ring.
    pub fn is_empty<T>(&self, channel: &StackChannel<T, N, P>) -> (empty: bool)
        requires
            channel.wf(),
        ensures
            empty == (self.bound_to(channel) ==> channel@.rings[self.id_spec() as int].len() == 0),
    {
        if self.id >= channel.producer_count {
            return true;
        }
        proof {
            assert(channel.ring(self.id as int).wf());
        }
        channel.rings[self.id].is_empty()
    }
}

} // verus!
