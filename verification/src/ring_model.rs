//! The mathematical model of a single-producer single-consumer ring.
//!
//! A ring is a fixed array of slots and two counts: `tail`, the number of items ever
//! published, and `head`, the number of items ever released. The item with sequence
//! number `s` lives in slot `s mod capacity`. The slots of the sequence numbers from
//! `head` up to `tail` hold the items in flight; what the other slots hold is not part
//! of the queue. Each side also keeps a snapshot of the other side's count, which may
//! lag behind it.

use vstd::prelude::*;
use crate::metrics::Metrics;
use crate::sequence::{is_power_of_two, lemma_power_of_two_bounds, lemma_slot_offset, lemma_slots_distinct, min_nat, slot};

verus! {

/// The state of a ring.
pub ghost struct RingModel<T> {
    /// What each slot holds: `None` for a vacant slot.
    pub slots: Seq<Option<T>>,
    /// The number of items ever released by the consumer.
    pub head: nat,
    /// The number of items ever published by the producer.
    pub tail: nat,
    /// The producer's snapshot of `head`.
    pub cached_head: nat,
    /// The consumer's snapshot of `tail`.
    pub cached_tail: nat,
    /// Whether the ring was closed.
    pub closed: bool,
    /// Whether a producer was bound to the ring.
    pub active: bool,
    /// The counters, which stay at zero unless `metrics_enabled`.
    pub metrics: Metrics,
    /// Whether commits and head updates are counted.
    pub metrics_enabled: bool,
}

/// `slots` with the slots of the `count` sequence numbers from `head` on made vacant.
pub open spec fn vacate<T>(slots: Seq<Option<T>>, head: nat, count: nat) -> Seq<Option<T>>
    decreases count,
{
    if count == 0 {
        slots
    } else {
        vacate(slots, head, (count - 1) as nat).update(
            slot((head + count - 1) as nat, slots.len()),
            None,
        )
    }
}

impl<T> RingModel<T> {
    /// A new ring of `capacity` vacant slots.
    pub open spec fn fresh(capacity: nat, metrics_enabled: bool) -> Self {
        RingModel {
            slots: Seq::new(capacity, |i: int| None),
            head: 0,
            tail: 0,
            cached_head: 0,
            cached_tail: 0,
            closed: false,
            active: false,
            metrics: Metrics::zero(),
            metrics_enabled,
        }
    }

    /// The number of slots.
    pub open spec fn capacity(self) -> nat {
        self.slots.len()
    }

    /// The number of items in flight: `tail - head`.
    pub open spec fn len(self) -> nat {
        (self.tail - self.head) as nat
    }

    /// The number of slots that a producer may still fill.
    pub open spec fn free(self) -> nat {
        (self.capacity() - self.len()) as nat
    }

    /// The free slots that the producer knows of without looking at `head`.
    pub open spec fn known_free(self) -> nat {
        (self.capacity() - (self.tail - self.cached_head)) as nat
    }

    /// The invariant of a ring: the capacity is a power of two, the counts are ordered
    /// as `cached_head <= head <= cached_tail <= tail <= cached_head + capacity`, and
    /// every slot of a sequence number in flight is filled.
    pub open spec fn wf(self) -> bool {
        &&& is_power_of_two(self.capacity())
        &&& self.cached_head <= self.head <= self.cached_tail <= self.tail
        &&& self.tail <= self.cached_head + self.capacity()
        &&& forall|s: nat|
            self.head <= s < self.tail ==> (#[trigger] self.slots[slot(s, self.capacity())]) is Some
    }

    /// The items in flight, oldest first.
    pub open spec fn items(self) -> Seq<T> {
        Seq::new(
            self.len(),
            |i: int| self.slots[slot((self.head + i) as nat, self.capacity())].unwrap(),
        )
    }

    // ----- producer side -----

    /// Whether a reservation of `n` slots succeeds: `n` is between 1 and the capacity,
    /// the ring is open and at least `n` slots are free.
    pub open spec fn accepts(self, n: nat) -> bool {
        &&& 1 <= n <= self.capacity()
        &&& !self.closed
        &&& self.free() >= n
    }

    /// The length of the reservation made for a request of `n` slots: `n`, cut at the
    /// end of the buffer.
    pub open spec fn contiguous(self, n: nat) -> nat {
        min_nat(n, (self.capacity() - slot(self.tail, self.capacity())) as nat)
    }

    /// The ring after a request for `n` slots, granted or not: the producer's snapshot
    /// of `head` is brought up to date if the request could not be granted from what
    /// the producer already knew.
    pub open spec fn after_reserve(self, n: nat) -> Self {
        if n == 0 || n > self.capacity() || self.closed || self.known_free() >= n {
            self
        } else {
            RingModel { cached_head: self.head, ..self }
        }
    }

    /// The `len` slots from index `start` on.
    pub open spec fn region(self, start: int, len: int) -> Seq<Option<T>> {
        self.slots.subrange(start, start + len)
    }

    /// The ring with the slots from index `start` on replaced by `content`.
    pub open spec fn with_region(self, start: int, content: Seq<Option<T>>) -> Self {
        RingModel {
            slots: Seq::new(
                self.slots.len(),
                |i: int|
                    if start <= i < start + content.len() {
                        content[i - start]
                    } else {
                        self.slots[i]
                    },
            ),
            ..self
        }
    }

    /// Whether the `k` slots after the last published one are filled.
    pub open spec fn written(self, k: nat) -> bool {
        forall|s: nat|
            self.tail <= s < self.tail + k ==> (#[trigger] self.slots[slot(s, self.capacity())]) is Some
    }

    /// The items that a commit of `k` slots publishes, in order.
    pub open spec fn pending(self, k: nat) -> Seq<T> {
        Seq::new(k, |i: int| self.slots[slot((self.tail + i) as nat, self.capacity())].unwrap())
    }

    /// The counters after a commit of `k` items.
    pub open spec fn metrics_after_send(self, k: nat) -> Metrics {
        if self.metrics_enabled {
            self.metrics.after_send(k as u64)
        } else {
            self.metrics
        }
    }

    /// The counters after a head update that released `k` items.
    pub open spec fn metrics_after_receive(self, k: nat) -> Metrics {
        if self.metrics_enabled {
            self.metrics.after_receive(k as u64)
        } else {
            self.metrics
        }
    }

    /// The ring after a commit of `k` slots: `tail` moves on by `k`.
    pub open spec fn after_commit(self, k: nat) -> Self {
        RingModel { tail: self.tail + k, metrics: self.metrics_after_send(k), ..self }
    }

    // ----- consumer side -----

    /// The number of items that the consumer knows of when it asks for a readable
    /// region: what its snapshot of `tail` shows, or, where that shows nothing, what
    /// `tail` itself shows.
    pub open spec fn apparent(self) -> nat {
        if self.cached_tail == self.head {
            self.len()
        } else {
            (self.cached_tail - self.head) as nat
        }
    }

    /// The length of the readable region: the apparent items, cut at the end of the
    /// buffer.
    pub open spec fn readable_len(self) -> nat {
        min_nat(self.apparent(), (self.capacity() - slot(self.head, self.capacity())) as nat)
    }

    /// The ring after the consumer asked for a readable region: its snapshot of `tail`
    /// is brought up to date if it showed nothing.
    pub open spec fn after_readable(self) -> Self {
        if self.cached_tail == self.head {
            RingModel { cached_tail: self.tail, ..self }
        } else {
            self
        }
    }

    /// The consumer's snapshot of `tail` once `head` has moved on by `n`: it is brought
    /// up to date where `head` has passed it.
    pub open spec fn cached_tail_after(self, n: nat) -> nat {
        if self.cached_tail < self.head + n {
            self.tail
        } else {
            self.cached_tail
        }
    }

    /// The ring after the consumer released `n` items: `head` moves on by `n`, the
    /// slots keep what they held.
    pub open spec fn after_advance(self, n: nat) -> Self {
        RingModel {
            head: self.head + n,
            cached_tail: self.cached_tail_after(n),
            metrics: self.metrics_after_receive(n),
            ..self
        }
    }

    /// The ring after a drain that copied `n` items out. A drain of nothing changes
    /// nothing.
    pub open spec fn after_consume(self, n: nat) -> Self {
        if n == 0 {
            self
        } else {
            self.after_advance(n)
        }
    }

    /// The ring after a drain that moved `n` items out: as `after_consume`, and the
    /// slots of the items are vacant.
    pub open spec fn after_take(self, n: nat) -> Self {
        if n == 0 {
            self
        } else {
            RingModel { slots: vacate(self.slots, self.head, n), ..self.after_advance(n) }
        }
    }

    /// The ring after an attempt to push `item`: where one slot is granted, the item
    /// is written into the slot after the last published one and committed.
    pub open spec fn after_push(self, item: T) -> Self {
        if self.accepts(1) {
            self.after_reserve(1).with_region(
                slot(self.tail, self.capacity()),
                seq![Some(item)],
            ).after_commit(1)
        } else {
            self.after_reserve(1)
        }
    }

    /// The number of items that a batch send of `n` items publishes: none where the
    /// ring does not grant `n` slots, else `n` cut at the end of the buffer.
    pub open spec fn sent(self, n: nat) -> nat {
        if self.accepts(n) {
            self.contiguous(n)
        } else {
            0
        }
    }

    /// The ring after a batch send of `items`.
    pub open spec fn after_send(self, items: Seq<T>) -> Self {
        if self.accepts(items.len()) {
            let n = self.contiguous(items.len());
            self.after_reserve(items.len()).with_region(
                slot(self.tail, self.capacity()),
                Seq::new(n, |i: int| Some(items[i])),
            ).after_commit(n)
        } else {
            self.after_reserve(items.len())
        }
    }

    /// The number of items that a batch receive into a buffer of `room` items copies.
    pub open spec fn received(self, room: nat) -> nat {
        min_nat(self.readable_len(), room)
    }

    /// The ring after a batch receive into a buffer of `room` items.
    pub open spec fn after_recv(self, room: nat) -> Self {
        if self.len() == 0 {
            self.after_readable()
        } else {
            self.after_readable().after_advance(self.received(room))
        }
    }

    /// The ring after it was closed.
    pub open spec fn after_close(self) -> Self {
        RingModel { closed: true, ..self }
    }

    // ----- what the transitions keep and what they change -----

    /// A new ring is well formed and empty.
    pub proof fn lemma_fresh(capacity: nat, metrics_enabled: bool)
        requires
            is_power_of_two(capacity),
        ensures
            Self::fresh(capacity, metrics_enabled).wf(),
            Self::fresh(capacity, metrics_enabled).items() == Seq::<T>::empty(),
            Self::fresh(capacity, metrics_enabled).capacity() == capacity,
    {
        assert(Self::fresh(capacity, metrics_enabled).items() =~= Seq::<T>::empty());
    }

    /// The occupancy of a well-formed ring lies between zero and the capacity, and
    /// the producer never knows of more free slots than there are.
    pub proof fn lemma_bounded(self)
        requires
            self.wf(),
        ensures
            self.head <= self.tail <= self.head + self.capacity(),
            self.len() <= self.capacity(),
            self.known_free() <= self.free(),
            self.items().len() == self.len(),
            0 < self.capacity(),
    {
        lemma_power_of_two_bounds(self.capacity());
    }

    /// A request changes neither the queue nor the counts.
    pub proof fn lemma_after_reserve(self, n: nat)
        requires
            self.wf(),
        ensures
            self.after_reserve(n).wf(),
            self.after_reserve(n).items() == self.items(),
            self.after_reserve(n).head == self.head,
            self.after_reserve(n).tail == self.tail,
            self.accepts(n) ==> self.after_reserve(n).known_free() >= n,
    {
        assert(self.after_reserve(n).items() =~= self.items());
    }

    /// The region of a reservation lies outside the slots in flight.
    pub proof fn lemma_reserved_slot_is_free(self, offset: nat, s: nat)
        requires
            self.wf(),
            slot(self.tail, self.capacity()) + offset < self.capacity(),
            offset < self.free(),
            self.head <= s < self.tail,
        ensures
            slot(s, self.capacity()) != slot(self.tail, self.capacity()) + offset,
    {
        self.lemma_bounded();
        lemma_slot_offset(self.tail, offset, self.capacity());
        lemma_slots_distinct(s, self.tail + offset, self.capacity());
    }

    /// Writing into the region of a reservation changes neither the queue nor the
    /// counts.
    pub proof fn lemma_with_region(self, start: int, content: Seq<Option<T>>)
        requires
            self.wf(),
            start == slot(self.tail, self.capacity()),
            start + content.len() <= self.capacity(),
            content.len() <= self.free(),
        ensures
            self.with_region(start, content).wf(),
            self.with_region(start, content).items() == self.items(),
            self.with_region(start, content).region(start, content.len() as int) == content,
    {
        let after = self.with_region(start, content);
        self.lemma_bounded();
        assert forall|s: nat| self.head <= s < self.tail implies after.slots[slot(
            s,
            self.capacity(),
        )] == self.slots[slot(s, self.capacity())] by {
            vstd::arithmetic::div_mod::lemma_mod_bound(s as int, self.capacity() as int);
            let j = slot(s, self.capacity());
            if start <= j < start + content.len() {
                self.lemma_reserved_slot_is_free((j - start) as nat, s);
            }
        }
        assert forall|s: nat| after.head <= s < after.tail implies (#[trigger] after.slots[slot(
            s,
            after.capacity(),
        )]) is Some by {
            assert(self.slots[slot(s, self.capacity())] is Some);
        }
        assert(after.items() =~= self.items()) by {
            assert forall|i: int| 0 <= i < self.len() implies after.items()[i]
                == self.items()[i] by {
                let s = (self.head + i) as nat;
                assert(after.slots[slot(s, self.capacity())] == self.slots[slot(
                    s,
                    self.capacity(),
                )]);
            }
        }
        assert(after.region(start, content.len() as int) =~= content);
    }

    /// Where the first `k` slots of the run that starts after the last published slot
    /// are filled, a commit of `k` slots publishes filled slots.
    pub proof fn lemma_filled_region(self, start: int, len: int, k: nat)
        requires
            0 < self.capacity(),
            start == slot(self.tail, self.capacity()),
            start + len <= self.capacity(),
            k <= len,
            forall|i: int| 0 <= i < k ==> (#[trigger] self.region(start, len)[i]) is Some,
        ensures
            self.written(k),
    {
        assert forall|s: nat| self.tail <= s < self.tail + k implies (#[trigger] self.slots[slot(
            s,
            self.capacity(),
        )]) is Some by {
            lemma_slot_offset(self.tail, (s - self.tail) as nat, self.capacity());
            assert(self.region(start, len)[s - self.tail] is Some);
        }
    }

    /// A commit of `k` filled slots, within what the producer reserved, appends the
    /// `k` items to the queue and moves `tail` on by `k`.
    pub proof fn lemma_after_commit(self, k: nat)
        requires
            self.wf(),
            k <= self.known_free(),
            self.written(k),
        ensures
            self.after_commit(k).wf(),
            self.after_commit(k).items() == self.items() + self.pending(k),
            self.after_commit(k).len() == self.len() + k,
    {
        let after = self.after_commit(k);
        self.lemma_bounded();
        assert forall|s: nat| after.head <= s < after.tail implies (#[trigger] after.slots[slot(
            s,
            after.capacity(),
        )]) is Some by {
            if s < self.tail {
                assert(self.slots[slot(s, self.capacity())] is Some);
            } else {
                assert(self.slots[slot(s, self.capacity())] is Some);
            }
        }
        assert(after.items() =~= self.items() + self.pending(k)) by {
            assert forall|i: int| 0 <= i < after.len() implies after.items()[i] == (self.items()
                + self.pending(k))[i] by {
                if i >= self.len() {
                    let j = i - self.len();
                    assert((self.head + i) as nat == (self.tail + j) as nat);
                }
            }
        }
    }

    /// A look at the readable region changes neither the queue nor the counts. Its
    /// slots hold the oldest items, in order.
    pub proof fn lemma_after_readable(self)
        requires
            self.wf(),
        ensures
            self.after_readable().wf(),
            self.after_readable().items() == self.items(),
            self.after_readable().cached_tail - self.head == self.apparent(),
            self.readable_len() <= self.len(),
            self.readable_len() == 0 <==> self.len() == 0,
            slot(self.head, self.capacity()) + self.readable_len() <= self.capacity(),
            forall|i: int|
                0 <= i < self.readable_len() ==> #[trigger] self.region(
                    slot(self.head, self.capacity()),
                    self.readable_len() as int,
                )[i] == Some(self.items()[i]),
    {
        self.lemma_bounded();
        let start = slot(self.head, self.capacity());
        vstd::arithmetic::div_mod::lemma_mod_bound(self.head as int, self.capacity() as int);
        assert(self.after_readable().items() =~= self.items());
        assert forall|i: int| 0 <= i < self.readable_len() implies #[trigger] self.region(
            start,
            self.readable_len() as int,
        )[i] == Some(self.items()[i]) by {
            lemma_slot_offset(self.head, i as nat, self.capacity());
            let s = (self.head + i) as nat;
            assert(self.slots[slot(s, self.capacity())] is Some);
        }
    }

    /// Releasing `n` of the items in flight drops the `n` oldest from the queue and
    /// moves `head` on by `n`.
    pub proof fn lemma_after_advance(self, n: nat)
        requires
            self.wf(),
            n <= self.len(),
        ensures
            self.after_advance(n).wf(),
            self.after_advance(n).items() == self.items().skip(n as int),
            self.after_advance(n).len() == self.len() - n,
    {
        let after = self.after_advance(n);
        assert forall|s: nat| after.head <= s < after.tail implies (#[trigger] after.slots[slot(
            s,
            after.capacity(),
        )]) is Some by {
            assert(self.slots[slot(s, self.capacity())] is Some);
        }
        assert(after.items() =~= self.items().skip(n as int)) by {
            assert forall|i: int| 0 <= i < after.len() implies after.items()[i]
                == self.items().skip(n as int)[i] by {
                assert((after.head + i) as nat == (self.head + (n + i)) as nat);
            }
        }
    }

    /// A drain that copies `n` of the items in flight out drops the `n` oldest from
    /// the queue.
    pub proof fn lemma_after_consume(self, n: nat)
        requires
            self.wf(),
            n <= self.len(),
        ensures
            self.after_consume(n).wf(),
            self.after_consume(n).items() == self.items().skip(n as int),
            self.after_consume(n).len() == self.len() - n,
    {
        if n > 0 {
            self.lemma_after_advance(n);
        } else {
            assert(self.items().skip(0) =~= self.items());
        }
    }

    /// Making the slots of the `count` oldest sequence numbers vacant leaves every
    /// other slot as it was.
    pub proof fn lemma_vacate_keeps(self, count: nat, index: int)
        requires
            0 < self.capacity(),
            forall|s: nat|
                self.head <= s < self.head + count ==> #[trigger] slot(s, self.capacity()) != index,
        ensures
            vacate(self.slots, self.head, count).len() == self.slots.len(),
            0 <= index < self.capacity() ==> vacate(self.slots, self.head, count)[index]
                == self.slots[index],
        decreases count,
    {
        if count > 0 {
            self.lemma_vacate_keeps((count - 1) as nat, index);
            let last = (self.head + count - 1) as nat;
            assert(slot(last, self.capacity()) != index);
            vstd::arithmetic::div_mod::lemma_mod_bound(
                (self.head + count - 1) as int,
                self.capacity() as int,
            );
        }
    }

    /// The length of the slots does not change when slots are made vacant.
    pub proof fn lemma_vacate_len(self, count: nat)
        requires
            0 < self.capacity(),
        ensures
            vacate(self.slots, self.head, count).len() == self.slots.len(),
        decreases count,
    {
        if count > 0 {
            self.lemma_vacate_len((count - 1) as nat);
        }
    }

    /// While the `count` oldest items are moved out one by one, the slot of a later
    /// item in flight still holds it.
    pub proof fn lemma_vacate_keeps_later(self, count: nat, s: nat)
        requires
            self.wf(),
            count <= self.len(),
            self.head + count <= s < self.tail,
        ensures
            vacate(self.slots, self.head, count)[slot(s, self.capacity())] == self.slots[slot(
                s,
                self.capacity(),
            )],
    {
        self.lemma_bounded();
        let index = slot(s, self.capacity());
        vstd::arithmetic::div_mod::lemma_mod_bound(s as int, self.capacity() as int);
        assert forall|t: nat| self.head <= t < self.head + count implies #[trigger] slot(
            t,
            self.capacity(),
        ) != index by {
            lemma_slots_distinct(t, s, self.capacity());
        }
        self.lemma_vacate_keeps(count, index);
    }

    /// A drain that moves `n` of the items in flight out drops the `n` oldest from the
    /// queue.
    pub proof fn lemma_after_take(self, n: nat)
        requires
            self.wf(),
            n <= self.len(),
        ensures
            self.after_take(n).wf(),
            self.after_take(n).items() == self.items().skip(n as int),
            self.after_take(n).len() == self.len() - n,
            self.after_take(n).capacity() == self.capacity(),
    {
        if n == 0 {
            assert(self.items().skip(0) =~= self.items());
        } else {
            let after = self.after_take(n);
            self.lemma_bounded();
            self.lemma_vacate_len(n);
            self.lemma_after_advance(n);
            assert forall|s: nat| after.head <= s < after.tail implies (
            #[trigger] after.slots[slot(s, after.capacity())]) == self.slots[slot(
                s,
                self.capacity(),
            )] by {
                self.lemma_vacate_keeps_later(n, s);
            }
            assert forall|s: nat| after.head <= s < after.tail implies (
            #[trigger] after.slots[slot(s, after.capacity())]) is Some by {
                assert(self.slots[slot(s, self.capacity())] is Some);
            }
            assert(after.items() =~= self.after_advance(n).items()) by {
                assert forall|i: int| 0 <= i < after.len() implies after.items()[i]
                    == self.after_advance(n).items()[i] by {
                    let s = (after.head + i) as nat;
                    assert(after.slots[slot(s, after.capacity())] == self.slots[slot(
                        s,
                        self.capacity(),
                    )]);
                }
            }
        }
    }

    /// A granted push appends the item to the queue; a refused push leaves the queue
    /// as it is.
    pub proof fn lemma_after_push(self, item: T)
        requires
            self.wf(),
        ensures
            self.after_push(item).wf(),
            self.after_push(item).head == self.head,
            self.accepts(1) ==> self.after_push(item).items() == self.items().push(item)
                && self.after_push(item).tail == self.tail + 1,
            !self.accepts(1) ==> self.after_push(item).items() == self.items()
                && self.after_push(item).tail == self.tail,
    {
        self.lemma_after_reserve(1);
        if self.accepts(1) {
            let granted = self.after_reserve(1);
            let start = slot(self.tail, self.capacity());
            self.lemma_bounded();
            granted.lemma_bounded();
            vstd::arithmetic::div_mod::lemma_mod_bound(self.tail as int, self.capacity() as int);
            granted.lemma_with_region(start, seq![Some(item)]);
            let filled = granted.with_region(start, seq![Some(item)]);
            assert(filled.written(1)) by {
                assert(filled.slots[start] == Some(item));
            }
            filled.lemma_after_commit(1);
            assert(filled.pending(1) =~= seq![item]);
            assert(self.items() + seq![item] =~= self.items().push(item));
        }
    }

    /// A batch send appends the items it publishes to the queue, in order.
    pub proof fn lemma_after_send(self, items: Seq<T>)
        requires
            self.wf(),
        ensures
            self.after_send(items).wf(),
            self.after_send(items).head == self.head,
            self.after_send(items).tail == self.tail + self.sent(items.len()),
            self.sent(items.len()) <= items.len(),
            self.after_send(items).items() == self.items() + items.take(
                self.sent(items.len()) as int,
            ),
            self.accepts(items.len()) ==> self.sent(items.len()) >= 1,
    {
        let n = items.len();
        self.lemma_after_reserve(n);
        self.lemma_bounded();
        vstd::arithmetic::div_mod::lemma_mod_bound(self.tail as int, self.capacity() as int);
        if self.accepts(n) {
            let granted = self.after_reserve(n);
            let start = slot(self.tail, self.capacity());
            let k = self.contiguous(n);
            let content = Seq::new(k, |i: int| Some(items[i]));
            granted.lemma_bounded();
            granted.lemma_with_region(start, content);
            let filled = granted.with_region(start, content);
            assert(filled.written(k)) by {
                assert forall|s: nat| filled.tail <= s < filled.tail + k implies (
                #[trigger] filled.slots[slot(s, filled.capacity())]) is Some by {
                    lemma_slot_offset(self.tail, (s - self.tail) as nat, self.capacity());
                    assert(filled.slots[start + (s - self.tail)] == content[s - self.tail]);
                }
            }
            filled.lemma_after_commit(k);
            assert(filled.pending(k) =~= items.take(k as int)) by {
                assert forall|i: int| 0 <= i < k implies filled.pending(k)[i] == items.take(
                    k as int,
                )[i] by {
                    lemma_slot_offset(self.tail, i as nat, self.capacity());
                    assert(filled.slots[start + i] == content[i]);
                }
            }
        } else {
            assert(items.take(0) =~= Seq::<T>::empty());
            assert(self.items() + Seq::<T>::empty() =~= self.items());
        }
    }

    /// A batch receive drops the items it copies from the queue.
    pub proof fn lemma_after_recv(self, room: nat)
        requires
            self.wf(),
        ensures
            self.after_recv(room).wf(),
            self.received(room) <= self.len(),
            self.after_recv(room).items() == self.items().skip(self.received(room) as int),
            self.after_recv(room).tail == self.tail,
            self.after_recv(room).head == self.head + self.received(room),
    {
        self.lemma_after_readable();
        if self.len() == 0 {
            assert(self.items().skip(0) =~= self.items());
        } else {
            self.after_readable().lemma_after_advance(self.received(room));
        }
    }

    /// Closing changes neither the queue nor the counts.
    pub proof fn lemma_after_close(self)
        requires
            self.wf(),
        ensures
            self.after_close().wf(),
            self.after_close().items() == self.items(),
            self.after_close().head == self.head,
            self.after_close().tail == self.tail,
            self.after_close().after_close() == self.after_close(),
    {
        assert(self.after_close().items() =~= self.items());
    }
}

} // verus!
