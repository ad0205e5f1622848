//! The single-producer single-consumer ring with a capacity fixed by its type and its
//! slots held in place, without a separate allocation.
//!
//! It follows the same protocol as `Ring`. The producer gets the reserved run as a
//! slice, fills it and commits it by a call on the ring; the consumer may look at the
//! readable run and advance, or drain.

use vstd::prelude::*;
use vstd::slice::slice_subrange;
use crate::ring_model::{vacate, RingModel};
use crate::sequence::{is_power_of_two, lemma_power_of_two_bounds, lemma_stamp_advance, lemma_stamp_distance, lemma_stamp_slot, min_nat, slot, stamp};
use crate::metrics::Metrics;

verus! {

/// A ring of `N` slots for items of type `T`. `N` is a power of two.
pub struct StackRing<T, const N: usize> {
    /// The producer's counter: the number of items ever published, wrapped.
    tail: u64,
    /// The producer's snapshot of `head`.
    cached_head: u64,
    /// The consumer's counter: the number of items ever released, wrapped.
    head: u64,
    /// The consumer's snapshot of `tail`.
    cached_tail: u64,
    closed: bool,
    buffer: [Option<T>; N],
    tail_count: Ghost<nat>,
    cached_head_count: Ghost<nat>,
    head_count: Ghost<nat>,
    cached_tail_count: Ghost<nat>,
    bound: Ghost<bool>,
}

/// A vacant slot, whatever its index.
fn vacant<T>(index: usize) -> (content: Option<T>)
    ensures
        content is None,
{
    None
}

/// An array of `N` elements made by `std::array::from_fn`, which calls `make` on
/// each index from 0 to `N - 1` and stores what the call returns at that index. So
/// `make` is called on indices below `N` only, and each element is a result of
/// `make` on its index.
#[verifier::external_body]
pub(crate) fn array_from_fn<T, const N: usize, F: Fn(usize) -> T>(make: F) -> (array: [T; N])
    requires
        forall|i: usize| i < N ==> call_requires(make, (i,)),
    ensures
        forall|i: int| 0 <= i < N ==> call_ensures(make, (i as usize,), #[trigger] array@[i]),
{
    std::array::from_fn(make)
}

impl<T, const N: usize> View for StackRing<T, N> {
    type V = RingModel<T>;

    closed spec fn view(&self) -> RingModel<T> {
        RingModel {
            slots: self.buffer@,
            head: self.head_count@,
            tail: self.tail_count@,
            cached_head: self.cached_head_count@,
            cached_tail: self.cached_tail_count@,
            closed: self.closed,
            active: self.bound@,
            metrics: Metrics::zero(),
            metrics_enabled: false,
        }
    }
}

impl<T, const N: usize> StackRing<T, N> {
    /// The stored counters are the wrapped counts.
    pub closed spec fn inv(&self) -> bool {
        &&& self.tail == stamp(self.tail_count@)
        &&& self.head == stamp(self.head_count@)
        &&& self.cached_head == stamp(self.cached_head_count@)
        &&& self.cached_tail == stamp(self.cached_tail_count@)
    }

    /// The ring is well formed: its representation is consistent, its state meets
    /// the ring invariant, it has `N` slots and keeps no counters.
    pub open spec fn wf(&self) -> bool {
        &&& self.inv()
        &&& self@.wf()
        &&& self@.capacity() == N
        &&& !self@.metrics_enabled
        &&& self@.metrics == Metrics::zero()
    }

    /// What the fields but the buffer hold is the same in both rings.
    closed spec fn same_control(&self, other: &Self) -> bool {
        &&& self.tail == other.tail
        &&& self.head == other.head
        &&& self.cached_head == other.cached_head
        &&& self.cached_tail == other.cached_tail
        &&& self.closed == other.closed
        &&& self.tail_count == other.tail_count
        &&& self.head_count == other.head_count
        &&& self.cached_head_count == other.cached_head_count
        &&& self.cached_tail_count == other.cached_tail_count
        &&& self.bound == other.bound
    }

    /// The facts about counters that the code below rests on.
    proof fn lemma_counters(&self)
        requires
            self.wf(),
        ensures
            1 <= N,
            self.tail.wrapping_sub(self.head) == self@.len(),
            self.tail.wrapping_sub(self.cached_head) == self@.tail - self@.cached_head,
            self.cached_tail.wrapping_sub(self.head) == self@.cached_tail - self@.head,
            (self.tail & ((N - 1) as u64)) == slot(self@.tail, N as nat),
            (self.head & ((N - 1) as u64)) == slot(self@.head, N as nat),
            0 <= slot(self@.tail, N as nat) < N,
            0 <= slot(self@.head, N as nat) < N,
    {
        lemma_power_of_two_bounds(N as nat);
        lemma_stamp_distance(self@.tail, self@.head);
        lemma_stamp_distance(self@.tail, self@.cached_head);
        lemma_stamp_distance(self@.cached_tail, self@.head);
        lemma_stamp_slot(self@.tail, N as nat);
        lemma_stamp_slot(self@.head, N as nat);
    }

    /// A new, empty, open ring.
    pub fn new() -> (ring: Self)
        requires
            is_power_of_two(N as nat),
        ensures
            ring.wf(),
            ring@ == RingModel::<T>::fresh(N as nat, false),
    {
        let ring = StackRing {
            tail: 0,
            cached_head: 0,
            head: 0,
            cached_tail: 0,
            closed: false,
            buffer: array_from_fn(vacant::<T>),
            tail_count: Ghost(0),
            cached_head_count: Ghost(0),
            head_count: Ghost(0),
            cached_tail_count: Ghost(0),
            bound: Ghost(false),
        };
        proof {
            assert(ring@.slots =~= RingModel::<T>::fresh(N as nat, false).slots);
            RingModel::<T>::lemma_fresh(N as nat, false);
        }
        ring
    }

    /// Records that the ring is bound to a producer. Nothing that runs changes.
    pub(crate) fn bind(&mut self)
        requires
            old(self).wf(),
        ensures
            final(self).wf(),
            final(self)@ == (RingModel { active: true, ..old(self)@ }),
    {
        self.bound = Ghost(true);
    }

    // ----- status -----

    /// The number of slots: `N`.
    pub fn capacity(&self) -> (capacity: usize)
        ensures
            capacity == N,
    {
        N
    }

    /// The number of items in flight.
    pub fn len(&self) -> (len: usize)
        requires
            self.wf(),
        ensures
            len == self@.len(),
            len == self@.items().len(),
    {
        proof {
            self.lemma_counters();
            self@.lemma_bounded();
        }
        self.tail.wrapping_sub(self.head) as usize
    }

    /// Whether no item is in flight.
    pub fn is_empty(&self) -> (empty: bool)
        requires
            self.wf(),
        ensures
            empty == (self@.len() == 0),
    {
        proof {
            self.lemma_counters();
        }
        self.tail == self.head
    }

    /// Whether every slot holds an item in flight.
    pub fn is_full(&self) -> (full: bool)
        requires
            self.wf(),
        ensures
            full == (self@.len() == N),
    {
        proof {
            self@.lemma_bounded();
        }
        self.len() >= N
    }

    /// Whether the ring was closed.
    pub fn is_closed(&self) -> (closed: bool)
        ensures
            closed == self@.closed,
    {
        self.closed
    }

    /// Closes the ring: requests for slots are refused from now on, what is in flight
    /// can still be drained. Closing a closed ring changes nothing.
    pub fn close(&mut self)
        requires
            old(self).wf(),
        ensures
            final(self).wf(),
            final(self)@ == old(self)@.after_close(),
    {
        proof {
            self@.lemma_after_close();
        }
        self.closed = true;
    }

    // ----- producer side -----

    /// Decides a request for `n` slots. On the way the producer's snapshot of `head`
    /// is brought up to date if the request cannot be granted from what the producer
    /// knows.
    pub(crate) fn grant(&mut self, n: usize) -> (granted: bool)
        requires
            old(self).wf(),
        ensures
            final(self).wf(),
            final(self)@ == old(self)@.after_reserve(n as nat),
            granted == old(self)@.accepts(n as nat),
            granted ==> final(self)@.known_free() >= n,
    {
        proof {
            self.lemma_counters();
            self@.lemma_bounded();
            self@.lemma_after_reserve(n as nat);
        }
        if n == 0 || n > N || self.closed {
            return false;
        }
        let used: usize = self.tail.wrapping_sub(self.cached_head) as usize;
        let space: usize = N.saturating_sub(used);
        if space >= n {
            return true;
        }
        self.cached_head = self.head;
        self.cached_head_count = Ghost(self.head_count@);
        let used: usize = self.tail.wrapping_sub(self.head) as usize;
        let space: usize = N.saturating_sub(used);
        space >= n
    }

    /// The `len` slots from index `start` on, for writing.
    fn region_mut(&mut self, start: usize, len: usize) -> (region: &mut [Option<T>])
        requires
            old(self).inv(),
            start + len <= N,
        ensures
            region@ == old(self)@.region(start as int, len as int),
            final(region)@.len() == len ==> {
                &&& final(self).inv()
                &&& final(self)@ == old(self)@.with_region(start as int, final(region)@)
            },
    {
        let ghost before = self.buffer@;
        let whole: &mut [Option<T>] = &mut self.buffer;
        let (prefix, rest) = whole.split_at_mut(start);
        let (region, suffix) = rest.split_at_mut(len);
        assert(final(prefix)@ == before.subrange(0, start as int));
        assert(final(suffix)@ == before.subrange(start + len, before.len() as int));
        assert(final(region)@.len() == len ==> final(prefix)@ + (final(region)@ + final(suffix)@)
            =~= Seq::new(
            before.len(),
            |i: int|
                if start <= i < start + final(region)@.len() {
                    final(region)@[i - start]
                } else {
                    before[i]
                },
        ));
        region
    }

    /// The run of slots for a granted request of `n` slots: the slots after the last
    /// published one, up to the end of the buffer.
    pub(crate) fn make_reservation(&mut self, n: usize) -> (reservation: (&mut [Option<T>], usize))
        requires
            old(self).wf(),
            1 <= n <= old(self)@.known_free(),
        ensures
            reservation.1 == old(self)@.contiguous(n as nat),
            reservation.0@ == old(self)@.region(
                slot(old(self)@.tail, N as nat),
                old(self)@.contiguous(n as nat) as int,
            ),
            final(reservation.0)@.len() == reservation.1 ==> {
                &&& final(self).wf()
                &&& final(self)@ == old(self)@.with_region(
                    slot(old(self)@.tail, N as nat),
                    final(reservation.0)@,
                )
                &&& final(self)@.items() == old(self)@.items()
            },
    {
        proof {
            self.lemma_counters();
            self@.lemma_bounded();
        }
        let start: usize = (self.tail & ((N - 1) as u64)) as usize;
        let to_end: usize = N - start;
        let len: usize = if n <= to_end {
            n
        } else {
            to_end
        };
        proof {
            let before = self@;
            assert forall|content: Seq<Option<T>>| content.len() == len implies {
                &&& (#[trigger] before.with_region(start as int, content)).wf()
                &&& before.with_region(start as int, content).items() == before.items()
            } by {
                before.lemma_with_region(start as int, content);
            }
        }
        (self.region_mut(start, len), len)
    }

    /// Reserves up to `n` slots for writing. The request is granted if `n` is between
    /// 1 and `N`, the ring is open and `n` slots are free. The run handed out covers
    /// the slots after the last published one; it is shorter than `n` where those
    /// reach the end of the buffer. Its length is returned beside it. Nothing is
    /// published until `commit`.
    pub fn reserve(&mut self, n: usize) -> (reservation: Option<(&mut [Option<T>], usize)>)
        requires
            old(self).wf(),
        ensures
            reservation is Some <==> old(self)@.accepts(n as nat),
            match reservation {
                Some((run, len)) => {
                    &&& len == old(self)@.contiguous(n as nat)
                    &&& run@ == old(self)@.region(slot(old(self)@.tail, N as nat), len as int)
                    &&& final(run)@.len() == len ==> {
                        &&& final(self).wf()
                        &&& final(self)@ == old(self)@.after_reserve(n as nat).with_region(
                            slot(old(self)@.tail, N as nat),
                            final(run)@,
                        )
                        &&& final(self)@.items() == old(self)@.items()
                    }
                },
                None => {
                    &&& final(self).wf()
                    &&& final(self)@ == old(self)@.after_reserve(n as nat)
                },
            },
    {
        if self.grant(n) {
            Some(self.make_reservation(n))
        } else {
            None
        }
    }

    /// Publishes the `n` slots after the last published one, which the caller has
    /// filled through the run that the last reservation handed out.
    pub fn commit(&mut self, n: usize)
        requires
            old(self).wf(),
            n <= old(self)@.known_free(),
            old(self)@.written(n as nat),
        ensures
            final(self).wf(),
            final(self)@ == old(self)@.after_commit(n as nat),
            final(self)@.items() == old(self)@.items() + old(self)@.pending(n as nat),
    {
        proof {
            self.lemma_counters();
            self@.lemma_bounded();
            self@.lemma_after_commit(n as nat);
            lemma_stamp_advance(self@.tail, n as nat);
        }
        self.tail = self.tail.wrapping_add(n as u64);
        self.tail_count = Ghost((self.tail_count@ + n) as nat);
    }

    /// Sends one item: gets one slot, writes the item and commits. Returns whether
    /// the item was accepted; it is refused where the ring is full or closed.
    pub(crate) fn push(&mut self, item: T) -> (accepted: bool)
        requires
            old(self).wf(),
        ensures
            accepted == old(self)@.accepts(1),
            final(self).wf(),
            final(self)@ == old(self)@.after_push(item),
            final(self)@.items() == if accepted {
                old(self)@.items().push(item)
            } else {
                old(self)@.items()
            },
    {
        proof {
            self@.lemma_after_push(item);
        }
        if !self.grant(1) {
            return false;
        }
        let ghost granted = self@;
        let (run, len) = self.make_reservation(1);
        run[0] = Some(item);
        assert(run@ =~= seq![Some(item)]);
        proof {
            granted.with_region(slot(granted.tail, N as nat), seq![Some(item)]).lemma_filled_region(
                slot(granted.tail, N as nat),
                1,
                1,
            );
        }
        self.commit(1);
        true
    }

    /// Sends a batch: once the ring grants as many slots as there are items, the
    /// items are copied into one run of slots after the other, each run committed
    /// before the next is taken, until all are sent. Returns how many items were sent:
    /// all of them, or none where the ring does not grant the slots.
    pub(crate) fn send_all(&mut self, items: &[T]) -> (sent: usize) where T: Copy
        requires
            old(self).wf(),
        ensures
            sent == if old(self)@.accepts(items@.len()) {
                items@.len()
            } else {
                0
            },
            final(self).wf(),
            final(self)@ == (RingModel {
                slots: final(self)@.slots,
                tail: (old(self)@.tail + sent) as nat,
                ..old(self)@.after_reserve(items@.len())
            }),
            final(self)@.items() == old(self)@.items() + items@.take(sent as int),
    {
        let n: usize = items.len();
        proof {
            self@.lemma_after_reserve(n as nat);
            assert(items@.take(0) =~= Seq::<T>::empty());
            assert(self@.items() + Seq::<T>::empty() =~= self@.items());
            assert(items@.take(n as int) =~= items@);
        }
        if !self.grant(n) {
            return 0;
        }
        let ghost granted = self@;
        let mut sent: usize = 0;
        while sent < n
            invariant
                self.wf(),
                n == items@.len(),
                sent <= n,
                self@ == (RingModel {
                    slots: self@.slots,
                    tail: (granted.tail + sent) as nat,
                    ..granted
                }),
                self@.known_free() >= n - sent,
                self@.items() == old(self)@.items() + items@.take(sent as int),
            decreases n - sent,
        {
            let ghost now = self@;
            let ghost start = slot(now.tail, N as nat);
            proof {
                now.lemma_bounded();
                vstd::arithmetic::div_mod::lemma_mod_bound(now.tail as int, N as int);
            }
            let (run, len) = self.make_reservation(n - sent);
            let mut i: usize = 0;
            while i < len
                invariant
                    i <= len,
                    len <= n - sent,
                    n == items@.len(),
                    run@.len() == len,
                    forall|j: int| 0 <= j < i ==> #[trigger] run@[j] == Some(items@[sent + j]),
                decreases len - i,
            {
                run[i] = Some(items[sent + i]);
                i = i + 1;
            }
            let ghost content = run@;
            proof {
                let filled = now.with_region(start, content);
                filled.lemma_filled_region(start, len as int, len as nat);
                filled.lemma_after_commit(len as nat);
                assert(filled.pending(len as nat) =~= items@.subrange(sent as int, sent + len)) by {
                    assert forall|j: int| 0 <= j < len implies filled.pending(len as nat)[j]
                        == items@[sent + j] by {
                        crate::sequence::lemma_slot_offset(now.tail, j as nat, N as nat);
                        assert(filled.slots[start + j] == content[j]);
                    }
                }
                assert(items@.take(sent as int) + items@.subrange(sent as int, sent + len)
                    =~= items@.take(sent + len));
            }
            self.commit(len);
            sent = sent + len;
        }
        sent
    }

    // ----- consumer side -----

    /// The oldest items in flight that lie in one run of slots and that the consumer
    /// knows of, with their number, or `None` where the ring is empty. Each slot of
    /// the run holds `Some` of its item. The items stay in flight until `advance`
    /// releases them.
    pub fn peek(&mut self) -> (region: Option<(&[Option<T>], usize)>)
        requires
            old(self).wf(),
        ensures
            final(self).wf(),
            final(self)@ == old(self)@.after_readable(),
            region is None <==> old(self)@.len() == 0,
            region matches Some((run, len)) ==> {
                &&& len == old(self)@.readable_len()
                &&& run@.len() == len
                &&& forall|i: int|
                    0 <= i < run@.len() ==> #[trigger] run@[i] == Some(old(self)@.items()[i])
            },
    {
        proof {
            self.lemma_counters();
            self@.lemma_bounded();
            self@.lemma_after_readable();
        }
        let mut avail: usize = self.cached_tail.wrapping_sub(self.head) as usize;
        if avail == 0 {
            self.cached_tail = self.tail;
            self.cached_tail_count = Ghost(self.tail_count@);
            avail = self.cached_tail.wrapping_sub(self.head) as usize;
            if avail == 0 {
                return None;
            }
        }
        let start: usize = (self.head & ((N - 1) as u64)) as usize;
        let to_end: usize = N - start;
        let len: usize = if avail <= to_end {
            avail
        } else {
            to_end
        };
        Some((slice_subrange(self.buffer.as_slice(), start, start + len), len))
    }

    /// Moves `head` on by `n`, where the counts are in order and `n` items are in
    /// flight, whatever the slots hold.
    fn release(&mut self, n: usize)
        requires
            old(self).inv(),
            is_power_of_two(old(self)@.capacity()),
            old(self)@.cached_head <= old(self)@.head <= old(self)@.cached_tail <= old(self)@.tail,
            old(self)@.tail <= old(self)@.cached_head + old(self)@.capacity(),
            n <= old(self)@.len(),
        ensures
            final(self).inv(),
            final(self)@ == old(self)@.after_advance(n as nat),
    {
        proof {
            lemma_power_of_two_bounds(self@.capacity());
            lemma_stamp_distance(self@.cached_tail, self@.head);
            lemma_stamp_advance(self@.head, n as nat);
        }
        if self.cached_tail.wrapping_sub(self.head) < n as u64 {
            self.cached_tail = self.tail;
            self.cached_tail_count = Ghost(self.tail_count@);
        }
        self.head = self.head.wrapping_add(n as u64);
        self.head_count = Ghost((self.head_count@ + n) as nat);
    }

    /// Releases the `n` oldest items in flight, which the consumer has read from the
    /// run that `peek` handed out. The slots keep what they held until the producer
    /// fills them again.
    pub fn advance(&mut self, n: usize)
        requires
            old(self).wf(),
            n <= old(self)@.len(),
        ensures
            final(self).wf(),
            final(self)@ == old(self)@.after_advance(n as nat),
            final(self)@.items() == old(self)@.items().skip(n as int),
    {
        proof {
            self@.lemma_after_advance(n as nat);
        }
        self.release(n);
    }

    /// Appends copies of the `count` oldest items in flight to `out`, oldest first.
    fn copy_out(&self, count: usize, out: &mut Vec<T>) where T: Copy
        requires
            self.wf(),
            count <= self@.len(),
        ensures
            final(out)@ == old(out)@ + self@.items().take(count as int),
    {
        proof {
            self.lemma_counters();
            self@.lemma_bounded();
        }
        let mask: u64 = (N - 1) as u64;
        let mut pos: u64 = self.head;
        let mut done: usize = 0;
        while done < count
            invariant
                self.wf(),
                done <= count <= self@.len(),
                pos == stamp((self@.head + done) as nat),
                mask == N - 1,
                self.buffer@ == self@.slots,
                out@ == old(out)@ + self@.items().take(done as int),
            decreases count - done,
        {
            proof {
                let s = (self@.head + done) as nat;
                self.lemma_counters();
                lemma_stamp_slot(s, N as nat);
                lemma_stamp_advance(s, 1);
                assert(self@.slots[slot(s, self@.capacity())] is Some);
                assert(self@.items()[done as int] == self@.slots[slot(s, self@.capacity())].unwrap());
            }
            let index: usize = (pos & mask) as usize;
            let item: Option<T> = self.buffer[index];
            if let Some(value) = item {
                out.push(value);
            }
            pos = pos.wrapping_add(1);
            done = done + 1;
            proof {
                assert(out@ =~= old(out)@ + self@.items().take(done as int));
            }
        }
    }

    /// Moves the `count` oldest items in flight out of their slots and appends them to
    /// `out`, oldest first. The counters stay as they were.
    fn take_out(&mut self, count: usize, out: &mut Vec<T>)
        requires
            old(self).wf(),
            count <= old(self)@.len(),
        ensures
            final(self).inv(),
            final(self)@ == (RingModel {
                slots: vacate(old(self)@.slots, old(self)@.head, count as nat),
                ..old(self)@
            }),
            final(out)@ == old(out)@ + old(self)@.items().take(count as int),
            old(self)@.len() == 0 ==> count == 0 && final(out)@ == old(out)@ && final(self)@ == old(self)@,
    {
        proof {
            self.lemma_counters();
            self@.lemma_bounded();
        }
        let ghost before = self@;
        let mask: u64 = (N - 1) as u64;
        let mut pos: u64 = self.head;
        let mut done: usize = 0;
        while done < count
            invariant
                old(self).wf(),
                before == old(self)@,
                self.same_control(old(self)),
                done <= count <= before.len(),
                pos == stamp((before.head + done) as nat),
                mask == N - 1,
                1 <= N,
                self.buffer@ == vacate(before.slots, before.head, done as nat),
                out@ == old(out)@ + before.items().take(done as int),
            decreases count - done,
        {
            proof {
                let s = (before.head + done) as nat;
                lemma_stamp_slot(s, N as nat);
                lemma_stamp_advance(s, 1);
                before.lemma_vacate_keeps_later(done as nat, s);
                before.lemma_vacate_len((done + 1) as nat);
                assert(before.slots[slot(s, before.capacity())] is Some);
                assert(before.items()[done as int] == before.slots[slot(s, before.capacity())].unwrap());
            }
            let index: usize = (pos & mask) as usize;
            let item: Option<T> = self.buffer[index].take();
            if let Some(value) = item {
                out.push(value);
            }
            pos = pos.wrapping_add(1);
            done = done + 1;
            proof {
                assert(out@ =~= old(out)@ + before.items().take(done as int));
            }
        }
    }

    /// Drains every item in flight: appends copies of them to `out`, oldest first, and
    /// releases them with one update of `head`. Returns how many there were. A drain
    /// of an empty ring changes nothing.
    pub fn consume_batch(&mut self, out: &mut Vec<T>) -> (count: usize) where T: Copy
        requires
            old(self).wf(),
        ensures
            count == old(self)@.len(),
            final(self).wf(),
            final(self)@ == old(self)@.after_consume(count as nat),
            final(self)@.items() == Seq::<T>::empty(),
            final(out)@ == old(out)@ + old(self)@.items(),
            old(self)@.len() == 0 ==> count == 0 && final(out)@ == old(out)@ && final(self)@ == old(self)@,
    {
        proof {
            self@.lemma_bounded();
            self@.lemma_after_consume(self@.len());
            assert(self@.items().take(self@.len() as int) =~= self@.items());
            assert(self@.items().skip(self@.len() as int) =~= Seq::<T>::empty());
            assert(old(out)@ + Seq::<T>::empty() =~= old(out)@);
        }
        let avail: usize = self.len();
        if avail == 0 {
            return 0;
        }
        self.copy_out(avail, out);
        self.release(avail);
        avail
    }

    /// Drains every item in flight: moves them out of their slots into `out`, oldest
    /// first, and releases them with one update of `head`. Returns how many there
    /// were. A drain of an empty ring changes nothing.
    pub fn consume_batch_owned(&mut self, out: &mut Vec<T>) -> (count: usize)
        requires
            old(self).wf(),
        ensures
            count == old(self)@.len(),
            final(self).wf(),
            final(self)@ == old(self)@.after_take(count as nat),
            final(self)@.items() == Seq::<T>::empty(),
            final(out)@ == old(out)@ + old(self)@.items(),
            old(self)@.len() == 0 ==> count == 0 && final(out)@ == old(out)@ && final(self)@ == old(self)@,
    {
        proof {
            self@.lemma_bounded();
            self@.lemma_after_take(self@.len());
            assert(self@.items().take(self@.len() as int) =~= self@.items());
            assert(self@.items().skip(self@.len() as int) =~= Seq::<T>::empty());
            assert(old(out)@ + Seq::<T>::empty() =~= old(out)@);
        }
        let avail: usize = self.len();
        if avail == 0 {
            return 0;
        }
        self.take_out(avail, out);
        self.release(avail);
        avail
    }

    /// Drains up to `max` items: appends copies of the oldest of them to `out`, oldest
    /// first, and releases them with one update of `head`. Returns how many were
    /// drained. A drain of nothing changes nothing.
    pub fn consume_up_to(&mut self, max: usize, out: &mut Vec<T>) -> (count: usize) where T: Copy
        requires
            old(self).wf(),
        ensures
            count == min_nat(old(self)@.len(), max as nat),
            final(self).wf(),
            final(self)@ == old(self)@.after_consume(count as nat),
            final(self)@.items() == old(self)@.items().skip(count as int),
            final(out)@ == old(out)@ + old(self)@.items().take(count as int),
            old(self)@.len() == 0 ==> count == 0 && final(out)@ == old(out)@ && final(self)@ == old(self)@,
    {
        proof {
            self@.lemma_bounded();
            self@.lemma_after_consume(min_nat(self@.len(), max as nat));
            assert(self@.items().take(0) =~= Seq::<T>::empty());
            assert(old(out)@ + Seq::<T>::empty() =~= old(out)@);
        }
        let avail: usize = self.len();
        if avail == 0 || max == 0 {
            return 0;
        }
        let to_consume: usize = if avail <= max {
            avail
        } else {
            max
        };
        self.copy_out(to_consume, out);
        self.release(to_consume);
        to_consume
    }
    /// Drains up to `max` items: moves the oldest of them out of their slots into
    /// `out`, oldest first, and releases them with one update of `head`. Returns how
    /// many were drained. A drain of nothing changes nothing.
    pub fn consume_up_to_owned(&mut self, max: usize, out: &mut Vec<T>) -> (count: usize)
        requires
            old(self).wf(),
        ensures
            count == min_nat(old(self)@.len(), max as nat),
            final(self).wf(),
            final(self)@ == old(self)@.after_take(count as nat),
            final(self)@.items() == old(self)@.items().skip(count as int),
            final(out)@ == old(out)@ + old(self)@.items().take(count as int),
            old(self)@.len() == 0 ==> count == 0 && final(out)@ == old(out)@ && final(self)@ == old(self)@,
    {
        proof {
            self@.lemma_bounded();
            self@.lemma_after_take(min_nat(self@.len(), max as nat));
            assert(self@.items().take(0) =~= Seq::<T>::empty());
            assert(old(out)@ + Seq::<T>::empty() =~= old(out)@);
        }
        let avail: usize = self.len();
        if avail == 0 || max == 0 {
            return 0;
        }
        let to_consume: usize = if avail <= max {
            avail
        } else {
            max
        };
        self.take_out(to_consume, out);
        self.release(to_consume);
        to_consume
    }
}

} // verus!
