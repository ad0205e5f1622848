//! What holds of every ring, channel and stream, whatever is done with them.
//!
//! The functions of the rings and of the channel each say, in their contracts, which
//! step of the model they take. Here the steps are put in a row: whatever legal steps
//! a producer and a consumer take on a ring, in whatever order, the counts stay in
//! bounds and never go back, and the consumer is handed exactly what the producer
//! published, in the order of publication.

use vstd::prelude::*;
use crate::channel_model::ChannelModel;
use crate::ring_model::RingModel;
use crate::sequence::slot;
use crate::stream::factory::StreamModel;

verus! {

/// One step taken on a ring.
pub ghost enum RingStep<T> {
    /// The producer asks for `n` slots; the request is granted or refused.
    Reserve { n: nat },
    /// The producer writes `content` into the slots after the last published one.
    Write { content: Seq<Option<T>> },
    /// The producer publishes the `k` slots after the last published one.
    Commit { k: nat },
    /// The consumer asks for the readable region.
    Look,
    /// The consumer releases the `n` oldest items and leaves the slots as they are.
    Advance { n: nat },
    /// The consumer drains the `n` oldest items by copying them.
    Consume { n: nat },
    /// The consumer drains the `n` oldest items by moving them out.
    Take { n: nat },
    /// Either side closes the ring.
    Close,
}

/// Whether `step` may be taken on `ring`: a write stays within the free slots and
/// the buffer, a commit publishes filled slots that the producer knows to be free, and
/// the consumer releases no more than is in flight.
pub open spec fn legal<T>(ring: RingModel<T>, step: RingStep<T>) -> bool {
    match step {
        RingStep::Reserve { n } => true,
        RingStep::Write { content } => {
            &&& content.len() <= ring.free()
            &&& slot(ring.tail, ring.capacity()) + content.len() <= ring.capacity()
        },
        RingStep::Commit { k } => k <= ring.known_free() && ring.written(k),
        RingStep::Look => true,
        RingStep::Advance { n } => n <= ring.len(),
        RingStep::Consume { n } => n <= ring.len(),
        RingStep::Take { n } => n <= ring.len(),
        RingStep::Close => true,
    }
}

/// The ring after `step`.
pub open spec fn apply<T>(ring: RingModel<T>, step: RingStep<T>) -> RingModel<T> {
    match step {
        RingStep::Reserve { n } => ring.after_reserve(n),
        RingStep::Write { content } => ring.with_region(slot(ring.tail, ring.capacity()), content),
        RingStep::Commit { k } => ring.after_commit(k),
        RingStep::Look => ring.after_readable(),
        RingStep::Advance { n } => ring.after_advance(n),
        RingStep::Consume { n } => ring.after_consume(n),
        RingStep::Take { n } => ring.after_take(n),
        RingStep::Close => ring.after_close(),
    }
}

/// The items that `step` publishes.
pub open spec fn published<T>(ring: RingModel<T>, step: RingStep<T>) -> Seq<T> {
    match step {
        RingStep::Commit { k } => ring.pending(k),
        _ => Seq::empty(),
    }
}

/// The items that `step` hands to the consumer.
pub open spec fn handed_out<T>(ring: RingModel<T>, step: RingStep<T>) -> Seq<T> {
    match step {
        RingStep::Advance { n } => ring.items().take(n as int),
        RingStep::Consume { n } => ring.items().take(n as int),
        RingStep::Take { n } => ring.items().take(n as int),
        _ => Seq::empty(),
    }
}

/// Whether every step of `steps` may be taken in turn, starting on `ring`.
pub open spec fn legal_run<T>(ring: RingModel<T>, steps: Seq<RingStep<T>>) -> bool
    decreases steps.len(),
{
    if steps.len() == 0 {
        true
    } else {
        legal(ring, steps[0]) && legal_run(apply(ring, steps[0]), steps.skip(1))
    }
}

/// The ring after the steps of `steps`, taken in turn.
pub open spec fn run<T>(ring: RingModel<T>, steps: Seq<RingStep<T>>) -> RingModel<T>
    decreases steps.len(),
{
    if steps.len() == 0 {
        ring
    } else {
        run(apply(ring, steps[0]), steps.skip(1))
    }
}

/// The items published in the course of `steps`, in order.
pub open spec fn published_in<T>(ring: RingModel<T>, steps: Seq<RingStep<T>>) -> Seq<T>
    decreases steps.len(),
{
    if steps.len() == 0 {
        Seq::empty()
    } else {
        published(ring, steps[0]) + published_in(apply(ring, steps[0]), steps.skip(1))
    }
}

/// The items handed to the consumer in the course of `steps`, in order.
pub open spec fn handed_out_in<T>(ring: RingModel<T>, steps: Seq<RingStep<T>>) -> Seq<T>
    decreases steps.len(),
{
    if steps.len() == 0 {
        Seq::empty()
    } else {
        handed_out(ring, steps[0]) + handed_out_in(apply(ring, steps[0]), steps.skip(1))
    }
}

/// One legal step keeps a ring well formed and of the same size; neither count goes
/// back; and what was in flight before, followed by what the step published, is what
/// the step handed out, followed by what is in flight after.
pub proof fn lemma_step<T>(ring: RingModel<T>, step: RingStep<T>)
    requires
        ring.wf(),
        legal(ring, step),
    ensures
        apply(ring, step).wf(),
        apply(ring, step).capacity() == ring.capacity(),
        ring.head <= apply(ring, step).head,
        ring.tail <= apply(ring, step).tail,
        ring.closed ==> apply(ring, step).closed,
        ring.items() + published(ring, step) == handed_out(ring, step) + apply(ring, step).items(),
{
    let after = apply(ring, step);
    let empty = Seq::<T>::empty();
    ring.lemma_bounded();
    match step {
        RingStep::Reserve { n } => {
            ring.lemma_after_reserve(n);
            assert(ring.items() + empty =~= empty + after.items());
        },
        RingStep::Write { content } => {
            ring.lemma_with_region(slot(ring.tail, ring.capacity()), content);
            assert(ring.items() + empty =~= empty + after.items());
        },
        RingStep::Commit { k } => {
            ring.lemma_after_commit(k);
            assert(ring.items() + ring.pending(k) =~= empty + after.items());
        },
        RingStep::Look => {
            ring.lemma_after_readable();
            assert(ring.items() + empty =~= empty + after.items());
        },
        RingStep::Advance { n } => {
            ring.lemma_after_advance(n);
            assert(ring.items() + empty =~= ring.items().take(n as int) + ring.items().skip(
                n as int,
            ));
        },
        RingStep::Consume { n } => {
            ring.lemma_after_consume(n);
            assert(ring.items() + empty =~= ring.items().take(n as int) + ring.items().skip(
                n as int,
            ));
        },
        RingStep::Take { n } => {
            ring.lemma_after_take(n);
            assert(ring.items() + empty =~= ring.items().take(n as int) + ring.items().skip(
                n as int,
            ));
        },
        RingStep::Close => {
            ring.lemma_after_close();
            assert(ring.items() + empty =~= empty + after.items());
        },
    }
}

/// Bounded count and monotonic progress: after any legal steps on a well-formed
/// ring, the ring is well formed, so that `0 <= tail - head <= capacity`; `head` and
/// `tail` are no smaller than before; and a closed ring is still closed.
pub proof fn lemma_run_keeps_bounds<T>(ring: RingModel<T>, steps: Seq<RingStep<T>>)
    requires
        ring.wf(),
        legal_run(ring, steps),
    ensures
        run(ring, steps).wf(),
        run(ring, steps).capacity() == ring.capacity(),
        run(ring, steps).head <= run(ring, steps).tail <= run(ring, steps).head + ring.capacity(),
        ring.head <= run(ring, steps).head,
        ring.tail <= run(ring, steps).tail,
        ring.closed ==> run(ring, steps).closed,
    decreases steps.len(),
{
    if steps.len() == 0 {
        ring.lemma_bounded();
    } else {
        lemma_step(ring, steps[0]);
        lemma_run_keeps_bounds(apply(ring, steps[0]), steps.skip(1));
    }
}

/// First in, first out: after any legal steps on a well-formed ring, what the
/// consumer was handed, followed by what is still in flight, is what was in flight at
/// the start, followed by what the producer published, in the order of publication.
/// So the consumer sees the items of a producer in the order in which the producer
/// published them, each once, and none that was not published.
pub proof fn lemma_run_is_fifo<T>(ring: RingModel<T>, steps: Seq<RingStep<T>>)
    requires
        ring.wf(),
        legal_run(ring, steps),
    ensures
        handed_out_in(ring, steps) + run(ring, steps).items() == ring.items() + published_in(
            ring,
            steps,
        ),
    decreases steps.len(),
{
    let empty = Seq::<T>::empty();
    if steps.len() == 0 {
        assert(empty + ring.items() =~= ring.items() + empty);
    } else {
        let next = apply(ring, steps[0]);
        let rest = steps.skip(1);
        lemma_step(ring, steps[0]);
        lemma_run_is_fifo(next, rest);
        let out0 = handed_out(ring, steps[0]);
        let in0 = published(ring, steps[0]);
        assert((out0 + handed_out_in(next, rest)) + run(next, rest).items() =~= out0 + (
        handed_out_in(next, rest) + run(next, rest).items()));
        assert(out0 + (next.items() + published_in(next, rest)) =~= (out0 + next.items())
            + published_in(next, rest));
        assert((ring.items() + in0) + published_in(next, rest) =~= ring.items() + (in0
            + published_in(next, rest)));
    }
}

/// A commit is all or nothing: while a batch is written into reserved slots, a drain
/// sees none of it; once it is committed, a drain of everything sees all of it, after
/// what was in flight before.
pub proof fn lemma_commit_is_atomic<T>(ring: RingModel<T>, batch: Seq<T>)
    requires
        ring.wf(),
        batch.len() <= ring.known_free(),
        slot(ring.tail, ring.capacity()) + batch.len() <= ring.capacity(),
    ensures
        ({
            let written = ring.with_region(
                slot(ring.tail, ring.capacity()),
                Seq::new(batch.len(), |i: int| Some(batch[i])),
            );
            &&& written.wf()
            &&& written.items() == ring.items()
            &&& written.tail == ring.tail
            &&& written.written(batch.len())
            &&& written.after_commit(batch.len()).wf()
            &&& written.after_commit(batch.len()).items() == ring.items() + batch
        }),
{
    let start = slot(ring.tail, ring.capacity());
    let content = Seq::new(batch.len(), |i: int| Some(batch[i]));
    let written = ring.with_region(start, content);
    ring.lemma_bounded();
    ring.lemma_with_region(start, content);
    written.lemma_filled_region(start, batch.len() as int, batch.len());
    written.lemma_after_commit(batch.len());
    assert(written.pending(batch.len()) =~= batch) by {
        assert forall|i: int| 0 <= i < batch.len() implies written.pending(batch.len())[i]
            == batch[i] by {
            crate::sequence::lemma_slot_offset(ring.tail, i as nat, ring.capacity());
            assert(written.slots[start + i] == content[i]);
        }
    }
}

/// A reservation that is dropped without a commit, whatever was written into it,
/// leaves `tail`, `head`, the occupancy and the queue as they were.
pub proof fn lemma_dropped_reservation<T>(ring: RingModel<T>, n: nat, content: Seq<Option<T>>)
    requires
        ring.wf(),
        ring.accepts(n),
        content.len() == ring.contiguous(n),
    ensures
        ({
            let dropped = ring.after_reserve(n).with_region(
                slot(ring.tail, ring.capacity()),
                content,
            );
            &&& dropped.wf()
            &&& dropped.tail == ring.tail
            &&& dropped.head == ring.head
            &&& dropped.len() == ring.len()
            &&& dropped.items() == ring.items()
        }),
{
    ring.lemma_bounded();
    ring.lemma_after_reserve(n);
    let granted = ring.after_reserve(n);
    granted.lemma_bounded();
    vstd::arithmetic::div_mod::lemma_mod_bound(ring.tail as int, ring.capacity() as int);
    granted.lemma_with_region(slot(ring.tail, ring.capacity()), content);
}

/// A reservation never crosses the end of the buffer: it is at least one slot and
/// at most the `n` that were asked for, and it ends within the buffer.
pub proof fn lemma_reservation_is_contiguous<T>(ring: RingModel<T>, n: nat)
    requires
        ring.wf(),
        ring.accepts(n),
    ensures
        1 <= ring.contiguous(n) <= n,
        slot(ring.tail, ring.capacity()) + ring.contiguous(n) <= ring.capacity(),
        ring.contiguous(n) < n ==> slot(ring.tail + ring.contiguous(n), ring.capacity()) == 0,
{
    ring.lemma_bounded();
    let c = ring.capacity() as int;
    vstd::arithmetic::div_mod::lemma_mod_bound(ring.tail as int, c);
    if ring.contiguous(n) < n {
        let k = ring.contiguous(n);
        vstd::arithmetic::div_mod::lemma_fundamental_div_mod(ring.tail as int, c);
        let q = ring.tail as int / c;
        assert(ring.tail + k == (q + 1) * c + 0) by (nonlinear_arith)
            requires
                ring.tail == c * q + ring.tail as int % c,
                k == c - ring.tail as int % c,
        ;
        vstd::arithmetic::div_mod::lemma_fundamental_div_mod_converse(
            (ring.tail + k) as int,
            c,
            q + 1,
            0,
        );
    }
}

/// With a budget of at least what is in flight, a drain with a budget takes
/// everything, as a drain of everything does.
pub proof fn lemma_ample_budget_takes_all<T>(channel: ChannelModel<T>, k: nat, max: nat)
    requires
        max >= channel.total_len(k),
    ensures
        channel.taken(k, max) == channel.total_len(k),
        channel.delivered(k, max) == channel.all_items(k),
        forall|i: nat| i < k ==> #[trigger] channel.share(i, max) == channel.rings[i as int].len(),
    decreases k,
{
    if k > 0 {
        lemma_ample_budget_takes_all(channel, (k - 1) as nat, max);
        let last = channel.rings[k - 1];
        assert(channel.share((k - 1) as nat, max) == last.len());
        assert(last.items().take(last.len() as int) =~= last.items());
    }
}

/// After a drain of everything no ring of a registered producer holds an item.
pub proof fn lemma_drained_channel_is_empty<T>(channel: ChannelModel<T>, k: nat)
    requires
        channel.wf(),
        k <= channel.producer_count,
    ensures
        channel.after_take_all().total_len(k) == 0,
        channel.after_take_all().all_items(k) == Seq::<T>::empty(),
        channel.after_consume_all().total_len(k) == 0,
        channel.after_consume_all().all_items(k) == Seq::<T>::empty(),
    decreases k,
{
    if k > 0 {
        lemma_drained_channel_is_empty(channel, (k - 1) as nat);
        let ring = channel.rings[k - 1];
        assert(ring.wf());
        ring.lemma_bounded();
        ring.lemma_after_take(ring.len());
        ring.lemma_after_consume(ring.len());
        assert(ring.items().skip(ring.len() as int) =~= Seq::<T>::empty());
        assert(channel.after_take_all().all_items(k) =~= Seq::<T>::empty());
        assert(channel.after_consume_all().all_items(k) =~= Seq::<T>::empty());
    }
}

/// Closing a channel keeps what is in flight.
pub proof fn lemma_close_keeps_items<T>(channel: ChannelModel<T>, k: nat)
    requires
        channel.wf(),
        k <= channel.rings.len(),
    ensures
        channel.after_close().all_items(k) == channel.all_items(k),
        channel.after_close().total_len(k) == channel.total_len(k),
    decreases k,
{
    if k > 0 {
        lemma_close_keeps_items(channel, (k - 1) as nat);
        channel.lemma_close_idempotent();
        assert(channel.rings[k - 1].wf());
        channel.rings[k - 1].lemma_after_close();
    }
}

/// A channel that is closed while items are in flight yields exactly those items
/// to the drains that follow, and is empty after: no ring of a registered producer
/// accepts anything more, a drain of everything delivers what was in flight at the
/// time of closing, and the next drain finds nothing.
pub proof fn lemma_closed_channel_drains<T>(channel: ChannelModel<T>)
    requires
        channel.wf(),
    ensures
        ({
            let closed = channel.after_close();
            let count = channel.producer_count;
            &&& closed.wf()
            &&& !closed.registers()
            &&& forall|i: int, n: nat| 0 <= i < count ==> !(#[trigger] closed.rings[i].accepts(n))
            &&& closed.all_items(count) == channel.all_items(count)
            &&& closed.total_len(count) == channel.total_len(count)
            &&& closed.after_take_all().total_len(count) == 0
            &&& closed.after_take_all().all_items(count) == Seq::<T>::empty()
        }),
{
    let closed = channel.after_close();
    channel.lemma_close_idempotent();
    lemma_close_keeps_items(channel, channel.producer_count);
    lemma_drained_channel_is_empty(closed, channel.producer_count);
}

/// Closing a channel that is closed already changes nothing.
pub proof fn lemma_channel_close_is_idempotent<T>(channel: ChannelModel<T>)
    requires
        channel.wf(),
    ensures
        channel.after_close().after_close() == channel.after_close(),
        channel.closed ==> channel.after_close() == channel,
{
    channel.lemma_close_idempotent();
}

/// A shutdown signal after the first changes nothing.
pub proof fn lemma_shutdown_is_idempotent<T>(stream: StreamModel<T>)
    ensures
        stream.after_signal().after_signal() == stream.after_signal(),
        stream.after_signal().shutdown_initiated,
        !stream.shutdown_initiated ==> stream.after_signal().closed,
        stream.shutdown_initiated ==> stream.after_signal() == stream,
        !stream.shutdown_initiated ==> stream.after_signal().space_raised == stream.space_raised
            + 1,
{
}

/// A registration at the cap is granted and one past it is refused: with `max`
/// rings, the registrations are granted until `max` producers are registered, and
/// none after.
pub proof fn lemma_registration_cap<T>(channel: ChannelModel<T>)
    requires
        channel.wf(),
        !channel.closed,
    ensures
        channel.registers() <==> channel.producer_count < channel.max_producers(),
        channel.registers() ==> channel.after_register().producer_count == channel.producer_count
            + 1,
        !channel.registers() ==> channel.after_register() == channel,
        channel.after_register().producer_count <= channel.max_producers(),
{
}

} // verus!
