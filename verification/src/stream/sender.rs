//! The sending half of a stream.

use vstd::prelude::*;
use crate::channel::Producer;
use crate::stream::error::StreamError;
use crate::stream::factory::{SenderFactory, StreamModel};

verus! {

/// How far one round of a blocking send got.
#[derive(Debug)]
pub enum SendProgress<T> {
    /// The send is over: the item was published, or the stream is closed and the
    /// item was dropped.
    Done(Result<(), StreamError>),
    /// The ring is full. The item comes back; the caller waits for the
    /// space-available notifier and tries again.
    Blocked(T),
}

/// A sender of a stream: the handle of one producer of the channel, and at most one
/// item that was accepted while the ring was full. It cannot be copied, so that each
/// ring has one writer.
#[derive(Debug)]
pub struct RingSender<T> {
    producer: Producer,
    pending_item: Option<T>,
}

impl<T> RingSender<T> {
    /// The index of the sender's ring.
    pub closed spec fn ring_index(&self) -> int {
        self.producer.id_spec() as int
    }

    /// The item that was accepted and not yet published, if any.
    pub closed spec fn pending(&self) -> Option<T> {
        self.pending_item
    }

    /// Whether `hub` has registered a sender with this sender's ring index.
    pub open spec fn bound_to(&self, hub: &SenderFactory<T>) -> bool {
        0 <= self.ring_index() < hub@.channel.producer_count
    }

    /// Whether the sender cannot send through `hub`: the stream is closed, the
    /// sender's ring is closed, or `hub` did not register this sender.
    pub open spec fn shut_out(&self, hub: StreamModel<T>) -> bool {
        ||| hub.closed
        ||| !(0 <= self.ring_index() < hub.channel.producer_count)
        ||| hub.channel.rings[self.ring_index()].closed
    }

    /// Whether the sender's ring has a free slot.
    pub open spec fn has_room(&self, hub: StreamModel<T>) -> bool {
        hub.channel.rings[self.ring_index()].free() >= 1
    }

    /// The stream after this sender published `item`: the item is the newest in the
    /// sender's ring, and the data-arrived notifier was pulsed.
    pub open spec fn published(&self, hub: StreamModel<T>, item: T) -> StreamModel<T> {
        StreamModel {
            channel: hub.channel.with_ring(
                self.ring_index(),
                hub.channel.rings[self.ring_index()].after_push(item),
            ),
            ..hub
        }.data_pulsed()
    }

    /// The stream after this sender found its ring full: nothing but the ring's
    /// snapshot of the consumer's progress has changed.
    pub open spec fn refused(&self, hub: StreamModel<T>) -> StreamModel<T> {
        StreamModel {
            channel: hub.channel.with_ring(
                self.ring_index(),
                hub.channel.rings[self.ring_index()].after_reserve(1),
            ),
            ..hub
        }
    }

    /// A sender for the given producer, with no pending item.
    pub(crate) fn new(producer: Producer) -> (sender: Self)
        ensures
            sender.ring_index() == producer.id_spec(),
            sender.pending() is None,
    {
        RingSender { producer, pending_item: None }
    }

    /// Publishes `item` if the sender can send and its ring has room, and pulses
    /// the data-arrived notifier. Otherwise hands the item back.
    fn offer(&self, hub: &mut SenderFactory<T>, item: T) -> (result: Result<(), T>)
        requires
            old(hub).wf(),
            !self.shut_out(old(hub)@),
        ensures
            final(hub).wf(),
            final(hub).config() == old(hub).config(),
            result is Ok <==> self.has_room(old(hub)@),
            result is Ok ==> final(hub)@ == self.published(old(hub)@, item),
            result matches Err(back) ==> back == item && final(hub)@ == self.refused(old(hub)@),
    {
        proof {
            hub@.channel.rings[self.ring_index()].lemma_bounded();
        }
        match self.producer.reserve(&mut hub.channel, 1) {
            Some(mut reservation) => {
                let ghost granted = reservation.ring@;
                let slice = reservation.as_mut_slice();
                slice[0] = Some(item);
                assert(slice@ =~= seq![Some(item)]);
                reservation.commit();
                proof {
                    assert(old(hub).channel@.rings[self.ring_index()].active);
                    hub.channel.lemma_frame(&old(hub).channel, self.ring_index());
                }
                hub.data_notify.notify();
                Ok(())
            },
            None => Err(item),
        }
    }

    /// Tries to send `item` without waiting. The item is published, and the
    /// data-arrived notifier pulsed, if the sender can send and its ring has room.
    /// Otherwise the item comes back unchanged: nothing is lost.
    pub fn try_send(&self, hub: &mut SenderFactory<T>, item: T) -> (result: Result<(), T>)
        requires
            old(hub).wf(),
        ensures
            final(hub).wf(),
            final(hub).config() == old(hub).config(),
            result is Ok <==> !self.shut_out(old(hub)@) && self.has_room(old(hub)@),
            result is Ok ==> final(hub)@ == self.published(old(hub)@, item),
            result matches Err(back) ==> back == item,
            result is Err ==> final(hub)@ == if self.shut_out(old(hub)@) {
                old(hub)@
            } else {
                self.refused(old(hub)@)
            },
    {
        if hub.shutdown_state.is_closed() || self.producer.is_closed(&hub.channel) {
            return Err(item);
        }
        self.offer(hub, item)
    }

    /// One round of a send that waits for room. Where the sender cannot send the
    /// send is over with `Closed`. Where the ring has room the item is published,
    /// the data-arrived notifier pulsed and the send is over. Where the ring is full
    /// the item comes back: the caller waits for the space-available notifier and
    /// runs another round.
    pub fn send(&self, hub: &mut SenderFactory<T>, item: T) -> (progress: SendProgress<T>)
        requires
            old(hub).wf(),
        ensures
            final(hub).wf(),
            final(hub).config() == old(hub).config(),
            self.shut_out(old(hub)@) ==> progress == SendProgress::<T>::Done(
                Err(StreamError::Closed),
            ) && final(hub)@ == old(hub)@,
            !self.shut_out(old(hub)@) && self.has_room(old(hub)@) ==> progress
                == SendProgress::<T>::Done(Ok(())) && final(hub)@ == self.published(
                old(hub)@,
                item,
            ),
            !self.shut_out(old(hub)@) && !self.has_room(old(hub)@) ==> progress
                == SendProgress::Blocked(item) && final(hub)@ == self.refused(old(hub)@),
    {
        if hub.shutdown_state.is_closed() || self.producer.is_closed(&hub.channel) {
            return SendProgress::Done(Err(StreamError::Closed));
        }
        match self.offer(hub, item) {
            Ok(()) => SendProgress::Done(Ok(())),
            Err(back) => SendProgress::Blocked(back),
        }
    }

    /// Whether an item was accepted and is not yet published.
    pub fn has_pending(&self) -> (pending: bool)
        ensures
            pending == self.pending() is Some,
    {
        self.pending_item.is_some()
    }

    /// Whether the sender cannot send: the stream or the sender's ring is closed.
    pub fn is_closed(&self, hub: &SenderFactory<T>) -> (closed: bool)
        requires
            hub.wf(),
        ensures
            closed == self.shut_out(hub@),
    {
        hub.shutdown_state.is_closed() || self.producer.is_closed(&hub.channel)
    }

    /// Closes the sender's ring.
    pub fn close(&self, hub: &mut SenderFactory<T>)
        requires
            old(hub).wf(),
        ensures
            final(hub).wf(),
            final(hub).config() == old(hub).config(),
            final(hub)@ == if self.bound_to(old(hub)) {
                StreamModel {
                    channel: old(hub)@.channel.with_ring(
                        self.ring_index(),
                        old(hub)@.channel.rings[self.ring_index()].after_close(),
                    ),
                    ..old(hub)@
                }
            } else {
                old(hub)@
            },
    {
        self.producer.close(&mut hub.channel);
    }

    // ----- the sink contract: readiness, start-send, flush, close -----

    /// Whether the sink can take an item. `Some(Err(Closed))` where the sender cannot
    /// send. Else a pending item is published first if the ring has room; while it
    /// cannot be published the answer is `None`: the caller waits for the
    /// space-available notifier and asks again. `Some(Ok(()))` says that no item is
    /// pending.
    pub fn poll_ready(&mut self, hub: &mut SenderFactory<T>) -> (ready: Option<
        Result<(), StreamError>,
    >)
        requires
            old(hub).wf(),
        ensures
            final(hub).wf(),
            final(hub).config() == old(hub).config(),
            final(self).ring_index() == old(self).ring_index(),
            old(self).shut_out(old(hub)@) ==> ready == Some(
                Err::<(), StreamError>(StreamError::Closed),
            ) && final(hub)@ == old(hub)@ && final(self).pending() == old(self).pending(),
            !old(self).shut_out(old(hub)@) ==> match old(self).pending() {
                None => ready == Some(Ok::<(), StreamError>(())) && final(hub)@ == old(hub)@
                    && final(self).pending() is None,
                Some(item) => if old(self).has_room(old(hub)@) {
                    &&& ready == Some(Ok::<(), StreamError>(()))
                    &&& final(hub)@ == old(self).published(old(hub)@, item)
                    &&& final(self).pending() is None
                } else {
                    &&& ready is None
                    &&& final(hub)@ == old(self).refused(old(hub)@)
                    &&& final(self).pending() == Some(item)
                },
            },
    {
        if hub.shutdown_state.is_closed() || self.producer.is_closed(&hub.channel) {
            return Some(Err(StreamError::Closed));
        }
        match self.pending_item.take() {
            Some(item) => match self.offer(hub, item) {
                Ok(()) => Some(Ok(())),
                Err(back) => {
                    self.pending_item = Some(back);
                    None
                },
            },
            None => Some(Ok(())),
        }
    }

    /// Takes `item` into the sink, after `poll_ready` reported that no item is
    /// pending. `Err(Closed)` where the sender cannot send; the item is dropped.
    /// Else the item is published, and the data-arrived notifier pulsed, if the ring
    /// has room, and kept as the pending item if not.
    pub fn start_send(&mut self, hub: &mut SenderFactory<T>, item: T) -> (result: Result<
        (),
        StreamError,
    >)
        requires
            old(hub).wf(),
            old(self).pending() is None,
        ensures
            final(hub).wf(),
            final(hub).config() == old(hub).config(),
            final(self).ring_index() == old(self).ring_index(),
            old(self).shut_out(old(hub)@) ==> result == Err::<(), StreamError>(
                StreamError::Closed,
            ) && final(hub)@ == old(hub)@ && final(self).pending() is None,
            !old(self).shut_out(old(hub)@) ==> result == Ok::<(), StreamError>(()),
            !old(self).shut_out(old(hub)@) && old(self).has_room(old(hub)@) ==> final(hub)@
                == old(self).published(old(hub)@, item) && final(self).pending() is None,
            !old(self).shut_out(old(hub)@) && !old(self).has_room(old(hub)@) ==> final(hub)@
                == old(self).refused(old(hub)@) && final(self).pending() == Some(item),
    {
        if hub.shutdown_state.is_closed() || self.producer.is_closed(&hub.channel) {
            return Err(StreamError::Closed);
        }
        match self.offer(hub, item) {
            Ok(()) => Ok(()),
            Err(back) => {
                self.pending_item = Some(back);
                Ok(())
            },
        }
    }

    /// Publishes the pending item, if any, as `poll_ready` does. `Some(Ok(()))` says
    /// that no item is pending any more.
    pub fn poll_flush(&mut self, hub: &mut SenderFactory<T>) -> (flushed: Option<
        Result<(), StreamError>,
    >)
        requires
            old(hub).wf(),
        ensures
            final(hub).wf(),
            final(hub).config() == old(hub).config(),
            final(self).ring_index() == old(self).ring_index(),
            old(self).shut_out(old(hub)@) ==> flushed == Some(
                Err::<(), StreamError>(StreamError::Closed),
            ) && final(hub)@ == old(hub)@ && final(self).pending() == old(self).pending(),
            !old(self).shut_out(old(hub)@) ==> match old(self).pending() {
                None => flushed == Some(Ok::<(), StreamError>(())) && final(hub)@ == old(hub)@
                    && final(self).pending() is None,
                Some(item) => if old(self).has_room(old(hub)@) {
                    &&& flushed == Some(Ok::<(), StreamError>(()))
                    &&& final(hub)@ == old(self).published(old(hub)@, item)
                    &&& final(self).pending() is None
                } else {
                    &&& flushed is None
                    &&& final(hub)@ == old(self).refused(old(hub)@)
                    &&& final(self).pending() == Some(item)
                },
            },
    {
        self.poll_ready(hub)
    }

    /// Closes the sink: publishes the pending item as `poll_flush` does and, once
    /// none is pending, closes the sender's ring. The answer is that of the flush.
    pub fn poll_close(&mut self, hub: &mut SenderFactory<T>) -> (closed: Option<
        Result<(), StreamError>,
    >)
        requires
            old(hub).wf(),
        ensures
            final(hub).wf(),
            final(hub).config() == old(hub).config(),
            final(self).ring_index() == old(self).ring_index(),
            old(self).shut_out(old(hub)@) ==> closed == Some(
                Err::<(), StreamError>(StreamError::Closed),
            ) && final(hub)@ == old(hub)@ && final(self).pending() == old(self).pending(),
            !old(self).shut_out(old(hub)@) && old(self).pending() is Some && !old(self).has_room(
                old(hub)@,
            ) ==> closed is None && final(hub)@ == old(self).refused(old(hub)@)
                && final(self).pending() == old(self).pending(),
            !old(self).shut_out(old(hub)@) && (old(self).pending() is None || old(self).has_room(
                old(hub)@,
            )) ==> {
                &&& closed == Some(Ok::<(), StreamError>(()))
                &&& final(self).pending() is None
                &&& final(self).shut_out(final(hub)@)
                &&& final(hub)@.channel.rings[old(self).ring_index()].items() == match old(
                    self,
                ).pending() {
                    None => old(hub)@.channel.rings[old(self).ring_index()].items(),
                    Some(item) => old(hub)@.channel.rings[old(self).ring_index()].items().push(
                        item,
                    ),
                }
            },
    {
        match self.poll_flush(hub) {
            None => None,
            Some(Err(error)) => Some(Err(error)),
            Some(Ok(())) => {
                proof {
                    let ring = old(hub)@.channel.rings[old(self).ring_index()];
                    assert(old(hub).channel.ring(old(self).ring_index()).wf());
                    if old(self).pending() is Some {
                        ring.lemma_after_push(old(self).pending().unwrap());
                        ring.lemma_bounded();
                    }
                    hub@.channel.rings[self.ring_index()].lemma_after_close();
                }
                self.producer.close(&mut hub.channel);
                Some(Ok(()))
            },
        }
    }
}

} // verus!
