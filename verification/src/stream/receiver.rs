//! The receiving half of a stream.

use vstd::prelude::*;
use crate::stream::config::StreamConfig;
use crate::stream::factory::{SenderFactory, StreamModel};

verus! {

/// What a poll of the receiver came to.
#[derive(Debug)]
pub enum NextStep<T> {
    /// The next item of the stream.
    Item(T),
    /// The stream has ended.
    End,
    /// A data-arrived pulse was waiting: the caller polls again at once.
    Repoll,
    /// Nothing to yield yet: the caller looks at the timer and reports through
    /// `after_timer`.
    Timer,
    /// Nothing to yield: the caller sleeps until the data-arrived notifier or the
    /// timer wakes it.
    Pending,
}

/// The state of a receiver.
pub ghost struct ReceiverModel<T> {
    /// The items taken from the rings and not yet yielded, oldest first.
    pub buffer: Seq<T>,
    /// Whether a data-arrived pulse was taken and the rings not yet looked at.
    pub data_pending: bool,
    /// Whether the final drain of a shutdown was made.
    pub drain_complete: bool,
    /// Whether the receiver triggered a shutdown.
    pub shutdown_sent: bool,
    /// Whether the receiver has acted on the shutdown it triggered.
    pub shutdown_seen: bool,
    /// The number of items to take from the rings per wake-up.
    pub batch_hint: nat,
}

impl<T> ReceiverModel<T> {
    /// A receiver that has taken nothing yet.
    pub open spec fn fresh(batch_hint: nat) -> Self {
        ReceiverModel {
            buffer: Seq::empty(),
            data_pending: false,
            drain_complete: false,
            shutdown_sent: false,
            shutdown_seen: false,
            batch_hint,
        }
    }

    /// Whether the next poll makes the final drain: the receiver triggered a
    /// shutdown and has not acted on it yet.
    pub open spec fn shutdown_due(self) -> bool {
        self.shutdown_sent && !self.shutdown_seen
    }

    /// The budget of the drain that a poll makes on the strength of a data-arrived
    /// pulse taken earlier.
    pub open spec fn poll_budget(self) -> nat {
        if self.data_pending {
            self.batch_hint
        } else {
            0
        }
    }

    /// The budget of the drain that the receiver makes after a look at the timer.
    pub open spec fn timer_budget(self, fired: bool) -> nat {
        if fired {
            self.batch_hint
        } else {
            0
        }
    }
}

/// The receiver of a stream: the items taken from the rings and not yet yielded, and
/// where the receiver stands in a shutdown.
pub struct RingReceiver<T> {
    config: StreamConfig,
    buffer: std::collections::VecDeque<T>,
    data_pending: bool,
    drain_complete: bool,
    shutdown_sent: bool,
    shutdown_seen: bool,
}

impl<T> View for RingReceiver<T> {
    type V = ReceiverModel<T>;

    closed spec fn view(&self) -> ReceiverModel<T> {
        ReceiverModel {
            buffer: self.buffer@,
            data_pending: self.data_pending,
            drain_complete: self.drain_complete,
            shutdown_sent: self.shutdown_sent,
            shutdown_seen: self.shutdown_seen,
            batch_hint: self.config.batch_hint as nat,
        }
    }
}

impl<T> RingReceiver<T> {
    /// The settings of the receiver.
    pub closed spec fn config(&self) -> StreamConfig {
        self.config
    }

    /// The receiver is new and has the given settings.
    pub open spec fn is_fresh(&self, config: StreamConfig) -> bool {
        &&& self.config() == config
        &&& self@ == ReceiverModel::<T>::fresh(config.batch_hint as nat)
    }

    /// A receiver that has taken nothing yet.
    pub(crate) fn new(config: StreamConfig) -> (receiver: Self)
        ensures
            receiver.is_fresh(config),
    {
        RingReceiver {
            config,
            buffer: std::collections::VecDeque::new(),
            data_pending: false,
            drain_complete: false,
            shutdown_sent: false,
            shutdown_seen: false,
        }
    }

    /// Triggers a graceful shutdown: the stream is marked as shutting down and
    /// closed, the space-available notifier is pulsed so that senders waiting for room
    /// see the closure, and the next poll makes the final drain. The stream goes on
    /// yielding what was in flight and then ends. A second call changes nothing.
    pub fn shutdown(&mut self, hub: &mut SenderFactory<T>)
        requires
            old(hub).wf(),
        ensures
            final(hub).wf(),
            final(hub).config() == old(hub).config(),
            final(self).config() == old(self).config(),
            final(self)@ == (ReceiverModel { shutdown_sent: true, ..old(self)@ }),
            final(hub)@ == if old(self)@.shutdown_sent {
                old(hub)@
            } else {
                old(hub)@.shut()
            },
    {
        if !self.shutdown_sent {
            hub.begin_shutdown();
            self.shutdown_sent = true;
        }
    }

    /// Whether a shutdown was begun.
    pub fn is_shutdown(&self, hub: &SenderFactory<T>) -> (initiated: bool)
        ensures
            initiated == hub@.shutdown_initiated,
    {
        hub.is_shutdown_initiated()
    }

    /// A handle that triggers the shutdown from elsewhere.
    pub fn shutdown_signal(&self) -> (signal: crate::stream::shutdown::ShutdownSignal) {
        crate::stream::shutdown::ShutdownSignal {  }
    }

    /// The number of items taken from the rings and not yet yielded.
    pub fn buffered_count(&self) -> (count: usize)
        ensures
            count == self@.buffer.len(),
    {
        self.buffer.len()
    }

    /// Moves the items of `staged` to the back of the buffer, in order.
    fn stash(&mut self, staged: Vec<T>)
        ensures
            final(self).config() == old(self).config(),
            final(self)@ == (ReceiverModel { buffer: old(self)@.buffer + staged@, ..old(self)@ }),
    {
        let ghost all = staged@;
        for item in it: staged
            invariant
                self.buffer@ == old(self).buffer@ + all.take(it.index() as int),
                it.seq() == all,
                self.config == old(self).config,
                self.data_pending == old(self).data_pending,
                self.drain_complete == old(self).drain_complete,
                self.shutdown_sent == old(self).shutdown_sent,
                self.shutdown_seen == old(self).shutdown_seen,
        {
            self.buffer.push_back(item);
            proof {
                assert(self.buffer@ =~= old(self).buffer@ + all.take(it.index() + 1));
            }
        }
        proof {
            assert(all.take(all.len() as int) =~= all);
        }
    }

    /// Takes everything that is in flight into the buffer. Returns how many items
    /// were taken.
    fn drain_all(&mut self, hub: &mut SenderFactory<T>) -> (drained: usize)
        requires
            old(hub).wf(),
        ensures
            final(hub).wf(),
            final(hub).config() == old(hub).config(),
            final(self).config() == old(self).config(),
            drained == old(hub)@.channel.all_items(old(hub)@.channel.producer_count).len(),
            final(self)@ == (ReceiverModel {
                buffer: old(self)@.buffer + old(hub)@.channel.all_items(
                    old(hub)@.channel.producer_count,
                ),
                ..old(self)@
            }),
            final(hub)@ == (StreamModel { channel: old(hub)@.channel.after_take_all(), ..old(hub)@ }),
    {
        proof {
            hub@.channel.lemma_delivered_len(hub@.channel.producer_count, 0);
        }
        let mut staged: Vec<T> = Vec::new();
        let drained: usize = hub.channel.consume_all_owned(&mut staged);
        proof {
            assert(staged@ =~= old(hub)@.channel.all_items(old(hub)@.channel.producer_count));
        }
        self.stash(staged);
        drained
    }

    /// Takes up to `limit` items of what is in flight into the buffer. Returns how
    /// many items were taken.
    fn drain_batch(&mut self, hub: &mut SenderFactory<T>, limit: usize) -> (drained: usize)
        requires
            old(hub).wf(),
        ensures
            final(hub).wf(),
            final(hub).config() == old(hub).config(),
            final(self).config() == old(self).config(),
            drained == old(hub)@.channel.delivered(
                old(hub)@.channel.producer_count,
                limit as nat,
            ).len(),
            final(self)@ == (ReceiverModel {
                buffer: old(self)@.buffer + old(hub)@.channel.delivered(
                    old(hub)@.channel.producer_count,
                    limit as nat,
                ),
                ..old(self)@
            }),
            final(hub)@ == (StreamModel {
                channel: old(hub)@.channel.after_take_up_to(limit as nat),
                ..old(hub)@
            }),
    {
        proof {
            hub@.channel.lemma_delivered_len(hub@.channel.producer_count, limit as nat);
        }
        let mut staged: Vec<T> = Vec::new();
        let drained: usize = hub.channel.consume_all_up_to_owned(limit, &mut staged);
        proof {
            assert(staged@ =~= old(hub)@.channel.delivered(
                old(hub)@.channel.producer_count,
                limit as nat,
            ));
        }
        self.stash(staged);
        drained
    }

    /// Takes the oldest buffered item, if there is one.
    fn next_buffered(&mut self) -> (item: Option<T>)
        ensures
            final(self).config() == old(self).config(),
            old(self)@.buffer.len() == 0 ==> item is None && final(self)@ == old(self)@,
            old(self)@.buffer.len() > 0 ==> item == Some(old(self)@.buffer[0]) && final(self)@
                == (ReceiverModel { buffer: old(self)@.buffer.skip(1), ..old(self)@ }),
    {
        let item = self.buffer.pop_front();
        proof {
            if old(self)@.buffer.len() > 0 {
                assert(self.buffer@ =~= old(self)@.buffer.skip(1));
            } else {
                assert(self.buffer@ =~= old(self)@.buffer);
            }
        }
        item
    }

    /// One poll of the stream, up to the look at the timer.
    ///
    /// A buffered item is yielded first. With nothing buffered: after the final drain
    /// of a shutdown the stream has ended. Where the receiver triggered a shutdown and
    /// has not acted on it, everything in flight is taken, the space-available
    /// notifier is pulsed, and the first item is yielded, or the stream ends if there
    /// is none. Else, where a data-arrived pulse was taken earlier, up to `batch_hint`
    /// items are taken, and if any were, the space-available notifier is pulsed and
    /// the first is yielded. With still nothing to yield, a waiting data-arrived pulse
    /// is taken and the caller polls again; without one the caller looks at the timer.
    pub fn poll_next(&mut self, hub: &mut SenderFactory<T>) -> (step: NextStep<T>)
        requires
            old(hub).wf(),
        ensures
            final(hub).wf(),
            final(hub).config() == old(hub).config(),
            final(self).config() == old(self).config(),
            old(self)@.buffer.len() > 0 ==> {
                &&& step == NextStep::Item(old(self)@.buffer[0])
                &&& final(self)@ == (ReceiverModel { buffer: old(self)@.buffer.skip(1), ..old(self)@ })
                &&& final(hub)@ == old(hub)@
            },
            old(self)@.buffer.len() == 0 && old(self)@.drain_complete ==> {
                &&& step == NextStep::<T>::End
                &&& final(self)@ == old(self)@
                &&& final(hub)@ == old(hub)@
            },
            old(self)@.buffer.len() == 0 && !old(self)@.drain_complete && old(self)@.shutdown_due()
                ==> {
                let in_flight = old(hub)@.channel.all_items(old(hub)@.channel.producer_count);
                &&& final(hub)@ == (StreamModel {
                    channel: old(hub)@.channel.after_take_all(),
                    ..old(hub)@
                }).space_pulsed()
                &&& final(self)@ == (ReceiverModel {
                    buffer: if in_flight.len() > 0 {
                        in_flight.skip(1)
                    } else {
                        in_flight
                    },
                    drain_complete: true,
                    shutdown_seen: true,
                    ..old(self)@
                })
                &&& step == if in_flight.len() > 0 {
                    NextStep::Item(in_flight[0])
                } else {
                    NextStep::End
                }
            },
            old(self)@.buffer.len() == 0 && !old(self)@.drain_complete && !old(self)@.shutdown_due()
                ==> {
                let taken = old(hub)@.channel.delivered(
                    old(hub)@.channel.producer_count,
                    old(self)@.poll_budget(),
                );
                let drained = StreamModel {
                    channel: old(hub)@.channel.after_take_up_to(old(self)@.poll_budget()),
                    ..old(hub)@
                };
                if taken.len() > 0 {
                    &&& step == NextStep::Item(taken[0])
                    &&& final(self)@ == (ReceiverModel {
                        buffer: taken.skip(1),
                        data_pending: false,
                        ..old(self)@
                    })
                    &&& final(hub)@ == drained.space_pulsed()
                } else if old(hub)@.data_waiting {
                    &&& step == NextStep::<T>::Repoll
                    &&& final(self)@ == (ReceiverModel { data_pending: true, ..old(self)@ })
                    &&& final(hub)@ == (StreamModel { data_waiting: false, ..drained })
                } else {
                    &&& step == NextStep::<T>::Timer
                    &&& final(self)@ == (ReceiverModel { data_pending: false, ..old(self)@ })
                    &&& final(hub)@ == drained
                }
            },
    {
        if let Some(item) = self.next_buffered() {
            return NextStep::Item(item);
        }
        if self.drain_complete {
            return NextStep::End;
        }
        if !self.shutdown_seen && self.shutdown_sent {
            self.shutdown_seen = true;
            let _drained: usize = self.drain_all(hub);
            hub.backpressure_notify.notify();
            self.drain_complete = true;
            proof {
                let in_flight = old(hub)@.channel.all_items(old(hub)@.channel.producer_count);
                assert(old(self)@.buffer + in_flight =~= in_flight);
            }
            return match self.next_buffered() {
                Some(item) => NextStep::Item(item),
                None => NextStep::End,
            };
        }
        proof {
            old(hub)@.channel.lemma_no_budget(old(hub)@.channel.producer_count);
        }
        if self.data_pending {
            self.data_pending = false;
            let batch_limit: usize = self.config.batch_hint.saturating_sub(self.buffer.len());
            if batch_limit > 0 {
                let _drained: usize = self.drain_batch(hub, batch_limit);
                if self.buffer.len() > 0 {
                    hub.backpressure_notify.notify();
                }
            }
        }
        proof {
            let taken = old(hub)@.channel.delivered(
                old(hub)@.channel.producer_count,
                old(self)@.poll_budget(),
            );
            assert(old(self)@.buffer + taken =~= taken);
        }
        if let Some(item) = self.next_buffered() {
            return NextStep::Item(item);
        }
        if hub.data_notify.take() {
            self.data_pending = true;
            return NextStep::Repoll;
        }
        NextStep::Timer
    }

    /// The rest of a poll, after the caller looked at the timer because `poll_next`
    /// asked for it; `fired` tells whether the timer had fired.
    ///
    /// A buffered item is yielded first. With nothing buffered: where the timer fired,
    /// up to `batch_hint` items are taken, and if any were, the space-available
    /// notifier is pulsed and the first is yielded. With still nothing to yield, and
    /// the stream closed, everything in flight is taken; if there is any, the
    /// space-available notifier is pulsed and the first item is yielded; if not, the
    /// stream ends. In an open stream with nothing to yield the caller sleeps.
    pub fn after_timer(&mut self, hub: &mut SenderFactory<T>, fired: bool) -> (step: NextStep<T>)
        requires
            old(hub).wf(),
        ensures
            final(hub).wf(),
            final(hub).config() == old(hub).config(),
            final(self).config() == old(self).config(),
            old(self)@.buffer.len() > 0 ==> {
                &&& step == NextStep::Item(old(self)@.buffer[0])
                &&& final(self)@ == (ReceiverModel { buffer: old(self)@.buffer.skip(1), ..old(self)@ })
                &&& final(hub)@ == old(hub)@
            },
            old(self)@.buffer.len() == 0 ==> {
                let budget = old(self)@.timer_budget(fired);
                let count = old(hub)@.channel.producer_count;
                let taken = old(hub)@.channel.delivered(count, budget);
                let after_batch = old(hub)@.channel.after_take_up_to(budget);
                let rest = after_batch.all_items(count);
                if taken.len() > 0 {
                    &&& step == NextStep::Item(taken[0])
                    &&& final(self)@ == (ReceiverModel { buffer: taken.skip(1), ..old(self)@ })
                    &&& final(hub)@ == (StreamModel { channel: after_batch, ..old(hub)@ }).space_pulsed()
                } else if !old(hub)@.closed {
                    &&& step == NextStep::<T>::Pending
                    &&& final(self)@ == old(self)@
                    &&& final(hub)@ == (StreamModel { channel: after_batch, ..old(hub)@ })
                } else if rest.len() > 0 {
                    &&& step == NextStep::Item(rest[0])
                    &&& final(self)@ == (ReceiverModel { buffer: rest.skip(1), ..old(self)@ })
                    &&& final(hub)@ == (StreamModel {
                        channel: after_batch.after_take_all(),
                        ..old(hub)@
                    }).space_pulsed()
                } else {
                    &&& step == NextStep::<T>::End
                    &&& final(self)@ == old(self)@
                    &&& final(hub)@ == (StreamModel {
                        channel: after_batch.after_take_all(),
                        ..old(hub)@
                    })
                }
            },
    {
        if let Some(item) = self.next_buffered() {
            return NextStep::Item(item);
        }
        proof {
            old(hub)@.channel.lemma_no_budget(old(hub)@.channel.producer_count);
        }
        if fired {
            let batch_limit: usize = self.config.batch_hint.saturating_sub(self.buffer.len());
            if batch_limit > 0 {
                let count: usize = self.drain_batch(hub, batch_limit);
                proof {
                    let taken = old(hub)@.channel.delivered(
                        old(hub)@.channel.producer_count,
                        old(self)@.timer_budget(fired),
                    );
                    assert(old(self)@.buffer + taken =~= taken);
                }
                if count > 0 {
                    hub.backpressure_notify.notify();
                    if let Some(item) = self.next_buffered() {
                        return NextStep::Item(item);
                    }
                }
            }
        }
        if hub.shutdown_state.is_closed() {
            let ghost before = hub@;
            let found: usize = self.drain_all(hub);
            proof {
                let rest = before.channel.all_items(before.channel.producer_count);
                assert(old(self)@.buffer + rest =~= rest);
                assert(Seq::<T>::empty() + rest =~= rest);
            }
            if found > 0 {
                hub.backpressure_notify.notify();
                if let Some(item) = self.next_buffered() {
                    return NextStep::Item(item);
                }
            }
            return NextStep::End;
        }
        NextStep::Pending
    }
}

} // verus!
