//! The state that the parts of a stream share, and the registration of senders.

use vstd::prelude::*;
use crate::channel::Channel;
use crate::channel_model::ChannelModel;
use crate::config::Config;
use crate::stream::config::StreamConfig;
use crate::stream::error::StreamError;
use crate::stream::receiver::RingReceiver;
use crate::stream::sender::RingSender;
use crate::stream::shutdown::{Notifier, ShutdownState};

verus! {

/// The state of a stream that its parts share.
pub ghost struct StreamModel<T> {
    /// The channel.
    pub channel: ChannelModel<T>,
    /// Whether the stream is closed for registration and sending.
    pub closed: bool,
    /// Whether a shutdown was begun.
    pub shutdown_initiated: bool,
    /// Whether a data-arrived pulse waits for the receiver.
    pub data_waiting: bool,
    /// The number of data-arrived pulses raised so far.
    pub data_raised: nat,
    /// Whether a space-available pulse waits to be passed on to the waiting senders.
    pub space_waiting: bool,
    /// The number of space-available pulses raised so far.
    pub space_raised: nat,
}

impl<T> StreamModel<T> {
    /// The stream after a data-arrived pulse.
    pub open spec fn data_pulsed(self) -> Self {
        StreamModel { data_waiting: true, data_raised: self.data_raised + 1, ..self }
    }

    /// The stream after a space-available pulse.
    pub open spec fn space_pulsed(self) -> Self {
        StreamModel { space_waiting: true, space_raised: self.space_raised + 1, ..self }
    }

    /// The stream after a shutdown was begun: it is marked as shutting down and
    /// closed, and the space-available notifier was pulsed.
    pub open spec fn shut(self) -> Self {
        StreamModel { closed: true, shutdown_initiated: true, ..self }.space_pulsed()
    }

    /// The stream after a shutdown signal: the first one begins the shutdown, a later
    /// one changes nothing.
    pub open spec fn after_signal(self) -> Self {
        if self.shutdown_initiated {
            self
        } else {
            self.shut()
        }
    }

    /// The stream after the factory closed it: the stream and the channel are closed.
    pub open spec fn after_close(self) -> Self {
        StreamModel { closed: true, channel: self.channel.after_close(), ..self }
    }

    /// Whether a registration succeeds.
    pub open spec fn registers(self) -> bool {
        !self.closed && self.channel.registers()
    }

    /// The stream after a registration, granted or not.
    pub open spec fn after_register(self) -> Self {
        if self.closed {
            self
        } else {
            StreamModel { channel: self.channel.after_register(), ..self }
        }
    }
}

/// What the senders and the receiver of one stream share: the channel, the two
/// notifiers and the shutdown flags. It registers the senders. The senders and the
/// receiver take it as an argument of each step.
pub struct SenderFactory<T> {
    pub(crate) channel: Channel<T>,
    pub(crate) data_notify: Notifier,
    pub(crate) backpressure_notify: Notifier,
    pub(crate) shutdown_state: ShutdownState,
}

impl<T> View for SenderFactory<T> {
    type V = StreamModel<T>;

    open spec fn view(&self) -> StreamModel<T> {
        StreamModel {
            channel: self.channel_spec()@,
            closed: self.flags().closed_spec(),
            shutdown_initiated: self.flags().initiated_spec(),
            data_waiting: self.data_notifier().waiting(),
            data_raised: self.data_notifier().raised(),
            space_waiting: self.space_notifier().waiting(),
            space_raised: self.space_notifier().raised(),
        }
    }
}

impl<T> SenderFactory<T> {
    /// The channel.
    pub open(crate) spec fn channel_spec(&self) -> Channel<T> {
        self.channel
    }

    /// The shutdown flags.
    pub open(crate) spec fn flags(&self) -> ShutdownState {
        self.shutdown_state
    }

    /// The data-arrived notifier.
    pub open(crate) spec fn data_notifier(&self) -> Notifier {
        self.data_notify
    }

    /// The space-available notifier.
    pub open(crate) spec fn space_notifier(&self) -> Notifier {
        self.backpressure_notify
    }

    /// The configuration of the channel.
    pub open(crate) spec fn config(&self) -> Config {
        self.channel.config()
    }

    /// The shared state is well formed: its channel is.
    pub open spec fn wf(&self) -> bool {
        self.channel_spec().wf()
    }

    /// Registers a sender. A closed stream refuses with `Closed`; where the channel
    /// refuses, its reason is passed on as `RegistrationFailed`. A refusal changes
    /// nothing.
    pub fn register(&mut self) -> (result: Result<RingSender<T>, StreamError>)
        requires
            old(self).wf(),
        ensures
            final(self).wf(),
            final(self).config() == old(self).config(),
            final(self)@ == old(self)@.after_register(),
            result is Ok <==> old(self)@.registers(),
            result matches Ok(sender) ==> {
                &&& sender.ring_index() == old(self)@.channel.producer_count
                &&& sender.pending() is None
                &&& sender.bound_to(final(self))
            },
            result matches Err(error) ==> error == if old(self)@.closed {
                StreamError::Closed
            } else if old(self)@.channel.closed {
                StreamError::RegistrationFailed(crate::channel::ChannelError::Closed)
            } else {
                StreamError::RegistrationFailed(
                    crate::channel::ChannelError::TooManyProducers {
                        max: old(self)@.channel.max_producers() as usize,
                    },
                )
            },
    {
        if self.shutdown_state.is_closed() {
            return Err(StreamError::Closed);
        }
        match self.channel.register() {
            Ok(producer) => Ok(RingSender::new(producer)),
            Err(error) => Err(StreamError::from(error)),
        }
    }

    /// Closes the stream for registration and closes the channel. What is in flight
    /// can still be drained.
    pub fn close(&mut self)
        requires
            old(self).wf(),
        ensures
            final(self).wf(),
            final(self).config() == old(self).config(),
            final(self)@ == old(self)@.after_close(),
    {
        self.shutdown_state.close();
        self.channel.close();
    }

    /// Whether the stream is closed for registration.
    pub fn is_closed(&self) -> (closed: bool)
        ensures
            closed == self@.closed,
    {
        self.shutdown_state.is_closed()
    }

    /// The number of senders registered so far.
    pub fn producer_count(&self) -> (count: usize)
        ensures
            count == self@.channel.producer_count,
    {
        self.channel.producer_count()
    }

    /// Whether a shutdown was begun.
    pub fn is_shutdown_initiated(&self) -> (initiated: bool)
        ensures
            initiated == self@.shutdown_initiated,
    {
        self.shutdown_state.is_shutdown_initiated()
    }

    /// Begins a shutdown: marks the stream as shutting down and closed, and pulses
    /// the space-available notifier.
    pub fn begin_shutdown(&mut self)
        requires
            old(self).wf(),
        ensures
            final(self).wf(),
            final(self).config() == old(self).config(),
            final(self)@ == old(self)@.shut(),
    {
        self.shutdown_state.initiate_shutdown();
        self.shutdown_state.close();
        self.backpressure_notify.notify();
    }

    /// Takes the waiting space-available pulse, if there is one: the caller wakes
    /// every sender that waits for room.
    pub fn take_space_available(&mut self) -> (pulsed: bool)
        ensures
            pulsed == old(self)@.space_waiting,
            final(self)@ == (StreamModel { space_waiting: false, ..old(self)@ }),
            final(self).channel_spec() == old(self).channel_spec(),
    {
        self.backpressure_notify.take()
    }

    /// Whether a data-arrived pulse waits for the receiver: the caller wakes the
    /// receiver if it sleeps.
    pub fn data_arrived(&self) -> (waiting: bool)
        ensures
            waiting == self@.data_waiting,
    {
        self.data_notify.is_waiting()
    }
}

/// A new stream over a channel with the given configuration and the default stream
/// settings: the shared state with which senders are registered, and the receiver.
pub fn channel<T>(config: Config) -> (parts: (SenderFactory<T>, RingReceiver<T>))
    requires
        config.valid(),
    ensures
        parts.0.wf(),
        parts.0.config() == config,
        parts.0@ == fresh_stream::<T>(config),
        parts.1.is_fresh(StreamConfig { poll_interval_ms: 10, batch_hint: 64 }),
{
    channel_with_stream_config(config, StreamConfig::default())
}

/// The state of a new stream over a channel with configuration `config`.
pub open spec fn fresh_stream<T>(config: Config) -> StreamModel<T> {
    StreamModel {
        channel: ChannelModel::<T>::fresh(
            config.max_producers as nat,
            config.capacity_spec(),
            config.enable_metrics,
        ),
        closed: false,
        shutdown_initiated: false,
        data_waiting: false,
        data_raised: 0,
        space_waiting: false,
        space_raised: 0,
    }
}

/// A new stream over a channel with the given configuration and stream settings:
/// the shared state with which senders are registered, and the receiver.
pub fn channel_with_stream_config<T>(config: Config, stream_config: StreamConfig) -> (parts: (
    SenderFactory<T>,
    RingReceiver<T>,
))
    requires
        config.valid(),
    ensures
        parts.0.wf(),
        parts.0.config() == config,
        parts.0@ == fresh_stream::<T>(config),
        parts.1.is_fresh(stream_config),
{
    let factory = SenderFactory {
        channel: Channel::new(config),
        data_notify: Notifier::new(),
        backpressure_notify: Notifier::new(),
        shutdown_state: ShutdownState::new(),
    };
    let receiver = RingReceiver::new(stream_config);
    (factory, receiver)
}

} // verus!
