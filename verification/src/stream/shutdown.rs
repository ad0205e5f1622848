//! The flags and notifiers that the sender factory, the senders and the receiver
//! share, and the handle that triggers a shutdown from elsewhere.

use vstd::prelude::*;
use crate::stream::factory::SenderFactory;

verus! {

/// The two flags of a stream: closed for registration and sending, and shutdown
/// begun. Both are set once and never cleared.
#[derive(Debug)]
pub struct ShutdownState {
    closed: bool,
    shutdown_initiated: bool,
}

impl ShutdownState {
    /// Whether the stream is closed.
    pub closed spec fn closed_spec(&self) -> bool {
        self.closed
    }

    /// Whether a shutdown was begun.
    pub closed spec fn initiated_spec(&self) -> bool {
        self.shutdown_initiated
    }

    /// Both flags clear.
    pub fn new() -> (state: Self)
        ensures
            !state.closed_spec(),
            !state.initiated_spec(),
    {
        ShutdownState { closed: false, shutdown_initiated: false }
    }

    /// Closes the stream for registration and sending.
    pub fn close(&mut self)
        ensures
            final(self).closed_spec(),
            final(self).initiated_spec() == old(self).initiated_spec(),
    {
        self.closed = true;
    }

    /// Whether the stream is closed.
    pub fn is_closed(&self) -> (closed: bool)
        ensures
            closed == self.closed_spec(),
    {
        self.closed
    }

    /// Records that a shutdown was begun.
    pub fn initiate_shutdown(&mut self)
        ensures
            final(self).initiated_spec(),
            final(self).closed_spec() == old(self).closed_spec(),
    {
        self.shutdown_initiated = true;
    }

    /// Whether a shutdown was begun.
    pub fn is_shutdown_initiated(&self) -> (initiated: bool)
        ensures
            initiated == self.initiated_spec(),
    {
        self.shutdown_initiated
    }
}

/// A notifier as the steps of the adapter see it: whether a pulse is waiting to be
/// taken, and how many pulses were raised in all. Raising a pulse while one waits
/// leaves one waiting.
pub struct Notifier {
    waiting: bool,
    raised: Ghost<nat>,
}

impl Notifier {
    /// Whether a pulse waits to be taken.
    pub closed spec fn waiting(&self) -> bool {
        self.waiting
    }

    /// The number of pulses raised so far.
    pub closed spec fn raised(&self) -> nat {
        self.raised@
    }

    /// A notifier on which nothing was raised.
    pub fn new() -> (notifier: Self)
        ensures
            !notifier.waiting(),
            notifier.raised() == 0,
    {
        Notifier { waiting: false, raised: Ghost(0) }
    }

    /// Raises a pulse.
    pub fn notify(&mut self)
        ensures
            final(self).waiting(),
            final(self).raised() == old(self).raised() + 1,
    {
        self.waiting = true;
        self.raised = Ghost(self.raised@ + 1);
    }

    /// Takes the waiting pulse, if there is one, and tells whether there was.
    pub fn take(&mut self) -> (taken: bool)
        ensures
            taken == old(self).waiting(),
            !final(self).waiting(),
            final(self).raised() == old(self).raised(),
    {
        let taken: bool = self.waiting;
        self.waiting = false;
        taken
    }

    /// Whether a pulse waits to be taken.
    pub fn is_waiting(&self) -> (waiting: bool)
        ensures
            waiting == self.waiting(),
    {
        self.waiting
    }
}

/// A handle that triggers the shutdown of a stream from wherever it was passed to.
/// It can be copied freely; only the first trigger has an effect.
#[derive(Debug, Clone, Copy)]
pub struct ShutdownSignal {}

impl ShutdownSignal {
    /// Triggers a graceful shutdown: the stream is marked as shutting down and
    /// closed, and the space-available notifier is pulsed so that senders waiting for
    /// room see the closure. Where a shutdown was begun already nothing happens.
    pub fn shutdown<T>(&self, hub: &mut SenderFactory<T>)
        requires
            old(hub).wf(),
        ensures
            final(hub).wf(),
            final(hub)@ == old(hub)@.after_signal(),
    {
        if !hub.is_shutdown_initiated() {
            hub.begin_shutdown();
        }
    }

    /// Whether a shutdown was begun.
    pub fn is_shutdown<T>(&self, hub: &SenderFactory<T>) -> (initiated: bool)
        ensures
            initiated == hub@.shutdown_initiated,
    {
        hub.is_shutdown_initiated()
    }
}

} // verus!
