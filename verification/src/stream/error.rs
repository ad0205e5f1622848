//! What can go wrong in the stream adapter.

use vstd::prelude::*;
use vstd::std_specs::convert::FromSpecImpl;
use crate::channel::ChannelError;

verus! {

/// The errors of the stream adapter.
#[derive(Debug, Clone, Copy, PartialEq, Eq, Structural)]
pub enum StreamError {
    /// The ring is full; the same send may succeed later.
    Full,
    /// The channel or the sender's ring is closed.
    Closed,
    /// The channel refused to register a producer.
    RegistrationFailed(ChannelError),
    /// The stream was shut down.
    ShutDown,
}

impl StreamError {
    /// Whether trying again can succeed: true of `Full` alone.
    pub fn is_recoverable(&self) -> (recoverable: bool)
        ensures
            recoverable == (*self == StreamError::Full),
    {
        match self {
            StreamError::Full => true,
            _ => false,
        }
    }

    /// Whether the channel can never be used again: true of `Closed` and `ShutDown`.
    pub fn is_terminal(&self) -> (terminal: bool)
        ensures
            terminal == (*self == StreamError::Closed || *self == StreamError::ShutDown),
    {
        match self {
            StreamError::Closed => true,
            StreamError::ShutDown => true,
            _ => false,
        }
    }
}

impl From<ChannelError> for StreamError {
    fn from(error: ChannelError) -> (converted: StreamError) {
        StreamError::RegistrationFailed(error)
    }
}

impl FromSpecImpl<ChannelError> for StreamError {
    open spec fn obeys_from_spec() -> bool {
        true
    }

    open spec fn from_spec(error: ChannelError) -> StreamError {
        StreamError::RegistrationFailed(error)
    }
}

} // verus!
