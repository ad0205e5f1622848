//! The adapter between the channel and a cooperative scheduler.
//!
//! The channel itself never waits. Here stand the decisions that turn it into a
//! stream with backpressure: what a sender does with an item when its ring is full,
//! what the receiver takes from the rings on each poll, which notifier is pulsed
//! when, and how a shutdown drains what is in flight. Each function is one step that
//! runs without waiting; its result tells the caller whether to go on, to wait for a
//! notifier or to look at the timer.

pub mod config;
pub mod error;
pub mod factory;
pub mod receiver;
pub mod sender;
pub mod shutdown;

pub use config::StreamConfig;
pub use error::StreamError;
pub use factory::{channel, channel_with_stream_config, SenderFactory, StreamModel};
pub use receiver::{NextStep, RingReceiver};
pub use sender::{RingSender, SendProgress};
pub use shutdown::{Notifier, ShutdownSignal, ShutdownState};
