//! A bounded multi-producer single-consumer channel built from one
//! single-producer single-consumer ring per producer.

pub mod backoff;
pub mod channel;
pub mod channel_model;
pub mod config;
pub mod laws;
pub mod metrics;
pub mod reservation;
pub mod ring;
pub mod ring_model;
pub mod sequence;
pub mod stack_channel;
pub mod stack_ring;
pub mod stream;

pub use backoff::Backoff;
pub use channel::{Channel, ChannelError, Producer};
pub use config::Config;
pub use metrics::Metrics;
pub use reservation::{CommitError, Reservation};
pub use ring::Ring;
pub use stack_channel::{StackChannel, StackChannelError, StackProducer};
pub use stack_ring::StackRing;
