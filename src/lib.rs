//! A line-oriented message broker core: the wire form of messages, the
//! bounded overwrite-on-full buffer, the rotating two-file journal with its
//! recovery, the consumer offset snapshot and the per-connection session
//! decisions.
pub mod hex;
pub mod message;
pub mod buffer;
pub mod journal;
pub mod snapshot;
pub mod session;
