//! An embedded function-execution runtime for a key-value store.
//!
//! Handlers, grouped into named libraries, are triggered by appends to
//! log-structured stream keys or by key-mutation notifications. The crate
//! verifies the event-sourcing consumption engine (ordered, acknowledged,
//! checkpointed deliveries with a bounded in-flight window per stream) and
//! the library lifecycle transaction (load, hot upgrade with full rollback
//! on failure, delete). All host I/O - reading stream records, replicating
//! checkpoints, trimming, invoking compiled handlers - is left to the
//! embedding program, which drives the engine through plain values.

pub mod api;
pub mod background;
pub mod keys;
pub mod keys_notifications;
pub mod lifecycle;
pub mod stream_reader;
