//! A fixed-size worker pool, modelled and verified.
//!
//! A pool owns a fixed number of workers and the sending end of a dispatch
//! channel. Submitted tasks travel the channel first-in-first-out; idle
//! workers race to take the next message and execute the task they win.
//! Shutdown enqueues one terminate signal per worker behind all pending
//! work, so every submitted task is dispatched before any worker exits.
//!
//! The model keeps ledgers of the tasks submitted, started and completed.
//! The pool invariant ties the ledgers to the channel and to the workers,
//! and the laws in [`laws`] derive the pool's guarantees from it: every
//! task runs exactly once, dispatch is first-in-first-out, a drained
//! shutdown leaves no worker running, and execution is not serialized
//! through the receive lock.

pub mod channel;
pub mod laws;
pub mod message;
pub mod pool;
pub mod worker;
