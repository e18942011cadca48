//! A verified coordination core for a fixed-size pool of concurrent
//! download workers.
//!
//! A single control loop (the aggregator) drains one shared event channel
//! fed by the workers, a keyboard listener and a periodic ticker.  It owns
//! all mutable run state: the pending backlog, the per-worker in-progress
//! registry, and the logs of completed and failed tasks.  This crate holds
//! that state machine and the arithmetic the workers use to report
//! progress; the surrounding process supplies the channels, the transport
//! that fetches bytes, and the terminal front end.

pub mod event;
pub mod pacing;
pub mod pool;
pub mod task;
pub mod worker;
