//! State accumulation and fan-out for a stream of transactional deltas.
//!
//! A single upstream producer issues transactions: `on_start`, one or more
//! `on_updates` batches of insert/delete operations, `on_commit`, and finally
//! one terminal `on_completed`. The [`accumulator::DistributingAccumulator`]
//! applies every operation to a materialized per-relation snapshot and
//! multicasts the identical call stream to any number of subscribed sinks.
//! Subscribers that join late through the direct path first receive a
//! synthetic catch-up transaction replaying the snapshot; completion is
//! translated into a synthetic tear-down transaction that deletes the whole
//! snapshot before the terminal signal is forwarded.

pub mod accumulator;
pub mod delta;
pub mod distributor;
pub mod sink;
pub mod store;
