//! Core of a host-metrics distribution service.
//!
//! A sampler publishes per-core utilization snapshots into a [`Distributor`],
//! which keeps the most recent one for pull-style readers and fans each
//! publish out to any number of subscriptions. Every subscription is a
//! one-element mailbox that a new publish overwrites, so publishing never
//! waits on a slow consumer; a stalled consumer sees an order-preserving
//! subsequence of the published snapshots, never a reordering or a stale
//! duplicate.

pub mod distributor;
pub mod laws;
pub mod model;
pub mod snapshot;

pub use distributor::Distributor;
pub use snapshot::Snapshot;
