//! Keyed-list reconciliation and hydration addressing.
//!
//! The crate computes, from two keyed snapshots of a reactive sequence, the
//! minimal remove/move/add operations that turn the first into the second,
//! applies them to a live list of mount slots while preserving the mounted
//! subtree of every key present in both snapshots, and assigns the stable,
//! order-dependent marker identifiers that let a client pass re-attach to
//! markup produced by a prior server pass.

pub mod diff;
pub mod each;
pub mod hydration;
pub mod slots;
