//! Durable per-queue, per-key event log core: storage key layout, sequence
//! allocation, retention and replay selection.

pub mod bytes;
pub mod event;
pub mod keys;
pub mod retention;
pub mod replay;
pub mod publish;
pub mod stitch;
