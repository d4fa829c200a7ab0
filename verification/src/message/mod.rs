//! The decisions of a minimal message-passing layer: the schedules of the
//! binomial-tree broadcast and reduce of a group of processes, the ordering
//! of messages by iteration, and a backoff schedule for retries.
pub mod util;
pub mod orderer;
pub mod backoff;
pub mod comm;
