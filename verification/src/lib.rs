//! Shared-memory collectives for ranks that live on one host: the layout of
//! the shared window, the epoch barrier, the region spinlock, the two
//! sum-reduction algorithms and the broadcast handshake, each with a
//! machine-checked contract.

pub mod allreduce;
pub mod barrier;
pub mod bcast;
pub mod bench;
pub mod datatype;
pub mod group;
pub mod layout;
pub mod metrics;
pub mod mutex;
