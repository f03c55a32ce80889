//! Phase routing: bit-packed support matrices, rank/select over them, and
//! the cyclic-phase routing kernels built on top.

pub mod bitspec;
pub mod bitsupport;
pub mod rows;
pub mod rng;
pub mod reservoir;
pub mod router;
pub mod router_rs;
pub mod capacity;
pub mod bitops;
pub mod dispatch;
pub mod metrics;
pub mod workloads;
