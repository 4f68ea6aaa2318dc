//! Work partitioning and result aggregation for a concurrent TCP port scanner.
//!
//! The port space `1..=65535` is split among a fixed number of workers by
//! stride; each worker walks its own share, and the ports that accepted a
//! connection are gathered and returned in ascending order.

pub mod aggregate;
pub mod partition;
pub mod scan;
