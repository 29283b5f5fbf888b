//! A shared-memory bridge between a trusted host and sandboxed guests:
//! page-aligned region placement, a polling signal channel, a packed hash
//! index readable straight from shared memory, and a host-mediated query
//! protocol with buffer renegotiation.
pub mod align;
pub mod table;
pub mod index;
pub mod query;
pub mod signal;
pub mod regions;
pub mod sim;
pub mod context;
pub mod workload;
