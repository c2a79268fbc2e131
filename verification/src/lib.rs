//! Algorithms and tools for distributed computing: a linearizability
//! checker, shared-memory registers and snapshot objects, and the decisions
//! of a message-passing register.
pub mod abd;
pub mod linearizability;
pub mod register;
pub mod snapshot;
