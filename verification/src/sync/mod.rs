//! The structures that the protocol itself is built on.
pub mod list;
pub mod queue;
