//! Inter-task communication: statically sized, capability-gated channels.
pub mod channel;
