//! Capability system: zero-sized peripheral types, exclusive/shared
//! ownership wrappers, and the boot-time conflict detector.
pub mod allocator;
pub mod types;
pub mod wrappers;
