//! Memory safety layer: typed regions, ABI-aligned stacks, the task
//! registry and the PMP register plan.
pub mod pmp;
pub mod region;
pub mod stack;
pub mod task;
