//! FerretOS kernel core: capability bookkeeping, the capability contention
//! graph and inherited priorities of the CA-PIP scheduler, the ready queue,
//! IPC channels and the memory-layout helpers, all verified with Verus.
#![allow(unused_imports)]

pub mod bits;
pub mod clint;
pub mod config;
pub mod context;
pub mod generated;
pub mod ipc;
pub mod capability;
pub mod memory;
pub mod scheduler;
pub mod uart;
