//! The three-task CA-PIP demo: L holds UART0, M is independent, H needs UART0.
use vstd::prelude::*;
use crate::generated::task_schema::TaskConfig;

verus! {

/// Task L: priority 1, holds UART0 exclusively.
pub fn task_l() -> (c: TaskConfig)
    ensures
        c == (TaskConfig {
            priority: 1,
            stack_size: 4096,
            memory_start: 0x8008_1000,
            memory_end: 0x8008_2000,
            exclusive_cap_mask: 0x0000_0001,
            shared_cap_mask: 0,
            required_cap_mask: 0,
        }),
{
    TaskConfig {
        priority: 1,
        stack_size: 4096,
        memory_start: 0x8008_1000,
        memory_end: 0x8008_2000,
        exclusive_cap_mask: 0x0000_0001,
        shared_cap_mask: 0,
        required_cap_mask: 0,
    }
}

/// Task M: priority 2, no capability contention.
pub fn task_m() -> (c: TaskConfig)
    ensures
        c == (TaskConfig {
            priority: 2,
            stack_size: 4096,
            memory_start: 0x8008_2000,
            memory_end: 0x8008_3000,
            exclusive_cap_mask: 0,
            shared_cap_mask: 0,
            required_cap_mask: 0,
        }),
{
    TaskConfig {
        priority: 2,
        stack_size: 4096,
        memory_start: 0x8008_2000,
        memory_end: 0x8008_3000,
        exclusive_cap_mask: 0,
        shared_cap_mask: 0,
        required_cap_mask: 0,
    }
}

/// Task H: priority 3, requires UART0.
pub fn task_h() -> (c: TaskConfig)
    ensures
        c == (TaskConfig {
            priority: 3,
            stack_size: 4096,
            memory_start: 0x8008_3000,
            memory_end: 0x8008_4000,
            exclusive_cap_mask: 0,
            shared_cap_mask: 0,
            required_cap_mask: 0x0000_0001,
        }),
{
    TaskConfig {
        priority: 3,
        stack_size: 4096,
        memory_start: 0x8008_3000,
        memory_end: 0x8008_4000,
        exclusive_cap_mask: 0,
        shared_cap_mask: 0,
        required_cap_mask: 0x0000_0001,
    }
}

} // verus!
