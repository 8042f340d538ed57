//! Task schema: peripherals and the per-task configuration record.
use vstd::prelude::*;
use crate::memory::task::TaskDescriptor;

verus! {

/// Peripherals known to the task schema (bit `i` of a mask is the `i`-th).
#[derive(Clone, Copy, PartialEq, Eq, Debug, Structural)]
pub enum Peripheral {
    UART0,
    UART1,
    GPIO0,
    GPIO1,
    SPI0,
    I2C0,
    NONE,
}

/// Static configuration of one task as declared in the task file.
#[derive(Clone, Copy)]
pub struct TaskConfig {
    /// Base scheduling priority (higher = more urgent).
    pub priority: u8,
    /// Stack size in bytes.
    pub stack_size: u32,
    /// Start of the private memory region (inclusive).
    pub memory_start: u32,
    /// End of the private memory region (exclusive).
    pub memory_end: u32,
    /// Peripherals held exclusively.
    pub exclusive_cap_mask: u32,
    /// Peripherals held in shared mode.
    pub shared_cap_mask: u32,
    /// Peripherals required but not held.
    pub required_cap_mask: u32,
}

impl TaskConfig {
    /// The task descriptor for this configuration, with identifier `id` and
    /// the stack starting at `stack_base`.
    pub fn into_descriptor(self, id: u8, stack_base: usize) -> (d: TaskDescriptor)
        requires
            stack_base + self.stack_size <= usize::MAX,
        ensures
            d == (TaskDescriptor {
                id,
                priority: self.priority,
                state: crate::memory::task::TaskState::Ready,
                stack_ptr: (stack_base + self.stack_size) as usize,
                stack_base,
                stack_size: self.stack_size as usize,
                memory_start: self.memory_start as usize,
                memory_end: self.memory_end as usize,
                exclusive_cap_mask: self.exclusive_cap_mask,
                shared_cap_mask: self.shared_cap_mask,
                required_cap_mask: self.required_cap_mask,
                max_inherited_priority: 0,
            }),
    {
        TaskDescriptor::with_capabilities(
            id,
            self.priority,
            stack_base,
            self.stack_size as usize,
            self.memory_start as usize,
            self.memory_end as usize,
            self.exclusive_cap_mask,
            self.shared_cap_mask,
            self.required_cap_mask,
        )
    }
}

} // verus!
