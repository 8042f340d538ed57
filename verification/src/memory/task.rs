//! Task descriptors and the task registry.
use vstd::prelude::*;
use crate::bits::{bit_indices, bits_of};
use crate::config::MAX_TASKS;

verus! {

/// Execution state of a task.
#[derive(Clone, Copy, PartialEq, Eq, Debug, Structural)]
pub enum TaskState {
    /// Eligible to run, waiting for the CPU.
    Ready,
    /// Currently executing.
    Running,
    /// Waiting for a resource or event.
    Blocked,
    /// Explicitly suspended; never scheduled.
    Suspended,
}

/// Identity, scheduling data, capability masks and memory layout of a task.
#[derive(Clone, Copy)]
pub struct TaskDescriptor {
    /// Unique task identifier.
    pub id: u8,
    /// Static base priority (higher value = more urgent).
    pub priority: u8,
    /// Current execution state.
    pub state: TaskState,
    /// Current stack pointer (initially the top of the stack).
    pub stack_ptr: usize,
    /// Address of the first byte of the stack buffer.
    pub stack_base: usize,
    /// Stack size in bytes.
    pub stack_size: usize,
    /// Start of the private memory region (inclusive).
    pub memory_start: usize,
    /// End of the private memory region (exclusive).
    pub memory_end: usize,
    /// Bit `i` set: the task holds peripheral `i` exclusively.
    pub exclusive_cap_mask: u32,
    /// Bit `i` set: the task holds peripheral `i` in shared mode.
    pub shared_cap_mask: u32,
    /// Bit `i` set: the task needs peripheral `i` but does not hold it.
    pub required_cap_mask: u32,
    /// Highest base priority reachable from the task in the contention graph.
    pub max_inherited_priority: u8,
}

/// `max(a, b)` on priorities.
pub open spec fn max_u8(a: u8, b: u8) -> u8 {
    if a >= b { a } else { b }
}

impl TaskDescriptor {
    /// Effective CA-PIP priority: `max(priority, max_inherited_priority)`.
    pub open spec fn spec_effective_priority(self) -> u8 {
        max_u8(self.priority, self.max_inherited_priority)
    }

    /// Construct a descriptor holding no capabilities, in state `Ready`, with the
    /// stack pointer at the top of the stack.
    pub fn new(
        id: u8,
        priority: u8,
        stack_base: usize,
        stack_size: usize,
        memory_start: usize,
        memory_end: usize,
    ) -> (r: Self)
        requires
            stack_base + stack_size <= usize::MAX,
        ensures
            r == (TaskDescriptor {
                id,
                priority,
                state: TaskState::Ready,
                stack_ptr: (stack_base + stack_size) as usize,
                stack_base,
                stack_size,
                memory_start,
                memory_end,
                exclusive_cap_mask: 0,
                shared_cap_mask: 0,
                required_cap_mask: 0,
                max_inherited_priority: 0,
            }),
    {
        TaskDescriptor {
            id,
            priority,
            state: TaskState::Ready,
            stack_ptr: stack_base + stack_size,
            stack_base,
            stack_size,
            memory_start,
            memory_end,
            exclusive_cap_mask: 0,
            shared_cap_mask: 0,
            required_cap_mask: 0,
            max_inherited_priority: 0,
        }
    }

    /// Construct a descriptor with explicit capability masks, in state `Ready`,
    /// with the stack pointer at the top of the stack.
    pub fn with_capabilities(
        id: u8,
        priority: u8,
        stack_base: usize,
        stack_size: usize,
        memory_start: usize,
        memory_end: usize,
        exclusive_cap_mask: u32,
        shared_cap_mask: u32,
        required_cap_mask: u32,
    ) -> (r: Self)
        requires
            stack_base + stack_size <= usize::MAX,
        ensures
            r == (TaskDescriptor {
                id,
                priority,
                state: TaskState::Ready,
                stack_ptr: (stack_base + stack_size) as usize,
                stack_base,
                stack_size,
                memory_start,
                memory_end,
                exclusive_cap_mask,
                shared_cap_mask,
                required_cap_mask,
                max_inherited_priority: 0,
            }),
    {
        TaskDescriptor {
            id,
            priority,
            state: TaskState::Ready,
            stack_ptr: stack_base + stack_size,
            stack_base,
            stack_size,
            memory_start,
            memory_end,
            exclusive_cap_mask,
            shared_cap_mask,
            required_cap_mask,
            max_inherited_priority: 0,
        }
    }

    /// The exclusive peripheral IDs held by the task, in increasing order.
    pub fn exclusive_capabilities(&self) -> (r: Vec<usize>)
        ensures
            r@ == bit_indices(self.exclusive_cap_mask, 32),
    {
        bits_of(self.exclusive_cap_mask)
    }

    /// The shared peripheral IDs held by the task, in increasing order.
    pub fn shared_capabilities(&self) -> (r: Vec<usize>)
        ensures
            r@ == bit_indices(self.shared_cap_mask, 32),
    {
        bits_of(self.shared_cap_mask)
    }

    /// The peripheral IDs the task requires, in increasing order.
    pub fn required_capabilities(&self) -> (r: Vec<usize>)
        ensures
            r@ == bit_indices(self.required_cap_mask, 32),
    {
        bits_of(self.required_cap_mask)
    }

    /// Effective priority for CA-PIP scheduling.
    pub fn effective_priority(&self) -> (r: u8)
        ensures
            r == self.spec_effective_priority(),
            r >= self.priority,
            r >= self.max_inherited_priority,
    {
        if self.priority >= self.max_inherited_priority {
            self.priority
        } else {
            self.max_inherited_priority
        }
    }
}

} // verus!

verus! {

/// The boot-time task registry: `MAX_TASKS` slots filled in registration order.
pub struct TaskRegistry {
    /// Registry slots; slot `i` holds the `i`-th registered task.
    pub tasks: Vec<Option<TaskDescriptor>>,
    /// Number of registered tasks.
    pub count: usize,
}

impl View for TaskRegistry {
    type V = Seq<Option<TaskDescriptor>>;

    open spec fn view(&self) -> Seq<Option<TaskDescriptor>> {
        self.tasks@
    }
}

impl TaskRegistry {
    /// Slots `0..count` are filled, the rest are empty.
    pub open spec fn wf(&self) -> bool {
        &&& self.tasks@.len() == MAX_TASKS
        &&& self.count <= MAX_TASKS
        &&& forall|i: int| 0 <= i < MAX_TASKS ==> (#[trigger] self.tasks@[i] is Some <==> i < self.count)
    }

    /// An empty registry.
    pub fn new() -> (r: Self)
        ensures
            r.wf(),
            r.count == 0,
            r@ == Seq::new(MAX_TASKS as nat, |i: int| None::<TaskDescriptor>),
    {
        let mut tasks: Vec<Option<TaskDescriptor>> = Vec::new();
        let mut i: usize = 0;
        while i < MAX_TASKS
            invariant
                i <= MAX_TASKS,
                tasks@ == Seq::new(i as nat, |k: int| None::<TaskDescriptor>),
            decreases MAX_TASKS - i,
        {
            tasks.push(None);
            i = i + 1;
        }
        TaskRegistry { tasks, count: 0 }
    }

    /// Append `desc` to the next free slot.
    pub fn register_task(&mut self, desc: TaskDescriptor)
        requires
            old(self).wf(),
            old(self).count < MAX_TASKS,
        ensures
            final(self).wf(),
            final(self).count == old(self).count + 1,
            final(self)@ == old(self)@.update(old(self).count as int, Some(desc)),
    {
        let count = self.count;
        self.tasks.set(count, Some(desc));
        self.count = count + 1;
    }

    /// The registry slots; unregistered slots are `None`.
    pub fn registry(&self) -> (r: &[Option<TaskDescriptor>])
        ensures
            r@ == self@,
    {
        self.tasks.as_slice()
    }

    /// The number of registered tasks.
    pub fn task_count(&self) -> (r: usize)
        ensures
            r == self.count,
    {
        self.count
    }
}

} // verus!
