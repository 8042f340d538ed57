use ferret::clint::{mtime_from_reads, next_deadline, split_compare_value, TickCounter, TICK_CYCLES};
use ferret::config::MAX_TASKS;
use ferret::context::{trap_handler, TrapAction, TrapFrame};
use ferret::generated::demo_tasks::{task_h, task_l, task_m};
use ferret::memory::stack::{Stack, STACK_CANARY};
use ferret::memory::task::{TaskDescriptor, TaskRegistry, TaskState};
use ferret::scheduler::ccg::CapabilityContentionGraph;
use ferret::scheduler::mip::compute_and_store_mip;
use ferret::scheduler::{LatencyReport, Scheduler, SwitchStats, SWITCH_STATS_WINDOW};
use ferret::uart::{decimal_digits, hex_digits};

fn frame(mcause: usize, mepc: usize) -> TrapFrame {
    TrapFrame { regs: [0; 32], mepc, mstatus: 0, mcause, mtval: 0x55 }
}

#[test]
fn trap_timer_interrupt() {
    let mut f = frame((1 << 31) | 7, 0x8000_0100);
    assert_eq!(trap_handler(&mut f, 0x0013), TrapAction::TimerInterrupt);
    assert_eq!(f.mepc, 0x8000_0100);
}

#[test]
fn trap_unhandled_interrupt() {
    let mut f = frame((1 << 31) | 11, 0x8000_0100);
    assert_eq!(trap_handler(&mut f, 0x0013), TrapAction::UnhandledInterrupt { mcause: (1 << 31) | 11 });
    assert_eq!(f.mepc, 0x8000_0100);
}

#[test]
fn trap_exception_skips_full_instruction() {
    // `addi x0, x0, 0` (0x00000013): a 32-bit instruction at an aligned address.
    let mut f = frame(2, 0x8000_0100);
    assert_eq!(trap_handler(&mut f, 0x0013), TrapAction::Exception { mcause: 2, mepc: 0x8000_0100, mtval: 0x55 });
    assert_eq!(f.mepc, 0x8000_0104);
    assert_eq!(f.mcause, 2);
    assert_eq!(f.mtval, 0x55);
}

#[test]
fn trap_exception_skips_compressed_instruction() {
    // `c.li a0, 0` (0x4501): a 16-bit instruction.
    let mut g = frame(5, 0x8000_0100);
    trap_handler(&mut g, 0x4501);
    assert_eq!(g.mepc, 0x8000_0102);
    // The width comes from the instruction, not from the address bits.
    let mut h = frame(2, 0x8000_0103);
    trap_handler(&mut h, 0x4501);
    assert_eq!(h.mepc, 0x8000_0105);
}

#[test]
fn clint_arithmetic() {
    assert_eq!(mtime_from_reads(1, 5, 1), Some(0x1_0000_0005));
    assert_eq!(mtime_from_reads(1, 5, 2), None);
    assert_eq!(split_compare_value(0x1234_5678_9ABC_DEF0), (0x9ABC_DEF0, 0x1234_5678));
    assert_eq!(next_deadline(100, TICK_CYCLES), 10_100);
    let mut t = TickCounter::new();
    assert_eq!(t.timer_isr(), 1);
    assert_eq!(t.timer_isr(), 2);
    assert_eq!(t.ticks(), 2);
    let mut w = TickCounter { count: u32::MAX };
    assert_eq!(w.timer_isr(), 0);
}

#[test]
fn uart_digit_rendering() {
    assert_eq!(decimal_digits(0), b"0".to_vec());
    assert_eq!(decimal_digits(7), b"7".to_vec());
    assert_eq!(decimal_digits(1234509), b"1234509".to_vec());
    assert_eq!(decimal_digits(usize::MAX), usize::MAX.to_string().into_bytes());
    let hex = hex_digits(0xDEAD_BEEF);
    let expected = format!("0x{:0width$x}", 0xDEAD_BEEFusize, width = (usize::BITS / 4) as usize);
    assert_eq!(hex, expected.into_bytes());
}

#[test]
fn stack_canary() {
    let s: Stack<64> = Stack::new();
    assert!(s.check_canary());
    assert_eq!(Stack::<64>::size(), 64);
    assert_eq!(STACK_CANARY, 0xDEAD_C0DE);
}

#[test]
fn descriptor_capability_lists() {
    let d = TaskDescriptor::with_capabilities(3, 2, 0x1000, 0x100, 0x2000, 0x3000, (1 << 0) | (1 << 13), 1 << 31, 0b110);
    assert_eq!(d.stack_ptr, 0x1100);
    assert_eq!(d.state, TaskState::Ready);
    assert_eq!(d.exclusive_capabilities(), vec![0, 13]);
    assert_eq!(d.shared_capabilities(), vec![31]);
    assert_eq!(d.required_capabilities(), vec![1, 2]);
    assert_eq!(d.effective_priority(), 2);
    let mut e = d;
    e.max_inherited_priority = 9;
    assert_eq!(e.effective_priority(), 9);
    let n = TaskDescriptor::new(1, 4, 0x100, 0x10, 0, 0);
    assert_eq!(n.exclusive_cap_mask | n.shared_cap_mask | n.required_cap_mask, 0);
    assert_eq!(n.stack_ptr, 0x110);
}

fn demo_registry() -> TaskRegistry {
    let mut reg = TaskRegistry::new();
    reg.register_task(task_l().into_descriptor(0, 0x1000));
    reg.register_task(task_m().into_descriptor(1, 0x2000));
    reg.register_task(task_h().into_descriptor(2, 0x3000));
    reg
}

#[test]
fn registry_and_stored_mip() {
    let mut reg = demo_registry();
    assert_eq!(reg.task_count(), 3);
    assert!(reg.registry()[3].is_none());
    let slots: [Option<TaskDescriptor>; MAX_TASKS] = {
        let mut a = [None; MAX_TASKS];
        for i in 0..MAX_TASKS {
            a[i] = reg.registry()[i];
        }
        a
    };
    let ccg = CapabilityContentionGraph::build(&slots);
    assert_eq!(ccg.successors(0), vec![2]);
    assert_eq!(ccg.detect_cycle(), None);
    compute_and_store_mip(&ccg, &mut reg);
    let mips: Vec<u8> = (0..3).map(|i| reg.registry()[i].unwrap().max_inherited_priority).collect();
    assert_eq!(mips, vec![3, 2, 3]);
    let effs: Vec<u8> = (0..3).map(|i| reg.registry()[i].unwrap().effective_priority()).collect();
    assert_eq!(effs, vec![3, 2, 3]);
}

#[test]
fn detect_cycle_reports_back_edge() {
    let cap0: u32 = 1;
    let cap1: u32 = 2;
    let mut reg: [Option<TaskDescriptor>; MAX_TASKS] = [None; MAX_TASKS];
    reg[0] = Some(TaskDescriptor::with_capabilities(0, 2, 0, 16, 0, 0, cap0, 0, cap1));
    reg[1] = Some(TaskDescriptor::with_capabilities(1, 4, 0, 16, 0, 0, cap1, 0, cap0));
    let ccg = CapabilityContentionGraph::build(&reg);
    assert_eq!(ccg.detect_cycle(), Some((1, 0)));
}

#[test]
fn scheduler_demo_l_is_not_preempted_by_m() {
    let mut reg = demo_registry();
    let mips = [3u8, 2, 3, 0, 0, 0, 0, 0, 0, 0, 0, 0, 0, 0, 0, 0];
    let mut sched = Scheduler::init(&mut reg, &mips);
    // L (slot 0) and H (slot 2) both have effective priority 3; L was queued
    // first and runs first, M (2) waits.
    assert_eq!(sched.current_task_idx(), 0);
    assert_eq!(sched.ready_queue.len(), 2);
    assert_eq!(sched.ready_queue.peek_max(), Some(2));
    // No strictly higher-priority task is ready: no switch within the quantum.
    for _ in 0..4 {
        assert_eq!(sched.tick(reg.registry()), None);
    }
    // Quantum expires: H runs; M never runs ahead of a priority-3 task.
    assert_eq!(sched.tick(reg.registry()), Some(2));
    for _ in 0..4 {
        assert_eq!(sched.tick(reg.registry()), None);
    }
    assert_eq!(sched.tick(reg.registry()), Some(0));
    assert_ne!(sched.current_task_idx(), 1);
}

#[test]
fn scheduler_rotates_equal_priorities() {
    let mut reg = TaskRegistry::new();
    for id in 0..3u8 {
        reg.register_task(TaskDescriptor::new(id, 2, 0, 16, 0, 0));
    }
    let mut sched = Scheduler::init(&mut reg, &[0u8; MAX_TASKS]);
    assert_eq!(sched.current_task_idx(), 0);
    let mut switches: Vec<u8> = Vec::new();
    for _ in 0..15 {
        if let Some(next) = sched.tick(reg.registry()) {
            switches.push(next);
        }
    }
    // Each expired quantum sends the running task behind the other two.
    assert_eq!(switches, vec![1, 2, 0]);
}

#[test]
fn detect_cycle_in_high_slots() {
    let mut reg: [Option<TaskDescriptor>; MAX_TASKS] = [None; MAX_TASKS];
    reg[3] = Some(TaskDescriptor::with_capabilities(3, 2, 0x2000_0000, 256, 0x2000_1000, 0x2000_2000, 1, 0, 2));
    reg[4] = Some(TaskDescriptor::with_capabilities(4, 4, 0x2000_2000, 256, 0x2000_3000, 0x2000_4000, 2, 0, 1));
    let ccg = CapabilityContentionGraph::build(&reg);
    assert!(ccg.has_edge(3, 4));
    assert!(ccg.has_edge(4, 3));
    assert_eq!(ccg.task_count, 2);
    assert_eq!(ccg.detect_cycle(), Some((4, 3)));
}

#[test]
fn scheduler_switches_to_strictly_higher_priority() {
    let mut reg = TaskRegistry::new();
    reg.register_task(TaskDescriptor::new(0, 1, 0, 16, 0, 0));
    let mut sched = Scheduler::init(&mut reg, &[0u8; MAX_TASKS]);
    assert_eq!(sched.current_task_idx(), 0);
    sched.ready_queue.insert(5, 9);
    assert_eq!(sched.tick(reg.registry()), Some(5));
    assert_eq!(sched.current_task_idx(), 5);
    assert_eq!(sched.ticks_since_switch, 0);
}

#[test]
fn scheduler_with_no_tasks_is_idle() {
    let mut reg = TaskRegistry::new();
    let mut sched = Scheduler::init(&mut reg, &[0u8; MAX_TASKS]);
    assert_eq!(sched.current_task_idx(), 0xFF);
    assert_eq!(sched.tick(reg.registry()), None);
    assert_eq!(sched.ticks_since_switch, 1);
}

#[test]
fn switch_stats_report_after_window() {
    let mut stats = SwitchStats::new();
    let mut report: Option<LatencyReport> = None;
    for i in 0..SWITCH_STATS_WINDOW {
        report = stats.record(if i == 0 { 2000 } else { 10 });
        if i + 1 < SWITCH_STATS_WINDOW {
            assert_eq!(report, None);
        }
    }
    let total: u64 = 2000 + 10 * 999;
    assert_eq!(
        report,
        Some(LatencyReport { min: 10, max: 2000, avg: (total / 1000) as u32, over_budget: true })
    );
    assert_eq!(stats.count, 0);
    assert_eq!(stats.min, u32::MAX);
}

#[test]
fn stack_bytes_start_with_canary() {
    let s: Stack<32> = Stack::new();
    let bytes = s.as_bytes();
    assert_eq!(bytes.len(), 32);
    assert_eq!(&bytes[..4], &STACK_CANARY.to_le_bytes());
    assert!(bytes[4..].iter().all(|b| *b == 0));
}
