use ferret::config::MAX_TASKS;
use ferret::memory::task::TaskDescriptor;
use ferret::scheduler::ccg::CapabilityContentionGraph;
use ferret::scheduler::mip::compute_mip;

const UART0_BIT: u32 = 1 << 0;

/// The demo registry: L (slot 0, pri 1) holds UART0, M (slot 1, pri 2) is
/// independent, H (slot 2, pri 3) requires UART0.
fn demo_registry() -> [Option<TaskDescriptor>; MAX_TASKS] {
    let mut reg: [Option<TaskDescriptor>; MAX_TASKS] = [None; MAX_TASKS];
    reg[0] = Some(TaskDescriptor::with_capabilities(0, 1, 0x2000_0000, 4096, 0x2000_1000, 0x2000_2000, UART0_BIT, 0, 0));
    reg[1] = Some(TaskDescriptor::with_capabilities(1, 2, 0x2000_2000, 4096, 0x2000_3000, 0x2000_4000, 0, 0, 0));
    reg[2] = Some(TaskDescriptor::with_capabilities(2, 3, 0x2000_4000, 4096, 0x2000_5000, 0x2000_6000, 0, 0, UART0_BIT));
    reg
}

/// MIP of every slot of a local registry (0 for empty slots).
fn compute_mip_local(reg: &[Option<TaskDescriptor>; MAX_TASKS]) -> [u8; MAX_TASKS] {
    let ccg = CapabilityContentionGraph::build(reg);
    let v = compute_mip(&ccg, reg, MAX_TASKS);
    let mut mip = [0u8; MAX_TASKS];
    for i in 0..MAX_TASKS {
        mip[i] = v[i];
    }
    mip
}

/// SRP ceiling of capability `cap`: the highest base priority of a task requiring it.
fn srp_ceiling(reg: &[Option<TaskDescriptor>; MAX_TASKS], cap: u32) -> u8 {
    reg.iter().flatten().filter(|t| t.required_cap_mask & cap != 0).map(|t| t.priority).max().unwrap_or(0)
}

#[test]
fn srp_ceiling_uart0_equals_3() {
    let reg = demo_registry();
    assert_eq!(srp_ceiling(&reg, UART0_BIT), 3);
}

#[test]
fn mip_l_meets_srp_ceiling_for_uart0() {
    let reg = demo_registry();
    let mips = compute_mip_local(&reg);
    let mip_l = mips[0];
    let ceil = srp_ceiling(&reg, UART0_BIT);
    assert!(mip_l >= ceil, "MIP(L) = {} < π(UART0) = {} — priority inversion possible", mip_l, ceil);
}

#[test]
fn mip_l_is_exactly_3() {
    let reg = demo_registry();
    let mips = compute_mip_local(&reg);
    assert_eq!(mips[0], 3);
}

#[test]
fn mip_m_is_zero_no_contention() {
    let reg = demo_registry();
    let mips = compute_mip_local(&reg);
    assert_eq!(mips[1], 2);
}

#[test]
fn mip_h_equals_own_priority_no_outgoing_edges() {
    let reg = demo_registry();
    let mips = compute_mip_local(&reg);
    assert_eq!(mips[2], 3);
}

#[test]
fn effective_priority_l_beats_m_preventing_preemption() {
    let reg = demo_registry();
    let mips = compute_mip_local(&reg);
    let mip_l = mips[0];
    let l_base_pri = reg[0].as_ref().unwrap().priority;
    let m_pri = reg[1].as_ref().unwrap().priority;
    let l_eff_pri = l_base_pri.max(mip_l);
    assert!(
        l_eff_pri > m_pri,
        "eff_pri(L) = {} ≤ priority(M) = {} — M could preempt L while L holds UART0",
        l_eff_pri,
        m_pri
    );
}

#[test]
fn ccg_has_edge_l_to_h() {
    let reg = demo_registry();
    let ccg = CapabilityContentionGraph::build(&reg);
    assert!(ccg.has_edge(0, 2), "expected CCG edge L→H");
}

#[test]
fn ccg_no_edge_h_to_l() {
    let reg = demo_registry();
    let ccg = CapabilityContentionGraph::build(&reg);
    assert!(!ccg.has_edge(2, 0), "unexpected CCG edge H→L");
}

#[test]
fn ccg_no_edges_involving_m() {
    let reg = demo_registry();
    let ccg = CapabilityContentionGraph::build(&reg);
    for i in 0..3 {
        assert!(!ccg.has_edge(1, i), "unexpected CCG edge M→{}", i);
    }
    for i in 0..3 {
        assert!(!ccg.has_edge(i, 1), "unexpected CCG edge {}→M", i);
    }
}

#[test]
fn mip_propagates_transitively_through_chain() {
    let cap0: u32 = 1 << 0;
    let cap1: u32 = 1 << 1;
    let mut reg: [Option<TaskDescriptor>; MAX_TASKS] = [None; MAX_TASKS];
    reg[0] = Some(TaskDescriptor::with_capabilities(0, 1, 0x2000_0000, 256, 0x2000_1000, 0x2000_2000, cap0, 0, 0));
    reg[1] = Some(TaskDescriptor::with_capabilities(1, 3, 0x2000_2000, 256, 0x2000_3000, 0x2000_4000, cap1, 0, cap0));
    reg[2] = Some(TaskDescriptor::with_capabilities(2, 5, 0x2000_4000, 256, 0x2000_5000, 0x2000_6000, 0, 0, cap1));

    let mips = compute_mip_local(&reg);
    let (mip_a, mip_b, mip_c) = (mips[0], mips[1], mips[2]);
    assert_eq!(mip_a, 5, "MIP(A) should propagate through B to C");
    assert_eq!(mip_b, 5, "MIP(B) should reach C");
    assert_eq!(mip_c, 5, "MIP(C) should be its own priority");
}

#[test]
fn detect_cycle_finds_two_cycle() {
    let cap0: u32 = 1 << 0;
    let cap1: u32 = 1 << 1;
    let mut reg: [Option<TaskDescriptor>; MAX_TASKS] = [None; MAX_TASKS];
    reg[0] = Some(TaskDescriptor::with_capabilities(0, 2, 0x2000_0000, 256, 0x2000_1000, 0x2000_2000, cap0, 0, cap1));
    reg[1] = Some(TaskDescriptor::with_capabilities(1, 4, 0x2000_2000, 256, 0x2000_3000, 0x2000_4000, cap1, 0, cap0));
    let ccg = CapabilityContentionGraph::build(&reg);
    assert!(ccg.detect_cycle().is_some(), "A↔B mutual-block should be detected as a cycle");
}

#[test]
fn detect_cycle_demo_registry_is_acyclic() {
    let reg = demo_registry();
    let ccg = CapabilityContentionGraph::build(&reg);
    assert!(ccg.detect_cycle().is_none(), "demo CCG (L→H only) must be acyclic");
}

#[test]
fn detect_cycle_empty_registry_is_acyclic() {
    let reg: [Option<TaskDescriptor>; MAX_TASKS] = [None; MAX_TASKS];
    let ccg = CapabilityContentionGraph::build(&reg);
    assert!(ccg.detect_cycle().is_none());
}

#[test]
fn detect_cycle_chain_is_acyclic() {
    let cap0: u32 = 1 << 0;
    let cap1: u32 = 1 << 1;
    let mut reg: [Option<TaskDescriptor>; MAX_TASKS] = [None; MAX_TASKS];
    reg[0] = Some(TaskDescriptor::with_capabilities(0, 1, 0x2000_0000, 256, 0x2000_1000, 0x2000_2000, cap0, 0, 0));
    reg[1] = Some(TaskDescriptor::with_capabilities(1, 3, 0x2000_2000, 256, 0x2000_3000, 0x2000_4000, cap1, 0, cap0));
    reg[2] = Some(TaskDescriptor::with_capabilities(2, 5, 0x2000_4000, 256, 0x2000_5000, 0x2000_6000, 0, 0, cap1));
    let ccg = CapabilityContentionGraph::build(&reg);
    assert!(ccg.detect_cycle().is_none(), "linear chain must be acyclic");
}

#[test]
fn ccg_empty_registry_no_panic() {
    let reg: [Option<TaskDescriptor>; MAX_TASKS] = [None; MAX_TASKS];
    let ccg = CapabilityContentionGraph::build(&reg);
    assert_eq!(ccg.task_count, 0);
    for i in 0..MAX_TASKS {
        for j in 0..MAX_TASKS {
            assert!(!ccg.has_edge(i, j));
        }
    }
}

#[test]
fn ccg_single_task_no_edges() {
    let mut reg: [Option<TaskDescriptor>; MAX_TASKS] = [None; MAX_TASKS];
    reg[0] = Some(TaskDescriptor::with_capabilities(0, 5, 0x2000_0000, 256, 0x2000_1000, 0x2000_2000, 0x1, 0, 0x1));
    let ccg = CapabilityContentionGraph::build(&reg);
    assert_eq!(ccg.task_count, 1);
    for i in 0..MAX_TASKS {
        for j in 0..MAX_TASKS {
            assert!(!ccg.has_edge(i, j), "single-task graph must have no edges");
        }
    }
}

#[test]
fn ccg_cyclic_graph_bfs_terminates() {
    let cap0: u32 = 1 << 0;
    let cap1: u32 = 1 << 1;
    let mut reg: [Option<TaskDescriptor>; MAX_TASKS] = [None; MAX_TASKS];
    reg[0] = Some(TaskDescriptor::with_capabilities(0, 2, 0x2000_0000, 256, 0x2000_1000, 0x2000_2000, cap0, 0, cap1));
    reg[1] = Some(TaskDescriptor::with_capabilities(1, 4, 0x2000_2000, 256, 0x2000_3000, 0x2000_4000, cap1, 0, cap0));
    let ccg = CapabilityContentionGraph::build(&reg);
    assert!(ccg.has_edge(0, 1), "expected A→B");
    assert!(ccg.has_edge(1, 0), "expected B→A");
    let mips = compute_mip_local(&reg);
    assert_eq!(mips[0], 4, "MIP(A) should be B's priority via the cycle");
    assert_eq!(mips[1], 4, "MIP(B) should be its own priority");
}

#[test]
fn ccg_no_contention_tasks_have_own_mip() {
    let mut reg: [Option<TaskDescriptor>; MAX_TASKS] = [None; MAX_TASKS];
    for i in 0..8usize {
        reg[i] = Some(TaskDescriptor::with_capabilities(
            i as u8,
            (i + 1) as u8,
            0x2000_0000 + i * 0x1000,
            256,
            0x2000_1000 + i * 0x1000,
            0x2000_2000 + i * 0x1000,
            1 << i,
            0,
            0,
        ));
    }
    let ccg = CapabilityContentionGraph::build(&reg);
    assert_eq!(ccg.task_count, 8);
    for i in 0..8 {
        for j in 0..8 {
            assert!(!ccg.has_edge(i, j), "no edges expected when no task requires any cap");
        }
    }
    let mips = compute_mip_local(&reg);
    for i in 0..8 {
        assert_eq!(mips[i], (i + 1) as u8, "MIP({i}) should equal own priority");
    }
}

#[test]
fn ccg_diamond_graph_mip_reaches_sink() {
    let cap0: u32 = 1 << 0;
    let cap1: u32 = 1 << 1;
    let cap2: u32 = 1 << 2;
    let mut reg: [Option<TaskDescriptor>; MAX_TASKS] = [None; MAX_TASKS];
    reg[0] = Some(TaskDescriptor::with_capabilities(0, 1, 0x2000_0000, 256, 0x2000_1000, 0x2000_2000, cap0, 0, 0));
    reg[1] = Some(TaskDescriptor::with_capabilities(1, 2, 0x2000_2000, 256, 0x2000_3000, 0x2000_4000, cap1, 0, cap0));
    reg[2] = Some(TaskDescriptor::with_capabilities(2, 3, 0x2000_4000, 256, 0x2000_5000, 0x2000_6000, cap2, 0, cap0));
    reg[3] = Some(TaskDescriptor::with_capabilities(3, 7, 0x2000_6000, 256, 0x2000_7000, 0x2000_8000, 0, 0, cap1 | cap2));
    let ccg = CapabilityContentionGraph::build(&reg);
    assert!(ccg.has_edge(0, 1), "A→B");
    assert!(ccg.has_edge(0, 2), "A→C");
    assert!(ccg.has_edge(1, 3), "B→D");
    assert!(ccg.has_edge(2, 3), "C→D");
    assert!(!ccg.has_edge(0, 3), "A has no direct edge to D");

    let mips = compute_mip_local(&reg);
    assert_eq!(mips[0], 7, "MIP(A) must reach D through the diamond");
    assert_eq!(mips[1], 7, "MIP(B) must reach D");
    assert_eq!(mips[2], 7, "MIP(C) must reach D");
    assert_eq!(mips[3], 7, "MIP(D) equals own priority");
}
