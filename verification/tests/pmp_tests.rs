use ferret::memory::pmp::{configure_pmp, pack_pmpcfg, MAX_PMP_TASKS, PMP_ENTRIES, PMP_OFF, PMP_R, PMP_TOR, PMP_W};
use ferret::memory::task::TaskDescriptor;

#[test]
fn pmp_address_encoding() {
    let addr = 0x8008_1000usize;
    assert_eq!(addr >> 2, 0x2002_0400);
}

#[test]
fn pmpcfg_byte_tor_rw() {
    let byte = PMP_TOR | PMP_R | PMP_W;
    assert_eq!(byte, 0x0B);
}

#[test]
fn pmpcfg_pack_two_entries() {
    let cfg: [u8; 4] = [PMP_OFF, PMP_TOR | PMP_R | PMP_W, PMP_OFF, PMP_OFF];
    let packed = (cfg[0] as usize) | ((cfg[1] as usize) << 8) | ((cfg[2] as usize) << 16) | ((cfg[3] as usize) << 24);
    assert_eq!(packed, 0x0000_0B00);
    assert_eq!(pack_pmpcfg(cfg[0], cfg[1], cfg[2], cfg[3]), 0x0000_0B00);
}

fn task(id: u8, start: usize, end: usize) -> TaskDescriptor {
    TaskDescriptor::new(id, 1, 0x2000_0000, 256, start, end)
}

#[test]
fn pmp_plan_for_two_tasks() {
    let registry: [Option<TaskDescriptor>; 4] =
        [Some(task(0, 0x8008_1000, 0x8008_2000)), None, Some(task(2, 0x8008_3000, 0x8008_4000)), None];
    let cfg = configure_pmp(&registry);
    assert_eq!(cfg.count, 2);
    assert!(!cfg.truncated);
    assert_eq!(cfg.pmpaddr.len(), PMP_ENTRIES);
    assert_eq!(cfg.pmpaddr[0], 0x2002_0400);
    assert_eq!(cfg.pmpaddr[1], 0x2002_0800);
    assert_eq!(cfg.pmpaddr[2], 0x2002_0C00);
    assert_eq!(cfg.pmpaddr[3], 0x2002_1000);
    for e in 4..PMP_ENTRIES {
        assert_eq!(cfg.pmpaddr[e], 0);
    }
    assert_eq!(cfg.pmpcfg, vec![0x0B00_0B00, 0, 0, 0]);
}

#[test]
fn pmp_plan_truncates_beyond_eight_tasks() {
    let mut registry: Vec<Option<TaskDescriptor>> = Vec::new();
    for i in 0..10usize {
        registry.push(Some(task(i as u8, 0x1000 * (i + 1), 0x1000 * (i + 2))));
    }
    let cfg = configure_pmp(&registry);
    assert_eq!(cfg.count, MAX_PMP_TASKS);
    assert!(cfg.truncated);
    assert_eq!(cfg.pmpaddr[14], 0x1000 * 8 / 4);
    assert_eq!(cfg.pmpaddr[15], 0x1000 * 9 / 4);
    assert_eq!(cfg.pmpcfg, vec![0x0B00_0B00, 0x0B00_0B00, 0x0B00_0B00, 0x0B00_0B00]);
}

#[test]
fn pmp_plan_for_empty_registry() {
    let registry: [Option<TaskDescriptor>; 3] = [None, None, None];
    let cfg = configure_pmp(&registry);
    assert_eq!(cfg.count, 0);
    assert!(!cfg.truncated);
    assert!(cfg.pmpaddr.iter().all(|&a| a == 0));
    assert_eq!(cfg.pmpcfg, vec![0, 0, 0, 0]);
}

#[test]
fn pmp_plan_with_exactly_eight_tasks_is_not_truncated() {
    let mut registry: Vec<Option<TaskDescriptor>> = Vec::new();
    for i in 0..8usize {
        registry.push(Some(task(i as u8, 0x1000 * (i + 1), 0x1000 * (i + 2))));
        registry.push(None);
    }
    let cfg = configure_pmp(&registry);
    assert_eq!(cfg.count, 8);
    assert!(!cfg.truncated);
    assert_eq!(cfg.pmpaddr[0], 0x1000 / 4);
    assert_eq!(cfg.pmpaddr[1], 0x2000 / 4);
}
