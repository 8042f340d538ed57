//! RISC-V PMP (Physical Memory Protection) register plan.
//!
//! Each protected task gets two consecutive PMP entries: an OFF entry whose
//! address is the region base (the lower bound of the next TOR entry) and a
//! TOR entry with read and write permission whose address is the region
//! limit.  Addresses are stored shifted right by two (RV32 encoding), and
//! the configuration bytes are packed four to a `pmpcfg` register.
use vstd::prelude::*;
use crate::memory::task::TaskDescriptor;

verus! {

/// PMP entries available on RV32.
pub const PMP_ENTRIES: usize = 16;
/// Entries used per task: base (OFF) and limit (TOR).
pub const ENTRIES_PER_TASK: usize = 2;
/// Tasks that can be protected.
pub const MAX_PMP_TASKS: usize = 8;
/// `pmpcfg` byte: readable.
pub const PMP_R: u8 = 1;
/// `pmpcfg` byte: writable.
pub const PMP_W: u8 = 2;
/// `pmpcfg` byte: address mode Top Of Range.
pub const PMP_TOR: u8 = 8;
/// `pmpcfg` byte: disabled entry.
pub const PMP_OFF: u8 = 0;

/// The register values to write: sixteen `pmpaddr` values, four packed
/// `pmpcfg` words, the number of protected tasks, and whether some present
/// tasks were left unprotected.
pub struct PmpConfig {
    /// `pmpaddr0`..`pmpaddr15`.
    pub pmpaddr: Vec<usize>,
    /// `pmpcfg0`..`pmpcfg3`.
    pub pmpcfg: Vec<usize>,
    /// Number of tasks given PMP entries.
    pub count: usize,
    /// More tasks were present than PMP entries allow.
    pub truncated: bool,
}

/// The present tasks among the first `n` slots, in slot order.
pub open spec fn present_tasks(s: Seq<Option<TaskDescriptor>>, n: int) -> Seq<TaskDescriptor>
    decreases n,
{
    if n <= 0 {
        Seq::empty()
    } else {
        let rest = present_tasks(s, n - 1);
        if s[n - 1] is Some { rest.push(s[n - 1]->0) } else { rest }
    }
}

/// Configuration byte of PMP entry `e` when `count` tasks are protected.
pub open spec fn cfg_byte(e: int, count: int) -> int {
    if e % 2 == 1 && e / 2 < count { 0x0B } else { 0 }
}

/// `pmpcfg` register value holding the bytes of entries `4w .. 4w + 3`.
pub open spec fn cfg_word(w: int, count: int) -> int {
    cfg_byte(4 * w, count) + 0x100 * cfg_byte(4 * w + 1, count)
        + 0x1_0000 * cfg_byte(4 * w + 2, count) + 0x100_0000 * cfg_byte(4 * w + 3, count)
}

/// Pack four configuration bytes into one `pmpcfg` register value, lowest
/// entry in the lowest byte.
pub fn pack_pmpcfg(b0: u8, b1: u8, b2: u8, b3: u8) -> (r: usize)
    ensures
        r == b0 + 0x100 * b1 + 0x1_0000 * b2 + 0x100_0000 * b3,
{
    let x0 = b0 as usize;
    let x1 = b1 as usize;
    let x2 = b2 as usize;
    let x3 = b3 as usize;
    let r = x0 | (x1 << 8usize) | (x2 << 16usize) | (x3 << 24usize);
    assert(r == x0 + 0x100 * x1 + 0x1_0000 * x2 + 0x100_0000 * x3) by (bit_vector)
        requires
            x0 < 256,
            x1 < 256,
            x2 < 256,
            x3 < 256,
            r == x0 | (x1 << 8usize) | (x2 << 16usize) | (x3 << 24usize),
    ;
    r
}

/// Plan the PMP registers for the present tasks of the registry.
///
/// The first `MAX_PMP_TASKS` present tasks, in slot order, are protected:
/// task `i` gets `pmpaddr[2i] = memory_start / 4` (OFF) and
/// `pmpaddr[2i+1] = memory_end / 4` (TOR, read+write); all other entries
/// are zero and OFF.  `truncated` reports that more tasks were present.
pub fn configure_pmp(registry: &[Option<TaskDescriptor>]) -> (cfg: PmpConfig)
    ensures
        ({
            let tasks = present_tasks(registry@, registry@.len() as int);
            &&& cfg.count == if tasks.len() < MAX_PMP_TASKS { tasks.len() } else { MAX_PMP_TASKS as nat }
            &&& cfg.truncated == (tasks.len() > MAX_PMP_TASKS)
            &&& cfg.pmpaddr@.len() == PMP_ENTRIES
            &&& cfg.pmpcfg@.len() == 4
            &&& forall|i: int| 0 <= i < cfg.count ==> {
                &&& #[trigger] cfg.pmpaddr@[2 * i] == tasks[i].memory_start / 4
                &&& cfg.pmpaddr@[2 * i + 1] == tasks[i].memory_end / 4
            }
            &&& forall|e: int| 2 * cfg.count <= e < PMP_ENTRIES ==> #[trigger] cfg.pmpaddr@[e] == 0
            &&& forall|w: int| 0 <= w < 4 ==> #[trigger] cfg.pmpcfg@[w] == cfg_word(w, cfg.count as int)
        }),
{
    let ghost s = registry@;
    // Collect the regions of the first MAX_PMP_TASKS present tasks.
    let mut starts: Vec<usize> = Vec::new();
    let mut ends: Vec<usize> = Vec::new();
    let mut count: usize = 0;
    let mut truncated = false;
    let mut j: usize = 0;
    while j < registry.len()
        invariant_except_break
            s == registry@,
            j <= s.len(),
            !truncated,
            count == present_tasks(s, j as int).len(),
            count <= MAX_PMP_TASKS,
            starts@.len() == count,
            ends@.len() == count,
            forall|i: int| 0 <= i < count ==> #[trigger] starts@[i] == present_tasks(s, j as int)[i].memory_start
                && ends@[i] == present_tasks(s, j as int)[i].memory_end,
        ensures
            s == registry@,
            count <= MAX_PMP_TASKS,
            starts@.len() == count,
            ends@.len() == count,
            count == if present_tasks(s, s.len() as int).len() < MAX_PMP_TASKS {
                present_tasks(s, s.len() as int).len()
            } else {
                MAX_PMP_TASKS as nat
            },
            truncated == (present_tasks(s, s.len() as int).len() > MAX_PMP_TASKS),
            forall|i: int| 0 <= i < count ==> #[trigger] starts@[i] == present_tasks(s, s.len() as int)[i].memory_start
                && ends@[i] == present_tasks(s, s.len() as int)[i].memory_end,
        decreases s.len() - j,
    {
        proof {
            lemma_present_tasks_prefix(s, j as int, s.len() as int);
        }
        let ghost st0 = starts@;
        let ghost en0 = ends@;
        let ghost c0 = count;
        match &registry[j] {
            Some(task) => {
                if count >= MAX_PMP_TASKS {
                    truncated = true;
                    proof {
                        lemma_present_tasks_prefix(s, j + 1, s.len() as int);
                        assert(present_tasks(s, j + 1).len() == count + 1);
                    }
                    break;
                }
                starts.push(task.memory_start);
                ends.push(task.memory_end);
                count = count + 1;
            },
            None => {},
        }
        proof {
            let p = present_tasks(s, j as int);
            let q = present_tasks(s, j + 1);
            assert forall|i: int| 0 <= i < count implies #[trigger] starts@[i] == q[i].memory_start && ends@[i] == q[i].memory_end by {
                if i < c0 {
                    assert(q[i] == p[i]);
                    assert(starts@[i] == st0[i]);
                    assert(ends@[i] == en0[i]);
                } else {
                    assert(q[i] == s[j as int]->0);
                }
            }
        }
        j = j + 1;
        assert(forall|i: int| 0 <= i < count ==> #[trigger] starts@[i] == present_tasks(s, j as int)[i].memory_start
            && ends@[i] == present_tasks(s, j as int)[i].memory_end);
    }
    proof {
        if count < MAX_PMP_TASKS {
            assert(present_tasks(s, s.len() as int).len() == count);
        }
    }

    // Build the pmpaddr values and the per-entry configuration bytes.
    let mut pmpaddr: Vec<usize> = Vec::new();
    let mut pmpcfg_bytes: Vec<u8> = Vec::new();
    let mut e: usize = 0;
    while e < PMP_ENTRIES
        invariant
            e <= PMP_ENTRIES,
            count <= MAX_PMP_TASKS,
            starts@.len() == count,
            ends@.len() == count,
            pmpaddr@.len() == e,
            pmpcfg_bytes@.len() == e,
            forall|x: int| 0 <= x < e ==> #[trigger] pmpcfg_bytes@[x] == cfg_byte(x, count as int),
            forall|x: int| 0 <= x < e ==> #[trigger] pmpaddr@[x] == if x / 2 < count {
                if x % 2 == 0 { starts@[x / 2] / 4 } else { ends@[x / 2] / 4 }
            } else {
                0
            },
        decreases PMP_ENTRIES - e,
    {
        let task = e / 2;
        if task < count {
            if e % 2 == 0 {
                let st = starts[task];
                let a = st >> 2usize;
                assert(a == st / 4) by (bit_vector)
                    requires
                        a == st >> 2usize,
                ;
                pmpaddr.push(a);
                pmpcfg_bytes.push(PMP_OFF);
            } else {
                let en = ends[task];
                let a = en >> 2usize;
                assert(a == en / 4) by (bit_vector)
                    requires
                        a == en >> 2usize,
                ;
                pmpaddr.push(a);
                let tor_rw = PMP_TOR | PMP_R | PMP_W;
                assert(tor_rw == 0x0B) by (bit_vector)
                    requires
                        tor_rw == 8u8 | 1u8 | 2u8,
                ;
                pmpcfg_bytes.push(tor_rw);
            }
        } else {
            pmpaddr.push(0);
            pmpcfg_bytes.push(PMP_OFF);
        }
        e = e + 1;
    }

    // Pack four configuration bytes into each pmpcfg register.
    let mut pmpcfg: Vec<usize> = Vec::new();
    let mut w: usize = 0;
    while w < 4
        invariant
            w <= 4,
            pmpcfg_bytes@.len() == PMP_ENTRIES,
            forall|x: int| 0 <= x < PMP_ENTRIES ==> #[trigger] pmpcfg_bytes@[x] == cfg_byte(x, count as int),
            pmpcfg@.len() == w,
            forall|v: int| 0 <= v < w ==> #[trigger] pmpcfg@[v] == cfg_word(v, count as int),
        decreases 4 - w,
    {
        let word = pack_pmpcfg(pmpcfg_bytes[4 * w], pmpcfg_bytes[4 * w + 1], pmpcfg_bytes[4 * w + 2], pmpcfg_bytes[4 * w + 3]);
        pmpcfg.push(word);
        w = w + 1;
    }

    let cfg = PmpConfig { pmpaddr, pmpcfg, count, truncated };
    proof {
        let tasks = present_tasks(s, s.len() as int);
        assert forall|i: int| 0 <= i < cfg.count implies {
            &&& #[trigger] cfg.pmpaddr@[2 * i] == tasks[i].memory_start / 4
            &&& cfg.pmpaddr@[2 * i + 1] == tasks[i].memory_end / 4
        } by {
            assert((2 * i) / 2 == i);
            assert((2 * i + 1) / 2 == i);
            assert((2 * i) % 2 == 0);
            assert((2 * i + 1) % 2 == 1);
            assert(starts@[i] == tasks[i].memory_start);
            assert(ends@[i] == tasks[i].memory_end);
        }
    }
    cfg
}

/// Present tasks of a shorter prefix are a prefix of those of a longer one.
proof fn lemma_present_tasks_prefix(s: Seq<Option<TaskDescriptor>>, j: int, n: int)
    requires
        0 <= j <= n <= s.len(),
    ensures
        present_tasks(s, j).len() <= present_tasks(s, n).len(),
        forall|i: int| 0 <= i < present_tasks(s, j).len() ==> #[trigger] present_tasks(s, n)[i] == present_tasks(s, j)[i],
    decreases n - j,
{
    if j < n {
        lemma_present_tasks_prefix(s, j, n - 1);
    }
}


/// Byte `k` of the register value `w`, byte 0 the lowest.
pub open spec fn reg_byte(w: int, k: nat) -> int
    decreases k,
{
    if k == 0 {
        w % 0x100
    } else {
        reg_byte(w / 0x100, (k - 1) as nat)
    }
}

/// The four bytes of `b0 + 0x100 * b1 + 0x1_0000 * b2 + 0x100_0000 * b3`.
proof fn lemma_word_bytes(b0: int, b1: int, b2: int, b3: int)
    requires
        0 <= b0 < 0x100,
        0 <= b1 < 0x100,
        0 <= b2 < 0x100,
        0 <= b3 < 0x100,
    ensures
        ({
            let x = b0 + 0x100 * b1 + 0x1_0000 * b2 + 0x100_0000 * b3;
            &&& reg_byte(x, 0) == b0
            &&& reg_byte(x, 1) == b1
            &&& reg_byte(x, 2) == b2
            &&& reg_byte(x, 3) == b3
        }),
{
    let y2 = b2 + 0x100 * b3;
    let y1 = b1 + 0x100 * y2;
    let x = b0 + 0x100 * y1;
    assert(x == b0 + 0x100 * b1 + 0x1_0000 * b2 + 0x100_0000 * b3);
    vstd::arithmetic::div_mod::lemma_fundamental_div_mod_converse(x, 0x100, y1, b0);
    vstd::arithmetic::div_mod::lemma_fundamental_div_mod_converse(y1, 0x100, y2, b1);
    vstd::arithmetic::div_mod::lemma_fundamental_div_mod_converse(y2, 0x100, b3, b2);
    vstd::arithmetic::div_mod::lemma_fundamental_div_mod_converse(b3, 0x100, 0, b3);
    assert(reg_byte(x, 1) == reg_byte(y1, 0));
    assert(reg_byte(x, 2) == reg_byte(y1, 1));
    assert(reg_byte(y1, 1) == reg_byte(y2, 0));
    assert(reg_byte(x, 3) == reg_byte(y1, 2));
    assert(reg_byte(y1, 2) == reg_byte(y2, 1));
    assert(reg_byte(y2, 1) == reg_byte(b3, 0));
}

/// Every protected task's region is read/write protected: with the
/// `pmpcfg` words that `configure_pmp` plans for `count` tasks, the
/// configuration byte of each task's limit entry `2i + 1` (byte
/// `(2i + 1) % 4` of word `(2i + 1) / 4`) is `TOR | R | W` = `0x0B`, its base
/// entry `2i` is OFF, and every entry past the protected tasks is OFF.
pub proof fn lemma_pmp_protects_each_task(pmpcfg: Seq<usize>, count: int)
    requires
        0 <= count <= MAX_PMP_TASKS,
        pmpcfg.len() == 4,
        forall|w: int| 0 <= w < 4 ==> #[trigger] pmpcfg[w] == cfg_word(w, count),
    ensures
        forall|i: int| 0 <= i < count ==> #[trigger] reg_byte(pmpcfg[(2 * i + 1) / 4] as int, ((2 * i + 1) % 4) as nat)
            == (PMP_TOR | PMP_R | PMP_W),
        forall|i: int| 0 <= i < count ==> #[trigger] reg_byte(pmpcfg[(2 * i) / 4] as int, ((2 * i) % 4) as nat) == PMP_OFF,
        forall|e: int| 2 * count <= e < PMP_ENTRIES ==> #[trigger] reg_byte(pmpcfg[e / 4] as int, (e % 4) as nat) == PMP_OFF,
{
    assert((PMP_TOR | PMP_R | PMP_W) == 0x0B) by (bit_vector);
    assert forall|e: int| 0 <= e < PMP_ENTRIES implies #[trigger] reg_byte(pmpcfg[e / 4] as int, (e % 4) as nat)
        == cfg_byte(e, count) by {
        let w = e / 4;
        lemma_word_bytes(cfg_byte(4 * w, count), cfg_byte(4 * w + 1, count), cfg_byte(4 * w + 2, count), cfg_byte(4 * w + 3, count));
        assert(pmpcfg[w] == cfg_word(w, count));
    }
    assert forall|i: int| 0 <= i < count implies #[trigger] reg_byte(pmpcfg[(2 * i + 1) / 4] as int, ((2 * i + 1) % 4) as nat)
        == (PMP_TOR | PMP_R | PMP_W) by {
        assert(reg_byte(pmpcfg[(2 * i + 1) / 4] as int, ((2 * i + 1) % 4) as nat) == cfg_byte(2 * i + 1, count));
    }
    assert forall|i: int| 0 <= i < count implies #[trigger] reg_byte(pmpcfg[(2 * i) / 4] as int, ((2 * i) % 4) as nat) == PMP_OFF by {
        assert(reg_byte(pmpcfg[(2 * i) / 4] as int, ((2 * i) % 4) as nat) == cfg_byte(2 * i, count));
    }
}


/// The tasks `configure_pmp` protects are the present tasks in slot order:
/// the returned `idx` lists, strictly increasing, the slots below `n` that
/// hold a task, and the `k`-th protected candidate is the task in slot
/// `idx[k]`.
pub proof fn lemma_present_tasks_in_slot_order(s: Seq<Option<TaskDescriptor>>, n: int) -> (idx: Seq<int>)
    requires
        0 <= n <= s.len(),
    ensures
        idx.len() == present_tasks(s, n).len(),
        forall|k: int| 0 <= k < idx.len() ==> 0 <= #[trigger] idx[k] < n && s[idx[k]] == Some(present_tasks(s, n)[k]),
        forall|a: int, b: int| 0 <= a < b < idx.len() ==> #[trigger] idx[a] < #[trigger] idx[b],
        forall|i: int| 0 <= i < n && #[trigger] s[i] is Some ==> exists|k: int| 0 <= k < idx.len() && #[trigger] idx[k] == i,
    decreases n,
{
    if n == 0 {
        Seq::empty()
    } else {
        let prev = lemma_present_tasks_in_slot_order(s, n - 1);
        let p = present_tasks(s, n - 1);
        if s[n - 1] is Some {
            let idx = prev.push(n - 1);
            assert forall|k: int| 0 <= k < idx.len() implies 0 <= #[trigger] idx[k] < n && s[idx[k]] == Some(present_tasks(s, n)[k]) by {
                if k < prev.len() {
                    assert(idx[k] == prev[k]);
                    assert(present_tasks(s, n)[k] == p[k]);
                }
            }
            assert forall|i: int| 0 <= i < n && #[trigger] s[i] is Some implies exists|k: int| 0 <= k < idx.len() && #[trigger] idx[k] == i by {
                if i < n - 1 {
                    let k = choose|k: int| 0 <= k < prev.len() && #[trigger] prev[k] == i;
                    assert(idx[k] == i);
                } else {
                    assert(idx[prev.len() as int] == i);
                }
            }
            assert forall|a: int, b: int| 0 <= a < b < idx.len() implies #[trigger] idx[a] < #[trigger] idx[b] by {
                assert(idx[a] == prev[a]);
                if b < prev.len() {
                    assert(idx[b] == prev[b]);
                }
            }
            idx
        } else {
            assert forall|i: int| 0 <= i < n && #[trigger] s[i] is Some implies exists|k: int| 0 <= k < prev.len() && #[trigger] prev[k] == i by {
            }
            prev
        }
    }
}

} // verus!
