//! CA-PIP scheduler: the capability contention graph, inherited priorities,
//! the ready queue and the preemption decision taken on every timer tick.
//!
//! The scheduler state is a value of [`Scheduler`]: the ready queue keyed by
//! effective priority, the running task and the ticks it has run.  The timer
//! interrupt calls [`Scheduler::tick`], which decides whether to switch.
pub mod ccg;
pub mod mip;
pub mod queue;

use vstd::prelude::*;
use vstd::multiset::Multiset;
use crate::config::MAX_TASKS;
use crate::memory::task::{TaskDescriptor, TaskRegistry, TaskState};
use crate::scheduler::queue::{is_top, key_before, lemma_top_unique, PriorityQueue, QueueEntry};

verus! {

/// Time quantum in timer ticks (1 tick = 1 ms by default).
pub const TIME_QUANTUM_TICKS: u32 = 5;

/// Context-switch latency, in CLINT cycles, above which a window is flagged.
pub const SWITCH_LATENCY_WARN_CYCLES: u32 = 1000;

/// Number of context switches accumulated before latency stats are reported.
pub const SWITCH_STATS_WINDOW: u32 = 1000;

/// Summary of one window of context-switch latencies.
#[derive(Clone, Copy, PartialEq, Eq, Debug, Structural)]
pub struct LatencyReport {
    /// Smallest sample of the window.
    pub min: u32,
    /// Largest sample of the window.
    pub max: u32,
    /// Mean sample, rounded down.
    pub avg: u32,
    /// The largest sample exceeded `SWITCH_LATENCY_WARN_CYCLES`.
    pub over_budget: bool,
}

/// Running min/max/total statistics over a window of context switches.
pub struct SwitchStats {
    /// Smallest sample so far (`u32::MAX` when none).
    pub min: u32,
    /// Largest sample so far (0 when none).
    pub max: u32,
    /// Sum of the samples so far.
    pub total: u64,
    /// Number of samples so far.
    pub count: u32,
}

impl SwitchStats {
    /// Fewer samples than a window, and a total that `count` samples can reach.
    pub open spec fn wf(&self) -> bool {
        &&& self.count < SWITCH_STATS_WINDOW
        &&& self.total <= self.count * 0xFFFF_FFFFu64
    }

    /// Empty statistics.
    pub fn new() -> (r: Self)
        ensures
            r == (SwitchStats { min: u32::MAX, max: 0, total: 0, count: 0 }),
            r.wf(),
    {
        SwitchStats { min: u32::MAX, max: 0, total: 0, count: 0 }
    }

    /// Record one context-switch latency sample in CLINT cycles.
    ///
    /// When the sample completes a window, returns the window's report and
    /// resets the statistics.
    pub fn record(&mut self, cycles: u32) -> (r: Option<LatencyReport>)
        requires
            old(self).wf(),
        ensures
            final(self).wf(),
            ({
                let min = if cycles < old(self).min { cycles } else { old(self).min };
                let max = if cycles > old(self).max { cycles } else { old(self).max };
                let total = old(self).total + cycles;
                let count = old(self).count + 1;
                if count >= SWITCH_STATS_WINDOW {
                    &&& r == Some(LatencyReport {
                        min,
                        max,
                        avg: (total / count) as u32,
                        over_budget: max > SWITCH_LATENCY_WARN_CYCLES,
                    })
                    &&& total / count <= u32::MAX
                    &&& *final(self) == (SwitchStats { min: u32::MAX, max: 0, total: 0, count: 0 })
                } else {
                    &&& r is None
                    &&& *final(self) == (SwitchStats { min, max, total: total as u64, count: count as u32 })
                }
            }),
    {
        if cycles < self.min {
            self.min = cycles;
        }
        if cycles > self.max {
            self.max = cycles;
        }
        proof {
            assert((self.count + 1) * 0xFFFF_FFFFu64 == self.count * 0xFFFF_FFFFu64 + 0xFFFF_FFFFu64) by (nonlinear_arith);
        }
        self.total = self.total + cycles as u64;
        self.count = self.count + 1;

        if self.count >= SWITCH_STATS_WINDOW {
            proof {
                lemma_div_bound(self.total as int, self.count as int);
            }
            let avg = (self.total / self.count as u64) as u32;
            let report = LatencyReport {
                min: self.min,
                max: self.max,
                avg,
                over_budget: self.max > SWITCH_LATENCY_WARN_CYCLES,
            };
            *self = SwitchStats::new();
            return Some(report);
        }
        None
    }
}

/// Effective priority of the task in slot `i`, or 0 when `i` is outside the
/// registry or the slot is empty.
pub open spec fn slot_effective_priority(s: Seq<Option<TaskDescriptor>>, i: int) -> u8 {
    if 0 <= i < s.len() && s[i] is Some {
        s[i]->0.spec_effective_priority()
    } else {
        0
    }
}

/// `(slot, effective priority, rank)` for every `Ready` task among the first
/// `n` slots, where the rank counts the `Ready` tasks in lower slots: the
/// entries the ready queue holds after enqueueing those slots in order.
pub open spec fn ready_entries(s: Seq<Option<TaskDescriptor>>, n: int) -> Multiset<QueueEntry>
    decreases n,
{
    if n <= 0 {
        Multiset::empty()
    } else {
        let m = ready_entries(s, n - 1);
        if s[n - 1] is Some && s[n - 1]->0.state == TaskState::Ready {
            m.insert(((n - 1) as u8, s[n - 1]->0.spec_effective_priority(), m.len() as u64))
        } else {
            m
        }
    }
}

/// The slot `o` with its inherited priority set to `m`.
pub open spec fn with_mip(o: Option<TaskDescriptor>, m: u8) -> Option<TaskDescriptor> {
    match o {
        Some(t) => Some(TaskDescriptor { max_inherited_priority: m, ..t }),
        None => None,
    }
}

/// `x + 1` with wrap-around at `u32::MAX`.
pub open spec fn wrapping_inc(x: u32) -> u32 {
    if x == u32::MAX { 0 } else { (x + 1) as u32 }
}

/// The running task occupies a registry slot.
pub open spec fn has_running(s: Scheduler, registry: Seq<Option<TaskDescriptor>>) -> bool {
    (s.current_task_idx as int) < registry.len() && registry[s.current_task_idx as int] is Some
}

/// The entry the running task is queued under when it is switched out: its
/// slot, its effective priority and the queue's next insertion stamp.
pub open spec fn running_entry(s: Scheduler, registry: Seq<Option<TaskDescriptor>>) -> QueueEntry {
    (
        s.current_task_idx,
        slot_effective_priority(registry, s.current_task_idx as int),
        s.ready_queue.spec_next_seq(),
    )
}

/// Whether the tick from state `s` switches tasks: a strictly higher
/// effective priority is ready, or the quantum has expired and a ready task
/// has at least the running task's effective priority.
pub open spec fn tick_should_switch(s: Scheduler, registry: Seq<Option<TaskDescriptor>>) -> bool {
    let ticks = wrapping_inc(s.ticks_since_switch);
    let cur_eff = slot_effective_priority(registry, s.current_task_idx as int);
    let q = s.ready_queue;
    let next_eff: u8 = if q.spec_len() == 0 { 0 } else { q.root().1 };
    next_eff > cur_eff || (ticks >= TIME_QUANTUM_TICKS && next_eff >= cur_eff && q.spec_len() > 0)
}

/// The ready entries competing on a switch: the ready queue, plus the
/// running task (stamped behind every queued entry) when it occupies a
/// registry slot.
pub open spec fn tick_candidates(s: Scheduler, registry: Seq<Option<TaskDescriptor>>) -> Multiset<QueueEntry> {
    if has_running(s, registry) {
        s.ready_queue.view().insert(running_entry(s, registry))
    } else {
        s.ready_queue.view()
    }
}

/// The outcome of one tick from `before` to `after`, returning `r`.
///
/// On a switch the head of the ready queue becomes the running task and
/// leaves the queue, the running task is queued behind every waiting entry
/// of its priority, and the new task is reported when it differs from the
/// one that was running.  Otherwise nothing but the tick count changes.
pub open spec fn tick_outcome(before: Scheduler, after: Scheduler, registry: Seq<Option<TaskDescriptor>>, r: Option<u8>) -> bool {
    let head = before.ready_queue.root();
    if tick_should_switch(before, registry) {
        &&& after.ready_queue.view() =~= tick_candidates(before, registry).remove(head)
        &&& after.ready_queue.spec_next_seq() == before.ready_queue.spec_next_seq()
            + if has_running(before, registry) { 1int } else { 0int }
        &&& after.current_task_idx == head.0
        &&& after.ticks_since_switch == 0
        &&& r == if head.0 != before.current_task_idx { Some(head.0) } else { None }
    } else {
        &&& r is None
        &&& after.ready_queue == before.ready_queue
        &&& after.current_task_idx == before.current_task_idx
        &&& after.ticks_since_switch == wrapping_inc(before.ticks_since_switch)
    }
}

/// Scheduler state: ready queue, running task and its tick count.
pub struct Scheduler {
    /// Ready tasks keyed by effective priority (registry slot, priority).
    pub ready_queue: PriorityQueue<MAX_TASKS>,
    /// Registry slot of the running task (`0xFF` = none).
    pub current_task_idx: u8,
    /// Ticks the running task has run since it was last switched in.
    pub ticks_since_switch: u32,
    /// Context-switch latency statistics.
    pub switch_stats: SwitchStats,
}

impl Scheduler {
    /// Boot-time scheduler initialisation.
    ///
    /// Copies the precomputed inherited priorities into the registered
    /// descriptors, enqueues every `Ready` task by effective priority, and
    /// makes the head of the queue (the highest priority, lowest slot among
    /// equals) the running task (`0xFF` if none).
    pub fn init(registry: &mut TaskRegistry, precomputed_mip: &[u8]) -> (sched: Scheduler)
        requires
            old(registry).wf(),
            precomputed_mip@.len() == MAX_TASKS,
        ensures
            final(registry).wf(),
            final(registry).count == old(registry).count,
            forall|i: int| 0 <= i < MAX_TASKS ==> #[trigger] final(registry)@[i] == with_mip(old(registry)@[i], precomputed_mip@[i]),
            sched.ready_queue.wf(),
            sched.ticks_since_switch == 0,
            sched.switch_stats == (SwitchStats { min: u32::MAX, max: 0, total: 0, count: 0 }),
            ({
                let ready = ready_entries(final(registry)@, MAX_TASKS as int);
                &&& sched.ready_queue.spec_next_seq() == ready.len()
                &&& if ready.len() == 0 {
                    sched.current_task_idx == 0xFF && sched.ready_queue.view() =~= Multiset::empty()
                } else {
                    exists|e: QueueEntry| #[trigger] is_top(ready, e)
                        && sched.current_task_idx == e.0
                        && sched.ready_queue.view() =~= ready.remove(e)
                }
            }),
    {
        // Write the precomputed inherited priorities.
        let n = registry.task_count();
        let mut i: usize = 0;
        while i < n
            invariant
                old(registry).wf(),
                n == old(registry).count,
                registry.wf(),
                registry.count == n,
                i <= n,
                precomputed_mip@.len() == MAX_TASKS,
                forall|k: int| 0 <= k < MAX_TASKS ==> #[trigger] registry@[k] == if k < i {
                    with_mip(old(registry)@[k], precomputed_mip@[k])
                } else {
                    old(registry)@[k]
                },
            decreases n - i,
        {
            let ghost before = registry@;
            match registry.tasks[i] {
                Some(t) => {
                    let mut updated = t;
                    updated.max_inherited_priority = precomputed_mip[i];
                    registry.tasks.set(i, Some(updated));
                },
                None => {},
            }
            proof {
                assert forall|k: int| 0 <= k < MAX_TASKS implies #[trigger] registry@[k] == if k < i + 1 {
                    with_mip(old(registry)@[k], precomputed_mip@[k])
                } else {
                    old(registry)@[k]
                } by {
                    if k != i {
                        assert(registry@[k] == before[k]);
                    }
                }
            }
            i = i + 1;
        }
        proof {
            assert forall|k: int| 0 <= k < MAX_TASKS implies #[trigger] registry@[k] == with_mip(old(registry)@[k], precomputed_mip@[k]) by {
                if k >= n {
                    assert(old(registry)@[k] is None);
                }
            }
        }

        // Enqueue every Ready task.
        let mut rq: PriorityQueue<MAX_TASKS> = PriorityQueue::new();
        let ghost s = registry@;
        let mut i: usize = 0;
        while i < MAX_TASKS
            invariant
                s == registry@,
                s.len() == MAX_TASKS,
                i <= MAX_TASKS,
                rq.wf(),
                rq.spec_len() <= i,
                rq.spec_len() == rq.spec_next_seq(),
                rq.view() =~= ready_entries(s, i as int),
            decreases MAX_TASKS - i,
        {
            match &registry.tasks[i] {
                Some(task) => {
                    if task.state == TaskState::Ready {
                        rq.insert(i as u8, task.effective_priority());
                    }
                },
                None => {},
            }
            proof {
                rq.lemma_root_is_top();
            }
            i = i + 1;
        }

        let ghost ready = rq.view();
        proof {
            rq.lemma_root_is_top();
        }
        let ghost root = rq.root();
        let mut current: u8 = 0xFF;
        if let Some(idx) = rq.pop_max() {
            current = idx;
            assert(is_top(ready, root));
        }
        Scheduler { ready_queue: rq, current_task_idx: current, ticks_since_switch: 0, switch_stats: SwitchStats::new() }
    }

    /// Preemption check, run on every timer tick.
    ///
    /// The running task is switched out when a strictly higher effective
    /// priority is ready, or when its quantum has expired and a task of at
    /// least its effective priority is ready.  On a switch the running task
    /// goes back to the ready queue, behind every waiting task of its
    /// priority, and the head of the queue is taken out to run; the result is
    /// `Some(slot)` when that task differs from the one that was running,
    /// `None` otherwise.
    pub fn tick(&mut self, registry: &[Option<TaskDescriptor>]) -> (r: Option<u8>)
        requires
            old(self).ready_queue.wf(),
            tick_should_switch(*old(self), registry@) && has_running(*old(self), registry@) ==> {
                &&& old(self).ready_queue.spec_len() < MAX_TASKS
                &&& old(self).ready_queue.spec_next_seq() < u64::MAX
            },
        ensures
            final(self).ready_queue.wf(),
            final(self).switch_stats == old(self).switch_stats,
            tick_outcome(*old(self), *final(self), registry@, r),
    {
        self.ticks_since_switch = self.ticks_since_switch.wrapping_add(1);
        let cur_idx = self.current_task_idx as usize;

        // Effective priority of the running task.
        let cur_eff: u8 = if cur_idx < registry.len() {
            match &registry[cur_idx] {
                Some(t) => t.effective_priority(),
                None => 0,
            }
        } else {
            0
        };

        // Effective priority of the best ready task.
        let next_eff = self.ready_queue.peek_max_priority();

        let quantum_expired = self.ticks_since_switch >= TIME_QUANTUM_TICKS;
        let should_switch = next_eff > cur_eff
            || (quantum_expired && next_eff >= cur_eff && !self.ready_queue.is_empty());

        if should_switch {
            proof {
                lemma_switch_takes_head(*old(self), registry@);
            }
            // Move the current task back to the ready queue.
            if cur_idx < registry.len() {
                if let Some(t) = &registry[cur_idx] {
                    self.ready_queue.insert(self.current_task_idx, t.effective_priority());
                }
            }
            proof {
                self.ready_queue.lemma_root_is_top();
                lemma_top_unique(self.ready_queue.view(), self.ready_queue.root(), old(self).ready_queue.root());
            }
            // Pop the new task.
            if let Some(next_idx) = self.ready_queue.pop_max() {
                let old_idx = self.current_task_idx;
                self.current_task_idx = next_idx;
                self.ticks_since_switch = 0;
                if next_idx != old_idx {
                    return Some(next_idx);
                }
            }
        }
        None
    }

    /// Registry slot of the running task.
    pub fn current_task_idx(&self) -> (r: u8)
        ensures
            r == self.current_task_idx,
    {
        self.current_task_idx
    }
}

/// On a switching tick the ready queue is not empty and its head is the top
/// of the candidates: no candidate has a higher effective priority, and every
/// candidate of equal priority, the running task included, was queued later.
pub proof fn lemma_switch_takes_head(s: Scheduler, registry: Seq<Option<TaskDescriptor>>)
    requires
        s.ready_queue.wf(),
        tick_should_switch(s, registry),
    ensures
        s.ready_queue.spec_len() > 0,
        is_top(tick_candidates(s, registry), s.ready_queue.root()),
{
    s.ready_queue.lemma_root_is_top();
    let head = s.ready_queue.root();
    let c = tick_candidates(s, registry);
    assert(s.ready_queue.spec_len() > 0);
    assert(c.contains(head));
    assert forall|f: QueueEntry| #[trigger] c.contains(f) && f != head implies key_before(head, f) by {
        if !s.ready_queue.view().contains(f) {
            assert(f == running_entry(s, registry));
        }
    }
}

/// After every tick no ready task has a higher effective priority than the
/// running one: on a switch the new task is the top candidate; otherwise no
/// ready task was above the running task.
pub proof fn lemma_tick_runs_highest(before: Scheduler, after: Scheduler, registry: Seq<Option<TaskDescriptor>>, r: Option<u8>)
    requires
        before.ready_queue.wf(),
        tick_outcome(before, after, registry, r),
    ensures
        forall|f: QueueEntry| #[trigger] after.ready_queue.view().contains(f) ==> f.1 <= if tick_should_switch(
            before,
            registry,
        ) {
            before.ready_queue.root().1
        } else {
            slot_effective_priority(registry, before.current_task_idx as int)
        },
{
    before.ready_queue.lemma_root_is_top();
    if tick_should_switch(before, registry) {
        lemma_switch_takes_head(before, registry);
        let c = tick_candidates(before, registry);
        let head = before.ready_queue.root();
        assert forall|f: QueueEntry| #[trigger] after.ready_queue.view().contains(f) implies f.1 <= head.1 by {
            assert(c.remove(head).count(f) <= c.count(f));
            assert(c.contains(f));
        }
    }
}

/// Round robin within a priority level: when a tick switches away from a
/// registered task, that task is queued again under a stamp later than every
/// other queued entry, so every task waiting at its priority leaves the queue
/// before it does.
pub proof fn lemma_tick_rotates(before: Scheduler, after: Scheduler, registry: Seq<Option<TaskDescriptor>>, r: Option<u8>)
    requires
        before.ready_queue.wf(),
        after.ready_queue.wf(),
        tick_outcome(before, after, registry, r),
        tick_should_switch(before, registry),
        has_running(before, registry),
    ensures
        after.ready_queue.view().contains(running_entry(before, registry)),
        forall|f: QueueEntry| #[trigger] after.ready_queue.view().contains(f) && f != running_entry(before, registry)
            && f.1 >= running_entry(before, registry).1 ==> key_before(f, running_entry(before, registry)),
{
    before.ready_queue.lemma_root_is_top();
    lemma_switch_takes_head(before, registry);
    let run = running_entry(before, registry);
    let c = tick_candidates(before, registry);
    let head = before.ready_queue.root();
    assert(head.2 < before.ready_queue.spec_next_seq());
    assert(head != run);
    assert(c.remove(head).count(run) == c.count(run));
    assert forall|f: QueueEntry| #[trigger] after.ready_queue.view().contains(f) && f != run && f.1 >= run.1 implies key_before(f, run) by {
        assert(c.remove(head).count(f) <= c.count(f));
        assert(c.contains(f));
        assert(before.ready_queue.view().contains(f));
    }
}

/// Effective priority of the running task in slot `cur`, 0 when that slot is
/// outside the registry or empty.
pub open spec fn running_priority(registry: Seq<Option<TaskDescriptor>>, cur: u8) -> u8 {
    if (cur as int) < registry.len() && registry[cur as int] is Some {
        let t = registry[cur as int]->0;
        if t.priority >= t.max_inherited_priority { t.priority } else { t.max_inherited_priority }
    } else {
        0
    }
}

/// Preemption: a tick switches to the head of the ready queue when its
/// priority is strictly above the running task's, or when the running task
/// has used up its quantum (this tick brings its count to at least
/// `TIME_QUANTUM_TICKS`) and the head's priority is at least its own.  The
/// running task is then queued again and the head runs with a fresh count.
pub proof fn lemma_tick_switches(before: Scheduler, after: Scheduler, registry: Seq<Option<TaskDescriptor>>, r: Option<u8>)
    requires
        before.ready_queue.wf(),
        tick_outcome(before, after, registry, r),
        before.ready_queue.spec_len() > 0,
        before.ready_queue.root().1 > running_priority(registry, before.current_task_idx)
            || (before.ticks_since_switch < u32::MAX && before.ticks_since_switch + 1 >= TIME_QUANTUM_TICKS
                && before.ready_queue.root().1 >= running_priority(registry, before.current_task_idx)),
    ensures
        after.current_task_idx == before.ready_queue.root().0,
        after.ticks_since_switch == 0,
        r == if before.ready_queue.root().0 != before.current_task_idx { Some(before.ready_queue.root().0) } else { None },
        (before.current_task_idx as int) < registry.len() && registry[before.current_task_idx as int] is Some
            ==> after.ready_queue.view().contains(
            (before.current_task_idx, running_priority(registry, before.current_task_idx), before.ready_queue.spec_next_seq()),
        ),
        after.ready_queue.view().len() == before.ready_queue.view().len()
            + if (before.current_task_idx as int) < registry.len() && registry[before.current_task_idx as int] is Some { 0int } else { -1int },
{
    before.ready_queue.lemma_root_is_top();
    let cur = before.current_task_idx;
    assert(slot_effective_priority(registry, cur as int) == running_priority(registry, cur));
    assert(tick_should_switch(before, registry));
    lemma_switch_takes_head(before, registry);
    let c = tick_candidates(before, registry);
    let head = before.ready_queue.root();
    assert(c.contains(head));
    if has_running(before, registry) {
        assert(head.2 < before.ready_queue.spec_next_seq());
        assert(c.remove(head).count(running_entry(before, registry)) == c.count(running_entry(before, registry)));
    }
}

/// No preemption: when the ready queue is empty, or its head has a lower
/// priority than the running task, or the head's priority does not exceed
/// the running task's and its quantum is not used up, the tick leaves the
/// running task, the ready queue and the result alone and only counts the
/// tick.
pub proof fn lemma_tick_keeps_running(before: Scheduler, after: Scheduler, registry: Seq<Option<TaskDescriptor>>, r: Option<u8>)
    requires
        before.ready_queue.wf(),
        tick_outcome(before, after, registry, r),
        before.ready_queue.spec_len() == 0
            || before.ready_queue.root().1 < running_priority(registry, before.current_task_idx)
            || (before.ticks_since_switch + 1 < TIME_QUANTUM_TICKS
                && before.ready_queue.root().1 <= running_priority(registry, before.current_task_idx)),
    ensures
        r is None,
        after.current_task_idx == before.current_task_idx,
        after.ready_queue == before.ready_queue,
        after.ticks_since_switch == if before.ticks_since_switch == u32::MAX { 0 } else { before.ticks_since_switch + 1 },
{
    let cur = before.current_task_idx;
    assert(slot_effective_priority(registry, cur as int) == running_priority(registry, cur));
    assert(!tick_should_switch(before, registry));
}

/// The entries enqueued from the first `n` slots are exactly the `Ready`
/// tasks there, each under its slot and effective priority.
proof fn lemma_ready_entries_slots(s: Seq<Option<TaskDescriptor>>, n: int)
    requires
        0 <= n <= s.len(),
        s.len() <= 256,
    ensures
        forall|e: QueueEntry| #[trigger] ready_entries(s, n).contains(e) ==> {
            &&& (e.0 as int) < n
            &&& s[e.0 as int] is Some
            &&& s[e.0 as int]->0.state == TaskState::Ready
            &&& e.1 == s[e.0 as int]->0.spec_effective_priority()
        },
        forall|i: int| 0 <= i < n && #[trigger] s[i] is Some && s[i]->0.state == TaskState::Ready
            ==> exists|st: u64| #[trigger] ready_entries(s, n).contains((i as u8, s[i]->0.spec_effective_priority(), st)),
    decreases n,
{
    broadcast use vstd::multiset::group_multiset_axioms;
    if n > 0 {
        lemma_ready_entries_slots(s, n - 1);
        let m = ready_entries(s, n - 1);
        assert(((n - 1) as u8) as int == n - 1);
        assert forall|e: QueueEntry| #[trigger] ready_entries(s, n).contains(e) implies {
            &&& (e.0 as int) < n
            &&& s[e.0 as int] is Some
            &&& s[e.0 as int]->0.state == TaskState::Ready
            &&& e.1 == s[e.0 as int]->0.spec_effective_priority()
        } by {
            if !m.contains(e) {
                assert(e.0 == (n - 1) as u8);
            }
        }
        assert forall|i: int| 0 <= i < n && #[trigger] s[i] is Some && s[i]->0.state == TaskState::Ready
            implies exists|st: u64| #[trigger] ready_entries(s, n).contains((i as u8, s[i]->0.spec_effective_priority(), st)) by {
            if i < n - 1 {
                let st = choose|st: u64| #[trigger] m.contains((i as u8, s[i]->0.spec_effective_priority(), st));
                assert(ready_entries(s, n).contains((i as u8, s[i]->0.spec_effective_priority(), st)));
            } else {
                assert(ready_entries(s, n).contains((i as u8, s[i]->0.spec_effective_priority(), m.len() as u64)));
            }
        }
    }
}

/// Boot picks only `Ready` tasks: after `Scheduler::init` (whose outcome on
/// the updated registry `reg` is stated in the requires), every queued entry
/// is a `Ready` task under its slot and effective priority, the running
/// task (if any) is `Ready` and of the highest priority among them, and
/// every `Ready` task is either running or queued.
pub proof fn lemma_init_schedules_ready(reg: Seq<Option<TaskDescriptor>>, sched: Scheduler)
    requires
        reg.len() == MAX_TASKS,
        sched.ready_queue.wf(),
        ({
            let ready = ready_entries(reg, MAX_TASKS as int);
            &&& sched.ready_queue.spec_next_seq() == ready.len()
            &&& if ready.len() == 0 {
                sched.current_task_idx == 0xFF && sched.ready_queue.view() =~= Multiset::empty()
            } else {
                exists|e: QueueEntry| #[trigger] is_top(ready, e)
                    && sched.current_task_idx == e.0
                    && sched.ready_queue.view() =~= ready.remove(e)
            }
        }),
    ensures
        forall|e: QueueEntry| #[trigger] sched.ready_queue.view().contains(e) ==> {
            &&& (e.0 as int) < MAX_TASKS
            &&& reg[e.0 as int] is Some
            &&& reg[e.0 as int]->0.state == TaskState::Ready
            &&& e.1 == reg[e.0 as int]->0.spec_effective_priority()
        },
        sched.current_task_idx != 0xFF ==> {
            &&& (sched.current_task_idx as int) < MAX_TASKS
            &&& reg[sched.current_task_idx as int] is Some
            &&& reg[sched.current_task_idx as int]->0.state == TaskState::Ready
            &&& forall|e: QueueEntry| #[trigger] sched.ready_queue.view().contains(e)
                ==> e.1 <= reg[sched.current_task_idx as int]->0.spec_effective_priority()
        },
        forall|i: int| 0 <= i < MAX_TASKS && #[trigger] reg[i] is Some && reg[i]->0.state == TaskState::Ready
            ==> sched.current_task_idx == i || exists|st: u64|
                #[trigger] sched.ready_queue.view().contains((i as u8, reg[i]->0.spec_effective_priority(), st)),
{
    broadcast use vstd::multiset::group_multiset_axioms;
    let ready = ready_entries(reg, MAX_TASKS as int);
    lemma_ready_entries_slots(reg, MAX_TASKS as int);
    if ready.len() != 0 {
        let e = choose|e: QueueEntry| #[trigger] is_top(ready, e)
            && sched.current_task_idx == e.0
            && sched.ready_queue.view() =~= ready.remove(e);
        assert(ready.contains(e));
        assert(sched.ready_queue.view() =~= ready.remove(e));
        assert forall|f: QueueEntry| #[trigger] sched.ready_queue.view().contains(f) implies ready.contains(f) && f.1 <= e.1 by {
            assert(ready.remove(e).count(f) <= ready.count(f));
            assert(ready.count(f) > 0);
            assert(ready.contains(f));
            assert(is_top(ready, e));
            if f != e {
                assert(key_before(e, f));
            }
        }
        assert forall|i: int| 0 <= i < MAX_TASKS && #[trigger] reg[i] is Some && reg[i]->0.state == TaskState::Ready
            implies sched.current_task_idx == i || exists|st: u64|
                #[trigger] sched.ready_queue.view().contains((i as u8, reg[i]->0.spec_effective_priority(), st)) by {
            let st = choose|st: u64| #[trigger] ready.contains((i as u8, reg[i]->0.spec_effective_priority(), st));
            let f = (i as u8, reg[i]->0.spec_effective_priority(), st);
            if f != e {
                assert(ready.remove(e).count(f) == ready.count(f));
                assert(sched.ready_queue.view().contains(f));
            }
        }
    } else {
        assert forall|i: int| 0 <= i < MAX_TASKS && #[trigger] reg[i] is Some && reg[i]->0.state == TaskState::Ready
            implies false by {
            let st = choose|st: u64| #[trigger] ready.contains((i as u8, reg[i]->0.spec_effective_priority(), st));
        }
    }
}

/// Boot stores the precomputed inherited priorities and nothing else: after
/// `Scheduler::init` (whose registry outcome is stated in the requires), every
/// slot keeps its presence, and a present task keeps every field but its
/// inherited priority, which becomes `mip[i]`.
pub proof fn lemma_init_stores_mip(before: Seq<Option<TaskDescriptor>>, after: Seq<Option<TaskDescriptor>>, mip: Seq<u8>)
    requires
        before.len() == MAX_TASKS,
        after.len() == MAX_TASKS,
        mip.len() == MAX_TASKS,
        forall|i: int| 0 <= i < MAX_TASKS ==> #[trigger] after[i] == with_mip(before[i], mip[i]),
    ensures
        forall|i: int| 0 <= i < MAX_TASKS ==> (#[trigger] after[i] is Some <==> before[i] is Some),
        forall|i: int| 0 <= i < MAX_TASKS && #[trigger] before[i] is Some ==> {
            let (b, a) = (before[i]->0, after[i]->0);
            &&& a.max_inherited_priority == mip[i]
            &&& a.id == b.id && a.priority == b.priority && a.state == b.state
            &&& a.stack_ptr == b.stack_ptr && a.stack_base == b.stack_base && a.stack_size == b.stack_size
            &&& a.memory_start == b.memory_start && a.memory_end == b.memory_end
            &&& a.exclusive_cap_mask == b.exclusive_cap_mask && a.shared_cap_mask == b.shared_cap_mask
            &&& a.required_cap_mask == b.required_cap_mask
        },
{
}

/// `total / count` stays below `2^32` when each of the `count` samples did.
proof fn lemma_div_bound(total: int, count: int)
    requires
        count > 0,
        0 <= total <= count * 0xFFFF_FFFF,
    ensures
        total / count <= 0xFFFF_FFFF,
{
    assert(total / count <= 0xFFFF_FFFF) by (nonlinear_arith)
        requires
            count > 0,
            0 <= total <= count * 0xFFFF_FFFF,
    ;
}

} // verus!
