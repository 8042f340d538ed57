//! MaxInheritedPriority (MIP) computation by breadth-first search over the
//! capability contention graph.
//!
//! `MIP(T)` is the highest base priority among the present tasks reachable
//! from `T` (including `T` itself), and `effective_priority(T) =
//! max(T.priority, MIP(T))`.
use vstd::prelude::*;
use crate::bits::{has_bit, lemma_and_nonzero_iff_share_bit, share_bit};
use crate::config::MAX_TASKS;
use crate::memory::task::{max_u8, TaskDescriptor, TaskRegistry};
use crate::scheduler::ccg::{contention, CapabilityContentionGraph};

verus! {

/// `p` follows graph edges and every node of it is a present registry slot.
pub open spec fn present_path(ccg: CapabilityContentionGraph, s: Seq<Option<TaskDescriptor>>, p: Seq<int>) -> bool {
    &&& ccg.is_path(p)
    &&& forall|k: int| 0 <= k < p.len() ==> 0 <= #[trigger] p[k] < s.len() && s[p[k]] is Some
}

/// Slot `dst` is reachable from slot `src` through present tasks.
pub open spec fn reachable(ccg: CapabilityContentionGraph, s: Seq<Option<TaskDescriptor>>, src: int, dst: int) -> bool {
    exists|p: Seq<int>| #[trigger] present_path(ccg, s, p) && p.len() > 0 && p[0] == src && p.last() == dst
}

/// Base priority of the task in slot `v`.
pub open spec fn prio(s: Seq<Option<TaskDescriptor>>, v: int) -> u8 {
    s[v]->0.priority
}

/// `m` is the maximum base priority over the tasks reachable from `src`.
pub open spec fn is_mip(ccg: CapabilityContentionGraph, s: Seq<Option<TaskDescriptor>>, src: int, m: u8) -> bool {
    &&& forall|dst: int| #[trigger] reachable(ccg, s, src, dst) ==> prio(s, dst) <= m
    &&& exists|dst: int| #[trigger] reachable(ccg, s, src, dst) && prio(s, dst) == m
}

/// The single-node path `[v]` makes a present slot reachable from itself.
pub proof fn lemma_reachable_self(ccg: CapabilityContentionGraph, s: Seq<Option<TaskDescriptor>>, v: int)
    requires
        0 <= v < s.len(),
        s[v] is Some,
    ensures
        reachable(ccg, s, v, v),
{
    let p = seq![v];
    assert(present_path(ccg, s, p));
}

/// Extending a path by one present successor.
proof fn lemma_reachable_step(ccg: CapabilityContentionGraph, s: Seq<Option<TaskDescriptor>>, src: int, mid: int, dst: int)
    requires
        reachable(ccg, s, src, mid),
        ccg.spec_edge(mid, dst),
        0 <= dst < s.len(),
        s[dst] is Some,
    ensures
        reachable(ccg, s, src, dst),
{
    let p = choose|p: Seq<int>| #[trigger] present_path(ccg, s, p) && p.len() > 0 && p[0] == src && p.last() == mid;
    let q = p.push(dst);
    assert forall|k: int| #![trigger q[k]] 0 <= k && k + 1 < q.len() implies ccg.spec_edge(q[k], q[k + 1]) by {
        if k + 1 < p.len() {
            assert(p[k] == q[k]);
            assert(p[k + 1] == q[k + 1]);
        }
    }
    assert forall|k: int| 0 <= k < q.len() implies 0 <= #[trigger] q[k] < s.len() && s[q[k]] is Some by {
        if k < p.len() {
            assert(p[k] == q[k]);
        }
    }
    assert(present_path(ccg, s, q));
}

/// A set of slots that contains `src` and every present successor of its
/// members contains every slot reachable from `src`.
proof fn lemma_closed_contains_reachable(
    ccg: CapabilityContentionGraph,
    s: Seq<Option<TaskDescriptor>>,
    visited: Seq<bool>,
    src: int,
    p: Seq<int>,
)
    requires
        visited.len() == MAX_TASKS,
        s.len() == MAX_TASKS,
        present_path(ccg, s, p),
        p.len() > 0,
        p[0] == src,
        visited[src],
        forall|v: int, w: int|
            0 <= v < MAX_TASKS && visited[v] && #[trigger] ccg.spec_edge(v, w) && 0 <= w < MAX_TASKS && s[w] is Some
                ==> visited[w],
    ensures
        visited[p.last()],
    decreases p.len(),
{
    if p.len() > 1 {
        let q = p.drop_last();
        assert forall|k: int| #![trigger q[k]] 0 <= k && k + 1 < q.len() implies ccg.spec_edge(q[k], q[k + 1]) by {
            assert(p[k] == q[k]);
            assert(p[k + 1] == q[k + 1]);
        }
        assert forall|k: int| 0 <= k < q.len() implies 0 <= #[trigger] q[k] < s.len() && s[q[k]] is Some by {
            assert(p[k] == q[k]);
        }
        lemma_closed_contains_reachable(ccg, s, visited, src, q);
        let last = p.len() - 1;
        assert(q.last() == p[last - 1]);
        assert(ccg.spec_edge(p[last - 1], p[last]));
    }
}

/// Compute the MaxInheritedPriority of every present slot below `n`.
///
/// Entry `i` is the maximum base priority over the present tasks reachable
/// from slot `i` through the graph (slot `i` included); entries of empty
/// slots and of slots at or beyond `n` are 0.
#[verifier::rlimit(80)]
pub fn compute_mip(ccg: &CapabilityContentionGraph, registry: &[Option<TaskDescriptor>], n: usize) -> (mip: Vec<u8>)
    requires
        ccg.wf(),
        registry@.len() == MAX_TASKS,
        n <= MAX_TASKS,
    ensures
        mip@.len() == MAX_TASKS,
        forall|i: int| 0 <= i < MAX_TASKS ==>
            if i < n && registry@[i] is Some { is_mip(*ccg, registry@, i, #[trigger] mip@[i]) } else { mip@[i] == 0 },
{
    let ghost s = registry@;
    let mut mip: Vec<u8> = Vec::new();
    let mut i: usize = 0;
    // Seed each slot with the task's own base priority.
    while i < MAX_TASKS
        invariant
            s == registry@,
            s.len() == MAX_TASKS,
            n <= MAX_TASKS,
            i <= MAX_TASKS,
            mip@.len() == i,
            forall|k: int| 0 <= k < i ==> #[trigger] mip@[k] == if k < n && s[k] is Some { prio(s, k) } else { 0 },
        decreases MAX_TASKS - i,
    {
        let seed: u8 = if i < n {
            match &registry[i] {
                Some(t) => t.priority,
                None => 0,
            }
        } else {
            0
        };
        mip.push(seed);
        i = i + 1;
    }

    // BFS from each source; propagate the max priority of every reached task.
    let mut src: usize = 0;
    while src < n
        invariant
            ccg.wf(),
            s == registry@,
            s.len() == MAX_TASKS,
            n <= MAX_TASKS,
            src <= n,
            mip@.len() == MAX_TASKS,
            forall|k: int| 0 <= k < MAX_TASKS ==>
                if k < src && s[k] is Some { is_mip(*ccg, s, k, #[trigger] mip@[k]) }
                else if k < n && s[k] is Some { mip@[k] == prio(s, k) }
                else { mip@[k] == 0 },
        decreases n - src,
    {
        if registry[src].is_none() {
            src = src + 1;
            continue;
        }
        let mut queue: Vec<usize> = Vec::new();
        let mut visited: Vec<bool> = Vec::new();
        let mut k: usize = 0;
        while k < MAX_TASKS
            invariant
                k <= MAX_TASKS,
                queue@.len() == k,
                visited@.len() == k,
                forall|a: int| 0 <= a < k ==> !#[trigger] visited@[a],
            decreases MAX_TASKS - k,
        {
            queue.push(0);
            visited.push(false);
            k = k + 1;
        }
        let mut head: usize = 0;
        let mut tail: usize = 0;
        queue.set(tail, src);
        tail = tail + 1;
        visited.set(src, true);
        let mut best: u8 = mip[src];
        let ghost mut qset: Set<int> = set![src as int];
        proof {
            lemma_reachable_self(*ccg, s, src as int);
            assert forall|v: int| #[trigger] qset.contains(v) <==> exists|a: int| 0 <= a < tail && #[trigger] queue@[a] == v by {
                if v == src {
                    assert(queue@[0] == v);
                }
            }
        }

        while head < tail
            invariant
                ccg.wf(),
                s == registry@,
                s.len() == MAX_TASKS,
                src < n,
                n <= MAX_TASKS,
                s[src as int] is Some,
                queue@.len() == MAX_TASKS,
                visited@.len() == MAX_TASKS,
                0 < tail <= MAX_TASKS,
                head <= tail,
                queue@[0] == src,
                qset.finite(),
                qset.len() == tail,
                forall|v: int| #[trigger] qset.contains(v) <==> exists|a: int| 0 <= a < tail && #[trigger] queue@[a] == v,
                forall|a: int| 0 <= a < tail ==> #[trigger] queue@[a] < MAX_TASKS && s[queue@[a] as int] is Some
                    && visited@[queue@[a] as int] && reachable(*ccg, s, src as int, queue@[a] as int),
                forall|v: int| 0 <= v < MAX_TASKS && #[trigger] visited@[v] ==> qset.contains(v),
                forall|a: int| 0 <= a < head ==> prio(s, #[trigger] queue@[a] as int) <= best,
                prio(s, src as int) <= best,
                exists|dst: int| #[trigger] reachable(*ccg, s, src as int, dst) && prio(s, dst) == best,
                forall|a: int, w: int|
                    0 <= a < head && #[trigger] ccg.spec_edge(#[trigger] queue@[a] as int, w) && 0 <= w < MAX_TASKS && s[w] is Some
                        ==> visited@[w],
            decreases MAX_TASKS - head,
        {
            let cur = queue[head];
            head = head + 1;
            match &registry[cur] {
                Some(t) => {
                    if t.priority > best {
                        best = t.priority;
                    }
                },
                None => {},
            }
            let succs = ccg.successors(cur);
            let ghost qsnap = queue@;
            let ghost vsnap = visited@;
            let ghost best_before = best;
            let mut j: usize = 0;
            while j < succs.len()
                invariant
                    ccg.wf(),
                    s == registry@,
                    s.len() == MAX_TASKS,
                    cur < MAX_TASKS,
                    s[cur as int] is Some,
                    reachable(*ccg, s, src as int, cur as int),
                    succs@ == ccg.successors_below(cur as int, MAX_TASKS as nat),
                    j <= succs@.len(),
                    queue@.len() == MAX_TASKS,
                    visited@.len() == MAX_TASKS,
                    0 < tail <= MAX_TASKS,
                    head <= tail,
                    queue@[0] == src,
                    qset.finite(),
                    qset.len() == tail,
                    forall|v: int| #[trigger] qset.contains(v) <==> exists|a: int| 0 <= a < tail && #[trigger] queue@[a] == v,
                    forall|a: int| 0 <= a < tail ==> #[trigger] queue@[a] < MAX_TASKS && s[queue@[a] as int] is Some
                        && visited@[queue@[a] as int] && reachable(*ccg, s, src as int, queue@[a] as int),
                    forall|v: int| 0 <= v < MAX_TASKS && #[trigger] visited@[v] ==> qset.contains(v),
                    forall|w: int| 0 <= w < MAX_TASKS && ccg.spec_edge(cur as int, w) && s[w] is Some
                        && succs_before(succs@, j as int, w) ==> #[trigger] visited@[w],
                    0 < head,
                    qsnap[head - 1] == cur,
                    forall|a: int| 0 <= a < head ==> #[trigger] queue@[a] == qsnap[a],
                    forall|v: int| 0 <= v < MAX_TASKS && #[trigger] vsnap[v] ==> visited@[v],
                decreases succs@.len() - j,
            {
                let succ = succs[j];
                proof {
                    lemma_successors_below(*ccg, cur as int, MAX_TASKS as nat);
                }
                if !visited[succ] && registry[succ].is_some() {
                    proof {
                        assert(!qset.contains(succ as int));
                        vstd::set_lib::lemma_int_range(0, MAX_TASKS as int);
                        assert forall|v: int| #[trigger] qset.insert(succ as int).contains(v) implies
                            vstd::set_lib::set_int_range(0, MAX_TASKS as int).contains(v) by {
                            if v != succ {
                                let a = choose|a: int| 0 <= a < tail && #[trigger] queue@[a] == v;
                            }
                        }
                        vstd::set_lib::lemma_len_subset(qset.insert(succ as int), vstd::set_lib::set_int_range(0, MAX_TASKS as int));
                        lemma_reachable_step(*ccg, s, src as int, cur as int, succ as int);
                    }
                    let ghost old_queue = queue@;
                    let ghost old_qset = qset;
                    visited.set(succ, true);
                    queue.set(tail, succ);
                    proof {
                        qset = qset.insert(succ as int);
                    }
                    tail = tail + 1;
                    proof {
                        assert forall|v: int| #[trigger] qset.contains(v) <==> exists|a: int| 0 <= a < tail && #[trigger] queue@[a] == v by {
                            if qset.contains(v) {
                                if v == succ {
                                    assert(queue@[tail - 1] == v);
                                } else {
                                    assert(old_qset.contains(v));
                                    let a = choose|a: int| 0 <= a < tail - 1 && #[trigger] old_queue[a] == v;
                                    assert(queue@[a] == v);
                                }
                            }
                            if exists|a: int| 0 <= a < tail && #[trigger] queue@[a] == v {
                                let a = choose|a: int| 0 <= a < tail && #[trigger] queue@[a] == v;
                                if a < tail - 1 {
                                    assert(old_queue[a] == v);
                                    assert(old_qset.contains(v));
                                }
                            }
                        }
                    }
                }
                proof {
                    assert forall|w: int| 0 <= w < MAX_TASKS && ccg.spec_edge(cur as int, w) && s[w] is Some
                        && succs_before(succs@, j + 1, w) implies #[trigger] visited@[w] by {
                        if !succs_before(succs@, j as int, w) {
                            assert(succs@[j as int] == w);
                        }
                    }
                }
                j = j + 1;
            }
            proof {
                lemma_successors_below(*ccg, cur as int, MAX_TASKS as nat);
                assert forall|a: int| 0 <= a < head implies prio(s, #[trigger] queue@[a] as int) <= best by {
                    assert(queue@[a] == qsnap[a]);
                    if a < head - 1 {
                        assert(prio(s, qsnap[a] as int) <= best_before);
                    }
                }
                assert forall|a: int, w: int|
                    0 <= a < head && #[trigger] ccg.spec_edge(#[trigger] queue@[a] as int, w) && 0 <= w < MAX_TASKS && s[w] is Some
                        implies visited@[w] by {
                    assert(queue@[a] == qsnap[a]);
                    if a < head - 1 {
                        assert(vsnap[w]);
                    }
                    if a == head - 1 {
                        assert(queue@[a] == cur);
                        assert(ccg.successors_below(cur as int, MAX_TASKS as nat).contains(w as usize));
                        assert(succs@.contains(w as usize));
                        let x = choose|x: int| 0 <= x < succs@.len() && succs@[x] == w as usize;
                        assert(succs_before(succs@, j as int, w));
                    }
                }
            }
        }
        // Every reachable task has been dequeued.
        proof {
            assert forall|dst: int| #[trigger] reachable(*ccg, s, src as int, dst) implies prio(s, dst) <= best by {
                let p = choose|p: Seq<int>| #[trigger] present_path(*ccg, s, p) && p.len() > 0 && p[0] == src && p.last() == dst;
                assert forall|v: int, w: int|
                    0 <= v < MAX_TASKS && visited@[v] && #[trigger] ccg.spec_edge(v, w) && 0 <= w < MAX_TASKS && s[w] is Some
                        implies visited@[w] by {
                    assert(qset.contains(v));
                    let a = choose|a: int| 0 <= a < tail && #[trigger] queue@[a] == v;
                    assert(ccg.spec_edge(queue@[a] as int, w));
                }
                lemma_closed_contains_reachable(*ccg, s, visited@, src as int, p);
                assert(qset.contains(dst));
                let a = choose|a: int| 0 <= a < tail && #[trigger] queue@[a] == dst;
                assert(prio(s, queue@[a] as int) <= best);
            }
        }
        mip.set(src, best);
        src = src + 1;
    }
    mip
}

/// Compute MIP for every registered task and store it in its descriptor.
///
/// Afterwards each registered task's `max_inherited_priority` is the highest
/// base priority among the present tasks reachable from it in `ccg` (itself
/// included); nothing else in the registry changes.
pub fn compute_and_store_mip(ccg: &CapabilityContentionGraph, registry: &mut TaskRegistry)
    requires
        ccg.wf(),
        old(registry).wf(),
    ensures
        final(registry).wf(),
        final(registry).count == old(registry).count,
        forall|i: int| 0 <= i < MAX_TASKS ==> {
            let before = #[trigger] old(registry)@[i];
            let after = final(registry)@[i];
            if before is Some {
                &&& after is Some
                &&& after->0 == (TaskDescriptor { max_inherited_priority: after->0.max_inherited_priority, ..before->0 })
                &&& is_mip(*ccg, old(registry)@, i, after->0.max_inherited_priority)
            } else {
                after is None
            }
        },
{
    let n = registry.task_count();
    let mip = compute_mip(ccg, registry.registry(), n);
    let ghost s = registry@;
    let mut i: usize = 0;
    while i < n
        invariant
            s == old(registry)@,
            old(registry).wf(),
            n == old(registry).count,
            registry.wf(),
            registry.count == n,
            i <= n,
            mip@.len() == MAX_TASKS,
            forall|k: int| 0 <= k < MAX_TASKS ==>
                if k < n && s[k] is Some { is_mip(*ccg, s, k, #[trigger] mip@[k]) } else { mip@[k] == 0 },
            forall|k: int| 0 <= k < MAX_TASKS ==> {
                let before = #[trigger] s[k];
                let after = registry@[k];
                if k < i && before is Some {
                    &&& after is Some
                    &&& after->0 == (TaskDescriptor { max_inherited_priority: mip@[k], ..before->0 })
                } else {
                    after == before
                }
            },
        decreases n - i,
    {
        match registry.tasks[i] {
            Some(t) => {
                let mut updated = t;
                updated.max_inherited_priority = mip[i];
                registry.tasks.set(i, Some(updated));
            },
            None => {},
        }
        i = i + 1;
    }
    proof {
        assert forall|k: int| 0 <= k < MAX_TASKS implies (#[trigger] registry@[k] is Some <==> k < registry.count) by {
            assert(s[k] is Some <==> k < n);
        }
    }
}

/// MIP is never below the task's own base priority.
pub proof fn lemma_mip_at_least_own_priority(ccg: CapabilityContentionGraph, s: Seq<Option<TaskDescriptor>>, t: int, m: u8)
    requires
        0 <= t < s.len(),
        s[t] is Some,
        is_mip(ccg, s, t, m),
    ensures
        m >= s[t]->0.priority,
{
    lemma_reachable_self(ccg, s, t);
}

/// Priority inversion is impossible: in the graph built from a registry, a
/// task that holds exclusively a peripheral another task requires has an
/// effective priority at least that task's base priority.
pub proof fn lemma_holder_outranks_waiter(ccg: CapabilityContentionGraph, s: Seq<Option<TaskDescriptor>>, t: int, w: int, m: u8)
    requires
        s.len() == MAX_TASKS,
        forall|i: int, j: int| 0 <= i < MAX_TASKS && 0 <= j < MAX_TASKS ==> (#[trigger] ccg.spec_edge(i, j) <==> contention(s, i, j)),
        contention(s, t, w),
        is_mip(ccg, s, t, m),
    ensures
        max_u8(s[t]->0.priority, m) >= s[w]->0.priority,
{
    lemma_reachable_self(ccg, s, t);
    assert(ccg.spec_edge(t, w));
    lemma_reachable_step(ccg, s, t, t, w);
}

/// The multi-hop form: the holder's effective priority is at least the base
/// priority of every task reachable from it in the contention graph.
pub proof fn lemma_holder_outranks_reachable(ccg: CapabilityContentionGraph, s: Seq<Option<TaskDescriptor>>, t: int, w: int, m: u8)
    requires
        reachable(ccg, s, t, w),
        is_mip(ccg, s, t, m),
    ensures
        max_u8(s[t]->0.priority, m) >= prio(s, w),
{
}

/// CA-PIP meets the Stack Resource Policy ceiling: for a peripheral `c` held
/// exclusively by task `t`, every other task that requires `c` has a base
/// priority at most `MIP(t)`, so `MIP(t)` is at least the SRP ceiling of `c`.
pub proof fn lemma_mip_meets_srp_ceiling(ccg: CapabilityContentionGraph, s: Seq<Option<TaskDescriptor>>, t: int, w: int, c: int, m: u8)
    requires
        s.len() == MAX_TASKS,
        forall|i: int, j: int| 0 <= i < MAX_TASKS && 0 <= j < MAX_TASKS ==> (#[trigger] ccg.spec_edge(i, j) <==> contention(s, i, j)),
        0 <= t < MAX_TASKS,
        0 <= w < MAX_TASKS,
        s[t] is Some,
        s[w] is Some,
        has_bit(s[t]->0.exclusive_cap_mask, c),
        has_bit(s[w]->0.required_cap_mask, c),
        is_mip(ccg, s, t, m),
    ensures
        m >= s[w]->0.priority,
{
    lemma_reachable_self(ccg, s, t);
    if t != w {
        lemma_and_nonzero_iff_share_bit(s[t]->0.exclusive_cap_mask, s[w]->0.required_cap_mask);
        assert(share_bit(s[t]->0.exclusive_cap_mask, s[w]->0.required_cap_mask));
        assert(ccg.spec_edge(t, w));
        lemma_reachable_step(ccg, s, t, t, w);
    }
}

/// `w` occurs among the first `j` entries of `succs`.
spec fn succs_before(succs: Seq<usize>, j: int, w: int) -> bool {
    exists|x: int| 0 <= x < j && succs[x] == w
}

/// The successor list holds exactly the successors, all in range.
proof fn lemma_successors_below(ccg: CapabilityContentionGraph, from: int, n: nat)
    requires
        n <= MAX_TASKS,
    ensures
        forall|x: int| 0 <= x < ccg.successors_below(from, n).len() ==>
            #[trigger] ccg.successors_below(from, n)[x] < n && ccg.spec_edge(from, ccg.successors_below(from, n)[x] as int),
        forall|w: int| 0 <= w < n && ccg.spec_edge(from, w) ==> #[trigger] ccg.successors_below(from, n).contains(w as usize),
    decreases n,
{
    if n > 0 {
        lemma_successors_below(ccg, from, (n - 1) as nat);
        let rest = ccg.successors_below(from, (n - 1) as nat);
        assert forall|w: int| 0 <= w < n && ccg.spec_edge(from, w) implies #[trigger] ccg.successors_below(from, n).contains(w as usize) by {
            if w < n - 1 {
                assert(rest.contains(w as usize));
                let x = choose|x: int| 0 <= x < rest.len() && rest[x] == w as usize;
                assert(ccg.successors_below(from, n)[x] == w as usize);
            } else {
                let full = ccg.successors_below(from, n);
                assert(full[full.len() - 1] == w as usize);
            }
        }
    }
}

} // verus!
