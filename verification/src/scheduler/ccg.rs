//! Capability Contention Graph (CCG).
//!
//! A directed graph over registry slots: an edge L → H means the task in slot
//! L holds exclusively a peripheral that the task in slot H requires
//! (`L.exclusive_cap_mask & H.required_cap_mask != 0`).
use vstd::prelude::*;
use crate::config::MAX_TASKS;
use crate::memory::task::TaskDescriptor;

verus! {

/// State of the depth-first cycle search: visited marks, on-stack marks, the
/// stack frames `(node, next successor to try)` bottom first, and the next
/// root slot to try.
pub type SearchState = (Seq<bool>, Seq<bool>, Seq<(int, int)>, int);

/// The first `n` stack frames held in the parallel arrays `nodes`, `nexts`.
pub open spec fn frames_of(nodes: Seq<usize>, nexts: Seq<usize>, n: int) -> Seq<(int, int)> {
    Seq::new(n as nat, |a: int| (nodes[a] as int, nexts[a] as int))
}

/// Slots `i` and `j` hold two distinct present tasks, and the task in `i`
/// holds exclusively a peripheral that the task in `j` requires.
pub open spec fn contention(s: Seq<Option<TaskDescriptor>>, i: int, j: int) -> bool {
    &&& 0 <= i < s.len()
    &&& 0 <= j < s.len()
    &&& i != j
    &&& s[i] is Some
    &&& s[j] is Some
    &&& s[i]->0.exclusive_cap_mask & s[j]->0.required_cap_mask != 0
}

/// Number of present tasks among the first `n` slots.
pub open spec fn present_count(s: Seq<Option<TaskDescriptor>>, n: int) -> nat
    decreases n,
{
    if n <= 0 {
        0
    } else {
        present_count(s, n - 1) + if s[n - 1] is Some { 1nat } else { 0nat }
    }
}

/// Directed adjacency-matrix representation of the CCG.
pub struct CapabilityContentionGraph {
    /// Row-major `MAX_TASKS × MAX_TASKS` matrix: entry `i * MAX_TASKS + j`
    /// is set when there is an edge from slot `i` to slot `j`.
    pub edges: Vec<bool>,
    /// Number of tasks present in the registry the graph was built from.
    pub task_count: usize,
}

impl CapabilityContentionGraph {
    /// The matrix has `MAX_TASKS × MAX_TASKS` entries and the task count fits.
    pub open spec fn wf(&self) -> bool {
        &&& self.edges@.len() == MAX_TASKS * MAX_TASKS
        &&& self.task_count <= MAX_TASKS
    }

    /// There is an edge from slot `i` to slot `j`.
    pub open spec fn spec_edge(&self, i: int, j: int) -> bool {
        &&& 0 <= i < MAX_TASKS
        &&& 0 <= j < MAX_TASKS
        &&& self.edges@[i * MAX_TASKS + j]
    }

    /// `p` follows edges of the graph from `p[0]` to its last node.
    pub open spec fn is_path(&self, p: Seq<int>) -> bool {
        forall|k: int| #![trigger p[k]] 0 <= k && k + 1 < p.len() ==> self.spec_edge(p[k], p[k + 1])
    }

    /// The increasing sequence of successors of `from` below `n`.
    pub open spec fn successors_below(&self, from: int, n: nat) -> Seq<usize>
        decreases n,
    {
        if n == 0 {
            Seq::empty()
        } else {
            let rest = self.successors_below(from, (n - 1) as nat);
            if self.spec_edge(from, n - 1) {
                rest.push((n - 1) as usize)
            } else {
                rest
            }
        }
    }

    /// Build the CCG of a registry: an edge `i → j` exactly when slots `i` and
    /// `j` hold distinct present tasks and the task in `i` holds exclusively a
    /// peripheral that the task in `j` requires.
    pub fn build(registry: &[Option<TaskDescriptor>; MAX_TASKS]) -> (ccg: Self)
        ensures
            ccg.wf(),
            ccg.task_count == present_count(registry@, MAX_TASKS as int),
            forall|i: int, j: int|
                0 <= i < MAX_TASKS && 0 <= j < MAX_TASKS ==> (#[trigger] ccg.spec_edge(i, j) <==> contention(registry@, i, j)),
    {
        let ghost s = registry@;
        let mut edges: Vec<bool> = Vec::new();
        let mut k: usize = 0;
        while k < MAX_TASKS * MAX_TASKS
            invariant
                k <= MAX_TASKS * MAX_TASKS,
                edges@.len() == k,
                forall|e: int| 0 <= e < k ==> !#[trigger] edges@[e],
            decreases MAX_TASKS * MAX_TASKS - k,
        {
            edges.push(false);
            k = k + 1;
        }

        // Collect the indices of the populated slots, in increasing order.
        let mut indices: Vec<usize> = Vec::new();
        let mut i: usize = 0;
        while i < MAX_TASKS
            invariant
                s == registry@,
                s.len() == MAX_TASKS,
                i <= MAX_TASKS,
                indices@.len() == present_count(s, i as int),
                indices@.len() <= i,
                forall|a: int| 0 <= a < indices@.len() ==> #[trigger] indices@[a] < i && s[indices@[a] as int] is Some,
                forall|a: int, b: int| 0 <= a < b < indices@.len() ==> #[trigger] indices@[a] < #[trigger] indices@[b],
                forall|v: int| 0 <= v < i && s[v] is Some ==> #[trigger] indices@.contains(v as usize),
            decreases MAX_TASKS - i,
        {
            let ghost prev = indices@;
            if registry[i].is_some() {
                indices.push(i);
                assert(indices@[indices@.len() - 1] == i);
            }
            proof {
                assert forall|v: int| 0 <= v < i + 1 && s[v] is Some implies #[trigger] indices@.contains(v as usize) by {
                    if v < i {
                        assert(prev.contains(v as usize));
                        let k = choose|k: int| 0 <= k < prev.len() && prev[k] == v as usize;
                        assert(indices@[k] == v as usize);
                    } else {
                        assert(indices@[indices@.len() - 1] == i);
                    }
                }
            }
            i = i + 1;
        }
        let count = indices.len();

        let mut li: usize = 0;
        while li < count
            invariant
                s == registry@,
                s.len() == MAX_TASKS,
                count == indices@.len(),
                count <= MAX_TASKS,
                li <= count,
                edges@.len() == MAX_TASKS * MAX_TASKS,
                forall|a: int| 0 <= a < count ==> #[trigger] indices@[a] < MAX_TASKS && s[indices@[a] as int] is Some,
                forall|a: int, b: int| 0 <= a < b < count ==> #[trigger] indices@[a] < #[trigger] indices@[b],
                forall|v: int| 0 <= v < MAX_TASKS && s[v] is Some ==> #[trigger] indices@.contains(v as usize),
                forall|x: int, y: int| 0 <= x < MAX_TASKS && 0 <= y < MAX_TASKS ==>
                    (#[trigger] edges@[x * MAX_TASKS + y] <==> contention(s, x, y) && indices@.subrange(0, li as int).contains(x as usize)),
            decreases count - li,
        {
            let l_idx = indices[li];
            let l = registry[l_idx].unwrap();
            let mut hi: usize = 0;
            while hi < count
                invariant
                    s == registry@,
                    s.len() == MAX_TASKS,
                    count == indices@.len(),
                    count <= MAX_TASKS,
                    li < count,
                    hi <= count,
                    l_idx == indices@[li as int],
                    l_idx < MAX_TASKS,
                    s[l_idx as int] == Some(l),
                    edges@.len() == MAX_TASKS * MAX_TASKS,
                    forall|a: int| 0 <= a < count ==> #[trigger] indices@[a] < MAX_TASKS && s[indices@[a] as int] is Some,
                    forall|a: int, b: int| 0 <= a < b < count ==> #[trigger] indices@[a] < #[trigger] indices@[b],
                    forall|x: int, y: int| 0 <= x < MAX_TASKS && 0 <= y < MAX_TASKS && x != l_idx ==>
                        (#[trigger] edges@[x * MAX_TASKS + y] <==> contention(s, x, y) && indices@.subrange(0, li as int).contains(x as usize)),
                    forall|y: int| 0 <= y < MAX_TASKS ==>
                        (#[trigger] edges@[l_idx * MAX_TASKS + y] <==> contention(s, l_idx as int, y) && indices@.subrange(0, hi as int).contains(y as usize)),
                decreases count - hi,
            {
                let h_idx = indices[hi];
                if li != hi {
                    let h = registry[h_idx].unwrap();
                    if (l.exclusive_cap_mask & h.required_cap_mask) != 0 {
                        edges.set(l_idx * MAX_TASKS + h_idx, true);
                    }
                }
                proof {
                    assert forall|y: int| 0 <= y < MAX_TASKS implies
                        (#[trigger] edges@[l_idx * MAX_TASKS + y] <==> contention(s, l_idx as int, y) && indices@.subrange(0, hi + 1).contains(y as usize)) by {
                        lemma_subrange_push_contains(indices@, hi as int, y as usize);
                        if y == h_idx && li == hi {
                            assert(!contention(s, l_idx as int, y));
                        }
                        if y != h_idx {
                            assert(l_idx * MAX_TASKS + y != l_idx * MAX_TASKS + h_idx);
                        }
                    }
                    assert forall|x: int, y: int| 0 <= x < MAX_TASKS && 0 <= y < MAX_TASKS && x != l_idx implies
                        (#[trigger] edges@[x * MAX_TASKS + y] <==> contention(s, x, y) && indices@.subrange(0, li as int).contains(x as usize)) by {
                        assert(x * MAX_TASKS + y != l_idx * MAX_TASKS + h_idx);
                    }
                }
                hi = hi + 1;
            }
            proof {
                assert forall|x: int, y: int| 0 <= x < MAX_TASKS && 0 <= y < MAX_TASKS implies
                    (#[trigger] edges@[x * MAX_TASKS + y] <==> contention(s, x, y) && indices@.subrange(0, li + 1).contains(x as usize)) by {
                    lemma_subrange_push_contains(indices@, li as int, x as usize);
                    if x == l_idx {
                        assert(indices@.subrange(0, count as int) == indices@);
                        if contention(s, x, y) {
                            assert(indices@.contains(y as usize));
                        }
                    }
                }
            }
            li = li + 1;
        }
        let ccg = CapabilityContentionGraph { edges, task_count: count };
        proof {
            assert(indices@.subrange(0, count as int) == indices@);
            assert forall|i: int, j: int| 0 <= i < MAX_TASKS && 0 <= j < MAX_TASKS implies
                (#[trigger] ccg.spec_edge(i, j) <==> contention(registry@, i, j)) by {
                assert(edges@[i * MAX_TASKS + j] == ccg.spec_edge(i, j));
                if contention(s, i, j) {
                    assert(indices@.contains(i as usize));
                }
            }
        }
        ccg
    }

    /// Whether there is a direct edge from slot `from` to slot `to`.
    pub fn has_edge(&self, from: usize, to: usize) -> (r: bool)
        requires
            self.wf(),
        ensures
            r == self.spec_edge(from as int, to as int),
    {
        from < MAX_TASKS && to < MAX_TASKS && self.edges[from * MAX_TASKS + to]
    }

    /// The successors of slot `from`, in increasing order.
    pub fn successors(&self, from: usize) -> (r: Vec<usize>)
        requires
            self.wf(),
            from < MAX_TASKS,
        ensures
            r@ == self.successors_below(from as int, MAX_TASKS as nat),
    {
        let mut r: Vec<usize> = Vec::new();
        let mut j: usize = 0;
        while j < MAX_TASKS
            invariant
                self.wf(),
                from < MAX_TASKS,
                j <= MAX_TASKS,
                r@ == self.successors_below(from as int, j as nat),
            decreases MAX_TASKS - j,
        {
            if self.edges[from * MAX_TASKS + j] {
                r.push(j);
            }
            j = j + 1;
        }
        r
    }
}

impl CapabilityContentionGraph {
    /// The first successor of `node` at or above `from`, or `MAX_TASKS` when
    /// there is none.
    pub open spec fn first_edge_from(&self, node: int, from: int) -> int
        decreases MAX_TASKS - from,
    {
        if from >= MAX_TASKS {
            MAX_TASKS as int
        } else if self.spec_edge(node, from) {
            from
        } else {
            self.first_edge_from(node, from + 1)
        }
    }

    /// The state the cycle search starts from: nothing visited, nothing on
    /// the stack, first root slot 0.
    pub open spec fn search_start(&self) -> SearchState {
        (Seq::new(MAX_TASKS as nat, |i: int| false), Seq::new(MAX_TASKS as nat, |i: int| false), Seq::empty(), 0)
    }

    /// One step of the depth-first cycle search: roots are tried in
    /// increasing slot order, and from the node on top of the stack its next
    /// successor in increasing slot order is taken.  An edge to a node on
    /// the stack ends the search with that back-edge; running out of roots
    /// ends it with `None`.
    pub open spec fn search_step(&self, st: SearchState) -> Result<SearchState, Option<(usize, usize)>> {
        let (visited, rec, frames, start) = st;
        if frames.len() == 0 {
            if start >= MAX_TASKS {
                Err(None)
            } else if visited[start] {
                Ok((visited, rec, frames, start + 1))
            } else {
                Ok((visited.update(start, true), rec.update(start, true), seq![(start, 0int)], start))
            }
        } else {
            let top = frames.len() - 1;
            let node = frames[top].0;
            let succ = self.first_edge_from(node, frames[top].1);
            if succ < MAX_TASKS {
                let frames1 = frames.update(top, (node, succ + 1));
                if rec[succ] {
                    Err(Some((node as usize, succ as usize)))
                } else if !visited[succ] {
                    Ok((visited.update(succ, true), rec.update(succ, true), frames1.push((succ, 0int)), start))
                } else {
                    Ok((visited, rec, frames1, start))
                }
            } else {
                Ok((visited, rec.update(node, false), frames.drop_last(), if top == 0 { start + 1 } else { start }))
            }
        }
    }

    /// The search run from `st` for at most `fuel` steps: `Some(result)` when
    /// it ends within them, `None` otherwise.
    pub open spec fn search_run(&self, st: SearchState, fuel: nat) -> Option<Option<(usize, usize)>>
        decreases fuel,
    {
        if fuel == 0 {
            None
        } else {
            match self.search_step(st) {
                Ok(next) => self.search_run(next, (fuel - 1) as nat),
                Err(r) => Some(r),
            }
        }
    }

    /// A search that ends within some number of steps ends the same way with
    /// more: the outcome of the search does not depend on the fuel.
    pub proof fn lemma_search_run_more_fuel(&self, st: SearchState, f1: nat, f2: nat)
        requires
            self.search_run(st, f1) is Some,
            f1 <= f2,
        ensures
            self.search_run(st, f2) == self.search_run(st, f1),
        decreases f1,
    {
        if let Ok(next) = self.search_step(st) {
            self.lemma_search_run_more_fuel(next, (f1 - 1) as nat, (f2 - 1) as nat);
        }
    }

    /// The search has a single outcome: any two runs that end, end alike.
    pub proof fn lemma_search_outcome_unique(&self, st: SearchState, f1: nat, f2: nat)
        requires
            self.search_run(st, f1) is Some,
            self.search_run(st, f2) is Some,
        ensures
            self.search_run(st, f1) == self.search_run(st, f2),
    {
        if f1 <= f2 {
            self.lemma_search_run_more_fuel(st, f1, f2);
        } else {
            self.lemma_search_run_more_fuel(st, f2, f1);
        }
    }

    /// No successor of `node` lies in `[from, to)`, and `to` is one (or the
    /// end): `to` is the first successor at or above `from`.
    proof fn lemma_first_edge_from(&self, node: int, from: int, to: int)
        requires
            from <= to <= MAX_TASKS,
            forall|w: int| from <= w < to ==> !#[trigger] self.spec_edge(node, w),
            to < MAX_TASKS ==> self.spec_edge(node, to),
        ensures
            self.first_edge_from(node, from) == to,
        decreases to - from,
    {
        if from < to {
            self.lemma_first_edge_from(node, from + 1, to);
        }
    }

    /// Running from `init` for `steps` steps reached `cur`, and `cur` steps
    /// to `next`: running for `steps + 1` steps reaches `next`.
    proof fn lemma_search_advance(&self, init: SearchState, cur: SearchState, next: SearchState, steps: nat)
        requires
            forall|f: nat| #[trigger] self.search_run(cur, f) == self.search_run(init, f + steps),
            self.search_step(cur) == Ok::<SearchState, Option<(usize, usize)>>(next),
        ensures
            forall|f: nat| #[trigger] self.search_run(next, f) == self.search_run(init, f + (steps + 1)),
    {
        assert forall|f: nat| #[trigger] self.search_run(next, f) == self.search_run(init, f + (steps + 1)) by {
            assert(self.search_run(cur, f + 1) == self.search_run(init, (f + 1) + steps));
        }
    }

    /// Running from `init` for `steps` steps reached `cur`, where the search
    /// ends with `r`: it ends with `r` within `steps + 1` steps from `init`.
    proof fn lemma_search_finish(&self, init: SearchState, cur: SearchState, r: Option<(usize, usize)>, steps: nat)
        requires
            forall|f: nat| #[trigger] self.search_run(cur, f) == self.search_run(init, f + steps),
            self.search_step(cur) == Err::<SearchState, Option<(usize, usize)>>(r),
        ensures
            self.search_run(init, steps + 1) == Some(r),
    {
        assert(self.search_run(cur, 1) == self.search_run(init, 1 + steps));
    }

    /// Finished DFS nodes (visited, off the recursion stack) have finishing
    /// times below `time`, and every edge out of a finished node leads to a
    /// finished node that finished earlier.
    spec fn finished_closed(&self, visited: Seq<bool>, rec: Seq<bool>, fin: Map<int, int>, time: int) -> bool {
        forall|v: int|
            #![trigger visited[v], rec[v]]
            0 <= v < MAX_TASKS && visited[v] && !rec[v] ==> {
                &&& fin.contains_key(v)
                &&& fin[v] < time
                &&& forall|w: int| #[trigger] self.spec_edge(v, w) ==> visited[w] && !rec[w] && fin[w] < fin[v]
            }
    }

    /// Along a path that starts at a finished node, every node is finished and
    /// finishing times strictly decrease.
    proof fn lemma_path_from_finished(&self, visited: Seq<bool>, rec: Seq<bool>, fin: Map<int, int>, time: int, p: Seq<int>)
        requires
            self.finished_closed(visited, rec, fin, time),
            self.is_path(p),
            p.len() > 0,
            0 <= p[0] < MAX_TASKS,
            visited[p[0]],
            !rec[p[0]],
        ensures
            forall|a: int| 0 <= a < p.len() ==> 0 <= #[trigger] p[a] < MAX_TASKS && visited[p[a]] && !rec[p[a]],
            forall|a: int, b: int| 0 <= a < b < p.len() ==> fin[#[trigger] p[a]] > fin[#[trigger] p[b]],
        decreases p.len(),
    {
        if p.len() > 1 {
            let q = p.drop_last();
            assert forall|k: int| #![trigger q[k]] 0 <= k && k + 1 < q.len() implies self.spec_edge(q[k], q[k + 1]) by {
                assert(p[k] == q[k]);
            }
            self.lemma_path_from_finished(visited, rec, fin, time, q);
            let last = p.len() - 1;
            assert(q[last - 1] == p[last - 1]);
            assert(self.spec_edge(p[last - 1], p[last]));
            assert forall|a: int| 0 <= a < p.len() implies 0 <= #[trigger] p[a] < MAX_TASKS && visited[p[a]] && !rec[p[a]] by {
                if a < last {
                    assert(q[a] == p[a]);
                }
            }
            assert forall|a: int, b: int| 0 <= a < b < p.len() implies fin[#[trigger] p[a]] > fin[#[trigger] p[b]] by {
                assert(q[a] == p[a]);
                if b < last {
                    assert(q[b] == p[b]);
                } else {
                    if a < last - 1 {
                        assert(fin[q[a]] > fin[q[last - 1]]);
                    }
                }
            }
        }
    }

    /// Detect a cycle in the graph by iterative depth-first search started
    /// from every slot in turn.
    ///
    /// Returns `None` exactly when the graph is acyclic: no path ever revisits
    /// a node.  Otherwise returns the back-edge `(u, v)` that closes the first
    /// cycle found: an edge `u → v` together with a path from `v` back to `u`.
    /// Which back-edge that is, is the outcome of [`Self::search_step`] run
    /// from [`Self::search_start`]: roots in increasing slot order,
    /// successors in increasing slot order.
    #[verifier::rlimit(100)]
    pub fn detect_cycle(&self) -> (r: Option<(usize, usize)>)
        requires
            self.wf(),
        ensures
            r matches Some((u, v)) ==> {
                &&& self.spec_edge(u as int, v as int)
                &&& exists|p: Seq<int>| #[trigger] self.is_path(p) && p.len() > 0 && p[0] == v && p.last() == u
            },
            (r is None) == forall|p: Seq<int>|
                #[trigger] self.is_path(p) && p.len() > 0 && 0 <= p[0] < MAX_TASKS ==> p.no_duplicates(),
            exists|f: nat| #[trigger] self.search_run(self.search_start(), f) == Some(r),
    {
        let mut visited: Vec<bool> = Vec::new();
        let mut rec_stack: Vec<bool> = Vec::new();
        let mut k: usize = 0;
        while k < MAX_TASKS
            invariant
                k <= MAX_TASKS,
                visited@.len() == k,
                rec_stack@.len() == k,
                forall|v: int| 0 <= v < k ==> !visited@[v] && !rec_stack@[v],
            decreases MAX_TASKS - k,
        {
            visited.push(false);
            rec_stack.push(false);
            k = k + 1;
        }
        let ghost mut fin: Map<int, int> = Map::empty();
        let ghost mut time: int = 0;
        let ghost mut vis: Set<int> = Set::empty();
        let ghost init = self.search_start();
        let ghost mut steps: nat = 0;
        proof {
            assert(visited@ =~= init.0);
            assert(rec_stack@ =~= init.1);
            assert((visited@, rec_stack@, Seq::<(int, int)>::empty(), 0int) == init);
        }

        let mut start: usize = 0;
        while start < MAX_TASKS
            invariant
                self.wf(),
                start <= MAX_TASKS,
                visited@.len() == MAX_TASKS,
                rec_stack@.len() == MAX_TASKS,
                vis.finite(),
                vis.len() <= MAX_TASKS,
                forall|v: int| vis.contains(v) ==> 0 <= v < MAX_TASKS,
                forall|v: int| 0 <= v < MAX_TASKS ==> (#[trigger] visited@[v] <==> vis.contains(v)),
                forall|v: int| 0 <= v < MAX_TASKS ==> !#[trigger] rec_stack@[v],
                forall|v: int| 0 <= v < start ==> #[trigger] visited@[v],
                self.finished_closed(visited@, rec_stack@, fin, time),
                init == self.search_start(),
                forall|f: nat| #[trigger] self.search_run((visited@, rec_stack@, Seq::<(int, int)>::empty(), start as int), f)
                    == self.search_run(init, f + steps),
            decreases MAX_TASKS - start,
        {
            if visited[start] {
                proof {
                    let cur = (visited@, rec_stack@, Seq::<(int, int)>::empty(), start as int);
                    self.lemma_search_advance(init, cur, (visited@, rec_stack@, Seq::<(int, int)>::empty(), start + 1), steps);
                    steps = steps + 1;
                }
                start = start + 1;
                continue;
            }
            let ghost cur0 = (visited@, rec_stack@, Seq::<(int, int)>::empty(), start as int);
            // DFS stack: node and the next successor index to explore.
            let mut dfs_node: Vec<usize> = Vec::new();
            let mut dfs_next: Vec<usize> = Vec::new();
            let mut k: usize = 0;
            while k < MAX_TASKS
                invariant
                    k <= MAX_TASKS,
                    dfs_node@.len() == k,
                    dfs_next@.len() == k,
                    forall|a: int| 0 <= a < k ==> dfs_node@[a] == 0 && dfs_next@[a] == 0,
                decreases MAX_TASKS - k,
            {
                dfs_node.push(0);
                dfs_next.push(0);
                k = k + 1;
            }
            let mut depth: usize = 0;
            dfs_node.set(0, start);
            dfs_next.set(0, 0);
            visited.set(start, true);
            rec_stack.set(start, true);
            proof {
                assert(frames_of(dfs_node@, dfs_next@, 1) =~= seq![(start as int, 0int)]);
                self.lemma_search_advance(init, cur0, (visited@, rec_stack@, frames_of(dfs_node@, dfs_next@, 1), start as int), steps);
                steps = steps + 1;
                vis = vis.insert(start as int);
                assert forall|v: int| vis.contains(v) implies 0 <= v < MAX_TASKS by {}
                vstd::set_lib::lemma_int_range(0, MAX_TASKS as int);
                vstd::set_lib::lemma_len_subset(vis, vstd::set_lib::set_int_range(0, MAX_TASKS as int));
                assert(vis.len() >= 1) by {
                    assert(vis.contains(start as int));
                }
                assert(dfs_node@[0] == start);
                assert forall|v: int| 0 <= v < MAX_TASKS && #[trigger] rec_stack@[v] implies
                    exists|a: int| 0 <= a <= depth && #[trigger] dfs_node@[a] == v by {
                    assert(v == start);
                    assert(dfs_node@[0] == v);
                }
            }

            loop
                invariant_except_break
                    depth < vis.len(),
                    forall|f: nat| #[trigger] self.search_run((visited@, rec_stack@, frames_of(dfs_node@, dfs_next@, depth + 1), start as int), f)
                        == self.search_run(init, f + steps),
                    forall|a: int| 0 <= a <= depth ==> #[trigger] rec_stack@[dfs_node@[a] as int],
                    forall|v: int| 0 <= v < MAX_TASKS && #[trigger] rec_stack@[v] ==> exists|a: int| 0 <= a <= depth && #[trigger] dfs_node@[a] == v,
                    forall|a: int| 0 <= a < depth ==> self.spec_edge(#[trigger] dfs_node@[a] as int, dfs_node@[a + 1] as int),
                    forall|a: int| 0 <= a < depth ==> #[trigger] dfs_next@[a] == dfs_node@[a + 1] + 1,
                    forall|a: int, w: int| 0 <= a <= depth && 0 <= w < dfs_next@[a] && #[trigger] self.spec_edge(#[trigger] dfs_node@[a] as int, w)
                        ==> (visited@[w] && !rec_stack@[w]) || (a < depth && w == dfs_node@[a + 1]),
                invariant
                    self.wf(),
                    init == self.search_start(),
                    start < MAX_TASKS,
                    depth < MAX_TASKS,
                    visited@.len() == MAX_TASKS,
                    rec_stack@.len() == MAX_TASKS,
                    dfs_node@.len() == MAX_TASKS,
                    dfs_next@.len() == MAX_TASKS,
                    vis.finite(),
                    vis.len() <= MAX_TASKS,
                    forall|v: int| vis.contains(v) ==> 0 <= v < MAX_TASKS,
                    forall|v: int| 0 <= v < MAX_TASKS ==> (#[trigger] visited@[v] <==> vis.contains(v)),
                    forall|a: int| 0 <= a <= depth ==> #[trigger] dfs_node@[a] < MAX_TASKS && visited@[dfs_node@[a] as int] && dfs_next@[a] <= MAX_TASKS,
                    forall|a: int, b: int| 0 <= a < b <= depth ==> #[trigger] dfs_node@[a] != #[trigger] dfs_node@[b],
                    forall|v: int| 0 <= v <= start ==> #[trigger] visited@[v],
                    dfs_node@[0] == start,
                    self.finished_closed(visited@, rec_stack@, fin, time),
                ensures
                    forall|v: int| 0 <= v < MAX_TASKS ==> !#[trigger] rec_stack@[v],
                    forall|f: nat| #[trigger] self.search_run((visited@, rec_stack@, Seq::<(int, int)>::empty(), start + 1), f)
                        == self.search_run(init, f + steps),
                decreases (MAX_TASKS - vis.len()) * 1000 + depth * 17 + (MAX_TASKS - dfs_next@[depth as int]),
            {
                let ghost cur = (visited@, rec_stack@, frames_of(dfs_node@, dfs_next@, depth + 1), start as int);
                let node = dfs_node[depth];
                let next_succ = dfs_next[depth];
                let mut succ = next_succ;
                while succ < MAX_TASKS && !self.edges[node * MAX_TASKS + succ]
                    invariant
                        self.wf(),
                        node < MAX_TASKS,
                        next_succ <= succ <= MAX_TASKS,
                        forall|w: int| next_succ <= w < succ ==> !#[trigger] self.spec_edge(node as int, w),
                    decreases MAX_TASKS - succ,
                {
                    succ = succ + 1;
                }
                proof {
                    self.lemma_first_edge_from(node as int, next_succ as int, succ as int);
                    assert(cur.2[depth as int] == (node as int, next_succ as int));
                }
                if succ < MAX_TASKS {
                    // Successor found: record where to resume at this depth.
                    assert(self.spec_edge(node as int, succ as int));
                    let ghost pre_next = dfs_next@;
                    dfs_next.set(depth, succ + 1);
                    if rec_stack[succ] {
                        proof {
                            let a = choose|a: int| 0 <= a <= depth && #[trigger] dfs_node@[a] == succ as int;
                            let p = dfs_node@.subrange(a, depth + 1).map_values(|x: usize| x as int);
                            assert forall|k: int| #![trigger p[k]] 0 <= k && k + 1 < p.len() implies self.spec_edge(p[k], p[k + 1]) by {
                                assert(p[k] == dfs_node@[a + k]);
                                assert(p[k + 1] == dfs_node@[a + k + 1]);
                            }
                            assert(p[0] == succ as int);
                            assert(p.last() == node as int);
                            assert(self.is_path(p));
                            // The DFS stack followed by `succ` is a path from `start` that revisits `succ`.
                            let q = dfs_node@.subrange(0, depth + 1).map_values(|x: usize| x as int).push(succ as int);
                            assert forall|k: int| #![trigger q[k]] 0 <= k && k + 1 < q.len() implies self.spec_edge(q[k], q[k + 1]) by {
                                assert(q[k] == dfs_node@[k]);
                                if k + 1 < depth + 1 {
                                    assert(q[k + 1] == dfs_node@[k + 1]);
                                }
                            }
                            assert(q[a] == q[depth + 1]);
                            assert(!q.no_duplicates());
                            assert(self.is_path(q) && q.len() > 0 && 0 <= q[0] < MAX_TASKS);
                            self.lemma_search_finish(init, cur, Some((node, succ)), steps);
                        }
                        return Some((node, succ));
                    }
                    if !visited[succ] {
                        let ghost old_nodes = dfs_node@;
                        let ghost old_rec = rec_stack@;
                        proof {
                            assert(!vis.contains(succ as int));
                            assert(vis.insert(succ as int).len() == vis.len() + 1);
                            let bigger = vis.insert(succ as int);
                            vstd::set_lib::lemma_int_range(0, MAX_TASKS as int);
                            vstd::set_lib::lemma_len_subset(bigger, vstd::set_lib::set_int_range(0, MAX_TASKS as int));
                        }
                        visited.set(succ, true);
                        rec_stack.set(succ, true);
                        proof {
                            vis = vis.insert(succ as int);
                        }
                        depth = depth + 1;
                        dfs_node.set(depth, succ);
                        dfs_next.set(depth, 0);
                        proof {
                            let nf = frames_of(dfs_node@, dfs_next@, depth + 1);
                            let sf = cur.2.update(depth - 1, (node as int, succ + 1)).push((succ as int, 0int));
                            assert forall|a: int| 0 <= a < nf.len() implies nf[a] == sf[a] by {
                                if a < depth - 1 {
                                    assert(dfs_node@[a] == old_nodes[a]);
                                    assert(dfs_next@[a] == pre_next[a]);
                                }
                            }
                            assert(nf =~= sf);
                            self.lemma_search_advance(init, cur, (visited@, rec_stack@, nf, start as int), steps);
                            steps = steps + 1;
                            assert forall|a: int| 0 <= a < depth implies self.spec_edge(#[trigger] dfs_node@[a] as int, dfs_node@[a + 1] as int)
                                && dfs_next@[a] == dfs_node@[a + 1] + 1 by {
                                if a < depth - 1 {
                                    assert(dfs_node@[a] == old_nodes[a]);
                                    assert(dfs_node@[a + 1] == old_nodes[a + 1]);
                                    assert(dfs_next@[a] == pre_next[a]);
                                } else {
                                    assert(dfs_node@[a] == old_nodes[a]);
                                    assert(dfs_node@[a] == node);
                                }
                            }
                            assert forall|a: int| 0 <= a <= depth implies #[trigger] dfs_node@[a] < MAX_TASKS && visited@[dfs_node@[a] as int] && dfs_next@[a] <= MAX_TASKS by {
                                if a < depth - 1 {
                                    assert(dfs_node@[a] == old_nodes[a]);
                                    assert(dfs_next@[a] == pre_next[a]);
                                } else if a == depth - 1 {
                                    assert(dfs_node@[a] == old_nodes[a]);
                                }
                            }
                            assert forall|v: int| 0 <= v < MAX_TASKS && #[trigger] rec_stack@[v] implies
                                exists|a: int| 0 <= a <= depth && #[trigger] dfs_node@[a] == v by {
                                if v == succ {
                                    assert(dfs_node@[depth as int] == v);
                                } else {
                                    assert(old_rec[v]);
                                    let a = choose|a: int| 0 <= a <= depth - 1 && #[trigger] old_nodes[a] == v;
                                    assert(dfs_node@[a] == v);
                                }
                            }
                        }
                    } else {
                        proof {
                            let nf = frames_of(dfs_node@, dfs_next@, depth + 1);
                            let sf = cur.2.update(depth as int, (node as int, succ + 1));
                            assert forall|a: int| 0 <= a < nf.len() implies nf[a] == sf[a] by {
                                if a < depth {
                                    assert(dfs_next@[a] == pre_next[a]);
                                }
                            }
                            assert(nf =~= sf);
                            self.lemma_search_advance(init, cur, (visited@, rec_stack@, nf, start as int), steps);
                            steps = steps + 1;
                        }
                        assert forall|a: int| 0 <= a < depth implies self.spec_edge(#[trigger] dfs_node@[a] as int, dfs_node@[a + 1] as int)
                            && dfs_next@[a] == dfs_node@[a + 1] + 1 by {
                            assert(dfs_next@[a] == pre_next[a]);
                        }
                        assert forall|a: int| 0 <= a <= depth implies #[trigger] dfs_node@[a] < MAX_TASKS && visited@[dfs_node@[a] as int] && dfs_next@[a] <= MAX_TASKS by {
                            if a < depth {
                                assert(dfs_next@[a] == pre_next[a]);
                            }
                        }
                    }
                } else {
                    // All successors explored: `node` finishes.
                    rec_stack.set(node, false);
                    proof {
                        fin = fin.insert(node as int, time);
                        time = time + 1;
                        let nf = if depth == 0 { Seq::<(int, int)>::empty() } else { frames_of(dfs_node@, dfs_next@, depth as int) };
                        assert(nf =~= cur.2.drop_last());
                        let nstart: int = if depth == 0 { start + 1 } else { start as int };
                        self.lemma_search_advance(init, cur, (visited@, rec_stack@, nf, nstart), steps);
                        steps = steps + 1;
                    }
                    if depth == 0 {
                        break;
                    }
                    depth = depth - 1;
                }
            }
            start = start + 1;
        }
        proof {
            let cur = (visited@, rec_stack@, Seq::<(int, int)>::empty(), start as int);
            self.lemma_search_finish(init, cur, None, steps);
            assert forall|p: Seq<int>|
                #[trigger] self.is_path(p) && p.len() > 0 && 0 <= p[0] < MAX_TASKS implies p.no_duplicates() by {
                self.lemma_path_from_finished(visited@, rec_stack@, fin, time, p);
                assert forall|a: int, b: int| 0 <= a < p.len() && 0 <= b < p.len() && a != b implies p[a] != p[b] by {
                    if a < b {
                        assert(fin[p[a]] > fin[p[b]]);
                    } else {
                        assert(fin[p[b]] > fin[p[a]]);
                    }
                }
            }
        }
        None
    }
}

/// Membership in a prefix grown by one element.
proof fn lemma_subrange_push_contains(s: Seq<usize>, n: int, v: usize)
    requires
        0 <= n < s.len(),
    ensures
        s.subrange(0, n + 1).contains(v) <==> (s.subrange(0, n).contains(v) || s[n] == v),
{
    let t = s.subrange(0, n + 1);
    let u = s.subrange(0, n);
    if t.contains(v) {
        let k = choose|k: int| 0 <= k < t.len() && t[k] == v;
        if k < n {
            assert(u[k] == v);
        }
    }
    if u.contains(v) {
        let k = choose|k: int| 0 <= k < u.len() && u[k] == v;
        assert(t[k] == v);
    }
    if s[n] == v {
        assert(t[n] == v);
    }
}


/// The edges of a built graph come from exclusive holdings alone: `i → j`
/// exactly when slots `i` and `j` hold two distinct present tasks and the
/// exclusive mask of `i` shares a set bit with the required mask of `j`.
pub proof fn lemma_edges_from_exclusive_masks(reg: Seq<Option<TaskDescriptor>>, ccg: CapabilityContentionGraph)
    requires
        reg.len() == MAX_TASKS,
        forall|i: int, j: int| 0 <= i < MAX_TASKS && 0 <= j < MAX_TASKS ==> (#[trigger] ccg.spec_edge(i, j) <==> contention(reg, i, j)),
    ensures
        forall|i: int, j: int| 0 <= i < MAX_TASKS && 0 <= j < MAX_TASKS ==> (#[trigger] ccg.spec_edge(i, j) <==> {
            &&& i != j
            &&& reg[i] is Some
            &&& reg[j] is Some
            &&& reg[i]->0.exclusive_cap_mask & reg[j]->0.required_cap_mask != 0
        }),
{
}

/// Shared holdings create no contention: two registries that differ only in
/// the tasks' shared masks (and other fields besides the exclusive and
/// required masks) build graphs with the same edges.
pub proof fn lemma_shared_masks_make_no_edges(
    reg1: Seq<Option<TaskDescriptor>>,
    reg2: Seq<Option<TaskDescriptor>>,
    g1: CapabilityContentionGraph,
    g2: CapabilityContentionGraph,
)
    requires
        reg1.len() == MAX_TASKS,
        reg2.len() == MAX_TASKS,
        forall|i: int| 0 <= i < MAX_TASKS ==> (#[trigger] reg1[i] is Some <==> reg2[i] is Some),
        forall|i: int| 0 <= i < MAX_TASKS && #[trigger] reg1[i] is Some ==> {
            &&& reg1[i]->0.exclusive_cap_mask == reg2[i]->0.exclusive_cap_mask
            &&& reg1[i]->0.required_cap_mask == reg2[i]->0.required_cap_mask
        },
        forall|i: int, j: int| 0 <= i < MAX_TASKS && 0 <= j < MAX_TASKS ==> (#[trigger] g1.spec_edge(i, j) <==> contention(reg1, i, j)),
        forall|i: int, j: int| 0 <= i < MAX_TASKS && 0 <= j < MAX_TASKS ==> (#[trigger] g2.spec_edge(i, j) <==> contention(reg2, i, j)),
    ensures
        forall|i: int, j: int| 0 <= i < MAX_TASKS && 0 <= j < MAX_TASKS ==> (#[trigger] g1.spec_edge(i, j) <==> g2.spec_edge(i, j)),
{
    assert forall|i: int, j: int| 0 <= i < MAX_TASKS && 0 <= j < MAX_TASKS implies (#[trigger] g1.spec_edge(i, j) <==> g2.spec_edge(i, j)) by {
        assert(reg1[i] is Some <==> reg2[i] is Some);
        assert(reg1[j] is Some <==> reg2[j] is Some);
    }
}

} // verus!
