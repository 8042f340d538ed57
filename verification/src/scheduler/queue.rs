//! Static max-heap priority queue for the CA-PIP scheduler.
//!
//! Stores task IDs ranked by the effective priority supplied at insertion.
//! Entries of equal priority leave in the order they were inserted: every
//! insertion is stamped with a sequence number, and the heap is ordered by
//! priority first (higher first) and sequence number second (older first).
//! The heap array is fixed-capacity: `N` slots, the first `len` occupied.
use vstd::prelude::*;
use vstd::multiset::Multiset;

verus! {

broadcast use vstd::seq_lib::group_to_multiset_ensures, vstd::multiset::group_multiset_axioms;

/// Heap entry: a task ID, its effective priority and its insertion stamp.
#[derive(Clone, Copy)]
struct HeapEntry {
    task_id: u8,
    effective_priority: u8,
    seq: u64,
}

/// A queued entry as seen by contracts: `(task_id, priority, insertion stamp)`.
pub type QueueEntry = (u8, u8, u64);

/// Parent index of heap position `i > 0`.
pub open spec fn parent(i: int) -> int {
    (i - 1) / 2
}

/// `a` leaves the queue no later than `b`: higher priority, or equal
/// priority and inserted no later.
pub open spec fn key_ge(a: QueueEntry, b: QueueEntry) -> bool {
    a.1 > b.1 || (a.1 == b.1 && a.2 <= b.2)
}

/// `a` leaves the queue strictly before `b`.
pub open spec fn key_before(a: QueueEntry, b: QueueEntry) -> bool {
    a.1 > b.1 || (a.1 == b.1 && a.2 < b.2)
}

/// `e` is the entry of `m` that leaves first: of highest priority, and the
/// earliest inserted among those.
pub open spec fn is_top(m: Multiset<QueueEntry>, e: QueueEntry) -> bool {
    &&& m.contains(e)
    &&& forall|f: QueueEntry| #[trigger] m.contains(f) && f != e ==> key_before(e, f)
}

/// A multiset has at most one top entry.
pub proof fn lemma_top_unique(m: Multiset<QueueEntry>, e1: QueueEntry, e2: QueueEntry)
    requires
        is_top(m, e1),
        is_top(m, e2),
    ensures
        e1 == e2,
{
    if e1 != e2 {
        assert(m.contains(e2));
        assert(m.contains(e1));
        assert(key_before(e1, e2));
        assert(key_before(e2, e1));
    }
}

/// Fixed-capacity max-heap priority queue, FIFO among equal priorities.
pub struct PriorityQueue<const N: usize> {
    heap: Vec<Option<HeapEntry>>,
    len: usize,
    next_seq: u64,
}

/// Every entry except the one at `x` leaves no earlier than its parent; `x`'s
/// children leave no earlier than `x`'s parent (the sift-up hole).
spec fn heap_except_up(s: Seq<QueueEntry>, x: int) -> bool {
    &&& forall|i: int| 0 < i < s.len() && i != x ==> key_ge(s[parent(i)], #[trigger] s[i])
    &&& x > 0 ==> forall|c: int| 0 < c < s.len() && parent(c) == x ==> key_ge(s[parent(x)], #[trigger] s[c])
}

/// Every entry whose parent is not `x` leaves no earlier than its parent, and
/// `x`'s children leave no earlier than `x`'s parent (the sift-down hole).
spec fn heap_except_down(s: Seq<QueueEntry>, x: int) -> bool {
    &&& forall|i: int| 0 < i < s.len() && parent(i) != x ==> key_ge(s[parent(i)], #[trigger] s[i])
    &&& x > 0 ==> forall|c: int| 0 < c < s.len() && parent(c) == x ==> key_ge(s[parent(x)], #[trigger] s[c])
}

/// Heap order: every entry leaves no earlier than its parent.
pub open spec fn is_heap(s: Seq<QueueEntry>) -> bool {
    forall|i: int| 0 < i < s.len() ==> key_ge(s[parent(i)], #[trigger] s[i])
}

/// Insertion stamps are pairwise distinct and below `next`.
spec fn stamps_ok(s: Seq<QueueEntry>, next: u64) -> bool {
    &&& forall|i: int, j: int| 0 <= i < j < s.len() ==> #[trigger] s[i].2 != #[trigger] s[j].2
    &&& forall|i: int| 0 <= i < s.len() ==> #[trigger] s[i].2 < next
}

/// In a heap the root leaves no later than any entry.
proof fn lemma_heap_root_max(s: Seq<QueueEntry>, i: int)
    requires
        is_heap(s),
        0 <= i < s.len(),
    ensures
        key_ge(s[0], s[i]),
    decreases i,
{
    if i > 0 {
        lemma_heap_root_max(s, parent(i));
    }
}

/// Swapping two positions keeps the multiset of entries and valid stamps.
proof fn lemma_swap(s: Seq<QueueEntry>, a: int, b: int, next: u64)
    requires
        0 <= a < s.len(),
        0 <= b < s.len(),
        stamps_ok(s, next),
    ensures
        s.update(a, s[b]).update(b, s[a]).to_multiset() == s.to_multiset(),
        stamps_ok(s.update(a, s[b]).update(b, s[a]), next),
{
    let t = s.update(a, s[b]);
    let u = t.update(b, s[a]);
    assert(t.to_multiset() == s.to_multiset().insert(s[b]).remove(s[a]));
    assert(u.to_multiset() == t.to_multiset().insert(s[a]).remove(t[b]));
    if a == b {
        assert(u =~= s);
    } else {
        assert(t[b] == s[b]);
        assert(s.to_multiset().count(s[a]) > 0);
        assert(s.to_multiset().insert(s[b]).remove(s[a]).insert(s[a]).remove(s[b]) =~= s.to_multiset());
    }
    assert forall|i: int, j: int| 0 <= i < j < u.len() implies #[trigger] u[i].2 != #[trigger] u[j].2 by {
        let pi = if i == a { b } else if i == b { a } else { i };
        let pj = if j == a { b } else if j == b { a } else { j };
        assert(u[i] == s[pi]);
        assert(u[j] == s[pj]);
        if pi < pj {
            assert(s[pi].2 != s[pj].2);
        } else {
            assert(s[pj].2 != s[pi].2);
        }
    }
    assert forall|i: int| 0 <= i < u.len() implies #[trigger] u[i].2 < next by {
        let pi = if i == a { b } else if i == b { a } else { i };
        assert(u[i] == s[pi]);
    }
}

/// The `(task_id, priority)` pairs of a sequence of entries, stamps dropped.
pub open spec fn project(s: Seq<QueueEntry>) -> Seq<(u8, u8)> {
    s.map_values(|e: QueueEntry| (e.0, e.1))
}

/// Two sequences holding the same entries hold the same pairs.
proof fn lemma_project_perm(s1: Seq<QueueEntry>, s2: Seq<QueueEntry>)
    requires
        s1.to_multiset() == s2.to_multiset(),
    ensures
        project(s1).to_multiset() == project(s2).to_multiset(),
    decreases s1.len(),
{
    if s1.len() == 0 {
        assert(s2.to_multiset().len() == 0);
        assert(s2.len() == 0);
        assert(project(s1) =~= project(s2));
    } else {
        let n = s1.len() - 1;
        let x = s1[n];
        assert(s1.to_multiset().contains(x));
        assert(s2.contains(x));
        let i = choose|i: int| 0 <= i < s2.len() && s2[i] == x;
        let r1 = s1.remove(n);
        let r2 = s2.remove(i);
        assert(r1.to_multiset() == s1.to_multiset().remove(x));
        assert(r2.to_multiset() == s2.to_multiset().remove(x));
        lemma_project_perm(r1, r2);
        let px = (x.0, x.1);
        assert(project(s1) =~= project(r1).push(px));
        assert(project(s2).remove(i) =~= project(r2));
        assert(project(s2)[i] == px);
        assert(project(r2).to_multiset() == project(s2).to_multiset().remove(px));
        assert(project(s2).to_multiset().contains(px));
        assert(project(s2).to_multiset() =~= project(s2).to_multiset().remove(px).insert(px));
    }
}

/// Number of the first `n` entries of `s` stamped below `x`.
spec fn stamps_below(s: Seq<QueueEntry>, x: u64, n: int) -> nat
    decreases n,
{
    if n <= 0 {
        0
    } else {
        stamps_below(s, x, n - 1) + if s[n - 1].2 < x { 1nat } else { 0nat }
    }
}

/// A larger bound counts at least as many stamps.
proof fn lemma_stamps_below_mono(s: Seq<QueueEntry>, x: u64, y: u64, n: int)
    requires
        x <= y,
    ensures
        stamps_below(s, x, n) <= stamps_below(s, y, n),
    decreases n,
{
    if n > 0 {
        lemma_stamps_below_mono(s, x, y, n - 1);
    }
}

/// A stamp in `[x, y)` among the first `n` makes the count strictly larger.
proof fn lemma_stamps_below_strict(s: Seq<QueueEntry>, i: int, x: u64, y: u64, n: int)
    requires
        0 <= i < n,
        x <= s[i].2 < y,
    ensures
        stamps_below(s, x, n) < stamps_below(s, y, n),
    decreases n,
{
    if i == n - 1 {
        lemma_stamps_below_mono(s, x, y, n - 1);
    } else {
        lemma_stamps_below_strict(s, i, x, y, n - 1);
    }
}

/// At most `n` of the first `n` stamps lie below any bound, and fewer than
/// `n` lie below a stamp that is itself among them.
proof fn lemma_stamps_below_bound(s: Seq<QueueEntry>, x: u64, n: int)
    requires
        n >= 0,
    ensures
        stamps_below(s, x, n) <= n,
        forall|i: int| 0 <= i < n && #[trigger] s[i].2 == x ==> stamps_below(s, x, n) < n,
    decreases n,
{
    if n > 0 {
        lemma_stamps_below_bound(s, x, n - 1);
    }
}

/// The entries of `s` restamped by rank: each stamp replaced by the number of
/// entries stamped below it.
spec fn compacted(s: Seq<QueueEntry>) -> Seq<QueueEntry> {
    Seq::new(s.len(), |k: int| (s[k].0, s[k].1, stamps_below(s, s[k].2, s.len() as int) as u64))
}

/// Restamping by rank keeps the pairs, the heap order and distinct stamps,
/// now all below the number of entries.
proof fn lemma_compacted(s: Seq<QueueEntry>, next: u64)
    requires
        is_heap(s),
        stamps_ok(s, next),
        s.len() < u64::MAX,
    ensures
        project(compacted(s)) == project(s),
        is_heap(compacted(s)),
        stamps_ok(compacted(s), s.len() as u64),
{
    let c = compacted(s);
    let n = s.len() as int;
    assert forall|k: int| 0 <= k < n implies #[trigger] c[k].2 == stamps_below(s, s[k].2, n) by {
        lemma_stamps_below_bound(s, s[k].2, n);
    }
    assert(project(c) =~= project(s));
    assert forall|i: int| 0 < i < c.len() implies key_ge(c[parent(i)], #[trigger] c[i]) by {
        let p = parent(i);
        assert(key_ge(s[p], s[i]));
        if s[p].2 <= s[i].2 {
            lemma_stamps_below_mono(s, s[p].2, s[i].2, n);
        }
    }
    assert forall|i: int, j: int| 0 <= i < j < c.len() implies #[trigger] c[i].2 != #[trigger] c[j].2 by {
        assert(s[i].2 != s[j].2);
        if s[i].2 < s[j].2 {
            lemma_stamps_below_strict(s, i, s[i].2, s[j].2, n);
        } else {
            lemma_stamps_below_strict(s, j, s[j].2, s[i].2, n);
        }
    }
    assert forall|i: int| 0 <= i < c.len() implies #[trigger] c[i].2 < s.len() as u64 by {
        lemma_stamps_below_bound(s, s[i].2, n);
    }
}

impl<const N: usize> PriorityQueue<N> {
    /// The occupied entries, in heap order.
    pub closed spec fn items(&self) -> Seq<QueueEntry> {
        Seq::new(
            self.len as nat,
            |i: int| (self.heap@[i]->0.task_id, self.heap@[i]->0.effective_priority, self.heap@[i]->0.seq),
        )
    }

    /// Storage shape: `N` slots, the first `len` occupied, the rest empty.
    closed spec fn shaped(&self) -> bool {
        &&& self.heap@.len() == N
        &&& N < usize::MAX / 2
        &&& self.len <= N
        &&& forall|i: int| 0 <= i < N ==> (#[trigger] self.heap@[i] is Some <==> i < self.len)
    }

    /// Well-formed: shaped, in heap order, with distinct stamps below the
    /// next stamp.
    pub closed spec fn wf(&self) -> bool {
        &&& self.shaped()
        &&& is_heap(self.items())
        &&& stamps_ok(self.items(), self.next_seq)
    }

    /// The entry at the root: the next one `pop_max` returns.
    pub closed spec fn root(&self) -> QueueEntry {
        self.items()[0]
    }

    /// Number of queued entries.
    pub closed spec fn spec_len(&self) -> nat {
        self.len as nat
    }

    /// The stamp the next insertion receives.
    pub closed spec fn spec_next_seq(&self) -> u64 {
        self.next_seq
    }

    /// The queued entries as a multiset of `(task_id, priority, stamp)`.
    pub closed spec fn view(&self) -> Multiset<QueueEntry> {
        self.items().to_multiset()
    }

    /// The queued `(task_id, priority)` pairs, stamps dropped.
    pub closed spec fn pairs(&self) -> Multiset<(u8, u8)> {
        project(self.items()).to_multiset()
    }

    /// The queue holds `spec_len` entries, all stamped below the next stamp,
    /// and the root of a non-empty queue is its top entry.
    pub proof fn lemma_root_is_top(&self)
        requires
            self.wf(),
        ensures
            self.view().len() == self.spec_len(),
            forall|f: QueueEntry| #[trigger] self.view().contains(f) ==> f.2 < self.spec_next_seq(),
            self.spec_len() > 0 ==> is_top(self.view(), self.root()),
            self.pairs().len() == self.spec_len(),
            forall|e: (u8, u8)| #[trigger] self.pairs().contains(e) ==> e.1 <= self.root().1,
    {
        let s = self.items();
        assert forall|e: (u8, u8)| #[trigger] self.pairs().contains(e) implies e.1 <= self.root().1 by {
            let ps = project(s);
            assert(ps.contains(e));
            let i = choose|i: int| 0 <= i < ps.len() && ps[i] == e;
            lemma_heap_root_max(s, i);
        }
        assert forall|f: QueueEntry| #[trigger] self.view().contains(f) implies f.2 < self.spec_next_seq() by {
            assert(s.contains(f));
            let i = choose|i: int| 0 <= i < s.len() && s[i] == f;
        }
        if s.len() > 0 {
            assert(s.contains(s[0]));
            assert forall|f: QueueEntry| #[trigger] self.view().contains(f) && f != self.root() implies key_before(self.root(), f) by {
                assert(s.contains(f));
                let i = choose|i: int| 0 <= i < s.len() && s[i] == f;
                lemma_heap_root_max(s, i);
                assert(i != 0);
                assert(s[0].2 != s[i].2);
            }
        }
    }

    /// An empty queue.
    pub fn new() -> (q: Self)
        requires
            N < usize::MAX / 2,
        ensures
            q.wf(),
            q.spec_len() == 0,
            q.spec_next_seq() == 0,
            q.view() =~= Multiset::empty(),
    {
        let mut heap: Vec<Option<HeapEntry>> = Vec::new();
        let mut i: usize = 0;
        while i < N
            invariant
                i <= N,
                heap@.len() == i,
                forall|k: int| 0 <= k < i ==> #[trigger] heap@[k] is None,
            decreases N - i,
        {
            heap.push(None);
            i = i + 1;
        }
        let q = PriorityQueue { heap, len: 0, next_seq: 0 };
        assert(q.items() =~= Seq::<QueueEntry>::empty());
        q
    }

    /// Number of entries currently in the queue.
    pub fn len(&self) -> (r: usize)
        ensures
            r == self.spec_len(),
    {
        self.len
    }

    /// The insertion stamp the next inserted entry receives.
    pub fn next_seq(&self) -> (r: u64)
        ensures
            r == self.spec_next_seq(),
    {
        self.next_seq
    }

    /// Whether the queue holds no entries.
    pub fn is_empty(&self) -> (r: bool)
        ensures
            r == (self.spec_len() == 0),
    {
        self.len == 0
    }

    /// Whether the entry at `i` leaves strictly before the entry at `j`.
    fn ahead(&self, i: usize, j: usize) -> (r: bool)
        requires
            self.shaped(),
            i < self.len,
            j < self.len,
        ensures
            r == key_before(self.items()[i as int], self.items()[j as int]),
    {
        match (self.heap[i], self.heap[j]) {
            (Some(a), Some(b)) => a.effective_priority > b.effective_priority
                || (a.effective_priority == b.effective_priority && a.seq < b.seq),
            _ => false,
        }
    }

    /// Exchange the entries at two occupied positions.
    fn swap_entries(&mut self, a: usize, b: usize)
        requires
            old(self).shaped(),
            a < old(self).len,
            b < old(self).len,
        ensures
            final(self).shaped(),
            final(self).len == old(self).len,
            final(self).next_seq == old(self).next_seq,
            final(self).items() == old(self).items().update(a as int, old(self).items()[b as int]).update(
                b as int,
                old(self).items()[a as int],
            ),
    {
        let ea = self.heap[a];
        let eb = self.heap[b];
        self.heap.set(a, eb);
        self.heap.set(b, ea);
        assert(self.items() =~= old(self).items().update(a as int, old(self).items()[b as int]).update(
            b as int,
            old(self).items()[a as int],
        ));
    }

    /// Insert `task_id` with the given effective priority; it is stamped with
    /// the next insertion stamp, so it leaves after every queued entry of the
    /// same priority.
    ///
    /// When the stamps run out (the next stamp is `u64::MAX`), the queued
    /// entries are first restamped by rank, which keeps their order.
    pub fn insert(&mut self, task_id: u8, effective_priority: u8)
        requires
            old(self).wf(),
            old(self).spec_len() < N,
        ensures
            final(self).wf(),
            final(self).spec_len() == old(self).spec_len() + 1,
            final(self).pairs() =~= old(self).pairs().insert((task_id, effective_priority)),
            final(self).spec_next_seq() > 0,
            final(self).view().contains((task_id, effective_priority, (final(self).spec_next_seq() - 1) as u64)),
            old(self).spec_next_seq() < u64::MAX ==> {
                &&& final(self).spec_next_seq() == old(self).spec_next_seq() + 1
                &&& final(self).view() =~= old(self).view().insert((task_id, effective_priority, old(self).spec_next_seq()))
            },
    {
        if self.next_seq == u64::MAX {
            self.compact_stamps();
        }
        let ghost pairs0 = self.pairs();
        let len = self.len;
        let seq = self.next_seq;
        let ghost s = self.items();
        self.heap.set(len, Some(HeapEntry { task_id, effective_priority, seq }));
        self.len = len + 1;
        self.next_seq = seq + 1;
        assert(self.items() =~= s.push((task_id, effective_priority, seq)));
        proof {
            let t = self.items();
            assert forall|i: int, j: int| 0 <= i < j < t.len() implies #[trigger] t[i].2 != #[trigger] t[j].2 by {
                if j < s.len() {
                    assert(t[i] == s[i]);
                    assert(t[j] == s[j]);
                } else {
                    assert(t[i] == s[i]);
                }
            }
            assert forall|i: int| 0 <= i < t.len() implies #[trigger] t[i].2 < self.next_seq by {
                if i < s.len() {
                    assert(t[i] == s[i]);
                }
            }
            assert(project(t) =~= project(s).push((task_id, effective_priority)));
        }
        let ghost t = self.items();
        self.sift_up(len);
        proof {
            lemma_project_perm(self.items(), t);
            assert(t.to_multiset().contains((task_id, effective_priority, seq)));
        }
    }

    /// Stamp of the entry at occupied position `i`.
    fn stamp_at(&self, i: usize) -> (r: u64)
        requires
            self.shaped(),
            i < self.len,
        ensures
            r == self.items()[i as int].2,
    {
        match self.heap[i] {
            Some(e) => e.seq,
            None => 0,
        }
    }

    /// Restamp every entry by rank, keeping their order; the next stamp
    /// becomes the number of entries.
    fn compact_stamps(&mut self)
        requires
            old(self).wf(),
        ensures
            final(self).wf(),
            final(self).len == old(self).len,
            final(self).next_seq == old(self).len as u64,
            project(final(self).items()) == project(old(self).items()),
    {
        let ghost s = self.items();
        let len = self.len;
        proof {
            lemma_compacted(s, self.next_seq);
        }
        let mut ranks: Vec<u64> = Vec::new();
        let mut i: usize = 0;
        while i < len
            invariant
                self.shaped(),
                self.len == len,
                s == self.items(),
                i <= len,
                ranks@.len() == i,
                forall|k: int| 0 <= k < i ==> ranks@[k] == compacted(s)[k].2,
            decreases len - i,
        {
            let si = self.stamp_at(i);
            let mut cnt: u64 = 0;
            let mut j: usize = 0;
            while j < len
                invariant
                    self.shaped(),
                    self.len == len,
                    s == self.items(),
                    i < len,
                    si == s[i as int].2,
                    j <= len,
                    cnt == stamps_below(s, si, j as int),
                decreases len - j,
            {
                proof {
                    lemma_stamps_below_bound(s, si, j as int);
                }
                if self.stamp_at(j) < si {
                    cnt = cnt + 1;
                }
                j = j + 1;
            }
            proof {
                lemma_stamps_below_bound(s, si, len as int);
            }
            ranks.push(cnt);
            i = i + 1;
        }
        let mut k: usize = 0;
        while k < len
            invariant
                self.shaped(),
                self.len == len,
                s.len() == len,
                k <= len,
                ranks@.len() == len,
                forall|m: int| 0 <= m < len ==> ranks@[m] == compacted(s)[m].2,
                forall|m: int| 0 <= m < k ==> #[trigger] self.items()[m] == compacted(s)[m],
                forall|m: int| k <= m < len ==> #[trigger] self.items()[m] == s[m],
            decreases len - k,
        {
            let ghost before = self.items();
            match self.heap[k] {
                Some(e) => {
                    self.heap.set(k, Some(HeapEntry { task_id: e.task_id, effective_priority: e.effective_priority, seq: ranks[k] }));
                },
                None => {},
            }
            proof {
                assert(before[k as int] == s[k as int]);
                assert(self.items()[k as int] == compacted(s)[k as int]);
                assert forall|m: int| 0 <= m < len && m != k implies #[trigger] self.items()[m] == before[m] by {}
            }
            k = k + 1;
        }
        proof {
            assert(self.items() =~= compacted(s));
        }
        self.next_seq = len as u64;
    }

    /// Remove the top entry (highest priority, earliest inserted among
    /// those) and return its task ID; `None` when the queue is empty.
    #[verifier::spinoff_prover]
    #[verifier::rlimit(40)]
    pub fn pop_max(&mut self) -> (r: Option<u8>)
        requires
            old(self).wf(),
        ensures
            final(self).wf(),
            final(self).spec_next_seq() == old(self).spec_next_seq(),
            old(self).spec_len() == 0 ==> r is None && final(self).view() == old(self).view() && final(self).spec_len() == 0,
            old(self).spec_len() > 0 ==> {
                &&& is_top(old(self).view(), old(self).root())
                &&& r == Some(old(self).root().0)
                &&& final(self).spec_len() == old(self).spec_len() - 1
                &&& final(self).view() =~= old(self).view().remove(old(self).root())
            },
    {
        proof {
            self.lemma_root_is_top();
        }
        if self.len == 0 {
            return None;
        }
        let ghost s = self.items();
        let root = match self.heap[0] {
            Some(e) => e.task_id,
            None => return None,
        };
        let new_len = self.len - 1;
        self.len = new_len;
        let last = self.heap[new_len];
        self.heap.set(0, last);
        self.heap.set(new_len, None);
        proof {
            let n = s.len() as int;
            let u = s.update(0, s[n - 1]);
            let t = self.items();
            assert(t =~= u.subrange(0, n - 1));
            assert(u.subrange(0, n - 1) =~= u.remove(n - 1));
            assert(u.to_multiset() == s.to_multiset().insert(s[n - 1]).remove(s[0]));
            assert(u.remove(n - 1).to_multiset() == u.to_multiset().remove(u[n - 1]));
            if n > 1 {
                assert(u[n - 1] == s[n - 1]);
                assert(s.to_multiset().count(s[0]) > 0);
                assert(s.to_multiset().insert(s[n - 1]).remove(s[0]).remove(s[n - 1]) =~= s.to_multiset().remove(s[0]));
            } else {
                assert(u[0] == s[0]);
                assert(s.to_multiset().insert(s[0]).remove(s[0]).remove(s[0]) =~= s.to_multiset().remove(s[0]));
            }
            assert forall|i: int| 0 < i < t.len() && parent(i) != 0 implies key_ge(t[parent(i)], #[trigger] t[i]) by {
                assert(t[i] == s[i]);
                assert(t[parent(i)] == s[parent(i)]);
            }
            assert forall|i: int, j: int| 0 <= i < j < t.len() implies #[trigger] t[i].2 != #[trigger] t[j].2 by {
                assert(t[j] == s[j]);
                if i == 0 {
                    assert(t[0] == s[n - 1]);
                } else {
                    assert(t[i] == s[i]);
                }
            }
            assert forall|i: int| 0 <= i < t.len() implies #[trigger] t[i].2 < self.next_seq by {
                if i == 0 {
                    assert(t[0] == s[n - 1]);
                } else {
                    assert(t[i] == s[i]);
                }
            }
        }
        if new_len > 0 {
            self.sift_down(0);
        }
        Some(root)
    }

    /// Task ID of the top entry, without removing it.
    pub fn peek_max(&self) -> (r: Option<u8>)
        requires
            self.wf(),
            N > 0,
        ensures
            self.spec_len() == 0 ==> r is None,
            self.spec_len() > 0 ==> r == Some(self.root().0) && is_top(self.view(), self.root()),
    {
        proof {
            self.lemma_root_is_top();
        }
        match self.heap[0] {
            Some(e) => Some(e.task_id),
            None => None,
        }
    }

    /// Priority of the top entry (the highest priority), or 0 when empty.
    pub fn peek_max_priority(&self) -> (r: u8)
        requires
            self.wf(),
            N > 0,
        ensures
            self.spec_len() == 0 ==> r == 0,
            self.spec_len() > 0 ==> r == self.root().1 && is_top(self.view(), self.root()),
            forall|e: (u8, u8)| #[trigger] self.pairs().contains(e) ==> e.1 <= r,
            self.spec_len() > 0 ==> self.pairs().contains((self.root().0, r)),
    {
        proof {
            self.lemma_root_is_top();
            if self.spec_len() > 0 {
                assert(project(self.items())[0] == (self.root().0, self.root().1));
            }
        }
        match self.heap[0] {
            Some(e) => e.effective_priority,
            None => 0,
        }
    }

    /// Move the entry at `idx` up until its parent leaves no later.
    fn sift_up(&mut self, idx: usize)
        requires
            old(self).shaped(),
            idx < old(self).len,
            heap_except_up(old(self).items(), idx as int),
            stamps_ok(old(self).items(), old(self).next_seq),
        ensures
            final(self).wf(),
            final(self).len == old(self).len,
            final(self).next_seq == old(self).next_seq,
            final(self).items().to_multiset() == old(self).items().to_multiset(),
    {
        let mut idx = idx;
        while idx > 0
            invariant
                self.shaped(),
                self.len == old(self).len,
                self.next_seq == old(self).next_seq,
                idx < self.len,
                heap_except_up(self.items(), idx as int),
                stamps_ok(self.items(), self.next_seq),
                self.items().to_multiset() == old(self).items().to_multiset(),
            decreases idx,
        {
            let parent_idx = (idx - 1) / 2;
            if self.ahead(idx, parent_idx) {
                let ghost s = self.items();
                self.swap_entries(idx, parent_idx);
                proof {
                    lemma_swap(s, idx as int, parent_idx as int, self.next_seq);
                    let t = self.items();
                    let x = idx as int;
                    let p = parent_idx as int;
                    assert(t[p] == s[x]);
                    assert(t[x] == s[p]);
                    assert forall|i: int| 0 < i < t.len() && i != p implies key_ge(t[parent(i)], #[trigger] t[i]) by {
                        if i == x {
                        } else if parent(i) == x {
                            assert(t[i] == s[i]);
                        } else if parent(i) == p {
                            assert(t[i] == s[i]);
                        } else if i == p {
                        } else {
                            assert(t[i] == s[i]);
                            if parent(i) != p && parent(i) != x {
                                assert(t[parent(i)] == s[parent(i)]);
                            }
                        }
                    }
                    if p > 0 {
                        assert forall|c: int| 0 < c < t.len() && parent(c) == p implies key_ge(t[parent(p)], #[trigger] t[c]) by {
                            assert(t[parent(p)] == s[parent(p)]);
                            if c == x {
                                assert(key_ge(s[parent(p)], s[p]));
                            } else {
                                assert(t[c] == s[c]);
                                assert(key_ge(s[parent(p)], s[p]));
                            }
                        }
                    }
                }
                idx = parent_idx;
            } else {
                proof {
                    let s = self.items();
                    assert forall|i: int| 0 < i < s.len() implies key_ge(s[parent(i)], #[trigger] s[i]) by {}
                }
                return;
            }
        }
    }

    /// Move the entry at `idx` down until no child leaves earlier.
    #[verifier::rlimit(80)]
    fn sift_down(&mut self, idx: usize)
        requires
            old(self).shaped(),
            idx < old(self).len,
            heap_except_down(old(self).items(), idx as int),
            stamps_ok(old(self).items(), old(self).next_seq),
        ensures
            final(self).wf(),
            final(self).len == old(self).len,
            final(self).next_seq == old(self).next_seq,
            final(self).items().to_multiset() == old(self).items().to_multiset(),
    {
        let mut idx = idx;
        loop
            invariant
                self.shaped(),
                self.len == old(self).len,
                self.next_seq == old(self).next_seq,
                idx < self.len,
                heap_except_down(self.items(), idx as int),
                stamps_ok(self.items(), self.next_seq),
                self.items().to_multiset() == old(self).items().to_multiset(),
            decreases self.len - idx,
        {
            let left = 2 * idx + 1;
            let right = 2 * idx + 2;
            let mut largest = idx;
            if left < self.len && self.ahead(left, largest) {
                largest = left;
            }
            if right < self.len && self.ahead(right, largest) {
                largest = right;
            }
            if largest == idx {
                proof {
                    let s = self.items();
                    assert forall|i: int| 0 < i < s.len() implies key_ge(s[parent(i)], #[trigger] s[i]) by {
                        if parent(i) == idx {
                            assert(i == left || i == right);
                        }
                    }
                }
                return;
            }
            let ghost s = self.items();
            self.swap_entries(idx, largest);
            proof {
                lemma_swap(s, idx as int, largest as int, self.next_seq);
                let t = self.items();
                let x = idx as int;
                let l = largest as int;
                assert(parent(l) == x);
                assert(t[x] == s[l]);
                assert(t[l] == s[x]);
                assert forall|i: int| 0 < i < t.len() && parent(i) != l implies key_ge(t[parent(i)], #[trigger] t[i]) by {
                    if i == l {
                    } else if i == x {
                        assert(t[parent(i)] == s[parent(i)]);
                    } else if parent(i) == x {
                        assert(i == left || i == right);
                        assert(t[i] == s[i]);
                    } else {
                        assert(t[i] == s[i]);
                        assert(t[parent(i)] == s[parent(i)]);
                    }
                }
                assert forall|c: int| 0 < c < t.len() && parent(c) == l implies key_ge(t[parent(l)], #[trigger] t[c]) by {
                    assert(t[c] == s[c]);
                }
            }
            idx = largest;
        }
    }
}

/// The root of a one-entry queue is that entry: inserting into an empty
/// queue and popping gives the inserted task back.
pub proof fn lemma_single_entry_root<const N: usize>(q: PriorityQueue<N>, e: QueueEntry)
    requires
        q.wf(),
        q.view() == Multiset::<QueueEntry>::empty().insert(e),
    ensures
        q.root() == e,
        q.spec_len() == 1,
{
    q.lemma_root_is_top();
    assert(q.view().len() == 1);
    assert(q.view().contains(q.root()));
}

/// Successive pops come out in non-increasing priority order, and within a
/// priority in increasing stamp order: after popping the root, the new root
/// leaves no earlier than the popped one.
pub proof fn lemma_pop_order<const N: usize>(before: PriorityQueue<N>, after: PriorityQueue<N>)
    requires
        before.wf(),
        after.wf(),
        before.spec_len() > 0,
        after.spec_len() > 0,
        after.view() == before.view().remove(before.root()),
    ensures
        key_before(before.root(), after.root()),
        after.root().1 <= before.root().1,
{
    before.lemma_root_is_top();
    after.lemma_root_is_top();
    assert(after.view().contains(after.root()));
    assert(before.view().contains(after.root()));
    if after.root() == before.root() {
        // The popped entry had a single copy: stamps are distinct.
        assert(before.view().count(before.root()) >= 2);
        lemma_view_count_le_one(before, before.root());
    }
}

/// Each entry occurs at most once in a well-formed queue.
proof fn lemma_view_count_le_one<const N: usize>(q: PriorityQueue<N>, e: QueueEntry)
    requires
        q.wf(),
    ensures
        q.view().count(e) <= 1,
{
    let s = q.items();
    if q.view().count(e) > 1 {
        assert(s.contains(e));
        let i = choose|i: int| 0 <= i < s.len() && s[i] == e;
        let r = s.remove(i);
        assert(r.to_multiset() == s.to_multiset().remove(s[i]));
        assert(r.to_multiset().count(e) > 0);
        assert(r.contains(e));
        let j = choose|j: int| 0 <= j < r.len() && r[j] == e;
        let jj = if j < i { j } else { j + 1 };
        assert(s[jj] == e);
        if i < jj {
            assert(s[i].2 != s[jj].2);
        } else {
            assert(s[jj].2 != s[i].2);
        }
    }
}

} // verus!
