//! Fixed-capacity single-producer / single-consumer message channel.
//!
//! A `Channel<T, CAP>` is a ring buffer of `CAP` slots: the queued messages
//! occupy `len` consecutive slots starting at `head` (wrapping around), the
//! other slots are empty.  Sending appends at the back, receiving takes the
//! oldest message from the front.
use vstd::prelude::*;

verus! {

/// A fixed-capacity FIFO ring buffer of `T` with `CAP` slots.
pub struct Channel<T, const CAP: usize> {
    buffer: Vec<Option<T>>,
    head: usize,
    len: usize,
}

impl<T, const CAP: usize> Channel<T, CAP> {
    /// Buffer slot holding the `k`-th queued message.
    spec fn slot(&self, k: int) -> int {
        (self.head + k) % (CAP as int)
    }

    /// The ring holds exactly the `len` messages from `head` on.
    pub closed spec fn wf(&self) -> bool {
        &&& CAP > 0
        &&& self.buffer@.len() == CAP
        &&& self.head < CAP
        &&& self.len <= CAP
        &&& forall|i: int| 0 <= i < CAP ==> (#[trigger] self.buffer@[i] is Some <==> exists|k: int| 0 <= k < self.len && self.slot(k) == i)
    }

    /// The queued messages, oldest first.
    pub closed spec fn view(&self) -> Seq<T> {
        Seq::new(self.len as nat, |k: int| self.buffer@[self.slot(k)]->0)
    }

    /// A channel never holds more than `CAP` messages.
    pub proof fn lemma_len_bounded(&self)
        requires
            self.wf(),
        ensures
            self@.len() <= CAP,
    {
    }

    /// Create an empty channel.
    pub fn new() -> (c: Self)
        requires
            CAP > 0,
        ensures
            c.wf(),
            c@ == Seq::<T>::empty(),
    {
        let mut buffer: Vec<Option<T>> = Vec::new();
        let mut i: usize = 0;
        while i < CAP
            invariant
                i <= CAP,
                buffer@.len() == i,
                forall|k: int| 0 <= k < i ==> #[trigger] buffer@[k] is None,
            decreases CAP - i,
        {
            buffer.push(None);
            i = i + 1;
        }
        let c = Channel { buffer, head: 0, len: 0 };
        assert(c@ =~= Seq::<T>::empty());
        c
    }

    /// Total number of slots.
    pub fn capacity(&self) -> (r: usize)
        ensures
            r == CAP,
    {
        CAP
    }

    /// Number of queued messages.
    pub fn len(&self) -> (r: usize)
        requires
            self.wf(),
        ensures
            r == self@.len(),
            self@.len() <= CAP,
    {
        self.len
    }

    /// Whether no message is queued.
    pub fn is_empty(&self) -> (r: bool)
        requires
            self.wf(),
        ensures
            r == (self@.len() == 0),
            self@.len() <= CAP,
    {
        self.len() == 0
    }

    /// Whether no further message fits.
    pub fn is_full(&self) -> (r: bool)
        requires
            self.wf(),
        ensures
            r == (self@.len() == CAP),
            self@.len() <= CAP,
    {
        self.len() == CAP
    }

    /// Enqueue `value` at the back; when the channel is full, hand `value`
    /// back unchanged and leave the channel as it was.
    pub fn try_send(&mut self, value: T) -> (r: Result<(), T>)
        requires
            old(self).wf(),
        ensures
            final(self).wf(),
            old(self)@.len() == CAP ==> r == Err::<(), T>(value) && final(self)@ == old(self)@,
            old(self)@.len() < CAP ==> r is Ok && final(self)@ == old(self)@.push(value),
    {
        let len = self.len;
        if len == CAP {
            return Err(value);
        }
        let head = self.head;
        // (head + len) % CAP without overflow: head < CAP and len < CAP.
        let slot = if head < CAP - len { head + len } else { head - (CAP - len) };
        let ghost old_view = self@;
        proof {
            lemma_ring_slot(head as int, len as int, CAP as int);
            assert forall|k: int| 0 <= k < len implies self.slot(k) != slot by {
                lemma_ring_slot(head as int, k, CAP as int);
            }
        }
        assert(slot == self.slot(len as int));
        self.buffer.set(slot, Some(value));
        self.len = len + 1;
        proof {
            assert forall|i: int| 0 <= i < CAP implies (#[trigger] self.buffer@[i] is Some <==> exists|k: int| 0 <= k < self.len && self.slot(k) == i) by {
                if i == slot {
                    assert(self.slot(len as int) == i);
                } else if self.buffer@[i] is Some {
                    let k = choose|k: int| 0 <= k < len && old(self).slot(k) == i;
                    assert(self.slot(k) == i);
                } else {
                    if exists|k: int| 0 <= k < self.len && self.slot(k) == i {
                        let k = choose|k: int| 0 <= k < self.len && self.slot(k) == i;
                        assert(k != len);
                        assert(old(self).slot(k) == i);
                    }
                }
            }
            assert forall|k: int| 0 <= k < len implies self.buffer@[self.slot(k)] == old(self).buffer@[old(self).slot(k)] by {
                lemma_ring_slot(head as int, k, CAP as int);
            }
            assert(self@ =~= old_view.push(value));
        }
        Ok(())
    }

    /// Dequeue the oldest message; `None` when the channel is empty.
    pub fn try_receive(&mut self) -> (r: Option<T>)
        requires
            old(self).wf(),
        ensures
            final(self).wf(),
            old(self)@.len() == 0 ==> r is None && final(self)@ == old(self)@,
            old(self)@.len() > 0 ==> r == Some(old(self)@[0]) && final(self)@ == old(self)@.drop_first(),
    {
        let len = self.len;
        if len == 0 {
            return None;
        }
        let head = self.head;
        let ghost old_view = self@;
        proof {
            lemma_ring_slot(head as int, 0, CAP as int);
        }
        assert(self.slot(0) == head);
        assert(self.buffer@[head as int] is Some);
        let value = self.buffer[head].take();
        let new_head = if head + 1 == CAP { 0 } else { head + 1 };
        self.head = new_head;
        self.len = len - 1;
        proof {
            assert forall|k: int| 0 <= k < len - 1 implies #[trigger] self.slot(k) == old(self).slot(k + 1) by {
                lemma_ring_shift(head as int, k, CAP as int);
            }
            assert forall|k: int| 0 < k < len implies old(self).slot(k) != head by {
                lemma_ring_slot(head as int, k, CAP as int);
            }
            assert forall|i: int| 0 <= i < CAP implies (#[trigger] self.buffer@[i] is Some <==> exists|k: int| 0 <= k < self.len && self.slot(k) == i) by {
                if i == head {
                    if exists|k: int| 0 <= k < self.len && self.slot(k) == i {
                        let k = choose|k: int| 0 <= k < self.len && self.slot(k) == i;
                        assert(old(self).slot(k + 1) == i);
                    }
                } else if self.buffer@[i] is Some {
                    let k = choose|k: int| 0 <= k < len && old(self).slot(k) == i;
                    assert(k != 0);
                    assert(self.slot(k - 1) == i);
                } else {
                    if exists|k: int| 0 <= k < self.len && self.slot(k) == i {
                        let k = choose|k: int| 0 <= k < self.len && self.slot(k) == i;
                        assert(old(self).slot(k + 1) == i);
                    }
                }
            }
            assert forall|k: int| 0 <= k < len - 1 implies self.buffer@[self.slot(k)] == old(self).buffer@[old(self).slot(k + 1)] by {
                assert(self.slot(k) == old(self).slot(k + 1));
            }
            assert(self@ =~= old_view.drop_first());
        }
        value
    }
}

/// The ring slot of queue position `j`: `head + j`, wrapped once.
proof fn lemma_ring_slot(head: int, j: int, cap: int)
    requires
        0 <= head < cap,
        0 <= j < cap,
    ensures
        (head + j) % cap == if head + j < cap { head + j } else { head + j - cap },
{
    assert((head + j) % cap == if head + j < cap { head + j } else { head + j - cap }) by (nonlinear_arith)
        requires 0 <= head < cap, 0 <= j < cap;
}

/// Advancing the head by one shifts every queue position by one.
proof fn lemma_ring_shift(head: int, k: int, cap: int)
    requires
        0 <= head < cap,
        0 <= k < cap - 1,
    ensures
        ((if head + 1 == cap { 0 } else { head + 1 }) + k) % cap == (head + k + 1) % cap,
{
    let nh = if head + 1 == cap { 0 } else { head + 1 };
    assert((nh + k) % cap == (head + k + 1) % cap) by (nonlinear_arith)
        requires 0 <= head < cap, 0 <= k < cap - 1, nh == if head + 1 == cap { 0 } else { head + 1 };
}

/// Messages leave a channel in the order they were sent: after a successful
/// send of `v` followed by a receive, an empty channel hands back `v` and is
/// empty again, and a non-empty one hands back its oldest message and keeps
/// `v` last.
pub proof fn lemma_send_then_receive<T, const CAP: usize>(
    c0: Channel<T, CAP>,
    c1: Channel<T, CAP>,
    c2: Channel<T, CAP>,
    v: T,
    received: T,
)
    requires
        c1@ == c0@.push(v),
        received == c1@[0],
        c2@ == c1@.drop_first(),
    ensures
        c0@.len() == 0 ==> received == v && c2@ == c0@,
        c0@.len() > 0 ==> received == c0@[0] && c2@ == c0@.drop_first().push(v),
{
    if c0@.len() == 0 {
        assert(c2@ =~= c0@);
    } else {
        assert(c2@ =~= c0@.drop_first().push(v));
    }
}

/// Zero-sized token granting permission to send on channel `ID`.
pub struct SenderCapability<const ID: usize>;

/// Zero-sized token granting permission to receive from channel `ID`.
pub struct ReceiverCapability<const ID: usize>;

} // verus!
