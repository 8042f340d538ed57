//! Boot-time capability conflict detector.
//!
//! Scans the registry slot by slot, and each task's exclusive mask bit by bit,
//! recording which task claimed each peripheral.  The first peripheral found
//! claimed twice is reported; the kernel then halts before any task runs.
use vstd::prelude::*;
use crate::bits::{has_bit, lemma_and_nonzero_iff_share_bit, share_bit};
use crate::config::MAX_PERIPHERALS;
use crate::memory::task::TaskDescriptor;

verus! {

/// Why the exclusive capability declarations were rejected.
#[derive(Clone, Copy, PartialEq, Eq, Debug, Structural)]
pub enum CapabilityError {
    /// Peripheral `cap_id` is claimed exclusively by two tasks.
    Conflict { cap_id: usize, first_task: u8, second_task: u8 },
    /// A mask bit names a peripheral at or beyond `MAX_PERIPHERALS`.
    OutOfRange { cap_id: usize, task_id: u8 },
}

/// The exclusive mask of the task in slot `a`.
pub open spec fn excl_at(s: Seq<Option<TaskDescriptor>>, a: int) -> u32 {
    s[a]->0.exclusive_cap_mask
}

/// No two present tasks among the first `j` slots share an exclusive bit.
pub open spec fn conflict_free_prefix(s: Seq<Option<TaskDescriptor>>, j: int) -> bool {
    forall|a: int, b: int|
        0 <= a < b < j && s[a] is Some && s[b] is Some ==> #[trigger] excl_at(s, a) & #[trigger] excl_at(s, b) == 0
}

/// Some present task among the first `j` slots holds peripheral `c` exclusively.
pub open spec fn claimed(s: Seq<Option<TaskDescriptor>>, j: int, c: int) -> bool {
    exists|a: int| 0 <= a < j && s[a] is Some && #[trigger] has_bit(excl_at(s, a), c)
}

/// A present task with identifier `id` among the first `j` slots holds `c`.
pub open spec fn claimed_by(s: Seq<Option<TaskDescriptor>>, j: int, c: int, id: u8) -> bool {
    exists|a: int| 0 <= a < j && s[a] is Some && #[trigger] has_bit(excl_at(s, a), c) && s[a]->0.id == id
}

/// Slot `j` holds the first conflict of the scan, on peripheral `c`: the slots
/// before it are conflict-free, and `c` is the lowest bit of the task in slot
/// `j` that an earlier task already holds.
pub open spec fn first_conflict(s: Seq<Option<TaskDescriptor>>, j: int, c: int) -> bool {
    &&& 0 <= j < s.len()
    &&& conflict_free_prefix(s, j)
    &&& s[j] is Some
    &&& has_bit(excl_at(s, j), c)
    &&& claimed(s, j, c)
    &&& forall|c2: int| 0 <= c2 < c ==> !(#[trigger] has_bit(excl_at(s, j), c2) && claimed(s, j, c2))
}

/// `(cap_id, first_task, second_task)` describes the first conflict of the
/// scan: peripheral `cap_id`, claimed earlier by `first_task` and again by the
/// task `second_task` in the first conflicting slot.
pub open spec fn reports_first_conflict(s: Seq<Option<TaskDescriptor>>, cap_id: usize, first_task: u8, second_task: u8) -> bool {
    exists|j: int|
        #[trigger] first_conflict(s, j, cap_id as int)
            && second_task == s[j]->0.id
            && claimed_by(s, j, cap_id as int, first_task)
}

/// Check the registry for exclusive capability conflicts.
///
/// Succeeds exactly when no two present tasks share a bit of their
/// `exclusive_cap_mask`; shared and required masks play no part.  Otherwise
/// reports the first conflict in slot order, then bit order.
pub fn check_capability_conflicts(registry: &[Option<TaskDescriptor>]) -> (r: Result<(), CapabilityError>)
    ensures
        r is Ok <==> conflict_free_prefix(registry@, registry@.len() as int),
        r matches Err(CapabilityError::Conflict { cap_id, first_task, second_task })
            ==> reports_first_conflict(registry@, cap_id, first_task, second_task),
        !(r matches Err(CapabilityError::OutOfRange { .. })),
{
    let ghost s = registry@;
    // claimed_ids[c] = the task that holds peripheral c, if any.
    let mut claimed_ids: Vec<Option<u8>> = Vec::new();
    let mut k: usize = 0;
    while k < MAX_PERIPHERALS
        invariant
            k <= MAX_PERIPHERALS,
            claimed_ids@.len() == k,
            forall|c: int| 0 <= c < k ==> claimed_ids@[c] is None,
        decreases MAX_PERIPHERALS - k,
    {
        claimed_ids.push(None);
        k = k + 1;
    }

    let mut i: usize = 0;
    while i < registry.len()
        invariant
            s == registry@,
            i <= s.len(),
            claimed_ids@.len() == MAX_PERIPHERALS,
            conflict_free_prefix(s, i as int),
            forall|c: int| 0 <= c < 32 ==> (#[trigger] claimed_ids@[c] is Some <==> claimed(s, i as int, c)),
            forall|c: int| 0 <= c < 32 && claimed_ids@[c] is Some ==> claimed_by(s, i as int, c, #[trigger] claimed_ids@[c]->0),
        decreases s.len() - i,
    {
        match &registry[i] {
            None => {
                assert forall|c: int| 0 <= c < 32 implies (claimed(s, i as int, c) <==> claimed(s, i + 1, c)) by {
                    if claimed(s, i + 1, c) {
                        let a = choose|a: int| 0 <= a < i + 1 && s[a] is Some && #[trigger] has_bit(excl_at(s, a), c);
                        assert(a < i);
                    }
                }
                assert forall|c: int| 0 <= c < 32 && claimed_ids@[c] is Some implies claimed_by(s, i + 1, c, #[trigger] claimed_ids@[c]->0) by {
                    let a = choose|a: int| 0 <= a < i && s[a] is Some && #[trigger] has_bit(excl_at(s, a), c) && s[a]->0.id == claimed_ids@[c]->0;
                    assert(0 <= a < i + 1);
                }
            },
            Some(task) => {
                let mask = task.exclusive_cap_mask;
                let id = task.id;
                assert(mask == excl_at(s, i as int));
                let mut cap_id: usize = 0;
                while cap_id < 32
                    invariant
                        s == registry@,
                        i < s.len(),
                        s[i as int] is Some,
                        mask == excl_at(s, i as int),
                        id == s[i as int]->0.id,
                        cap_id <= 32,
                        claimed_ids@.len() == MAX_PERIPHERALS,
                        conflict_free_prefix(s, i as int),
                        forall|c: int| cap_id <= c < 32 ==> (#[trigger] claimed_ids@[c] is Some <==> claimed(s, i as int, c)),
                        forall|c: int| cap_id <= c < 32 && claimed_ids@[c] is Some ==> claimed_by(s, i as int, c, #[trigger] claimed_ids@[c]->0),
                        forall|c: int| 0 <= c < cap_id ==> (#[trigger] claimed_ids@[c] is Some <==> claimed(s, i + 1, c)),
                        forall|c: int| 0 <= c < cap_id && claimed_ids@[c] is Some ==> claimed_by(s, i + 1, c, #[trigger] claimed_ids@[c]->0),
                        forall|c: int| 0 <= c < cap_id ==> !(#[trigger] has_bit(mask, c) && claimed(s, i as int, c)),
                    decreases 32 - cap_id,
                {
                    if mask & (1u32 << (cap_id as u32)) == 0 {
                        assert(!has_bit(mask, cap_id as int));
                        let ghost c = cap_id as int;
                        assert(claimed(s, i as int, c) <==> claimed(s, i + 1, c)) by {
                            if claimed(s, i + 1, c) {
                                let a = choose|a: int| 0 <= a < i + 1 && s[a] is Some && #[trigger] has_bit(excl_at(s, a), c);
                                assert(a < i);
                            }
                        }
                        proof {
                            if claimed_ids@[c] is Some {
                                let a = choose|a: int| 0 <= a < i && s[a] is Some && #[trigger] has_bit(excl_at(s, a), c) && s[a]->0.id == claimed_ids@[c]->0;
                                assert(0 <= a < i + 1);
                            }
                        }
                        cap_id = cap_id + 1;
                        continue;
                    }
                    assert(has_bit(mask, cap_id as int));
                    if cap_id >= MAX_PERIPHERALS {
                        return Err(CapabilityError::OutOfRange { cap_id, task_id: id });
                    }
                    if let Some(prior_id) = claimed_ids[cap_id] {
                        assert(claimed_ids@[cap_id as int] == Some(prior_id));
                        assert(claimed_by(s, i as int, cap_id as int, prior_id));
                        assert(first_conflict(s, i as int, cap_id as int));
                        proof {
                            let c = cap_id as int;
                            let a = choose|a: int| 0 <= a < i && s[a] is Some && #[trigger] has_bit(excl_at(s, a), c);
                            lemma_and_nonzero_iff_share_bit(excl_at(s, a), excl_at(s, i as int));
                            assert(excl_at(s, a) & excl_at(s, i as int) != 0);
                            assert(!conflict_free_prefix(s, s.len() as int));
                        }
                        assert(id == registry@[i as int]->0.id);
                        assert(reports_first_conflict(registry@, cap_id, prior_id, id));
                        return Err(CapabilityError::Conflict { cap_id, first_task: prior_id, second_task: id });
                    }
                    claimed_ids.set(cap_id, Some(id));
                    assert(has_bit(excl_at(s, i as int), cap_id as int));
                    assert(claimed_by(s, i + 1, cap_id as int, id));
                    cap_id = cap_id + 1;
                }
                // The task's mask is disjoint from every earlier task's mask.
                assert forall|a: int, b: int|
                    0 <= a < b < i + 1 && s[a] is Some && s[b] is Some implies #[trigger] excl_at(s, a) & #[trigger] excl_at(s, b) == 0 by {
                    if b == i {
                        lemma_and_nonzero_iff_share_bit(excl_at(s, a), excl_at(s, b));
                        if share_bit(excl_at(s, a), excl_at(s, b)) {
                            let c = choose|c: int| 0 <= c < 32 && #[trigger] has_bit(excl_at(s, a), c) && has_bit(excl_at(s, b), c);
                            assert(claimed(s, i as int, c));
                        }
                    }
                }
            },
        }
        i = i + 1;
    }
    Ok(())
}

} // verus!

verus! {

/// Once the check passes, every peripheral has at most one exclusive holder:
/// two distinct present slots never both hold the same peripheral.
pub proof fn lemma_unique_exclusive_holder(s: Seq<Option<TaskDescriptor>>, a: int, b: int, c: int)
    requires
        conflict_free_prefix(s, s.len() as int),
        0 <= a < s.len(),
        0 <= b < s.len(),
        a != b,
        s[a] is Some,
        s[b] is Some,
        has_bit(excl_at(s, a), c),
    ensures
        !has_bit(excl_at(s, b), c),
{
    lemma_and_nonzero_iff_share_bit(excl_at(s, a), excl_at(s, b));
    lemma_and_nonzero_iff_share_bit(excl_at(s, b), excl_at(s, a));
    if has_bit(excl_at(s, b), c) {
        assert(share_bit(excl_at(s, a), excl_at(s, b)));
        assert(share_bit(excl_at(s, b), excl_at(s, a)));
        if a < b {
            assert(excl_at(s, a) & excl_at(s, b) == 0);
        } else {
            assert(excl_at(s, b) & excl_at(s, a) == 0);
        }
    }
}

} // verus!
