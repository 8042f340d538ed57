//! Machine-mode trap state and the trap dispatch decision.
use vstd::prelude::*;

verus! {

/// Register state saved on every trap: the 32 general-purpose registers and
/// the four trap CSRs.
pub struct TrapFrame {
    /// General-purpose registers x0–x31 (x0 kept for index uniformity).
    pub regs: [usize; 32],
    /// Address the hart returns to on `mret`.
    pub mepc: usize,
    /// Machine status register snapshot.
    pub mstatus: usize,
    /// Trap cause: bit 31 set for an interrupt, the rest the cause code.
    pub mcause: usize,
    /// Trap value (faulting address for address exceptions).
    pub mtval: usize,
}

/// What the trap handler decided for one trap.
#[derive(Clone, Copy, PartialEq, Eq, Debug, Structural)]
pub enum TrapAction {
    /// Machine timer interrupt: run the timer service routine.
    TimerInterrupt,
    /// Any other interrupt: report its cause.
    UnhandledInterrupt { mcause: usize },
    /// Synchronous exception: report it; the frame's `mepc` now points past
    /// the faulting instruction.
    Exception { mcause: usize, mepc: usize, mtval: usize },
}

/// Bit 31 of `mcause` marks an interrupt.
pub open spec fn spec_is_interrupt(mcause: usize) -> bool {
    (mcause >> 31usize) & 1 == 1
}

/// The cause code: `mcause` with bit 31 cleared.
pub open spec fn spec_cause_code(mcause: usize) -> usize {
    mcause & !(1usize << 31usize)
}

/// Length in bytes of the instruction whose first 16-bit parcel is `parcel`:
/// 4 for a standard instruction (the two low bits both set), 2 for a
/// compressed one.
pub open spec fn spec_instr_len(parcel: u16) -> usize {
    if parcel % 4 == 3 { 4 } else { 2 }
}

/// Machine-mode trap dispatch.
///
/// Interrupts leave the frame unchanged: cause code 7 is the machine timer,
/// any other is unhandled.  A synchronous exception is reported and the
/// frame's `mepc` is advanced past the faulting instruction, whose first
/// 16-bit parcel `instr_parcel` gives its length.
pub fn trap_handler(frame: &mut TrapFrame, instr_parcel: u16) -> (r: TrapAction)
    requires
        spec_is_interrupt(old(frame).mcause) || old(frame).mepc + spec_instr_len(instr_parcel) <= usize::MAX,
    ensures
        spec_is_interrupt(old(frame).mcause) ==> {
            &&& *final(frame) == *old(frame)
            &&& r == if spec_cause_code(old(frame).mcause) == 7 {
                TrapAction::TimerInterrupt
            } else {
                TrapAction::UnhandledInterrupt { mcause: old(frame).mcause }
            }
        },
        !spec_is_interrupt(old(frame).mcause) ==> {
            &&& r == (TrapAction::Exception { mcause: old(frame).mcause, mepc: old(frame).mepc, mtval: old(frame).mtval })
            &&& *final(frame) == (TrapFrame { mepc: (old(frame).mepc + spec_instr_len(instr_parcel)) as usize, ..*old(frame) })
        },
{
    let is_interrupt = (frame.mcause >> 31usize) & 1 == 1;
    let cause_code = frame.mcause & !(1usize << 31usize);

    if is_interrupt {
        if cause_code == 7 {
            TrapAction::TimerInterrupt
        } else {
            TrapAction::UnhandledInterrupt { mcause: frame.mcause }
        }
    } else {
        let action = TrapAction::Exception { mcause: frame.mcause, mepc: frame.mepc, mtval: frame.mtval };
        // Both low bits of the first parcel set: a 32-bit instruction.
        assert((instr_parcel & 0x3 == 0x3) == (instr_parcel % 4 == 3)) by (bit_vector);
        let instr_len: usize = if (instr_parcel & 0x3) == 0x3 { 4 } else { 2 };
        frame.mepc = frame.mepc + instr_len;
        action
    }
}


/// An exception resumes right after the faulting instruction: `mepc` moves
/// by 4 exactly when both low bits of the instruction's first parcel are set
/// (a standard 32-bit instruction) and by 2 for every other parcel (a
/// compressed instruction); nothing else in the frame changes.
pub proof fn lemma_exception_skips_instruction(before: TrapFrame, after: TrapFrame, instr_parcel: u16, r: TrapAction)
    requires
        !spec_is_interrupt(before.mcause),
        r == (TrapAction::Exception { mcause: before.mcause, mepc: before.mepc, mtval: before.mtval }),
        after == (TrapFrame { mepc: (before.mepc + spec_instr_len(instr_parcel)) as usize, ..before }),
        before.mepc + spec_instr_len(instr_parcel) <= usize::MAX,
    ensures
        instr_parcel & 3 == 3 ==> after.mepc == before.mepc + 4,
        instr_parcel & 3 != 3 ==> after.mepc == before.mepc + 2,
        after.regs == before.regs,
        after.mstatus == before.mstatus,
        after.mcause == before.mcause,
        after.mtval == before.mtval,
{
    assert((instr_parcel & 3 == 3) == (instr_parcel % 4 == 3)) by (bit_vector);
}


/// Interrupts are told from exceptions by bit 31 of `mcause`, and the cause
/// code is `mcause` without that bit.
pub proof fn lemma_mcause_fields(mcause: usize)
    ensures
        spec_is_interrupt(mcause) <==> (mcause / 0x8000_0000) % 2 == 1,
        spec_is_interrupt(mcause) ==> spec_cause_code(mcause) == mcause - 0x8000_0000,
        !spec_is_interrupt(mcause) ==> spec_cause_code(mcause) == mcause,
{
    assert(((mcause >> 31usize) & 1 == 1) <==> (mcause / 0x8000_0000) % 2 == 1) by (bit_vector);
    assert(((mcause >> 31usize) & 1 == 1) ==> (mcause & !(1usize << 31usize)) == mcause - 0x8000_0000) by (bit_vector);
    assert(((mcause >> 31usize) & 1 != 1) ==> (mcause & !(1usize << 31usize)) == mcause) by (bit_vector);
}

} // verus!
