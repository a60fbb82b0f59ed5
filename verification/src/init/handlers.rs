//! The decisions of the two traps: the context switch and the system call.
//! The handlers themselves, which read and write registers, call these and
//! do as the result says.

use vstd::prelude::*;
use crate::memory_management::heap::Heap;
use crate::proc::model::{owns, TableModel};
use crate::proc::policy::{schedule, Handoff, SchedError};
use crate::proc::table::SystemProcess;

verus! {

/// Address of the interrupt control and state register.
pub const ICSR_ADDR: u32 = 0xE000_ED04;

/// The bit of that register that makes the context-switch trap pending.
pub const PENDSVSET: u32 = 0x1000_0000;

/// The value that returns from a trap to thread mode on the process stack.
pub const EXC_RETURN_THREAD_PSP: u32 = 0xFFFF_FFFD;

/// Bytes that the registers r4 to r11 take on a stack.
pub const SAVED_REGISTERS_SIZE: u32 = 32;

/// Operation code of the system call that ends the calling process.
pub const SYS_EXIT: u32 = 0;

/// Operation code of the system call that prints its first argument.
pub const SYS_PRINT: u32 = 1;

/// The register to write and the value to write to make the context-switch
/// trap pending.
pub fn trigger_pendsv() -> (write: (u32, u32))
    ensures
        write == (0xE000_ED04u32, 0x1000_0000u32),
{
    (ICSR_ADDR, PENDSVSET)
}

/// The stack pointer `sp` after the saved registers were pushed, as the
/// processor counts: modulo two to the 32.
pub open spec fn pushed_spec(sp: u32) -> u32 {
    if sp >= 32 {
        (sp - 32) as u32
    } else {
        (sp + 0x1_0000_0000 - 32) as u32
    }
}

/// The stack pointer `sp` after the saved registers were popped, as the
/// processor counts: modulo two to the 32.
pub open spec fn popped_spec(sp: u32) -> u32 {
    if sp <= 0xFFFF_FFFF - 32 {
        (sp + 32) as u32
    } else {
        (sp + 32 - 0x1_0000_0000) as u32
    }
}

/// The stack pointer `sp` after the saved registers were pushed.
pub fn pushed(sp: u32) -> (lower: u32)
    ensures
        lower == pushed_spec(sp),
{
    if sp >= SAVED_REGISTERS_SIZE {
        sp - SAVED_REGISTERS_SIZE
    } else {
        sp + (u32::MAX - SAVED_REGISTERS_SIZE + 1)
    }
}

/// The stack pointer `sp` after the saved registers were popped.
pub fn popped(sp: u32) -> (higher: u32)
    ensures
        higher == popped_spec(sp),
{
    if sp <= u32::MAX - SAVED_REGISTERS_SIZE {
        sp + SAVED_REGISTERS_SIZE
    } else {
        sp - (u32::MAX - SAVED_REGISTERS_SIZE + 1)
    }
}

/// Popping undoes pushing.
pub proof fn lemma_push_pop(sp: u32)
    ensures
        popped_spec(pushed_spec(sp)) == sp,
        pushed_spec(popped_spec(sp)) == sp,
{
}

/// First step of the context switch. Where a process is active, that is
/// where the current stack pointer of the handoff is not zero, its saved
/// registers go on its own stack below `psp`, its stack pointer at trap
/// entry: the result is the address to store them at, which is also the new
/// current stack pointer of the handoff. Where none is active nothing is
/// saved.
pub fn save_current(handoff: &mut Handoff, psp: u32) -> (save_at: Option<u32>)
    ensures
        save_at == (if old(handoff).current_sp != 0 {
            Some(pushed_spec(psp))
        } else {
            None
        }),
        *final(handoff) == (if old(handoff).current_sp != 0 {
            Handoff { current_sp: pushed_spec(psp), next_sp: old(handoff).next_sp }
        } else {
            *old(handoff)
        }),
{
    if handoff.current_sp != 0 {
        let sp = pushed(psp);
        handoff.current_sp = sp;
        Some(sp)
    } else {
        None
    }
}

/// What the context-switch trap does after the scheduling pass.
#[derive(Clone, Copy, Debug, PartialEq, Eq, Structural)]
pub enum ContextSwitch {
    /// Load the saved registers from `restore_from`, set the process stack
    /// pointer to `psp`, and return from the trap.
    Resume { restore_from: u32, psp: u32 },
    /// Return from the trap with the registers as they are.
    Return,
    /// Stop: the kernel cannot go on.
    Halt(SchedError),
}

/// What the handoff says to do once a process was chosen.
pub open spec fn resume_spec(next_sp: u32) -> ContextSwitch {
    if next_sp != 0 {
        ContextSwitch::Resume { restore_from: next_sp, psp: popped_spec(next_sp) }
    } else {
        ContextSwitch::Return
    }
}

/// Second and third step of the context switch, with interrupts masked by
/// the caller: one scheduling pass, and then, where the next stack pointer
/// of the handoff is not zero, the order to resume from it: the stack
/// pointer behind the saved registers becomes the current one of the
/// handoff. Where the pass fails the order is to halt.
pub fn switch_to_next(table: &mut SystemProcess, heap: &mut Heap, handoff: &mut Handoff) -> (order:
    ContextSwitch)
    requires
        old(table).wf(),
        old(heap).wf(),
        owns(old(table)@.procs, old(heap)@),
    ensures
        final(table).wf(),
        final(heap).wf(),
        owns(final(table)@.procs, final(heap)@),
        final(table)@ == (TableModel {
            procs: schedule(old(table)@, old(heap)@, *old(handoff)).procs,
            last_proc_id: old(table)@.last_proc_id,
            current_process_id: schedule(old(table)@, old(heap)@, *old(handoff)).current_process_id,
        }),
        final(heap)@ == schedule(old(table)@, old(heap)@, *old(handoff)).heap,
        order == (match schedule(old(table)@, old(heap)@, *old(handoff)).result {
            Ok(_) => resume_spec(schedule(old(table)@, old(heap)@, *old(handoff)).next_sp),
            Err(e) => ContextSwitch::Halt(e),
        }),
        final(handoff).next_sp == schedule(old(table)@, old(heap)@, *old(handoff)).next_sp,
        final(handoff).current_sp == (match order {
            ContextSwitch::Resume { restore_from, psp } => psp,
            _ => old(handoff).current_sp,
        }),
{
    match table.schedule_next_process(heap, handoff) {
        Ok(_) => {
            if handoff.next_sp != 0 {
                let psp = popped(handoff.next_sp);
                handoff.current_sp = psp;
                ContextSwitch::Resume { restore_from: handoff.next_sp, psp }
            } else {
                ContextSwitch::Return
            }
        },
        Err(e) => ContextSwitch::Halt(e),
    }
}

/// What a system call asks the trap handler to do.
#[derive(Clone, Copy, Debug, PartialEq, Eq, Structural)]
pub enum Syscall {
    /// The calling process is marked finished; the value is its return
    /// code.
    Exit(u32),
    /// Print the value.
    Print(u32),
    /// No such operation: the value is the code that was asked for.
    Unknown(u32),
}

/// The request that the operation code `syscall_n` and its first argument
/// stand for.
pub open spec fn decode_spec(syscall_n: u32, arg0: u32) -> Syscall {
    if syscall_n == 0 {
        Syscall::Exit(arg0)
    } else if syscall_n == 1 {
        Syscall::Print(arg0)
    } else {
        Syscall::Unknown(syscall_n)
    }
}

/// Serves the system call with operation code `syscall_n`, with interrupts
/// masked and the table locked by the caller. Exit marks the current
/// process finished and frees nothing: the next scheduling pass does.
/// Print and an unknown code leave the table alone. The result says what
/// to log.
pub fn sv_call(table: &mut SystemProcess, syscall_n: u32, arg0: u32, arg1: u32, arg2: u32) -> (request:
    Syscall)
    requires
        old(table).wf(),
    ensures
        final(table).wf(),
        request == decode_spec(syscall_n, arg0),
        final(table)@ == (if syscall_n == 0 {
            old(table)@.after_exit()
        } else {
            old(table)@
        }),
{
    if syscall_n == SYS_EXIT {
        table.exit_current_process();
        Syscall::Exit(arg0)
    } else if syscall_n == SYS_PRINT {
        Syscall::Print(arg0)
    } else {
        Syscall::Unknown(syscall_n)
    }
}

} // verus!
