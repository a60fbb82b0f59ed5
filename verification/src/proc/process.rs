//! One schedulable unit as the kernel records it.

use vstd::prelude::*;
use vstd::std_specs::cmp::PartialEqSpecImpl;
use vstd::string::StringSliceAdditionalSpecFns;

verus! {

/// Where a process stands in its life.
#[derive(Clone, Copy, Debug, PartialEq, Eq, Structural)]
pub enum ProcStatus {
    /// Ready to run.
    Idle,
    /// On the processor.
    Running,
    /// Not ready: nothing in the kernel puts a process here yet.
    Waiting,
    /// Done; its memory goes back on the next scheduling pass.
    Finished,
}

impl Default for ProcStatus {
    fn default() -> (status: ProcStatus)
        ensures
            status == ProcStatus::Idle,
    {
        ProcStatus::Idle
    }
}

impl ProcStatus {
    /// The number that stands for the status in a listing.
    pub open spec fn code_spec(self) -> u8 {
        match self {
            ProcStatus::Idle => 0,
            ProcStatus::Running => 1,
            ProcStatus::Waiting => 2,
            ProcStatus::Finished => 3,
        }
    }

    /// The number that stands for the status in a listing.
    pub fn code(self) -> (n: u8)
        ensures
            n == self.code_spec(),
    {
        match self {
            ProcStatus::Idle => 0,
            ProcStatus::Running => 1,
            ProcStatus::Waiting => 2,
            ProcStatus::Finished => 3,
        }
    }
}

/// The kernel's record of a process. Addresses are those of the arena.
#[derive(Clone, Copy, Debug)]
pub struct Process {
    /// Name for listings.
    pub proc_name: &'static str,
    /// Identifier, never given twice.
    pub proc_id: u16,
    /// Where the process stands in its life.
    pub status: ProcStatus,
    /// The block that holds the stack.
    pub stack: usize,
    /// The stack pointer to resume from, saved at the last switch away.
    pub stored_sp: u32,
    /// The block that holds the code, and the address execution starts at;
    /// null for a process without code.
    pub entry_point: usize,
    /// Rank among the idle processes: the lower value runs first.
    pub priority: u8,
}

/// Whether two texts are made of the same bytes.
pub fn same_text(a: &str, b: &str) -> (same: bool)
    ensures
        same == (a.spec_bytes() == b.spec_bytes()),
{
    let x = a.as_bytes();
    let y = b.as_bytes();
    if x.len() != y.len() {
        return false;
    }
    let mut i: usize = 0;
    while i < x.len()
        invariant
            0 <= i <= x.len(),
            x.len() == y.len(),
            x@ == a.spec_bytes(),
            y@ == b.spec_bytes(),
            forall|j: int| 0 <= j < i ==> x@[j] == y@[j],
        decreases x.len() - i,
    {
        if x[i] != y[i] {
            assert(x@[i as int] != y@[i as int]);
            return false;
        }
        i = i + 1;
    }
    assert(x@ =~= y@);
    true
}

impl PartialEq for Process {
    fn eq(&self, other: &Process) -> (equal: bool) {
        same_text(self.proc_name, other.proc_name) && self.proc_id == other.proc_id && self.status
            == other.status && self.stack == other.stack && self.stored_sp == other.stored_sp
            && self.entry_point == other.entry_point && self.priority == other.priority
    }
}

impl PartialEqSpecImpl for Process {
    open spec fn obeys_eq_spec() -> bool {
        true
    }

    open spec fn eq_spec(&self, other: &Process) -> bool {
        self.proc_name.spec_bytes() == other.proc_name.spec_bytes() && self.proc_id == other.proc_id
            && self.status == other.status && self.stack == other.stack && self.stored_sp
            == other.stored_sp && self.entry_point == other.entry_point && self.priority
            == other.priority
    }
}

impl Process {
    /// The record of a new process: idle, with its first stack pointer.
    pub fn new(
        name: &'static str,
        proc_id: u16,
        stack_ptr: usize,
        init_sp: u32,
        entry_point: usize,
        priority: u8,
    ) -> (process: Process)
        ensures
            process == (Process {
                proc_name: name,
                proc_id,
                status: ProcStatus::Idle,
                stack: stack_ptr,
                stored_sp: init_sp,
                entry_point,
                priority,
            }),
    {
        Process {
            proc_name: name,
            proc_id,
            status: ProcStatus::Idle,
            stack: stack_ptr,
            stored_sp: init_sp,
            entry_point,
            priority,
        }
    }

    /// The saved stack pointer.
    pub fn get_stack_ptr(&self) -> (sp: u32)
        ensures
            sp == self.stored_sp,
    {
        self.stored_sp
    }

    /// The address execution starts at.
    pub fn get_entry_point(&self) -> (entry: usize)
        ensures
            entry == self.entry_point,
    {
        self.entry_point
    }
}

} // verus!
