//! The process table as a sequence of records, and what holds of it.

use vstd::prelude::*;
use crate::memory_management::model::HeapModel;
use crate::memory_management::word::byte_of;
use crate::proc::process::{ProcStatus, Process};

verus! {

/// The table apart from how it is stored.
pub struct TableModel {
    /// The processes, oldest first.
    pub procs: Seq<Process>,
    /// The identifier given last.
    pub last_proc_id: u16,
    /// The identifier of the process that was put on the processor last.
    pub current_process_id: u16,
}

/// Index, from `k` on, of the first process with identifier `id`; the
/// length if there is none.
pub open spec fn index_of_id(procs: Seq<Process>, id: u16, k: int) -> int
    decreases procs.len() - k,
{
    if k < 0 || k >= procs.len() {
        procs.len() as int
    } else if procs[k].proc_id == id {
        k
    } else {
        index_of_id(procs, id, k + 1)
    }
}

/// `p` with another status.
pub open spec fn with_status(p: Process, status: ProcStatus) -> Process {
    Process { status, ..p }
}

/// `p` taken off the processor: idle, with `sp` as its saved stack pointer.
pub open spec fn parked(p: Process, sp: u32) -> Process {
    Process { status: ProcStatus::Idle, stored_sp: sp, ..p }
}

impl TableModel {
    /// The table at boot.
    pub open spec fn empty() -> TableModel {
        TableModel { procs: Seq::empty(), last_proc_id: 0, current_process_id: 0 }
    }

    /// Index of the process with identifier `id`, or the length.
    pub open spec fn find(self, id: u16) -> int {
        index_of_id(self.procs, id, 0)
    }

    /// Whether the table holds a process with identifier `id`.
    pub open spec fn has(self, id: u16) -> bool {
        self.find(id) < self.procs.len()
    }

    /// No identifier occurs twice, none is zero or was not given yet, and a
    /// running process is the current one: so at most one runs.
    #[verifier::opaque]
    pub open spec fn sound(self) -> bool {
        &&& forall|i: int|
            0 <= i < self.procs.len() ==> 0 < (#[trigger] self.procs[i]).proc_id
                <= self.last_proc_id
        &&& forall|i: int, j: int|
            0 <= i < j < self.procs.len() ==> (#[trigger] self.procs[i]).proc_id != (
            #[trigger] self.procs[j]).proc_id
        &&& forall|i: int|
            0 <= i < self.procs.len() && (#[trigger] self.procs[i]).status == ProcStatus::Running
                ==> self.procs[i].proc_id == self.current_process_id
    }

    /// The table after the current process asked to exit.
    pub open spec fn after_exit(self) -> TableModel {
        let k = self.find(self.current_process_id);
        if k < self.procs.len() {
            TableModel {
                procs: self.procs.update(k, with_status(self.procs[k], ProcStatus::Finished)),
                ..self
            }
        } else {
            self
        }
    }
}

/// The search from `k` ends at the first process with the identifier.
pub proof fn lemma_index_of_id(procs: Seq<Process>, id: u16, k: int)
    requires
        0 <= k <= procs.len(),
    ensures
        k <= index_of_id(procs, id, k) <= procs.len(),
        index_of_id(procs, id, k) < procs.len() ==> procs[index_of_id(procs, id, k)].proc_id == id,
        forall|j: int| k <= j < index_of_id(procs, id, k) ==> (#[trigger] procs[j]).proc_id != id,
    decreases procs.len() - k,
{
    if k < procs.len() && procs[k].proc_id != id {
        lemma_index_of_id(procs, id, k + 1);
    }
}

/// A sound table stays sound when a process gets a status other than
/// running.
pub proof fn lemma_status_keeps_sound(t: TableModel, k: int, status: ProcStatus)
    requires
        t.sound(),
        0 <= k < t.procs.len(),
        status != ProcStatus::Running,
    ensures
        (TableModel { procs: t.procs.update(k, with_status(t.procs[k], status)), ..t }).sound(),
{
    reveal(TableModel::sound);
}

/// In a sound table at most one process runs.
pub proof fn lemma_one_running(t: TableModel, i: int, j: int)
    requires
        t.sound(),
        0 <= i < t.procs.len(),
        0 <= j < t.procs.len(),
        t.procs[i].status == ProcStatus::Running,
        t.procs[j].status == ProcStatus::Running,
    ensures
        i == j,
{
    reveal(TableModel::sound);
}

/// Bytes of the stack that a new process gets.
pub const DEFAULT_STACK_SIZE: usize = 1024;

/// Bytes of the register frame that a new process starts from: sixteen
/// words.
pub const INIT_STACK_FRAME_SIZE: usize = 64;

/// The status word of a new process: the bit that selects the instruction
/// set.
pub const INITIAL_XPSR: u32 = 0x0100_0000;

/// The cookie that the allocator writes.
pub const COOKIE: u32 = 0xdeadbeef;

/// Why a process could not be created.
#[derive(Clone, Copy, Debug, PartialEq, Eq, Structural)]
pub enum ProcError {
    /// Every identifier was given.
    OutOfIds,
    /// The arena has no block for the code or for the stack.
    OutOfMemory,
}

/// The register frame that a process starts from: fourteen zero words for
/// the registers, then the address to start at, then the status word.
pub open spec fn frame_bytes(entry: int) -> Seq<u8> {
    Seq::new(
        64,
        |i: int|
            if i < 56 {
                0u8
            } else if i < 60 {
                byte_of(entry, i - 56)
            } else {
                byte_of(0x0100_0000, i - 60)
            },
    )
}

/// Every process has its stack in an allocated block of its own, and its
/// code, if it has any, in another.
#[verifier::opaque]
pub open spec fn owns(procs: Seq<Process>, m: HeapModel) -> bool {
    &&& forall|i: int|
        0 <= i < procs.len() ==> {
            &&& m.is_live((#[trigger] procs[i]).stack as int)
            &&& procs[i].entry_point == 0 || m.is_live(procs[i].entry_point as int)
            &&& procs[i].stack != procs[i].entry_point
            &&& procs[i].stack != 0
        }
    &&& forall|i: int, j: int|
        0 <= i < procs.len() && 0 <= j < procs.len() && i != j ==> {
            &&& (#[trigger] procs[i]).stack != (#[trigger] procs[j]).stack
            &&& procs[i].stack != procs[j].entry_point
            &&& procs[i].entry_point == 0 || procs[i].entry_point != procs[j].entry_point
        }
}

/// The arena after the code of a new process was copied into a block of
/// its own; unchanged for a process without code.
pub open spec fn loaded(m: HeapModel, code: Seq<u8>) -> HeapModel {
    if m.can_allocate(code.len() as int) {
        m.after_alloc(code.len() as int, 0xdeadbeef).after_store(
            m.alloc_ptr(code.len() as int),
            0,
            code,
        )
    } else {
        m
    }
}

/// The arena after a new process got its stack, with the first register
/// frame at the top of it.
pub open spec fn stacked(m: HeapModel, entry: int) -> HeapModel {
    m.after_alloc(1024, 0xdeadbeef).after_store(m.alloc_ptr(1024), 1024 - 64, frame_bytes(entry))
}

/// What creating a process with `code` comes to: the new identifier, or why
/// there is none.
pub open spec fn create_result(t: TableModel, m: HeapModel, code: Seq<u8>) -> Result<u16, ProcError> {
    if t.last_proc_id == u16::MAX {
        Err(ProcError::OutOfIds)
    } else if code.len() > 0 && !m.can_allocate(code.len() as int) {
        Err(ProcError::OutOfMemory)
    } else if !loaded(m, code).can_allocate(1024) {
        Err(ProcError::OutOfMemory)
    } else {
        Ok((t.last_proc_id + 1) as u16)
    }
}

/// The record of the process that creating one with `code` adds.
pub open spec fn created(
    t: TableModel,
    m: HeapModel,
    name: &'static str,
    code: Seq<u8>,
    priority: u8,
) -> Process {
    let stack = loaded(m, code).alloc_ptr(1024);
    Process {
        proc_name: name,
        proc_id: (t.last_proc_id + 1) as u16,
        status: ProcStatus::Idle,
        stack: stack as usize,
        stored_sp: (stack + 1024 - 64) as u32,
        entry_point: m.alloc_ptr(code.len() as int) as usize,
        priority,
    }
}

/// The table after creating a process with `code`.
pub open spec fn table_after_create(
    t: TableModel,
    m: HeapModel,
    name: &'static str,
    code: Seq<u8>,
    priority: u8,
) -> TableModel {
    if create_result(t, m, code) is Ok {
        TableModel {
            procs: t.procs.push(created(t, m, name, code, priority)),
            last_proc_id: (t.last_proc_id + 1) as u16,
            current_process_id: t.current_process_id,
        }
    } else {
        t
    }
}

/// The arena after creating a process with `code`: with both blocks, or,
/// where there was no block for the stack, with the block of the code free
/// again.
pub open spec fn heap_after_create(t: TableModel, m: HeapModel, code: Seq<u8>) -> HeapModel {
    if t.last_proc_id == u16::MAX {
        m
    } else if create_result(t, m, code) is Ok {
        stacked(loaded(m, code), m.alloc_ptr(code.len() as int))
    } else if m.can_allocate(code.len() as int) {
        loaded(m, code).after_free(m.alloc_ptr(code.len() as int))
    } else {
        m
    }
}

/// Whether the blocks of `p` have their cookies in order.
pub open spec fn blocks_intact(p: Process, m: HeapModel) -> bool {
    (p.entry_point == 0 || m.cookie_intact(p.entry_point as int)) && m.cookie_intact(p.stack as int)
}

/// The arena after the blocks of `p` went back to it.
pub open spec fn released(p: Process, m: HeapModel) -> HeapModel {
    if p.entry_point == 0 {
        m.after_free(p.stack as int)
    } else {
        m.after_free(p.entry_point as int).after_free(p.stack as int)
    }
}

/// What killing the process `id` comes to: refused where a cookie of one of
/// its blocks is damaged.
pub open spec fn kill_result(t: TableModel, m: HeapModel, id: u16) -> bool {
    !t.has(id) || blocks_intact(t.procs[t.find(id)], m)
}

/// The table after killing the process `id`.
pub open spec fn table_after_kill(t: TableModel, m: HeapModel, id: u16) -> TableModel {
    if t.has(id) && blocks_intact(t.procs[t.find(id)], m) {
        TableModel { procs: t.procs.remove(t.find(id)), ..t }
    } else {
        t
    }
}

/// The arena after killing the process `id`.
pub open spec fn heap_after_kill(t: TableModel, m: HeapModel, id: u16) -> HeapModel {
    if t.has(id) && blocks_intact(t.procs[t.find(id)], m) {
        released(t.procs[t.find(id)], m)
    } else {
        m
    }
}

/// What `owns` says of one process.
pub proof fn lemma_owned(procs: Seq<Process>, m: HeapModel, i: int)
    requires
        owns(procs, m),
        0 <= i < procs.len(),
    ensures
        m.is_live(procs[i].stack as int),
        procs[i].entry_point == 0 || m.is_live(procs[i].entry_point as int),
        procs[i].stack != procs[i].entry_point,
        procs[i].stack != 0,
{
    reveal(owns);
}

/// What `owns` says of two processes.
pub proof fn lemma_owned_apart(procs: Seq<Process>, m: HeapModel, i: int, j: int)
    requires
        owns(procs, m),
        0 <= i < procs.len(),
        0 <= j < procs.len(),
        i != j,
    ensures
        procs[i].stack != procs[j].stack,
        procs[i].stack != procs[j].entry_point,
        procs[i].entry_point == 0 || procs[i].entry_point != procs[j].entry_point,
{
    reveal(owns);
}

/// Ownership holds in every arena that still has the blocks.
pub proof fn lemma_owns_frame(procs: Seq<Process>, m0: HeapModel, m1: HeapModel)
    requires
        owns(procs, m0),
        forall|q: int| m0.is_live(q) ==> #[trigger] m1.is_live(q),
    ensures
        owns(procs, m1),
{
    reveal(owns);
}

/// Ownership holds with one more process whose blocks are new.
pub proof fn lemma_owns_push(procs: Seq<Process>, m0: HeapModel, m1: HeapModel, p: Process)
    requires
        owns(procs, m0),
        forall|q: int| m0.is_live(q) ==> #[trigger] m1.is_live(q),
        m1.is_live(p.stack as int),
        !m0.is_live(p.stack as int),
        p.stack != 0,
        p.entry_point == 0 || (m1.is_live(p.entry_point as int) && !m0.is_live(
            p.entry_point as int,
        )),
        p.stack != p.entry_point,
    ensures
        owns(procs.push(p), m1),
{
    reveal(owns);
    let longer = procs.push(p);
    assert forall|i: int| 0 <= i < longer.len() implies {
        &&& m1.is_live((#[trigger] longer[i]).stack as int)
        &&& longer[i].entry_point == 0 || m1.is_live(longer[i].entry_point as int)
        &&& longer[i].stack != longer[i].entry_point
        &&& longer[i].stack != 0
    } by {
        if i < procs.len() {
            assert(longer[i] == procs[i]);
        }
    }
    assert forall|i: int, j: int| 0 <= i < longer.len() && 0 <= j < longer.len() && i != j implies {
        &&& (#[trigger] longer[i]).stack != (#[trigger] longer[j]).stack
        &&& longer[i].stack != longer[j].entry_point
        &&& longer[i].entry_point == 0 || longer[i].entry_point != longer[j].entry_point
    } by {
        if i < procs.len() {
            assert(longer[i] == procs[i]);
        }
        if j < procs.len() {
            assert(longer[j] == procs[j]);
        }
    }
}

/// Ownership holds without a process in an arena that lacks only its
/// blocks.
pub proof fn lemma_owns_remove(procs: Seq<Process>, m0: HeapModel, m1: HeapModel, k: int)
    requires
        owns(procs, m0),
        0 <= k < procs.len(),
        forall|q: int|
            m0.is_live(q) && q != procs[k].stack && q != procs[k].entry_point ==> #[trigger] m1.is_live(
                q,
            ),
    ensures
        owns(procs.remove(k), m1),
{
    reveal(owns);
    let fewer = procs.remove(k);
    assert forall|i: int| 0 <= i < fewer.len() implies {
        &&& m1.is_live((#[trigger] fewer[i]).stack as int)
        &&& fewer[i].entry_point == 0 || m1.is_live(fewer[i].entry_point as int)
        &&& fewer[i].stack != fewer[i].entry_point
        &&& fewer[i].stack != 0
    } by {
        let i0 = if i < k {
            i
        } else {
            i + 1
        };
        assert(fewer[i] == procs[i0]);
        assert(procs[i0].stack != procs[k].stack);
        assert(procs[k].stack != procs[i0].entry_point);
        assert(procs[i0].stack != procs[k].entry_point);
    }
    assert forall|i: int, j: int| 0 <= i < fewer.len() && 0 <= j < fewer.len() && i != j implies {
        &&& (#[trigger] fewer[i]).stack != (#[trigger] fewer[j]).stack
        &&& fewer[i].stack != fewer[j].entry_point
        &&& fewer[i].entry_point == 0 || fewer[i].entry_point != fewer[j].entry_point
    } by {
        let i0 = if i < k {
            i
        } else {
            i + 1
        };
        let j0 = if j < k {
            j
        } else {
            j + 1
        };
        assert(fewer[i] == procs[i0]);
        assert(fewer[j] == procs[j0]);
    }
}

/// Ownership holds when a record changes but for its blocks.
pub proof fn lemma_owns_update(procs: Seq<Process>, m: HeapModel, k: int, p: Process)
    requires
        owns(procs, m),
        0 <= k < procs.len(),
        p.stack == procs[k].stack,
        p.entry_point == procs[k].entry_point,
    ensures
        owns(procs.update(k, p), m),
{
    reveal(owns);
    let changed = procs.update(k, p);
    assert forall|i: int| 0 <= i < changed.len() implies {
        &&& m.is_live((#[trigger] changed[i]).stack as int)
        &&& changed[i].entry_point == 0 || m.is_live(changed[i].entry_point as int)
        &&& changed[i].stack != changed[i].entry_point
        &&& changed[i].stack != 0
    } by {
        assert(changed[i].stack == procs[i].stack);
    }
    assert forall|i: int, j: int|
        0 <= i < changed.len() && 0 <= j < changed.len() && i != j implies {
        &&& (#[trigger] changed[i]).stack != (#[trigger] changed[j]).stack
        &&& changed[i].stack != changed[j].entry_point
        &&& changed[i].entry_point == 0 || changed[i].entry_point != changed[j].entry_point
    } by {
        assert(changed[i].stack == procs[i].stack);
        assert(changed[j].stack == procs[j].stack);
    }
}

/// A sound table stays sound with one more process under the next
/// identifier.
pub proof fn lemma_sound_push(t: TableModel, p: Process)
    requires
        t.sound(),
        t.last_proc_id < u16::MAX,
        p.proc_id == t.last_proc_id + 1,
        p.status != ProcStatus::Running,
    ensures
        (TableModel {
            procs: t.procs.push(p),
            last_proc_id: p.proc_id,
            current_process_id: t.current_process_id,
        }).sound(),
{
    reveal(TableModel::sound);
    let longer = t.procs.push(p);
    assert forall|i: int| 0 <= i < longer.len() implies 0 < (#[trigger] longer[i]).proc_id
        <= p.proc_id by {
        if i < t.procs.len() {
            assert(longer[i] == t.procs[i]);
        }
    }
    assert forall|i: int, j: int| 0 <= i < j < longer.len() implies (#[trigger] longer[i]).proc_id
        != (#[trigger] longer[j]).proc_id by {
        assert(longer[i] == t.procs[i]);
        if j < t.procs.len() {
            assert(longer[j] == t.procs[j]);
        }
    }
    assert forall|i: int|
        0 <= i < longer.len() && (#[trigger] longer[i]).status
            == ProcStatus::Running implies longer[i].proc_id == t.current_process_id by {
        if i < t.procs.len() {
            assert(longer[i] == t.procs[i]);
        }
    }
}

/// A sound table stays sound without one of its processes.
pub proof fn lemma_sound_remove(t: TableModel, k: int)
    requires
        t.sound(),
        0 <= k < t.procs.len(),
    ensures
        (TableModel { procs: t.procs.remove(k), ..t }).sound(),
{
    reveal(TableModel::sound);
    let fewer = t.procs.remove(k);
    assert forall|i: int| 0 <= i < fewer.len() implies 0 < (#[trigger] fewer[i]).proc_id
        <= t.last_proc_id && (fewer[i].status == ProcStatus::Running ==> fewer[i].proc_id
        == t.current_process_id) by {
        assert(fewer[i] == t.procs[if i < k {
            i
        } else {
            i + 1
        }]);
    }
    assert forall|i: int, j: int| 0 <= i < j < fewer.len() implies (#[trigger] fewer[i]).proc_id != (
    #[trigger] fewer[j]).proc_id by {
        assert(fewer[i] == t.procs[if i < k {
            i
        } else {
            i + 1
        }]);
        assert(fewer[j] == t.procs[if j < k {
            j
        } else {
            j + 1
        }]);
    }
}

/// In a sound table two processes with one identifier are one process.
pub proof fn lemma_same_id(t: TableModel, i: int, j: int)
    requires
        t.sound(),
        0 <= i < t.procs.len(),
        0 <= j < t.procs.len(),
        t.procs[i].proc_id == t.procs[j].proc_id,
    ensures
        i == j,
{
    reveal(TableModel::sound);
}

/// In a sound table the search for the identifier of process `k` finds
/// process `k`.
pub proof fn lemma_find_own(t: TableModel, k: int)
    requires
        t.sound(),
        0 <= k < t.procs.len(),
    ensures
        t.find(t.procs[k].proc_id) == k,
{
    lemma_index_of_id(t.procs, t.procs[k].proc_id, 0);
    lemma_same_id(t, t.find(t.procs[k].proc_id), k);
}

/// The search for an identifier goes by the identifiers alone.
pub proof fn lemma_index_same_ids(before: Seq<Process>, after: Seq<Process>, id: u16, k: int)
    requires
        before.len() == after.len(),
        forall|j: int| 0 <= j < before.len() ==> (#[trigger] after[j]).proc_id == before[j].proc_id,
    ensures
        index_of_id(after, id, k) == index_of_id(before, id, k),
    decreases before.len() - k,
{
    if 0 <= k < before.len() {
        assert(after[k].proc_id == before[k].proc_id);
        lemma_index_same_ids(before, after, id, k + 1);
    }
}

/// A sound table stays sound when a record changes but for its identifier
/// and does not say that the process runs.
pub proof fn lemma_rewrite_keeps_sound(t: TableModel, k: int, p: Process)
    requires
        t.sound(),
        0 <= k < t.procs.len(),
        p.proc_id == t.procs[k].proc_id,
        p.status != ProcStatus::Running,
    ensures
        (TableModel { procs: t.procs.update(k, p), ..t }).sound(),
{
    reveal(TableModel::sound);
}

/// A table in which no process runs is sound under any current
/// identifier.
pub proof fn lemma_idle_table_sound(t: TableModel, current: u16)
    requires
        t.sound(),
        forall|j: int| 0 <= j < t.procs.len() ==> (#[trigger] t.procs[j]).status != ProcStatus::Running,
    ensures
        (TableModel { current_process_id: current, ..t }).sound(),
{
    reveal(TableModel::sound);
}

/// A table in which no process runs is sound after one is put on the
/// processor and made the current one.
pub proof fn lemma_run_keeps_sound(t: TableModel, k: int, p: Process)
    requires
        t.sound(),
        0 <= k < t.procs.len(),
        p.proc_id == t.procs[k].proc_id,
        forall|j: int|
            0 <= j < t.procs.len() && j != k ==> (#[trigger] t.procs[j]).status
                != ProcStatus::Running,
    ensures
        (TableModel {
            procs: t.procs.update(k, p),
            current_process_id: p.proc_id,
            last_proc_id: t.last_proc_id,
        }).sound(),
{
    reveal(TableModel::sound);
}

} // verus!
