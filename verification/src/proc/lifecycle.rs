//! Creating a process, with its code and its first register frame, and
//! taking one away.

use vstd::prelude::*;
use vstd::std_specs::cmp::PartialEqSpec;
use crate::memory_management::heap::{
    allocate,
    check_cookie,
    deallocate,
    lemma_live_shape,
    lemma_null_not_live,
    write_bytes,
    Heap,
    HeapError,
};
use crate::memory_management::model::{lemma_alloc_room, lemma_store_inside_keeps_cookie};
use crate::proc::model::{
    create_result,
    created,
    frame_bytes,
    heap_after_create,
    heap_after_kill,
    kill_result,
    lemma_index_of_id,
    lemma_owned,
    lemma_owns_frame,
    lemma_owns_push,
    lemma_owns_remove,
    lemma_same_id,
    lemma_sound_push,
    lemma_sound_remove,
    loaded,
    owns,
    table_after_create,
    table_after_kill,
    ProcError,
    TableModel,
    DEFAULT_STACK_SIZE,
    INITIAL_XPSR,
    INIT_STACK_FRAME_SIZE,
};
use crate::proc::process::{ProcStatus, Process};
use crate::proc::table::SystemProcess;
use crate::utils::linked_list::first_match_from;

verus! {

/// The register frame of a process that starts at `entry_point`: sixteen
/// words, the lowest first, for the registers r4 to r11, r0 to r3, r12 and
/// the link register, all zero, then the program counter and the status
/// word.
pub fn initial_stack_frame(entry_point: u32) -> (frame: Vec<u8>)
    ensures
        frame@ == frame_bytes(entry_point as int),
{
    let mut frame: Vec<u8> = Vec::new();
    let mut i: usize = 0;
    while i < 56
        invariant
            i <= 56,
            frame@.len() == i,
            forall|j: int| 0 <= j < i ==> frame@[j] == 0,
        decreases 56 - i,
    {
        frame.push(0u8);
        i = i + 1;
    }
    frame.push((entry_point % 256) as u8);
    frame.push(((entry_point / 256) % 256) as u8);
    frame.push(((entry_point / 65536) % 256) as u8);
    frame.push(((entry_point / 16777216) % 256) as u8);
    frame.push((INITIAL_XPSR % 256) as u8);
    frame.push(((INITIAL_XPSR / 256) % 256) as u8);
    frame.push(((INITIAL_XPSR / 65536) % 256) as u8);
    frame.push(((INITIAL_XPSR / 16777216) % 256) as u8);
    assert(frame@ =~= frame_bytes(entry_point as int));
    frame
}

/// Copies the first `code_len` bytes of `code` into a new block and gives
/// its address; null where nothing was asked for or no block is free.
pub fn load_process_code(heap: &mut Heap, code: &[u8], code_len: usize) -> (ptr: usize)
    requires
        old(heap).wf(),
        code_len <= code@.len(),
    ensures
        final(heap).wf(),
        ptr == old(heap)@.alloc_ptr(code_len as int),
        (ptr != 0) == old(heap)@.can_allocate(code_len as int),
        final(heap)@ == loaded(old(heap)@, code@.take(code_len as int)),
        ptr != 0 ==> final(heap)@.is_live(ptr as int) && final(heap)@.cookie_intact(ptr as int)
            && !old(heap)@.is_live(ptr as int),
        forall|q: int| old(heap)@.is_live(q) ==> #[trigger] final(heap)@.is_live(q),
{
    let ptr = allocate(heap, code_len);
    if ptr != 0 {
        proof {
            lemma_alloc_room(old(heap)@, code_len as int, 0xdeadbeef);
            lemma_store_inside_keeps_cookie(heap@, ptr as int, 0, code@.take(code_len as int));
        }
        write_bytes(heap, ptr, 0, code, code_len);
    }
    ptr
}

/// Writes the first register frame of a process that starts at
/// `entry_point` at the top of the stack in the block at `stack`.
pub fn create_init_stack_frame(heap: &mut Heap, stack: usize, entry_point: u32)
    requires
        old(heap).wf(),
        old(heap)@.is_live(stack as int),
        old(heap)@.live[stack as int].data.len() >= 1024,
    ensures
        final(heap).wf(),
        final(heap)@ == old(heap)@.after_store(stack as int, 1024 - 64, frame_bytes(entry_point as int)),
{
    let frame = initial_stack_frame(entry_point);
    assert(frame@.take(64) =~= frame@);
    write_bytes(
        heap,
        stack,
        DEFAULT_STACK_SIZE - INIT_STACK_FRAME_SIZE,
        frame.as_slice(),
        INIT_STACK_FRAME_SIZE,
    );
}

impl SystemProcess {
    /// Creates a process: copies the first `code_len` bytes of `code_ptr` into
    /// a block of the arena, gives it a stack with the first register frame
    /// at the top, and puts it last in the table, idle, under a new
    /// identifier. Without a free identifier or a free block nothing is
    /// created, and the table is as before.
    pub fn create_process(
        &mut self,
        heap: &mut Heap,
        name: &'static str,
        code_ptr: &[u8],
        code_len: usize,
        priority: u8,
    ) -> (result: Result<u16, ProcError>)
        requires
            old(self).wf(),
            old(heap).wf(),
            owns(old(self)@.procs, old(heap)@),
            code_len <= code_ptr@.len(),
        ensures
            final(self).wf(),
            final(heap).wf(),
            owns(final(self)@.procs, final(heap)@),
            result == create_result(old(self)@, old(heap)@, code_ptr@.take(code_len as int)),
            final(self)@ == table_after_create(
                old(self)@,
                old(heap)@,
                name,
                code_ptr@.take(code_len as int),
                priority,
            ),
            final(heap)@ == heap_after_create(
                old(self)@,
                old(heap)@,
                code_ptr@.take(code_len as int),
            ),
    {
        let ghost code = code_ptr@.take(code_len as int);
        let ghost m0 = heap@;
        proof {
            self.lemma_unfold();
        }
        if self.last_proc_id == u16::MAX {
            return Err(ProcError::OutOfIds);
        }
        let entry_point = load_process_code(heap, code_ptr, code_len);
        let ghost m1 = heap@;
        if code_len > 0 && entry_point == 0 {
            return Err(ProcError::OutOfMemory);
        }
        let stack = allocate(heap, DEFAULT_STACK_SIZE);
        if stack == 0 {
            if entry_point != 0 {
                let freed = deallocate(heap, entry_point);
                assert(freed is Ok);
            }
            proof {
                lemma_owns_frame(self@.procs, m0, heap@);
            }
            return Err(ProcError::OutOfMemory);
        }
        proof {
            lemma_alloc_room(m1, 1024, 0xdeadbeef);
            lemma_live_shape(*heap, stack as int);
            if entry_point != 0 {
                lemma_live_shape(*heap, entry_point as int);
            }
        }
        let sp = stack + DEFAULT_STACK_SIZE - INIT_STACK_FRAME_SIZE;
        create_init_stack_frame(heap, stack, entry_point as u32);
        let pid = self.get_new_proc_id();
        let new_proc = Process::new(name, pid, stack, sp as u32, entry_point, priority);
        self.process_list.add(new_proc);
        proof {
            self.lemma_unfold();
            lemma_sound_push(old(self)@, new_proc);
            lemma_owns_push(old(self)@.procs, m0, heap@, new_proc);
        }
        Ok(pid)
    }

    /// Takes the process `proc_id` out of the table and gives its code and
    /// its stack back to the arena. Nothing happens where the table does not
    /// hold it. Where a cookie of one of its blocks is damaged nothing
    /// changes, and the error says so. The process must not be the one that
    /// runs: its stack is in use.
    pub fn kill_process(&mut self, heap: &mut Heap, proc_id: u16) -> (result: Result<(), HeapError>)
        requires
            old(self).wf(),
            old(heap).wf(),
            owns(old(self)@.procs, old(heap)@),
            old(self)@.has(proc_id) ==> old(self)@.procs[old(self)@.find(proc_id)].status
                != ProcStatus::Running,
        ensures
            final(self).wf(),
            final(heap).wf(),
            owns(final(self)@.procs, final(heap)@),
            result is Ok <==> kill_result(old(self)@, old(heap)@, proc_id),
            result is Err ==> result == Err::<(), HeapError>(HeapError::Corrupted),
            final(self)@ == table_after_kill(old(self)@, old(heap)@, proc_id),
            final(heap)@ == heap_after_kill(old(self)@, old(heap)@, proc_id),
    {
        let ghost t0 = self@;
        let ghost m0 = heap@;
        let ghost k = t0.find(proc_id);
        proof {
            self.lemma_unfold();
            lemma_index_of_id(t0.procs, proc_id, 0);
        }
        match self.get_process_by_id(proc_id) {
            Some(process) => {
                proof {
                    lemma_owned(t0.procs, m0, k);
                    lemma_null_not_live(*heap);
                }
                let code_ok = process.entry_point == 0 || check_cookie(heap, process.entry_point);
                if !code_ok || !check_cookie(heap, process.stack) {
                    return Err(HeapError::Corrupted);
                }
                let freed_code = deallocate(heap, process.entry_point);
                let freed_stack = deallocate(heap, process.stack);
                proof {
                    lemma_first_match(t0, k);
                }
                let found = self.process_list.delete(process);
                proof {
                    self.lemma_unfold();
                    lemma_sound_remove(t0, k);
                    lemma_owns_remove(t0.procs, m0, heap@, k);
                }
                Ok(())
            },
            None => Ok(()),
        }
    }
}

/// In a sound table the first record equal to that of process `k` is that
/// of process `k`.
proof fn lemma_first_match(t: TableModel, k: int)
    requires
        t.sound(),
        0 <= k < t.procs.len(),
    ensures
        first_match_from(t.procs, t.procs[k], 0) == k,
{
    lemma_first_match_from(t, k, 0);
}

proof fn lemma_first_match_from(t: TableModel, k: int, i: int)
    requires
        t.sound(),
        0 <= i <= k < t.procs.len(),
    ensures
        first_match_from(t.procs, t.procs[k], i) == k,
    decreases k - i,
{
    if i < k {
        if t.procs[i].eq_spec(&t.procs[k]) {
            lemma_same_id(t, i, k);
        }
        lemma_first_match_from(t, k, i + 1);
    }
}

} // verus!
