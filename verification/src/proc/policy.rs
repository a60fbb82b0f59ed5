//! The scheduling policy as a function of the table: which processes are
//! reaped, which one runs next, and what is left for the trap handler.

use vstd::prelude::*;
use crate::memory_management::model::HeapModel;
use crate::proc::model::{blocks_intact, parked, released, with_status, TableModel};
use crate::proc::process::{ProcStatus, Process};

verus! {

/// The two stack pointers that the scheduler and the trap handler hand to
/// each other during one context switch.
#[derive(Clone, Copy, Debug, PartialEq, Eq, Structural)]
pub struct Handoff {
    /// The stack pointer saved last for the process that was running;
    /// zero while no process has run.
    pub current_sp: u32,
    /// The stack pointer of the process to resume; meant for the one trap
    /// that asked for it.
    pub next_sp: u32,
}

/// Why no process was put on the processor.
#[derive(Clone, Copy, Debug, PartialEq, Eq, Structural)]
pub enum SchedError {
    /// No process is idle and none was running: the kernel has no work.
    NothingToRun,
    /// A block of a process to reap has a damaged cookie.
    HeapCorrupted,
}

/// Index, from `k` on, of the first finished process; the length if there
/// is none.
pub open spec fn first_finished(procs: Seq<Process>, k: int) -> int
    decreases procs.len() - k,
{
    if k < 0 || k >= procs.len() {
        procs.len() as int
    } else if procs[k].status == ProcStatus::Finished {
        k
    } else {
        first_finished(procs, k + 1)
    }
}

/// Index, among the first `n` processes, of the idle one that runs next: of
/// those with the lowest priority value the oldest; -1 if none is idle.
pub open spec fn best_idle(procs: Seq<Process>, n: int) -> int
    decreases n,
{
    if n <= 0 {
        -1
    } else {
        let b = best_idle(procs, n - 1);
        if procs[n - 1].status == ProcStatus::Idle && (b < 0 || procs[n - 1].priority
            < procs[b].priority) {
            n - 1
        } else {
            b
        }
    }
}

/// Index of the last running process among the first `n`; -1 if none runs.
pub open spec fn last_running(procs: Seq<Process>, n: int) -> int
    decreases n,
{
    if n <= 0 {
        -1
    } else if procs[n - 1].status == ProcStatus::Running {
        n - 1
    } else {
        last_running(procs, n - 1)
    }
}

/// Number of processes that are not finished.
pub open spec fn alive(procs: Seq<Process>) -> nat
    decreases procs.len(),
{
    if procs.len() == 0 {
        0
    } else {
        alive(procs.drop_last()) + if procs.last().status == ProcStatus::Finished {
            0nat
        } else {
            1nat
        }
    }
}

/// What reaping leaves: the table, the arena, and whether every cookie was
/// in order.
pub struct Reaped {
    pub procs: Seq<Process>,
    pub heap: HeapModel,
    pub ok: bool,
}

/// Takes the finished processes out of the table, oldest first, and gives
/// their blocks back; stops at the first with a damaged cookie.
pub open spec fn reap(procs: Seq<Process>, m: HeapModel) -> Reaped
    decreases procs.len(),
{
    let k = first_finished(procs, 0);
    if 0 <= k < procs.len() {
        if blocks_intact(procs[k], m) {
            reap(procs.remove(k), released(procs[k], m))
        } else {
            Reaped { procs, heap: m, ok: false }
        }
    } else {
        Reaped { procs, heap: m, ok: true }
    }
}

/// What one scheduling pass leaves.
pub struct Scheduled {
    /// The table's processes.
    pub procs: Seq<Process>,
    /// The arena.
    pub heap: HeapModel,
    /// The identifier of the current process.
    pub current_process_id: u16,
    /// The stack pointer to resume from.
    pub next_sp: u32,
    /// The identifier of the process that runs now, or why none does.
    pub result: Result<u16, SchedError>,
}

/// The choice among processes none of which is finished. The running
/// process, if there is one, is parked with `current_sp`. The best idle
/// process runs next, unless its saved stack pointer is zero: then it is
/// taken out of the table and the choice is made again. With no idle
/// process the one that was running runs on; with none of either there is
/// nothing to run.
pub open spec fn choose_next(
    procs: Seq<Process>,
    m: HeapModel,
    current: u16,
    current_sp: u32,
    next_sp: u32,
) -> Scheduled
    decreases procs.len(),
{
    let r = last_running(procs, procs.len() as int);
    let n = best_idle(procs, procs.len() as int);
    let rested = if 0 <= r < procs.len() {
        procs.update(r, parked(procs[r], current_sp))
    } else {
        procs
    };
    if 0 <= n < procs.len() {
        let next = rested[n];
        if next.stored_sp != 0 {
            Scheduled {
                procs: rested.update(n, with_status(next, ProcStatus::Running)),
                heap: m,
                current_process_id: next.proc_id,
                next_sp: next.stored_sp,
                result: Ok(next.proc_id),
            }
        } else if blocks_intact(next, m) {
            choose_next(rested.remove(n), released(next, m), current, current_sp, next_sp)
        } else {
            Scheduled {
                procs: rested.update(n, with_status(next, ProcStatus::Finished)),
                heap: m,
                current_process_id: current,
                next_sp,
                result: Err(SchedError::HeapCorrupted),
            }
        }
    } else if 0 <= r < procs.len() {
        Scheduled {
            procs: procs.update(r, with_status(parked(procs[r], current_sp), ProcStatus::Running)),
            heap: m,
            current_process_id: procs[r].proc_id,
            next_sp: current_sp,
            result: Ok(procs[r].proc_id),
        }
    } else {
        Scheduled {
            procs,
            heap: m,
            current_process_id: 0,
            next_sp,
            result: Err(SchedError::NothingToRun),
        }
    }
}

/// One scheduling pass: reap the finished processes, then choose.
pub open spec fn schedule(t: TableModel, m: HeapModel, handoff: Handoff) -> Scheduled {
    let reaped = reap(t.procs, m);
    if reaped.ok {
        choose_next(
            reaped.procs,
            reaped.heap,
            t.current_process_id,
            handoff.current_sp,
            handoff.next_sp,
        )
    } else {
        Scheduled {
            procs: reaped.procs,
            heap: reaped.heap,
            current_process_id: t.current_process_id,
            next_sp: handoff.next_sp,
            result: Err(SchedError::HeapCorrupted),
        }
    }
}

/// The search from `k` ends at the first finished process.
pub proof fn lemma_first_finished(procs: Seq<Process>, k: int)
    requires
        0 <= k <= procs.len(),
    ensures
        k <= first_finished(procs, k) <= procs.len(),
        first_finished(procs, k) < procs.len() ==> procs[first_finished(procs, k)].status
            == ProcStatus::Finished,
        forall|j: int|
            k <= j < first_finished(procs, k) ==> (#[trigger] procs[j]).status
                != ProcStatus::Finished,
    decreases procs.len() - k,
{
    if k < procs.len() && procs[k].status != ProcStatus::Finished {
        lemma_first_finished(procs, k + 1);
    }
}

/// The best idle process among the first `n` is idle, no idle process among
/// them has a lower priority value, and none before it has the same.
pub proof fn lemma_best_idle(procs: Seq<Process>, n: int)
    requires
        0 <= n <= procs.len(),
    ensures
        -1 <= best_idle(procs, n) < n,
        best_idle(procs, n) >= 0 ==> procs[best_idle(procs, n)].status == ProcStatus::Idle,
        forall|j: int|
            0 <= j < n && (#[trigger] procs[j]).status == ProcStatus::Idle ==> best_idle(procs, n)
                >= 0 && procs[best_idle(procs, n)].priority <= procs[j].priority,
        forall|j: int|
            0 <= j < best_idle(procs, n) && (#[trigger] procs[j]).status == ProcStatus::Idle
                ==> procs[best_idle(procs, n)].priority < procs[j].priority,
    decreases n,
{
    if n > 0 {
        lemma_best_idle(procs, n - 1);
    }
}

/// The last running process among the first `n` runs, and none behind it
/// does.
pub proof fn lemma_last_running(procs: Seq<Process>, n: int)
    requires
        0 <= n <= procs.len(),
    ensures
        -1 <= last_running(procs, n) < n,
        last_running(procs, n) >= 0 ==> procs[last_running(procs, n)].status
            == ProcStatus::Running,
        forall|j: int|
            last_running(procs, n) < j < n ==> (#[trigger] procs[j]).status != ProcStatus::Running,
    decreases n,
{
    if n > 0 && procs[n - 1].status != ProcStatus::Running {
        lemma_last_running(procs, n - 1);
    }
}

/// The index that is idle, has the lowest priority value among the idle and
/// is the first with it, is the best idle one.
pub proof fn lemma_best_idle_is(procs: Seq<Process>, k: int)
    requires
        0 <= k < procs.len(),
        procs[k].status == ProcStatus::Idle,
        forall|j: int|
            0 <= j < procs.len() && (#[trigger] procs[j]).status == ProcStatus::Idle
                ==> procs[k].priority <= procs[j].priority,
        forall|j: int|
            0 <= j < k && (#[trigger] procs[j]).status == ProcStatus::Idle ==> procs[k].priority
                < procs[j].priority,
    ensures
        best_idle(procs, procs.len() as int) == k,
{
    lemma_best_idle(procs, procs.len() as int);
    let b = best_idle(procs, procs.len() as int);
    assert(procs[k].status == ProcStatus::Idle);
    assert(b >= 0);
    assert(procs[b].status == ProcStatus::Idle);
}

/// Changing one record changes the count of the living by what the record
/// counts.
pub proof fn lemma_alive_update(procs: Seq<Process>, k: int, p: Process)
    requires
        0 <= k < procs.len(),
    ensures
        alive(procs.update(k, p)) + (if procs[k].status == ProcStatus::Finished {
            0int
        } else {
            1int
        }) == alive(procs) + (if p.status == ProcStatus::Finished {
            0int
        } else {
            1int
        }),
    decreases procs.len(),
{
    if k == procs.len() - 1 {
        assert(procs.update(k, p).drop_last() =~= procs.drop_last());
    } else {
        assert(procs.update(k, p).drop_last() =~= procs.drop_last().update(k, p));
        lemma_alive_update(procs.drop_last(), k, p);
    }
}

/// Taking a finished process out leaves the count of the living.
pub proof fn lemma_alive_remove(procs: Seq<Process>, k: int)
    requires
        0 <= k < procs.len(),
    ensures
        alive(procs.remove(k)) + (if procs[k].status == ProcStatus::Finished {
            0int
        } else {
            1int
        }) == alive(procs),
    decreases procs.len(),
{
    if k == procs.len() - 1 {
        assert(procs.remove(k) =~= procs.drop_last());
    } else {
        assert(procs.remove(k).drop_last() =~= procs.drop_last().remove(k));
        lemma_alive_remove(procs.drop_last(), k);
    }
}

/// With no finished process reaping changes nothing.
pub proof fn lemma_reap_none(procs: Seq<Process>, m: HeapModel)
    requires
        forall|j: int| 0 <= j < procs.len() ==> (#[trigger] procs[j]).status != ProcStatus::Finished,
    ensures
        reap(procs, m) == (Reaped { procs, heap: m, ok: true }),
{
    lemma_first_finished(procs, 0);
}

/// With one finished process reaping takes out that one, if its cookies are
/// in order.
pub proof fn lemma_reap_single(procs: Seq<Process>, m: HeapModel, n: int)
    requires
        0 <= n < procs.len(),
        procs[n].status == ProcStatus::Finished,
        forall|j: int|
            0 <= j < procs.len() && j != n ==> (#[trigger] procs[j]).status
                != ProcStatus::Finished,
    ensures
        reap(procs, m) == (if blocks_intact(procs[n], m) {
            Reaped { procs: procs.remove(n), heap: released(procs[n], m), ok: true }
        } else {
            Reaped { procs, heap: m, ok: false }
        }),
{
    lemma_first_finished(procs, 0);
    let k = first_finished(procs, 0);
    assert(k == n) by {
        if k < n {
            assert(procs[k].status != ProcStatus::Finished);
        }
    }
    if blocks_intact(procs[n], m) {
        let fewer = procs.remove(n);
        assert forall|j: int| 0 <= j < fewer.len() implies (#[trigger] fewer[j]).status
            != ProcStatus::Finished by {
            assert(fewer[j] == procs[if j < n {
                j
            } else {
                j + 1
            }]);
        }
        lemma_reap_none(fewer, released(procs[n], m));
    }
}

/// Where reaping goes through, no finished process is left, and each
/// process left was there before.
pub proof fn lemma_reap_clean(procs: Seq<Process>, m: HeapModel)
    ensures
        reap(procs, m).ok ==> forall|j: int|
            0 <= j < reap(procs, m).procs.len() ==> (#[trigger] reap(procs, m).procs[j]).status
                != ProcStatus::Finished,
        reap(procs, m).procs.len() <= procs.len(),
        alive(reap(procs, m).procs) == alive(procs),
    decreases procs.len(),
{
    lemma_first_finished(procs, 0);
    let k = first_finished(procs, 0);
    if 0 <= k < procs.len() {
        if blocks_intact(procs[k], m) {
            lemma_reap_clean(procs.remove(k), released(procs[k], m));
            lemma_alive_remove(procs, k);
        }
    }
}

} // verus!
