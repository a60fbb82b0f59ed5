//! What holds of every scheduling pass.

use vstd::prelude::*;
use crate::memory_management::model::HeapModel;
use crate::proc::model::{blocks_intact, released, with_status, TableModel};
use crate::proc::policy::{
    alive,
    best_idle,
    first_finished,
    last_running,
    lemma_best_idle,
    lemma_best_idle_is,
    lemma_first_finished,
    lemma_last_running,
    lemma_reap_clean,
    reap,
    schedule,
    Handoff,
    SchedError,
};
use crate::proc::process::{ProcStatus, Process};

verus! {

/// Whether no process of the table runs.
pub open spec fn none_running(procs: Seq<Process>) -> bool {
    forall|j: int| 0 <= j < procs.len() ==> (#[trigger] procs[j]).status != ProcStatus::Running
}

/// Where every process is finished, none is alive.
proof fn lemma_alive_none(procs: Seq<Process>)
    requires
        forall|j: int| 0 <= j < procs.len() ==> (#[trigger] procs[j]).status == ProcStatus::Finished,
    ensures
        alive(procs) == 0,
    decreases procs.len(),
{
    if procs.len() > 0 {
        assert(procs.last() == procs[procs.len() - 1]);
        assert forall|j: int| 0 <= j < procs.drop_last().len() implies (
        #[trigger] procs.drop_last()[j]).status == ProcStatus::Finished by {
            assert(procs.drop_last()[j] == procs[j]);
        }
        lemma_alive_none(procs.drop_last());
    }
}

/// Where no process is finished, all are alive.
proof fn lemma_alive_all(procs: Seq<Process>)
    requires
        forall|j: int| 0 <= j < procs.len() ==> (#[trigger] procs[j]).status != ProcStatus::Finished,
    ensures
        alive(procs) == procs.len(),
    decreases procs.len(),
{
    if procs.len() > 0 {
        assert(procs.last() == procs[procs.len() - 1]);
        assert forall|j: int| 0 <= j < procs.drop_last().len() implies (
        #[trigger] procs.drop_last()[j]).status != ProcStatus::Finished by {
            assert(procs.drop_last()[j] == procs[j]);
        }
        lemma_alive_all(procs.drop_last());
    }
}

/// Without a finished process the best idle process and the running
/// process are the same ones, one place lower where they stood behind it.
proof fn lemma_choice_without(procs: Seq<Process>, f: int)
    requires
        0 <= f < procs.len(),
        procs[f].status == ProcStatus::Finished,
    ensures
        best_idle(procs, procs.len() as int) < 0 <==> best_idle(
            procs.remove(f),
            procs.len() - 1,
        ) < 0,
        best_idle(procs, procs.len() as int) >= 0 ==> procs.remove(f)[best_idle(
            procs.remove(f),
            procs.len() - 1,
        )] == procs[best_idle(procs, procs.len() as int)],
        none_running(procs) ==> none_running(procs.remove(f)),
{
    let fewer = procs.remove(f);
    let b = best_idle(procs, procs.len() as int);
    lemma_best_idle(procs, procs.len() as int);
    lemma_best_idle(fewer, fewer.len() as int);
    if b >= 0 {
        let c = if b < f {
            b
        } else {
            b - 1
        };
        assert(fewer[c] == procs[b]);
        assert forall|j: int|
            0 <= j < fewer.len() && (#[trigger] fewer[j]).status
                == ProcStatus::Idle implies fewer[c].priority <= fewer[j].priority by {
            let j0 = if j < f {
                j
            } else {
                j + 1
            };
            assert(fewer[j] == procs[j0]);
            assert(procs[j0].status == ProcStatus::Idle);
        }
        assert forall|j: int|
            0 <= j < c && (#[trigger] fewer[j]).status == ProcStatus::Idle implies fewer[c].priority
            < fewer[j].priority by {
            let j0 = if j < f {
                j
            } else {
                j + 1
            };
            assert(fewer[j] == procs[j0]);
            assert(procs[j0].status == ProcStatus::Idle);
        }
        lemma_best_idle_is(fewer, c);
    } else {
        let c = best_idle(fewer, fewer.len() as int);
        if c >= 0 {
            let c0 = if c < f {
                c
            } else {
                c + 1
            };
            assert(fewer[c] == procs[c0]);
            assert(procs[c0].status == ProcStatus::Idle);
        }
    }
    if none_running(procs) {
        assert forall|j: int| 0 <= j < fewer.len() implies (#[trigger] fewer[j]).status
            != ProcStatus::Running by {
            assert(fewer[j] == procs[if j < f {
                j
            } else {
                j + 1
            }]);
        }
    }
}

/// Reaping keeps the best idle process, and brings in no running one.
proof fn lemma_choice_after_reap(procs: Seq<Process>, m: HeapModel)
    ensures
        best_idle(procs, procs.len() as int) < 0 <==> best_idle(
            reap(procs, m).procs,
            reap(procs, m).procs.len() as int,
        ) < 0,
        best_idle(procs, procs.len() as int) >= 0 ==> reap(procs, m).procs[best_idle(
            reap(procs, m).procs,
            reap(procs, m).procs.len() as int,
        )] == procs[best_idle(procs, procs.len() as int)],
        none_running(procs) ==> none_running(reap(procs, m).procs),
    decreases procs.len(),
{
    lemma_first_finished(procs, 0);
    let k = first_finished(procs, 0);
    if 0 <= k < procs.len() && blocks_intact(procs[k], m) {
        lemma_choice_without(procs, k);
        lemma_choice_after_reap(procs.remove(k), released(procs[k], m));
    }
}

/// Where no process runs, at least one is idle, the cookies of the
/// finished ones are in order and the best idle process has a saved stack
/// pointer, one scheduling pass puts that process on the processor and no
/// other: the idle process with the lowest priority value, the oldest among
/// equals.
pub proof fn lemma_schedule_runs_best_idle(t: TableModel, m: HeapModel, handoff: Handoff, i: int)
    requires
        t.sound(),
        0 <= i < t.procs.len(),
        t.procs[i].status == ProcStatus::Idle,
        none_running(t.procs),
        reap(t.procs, m).ok,
        t.procs[best_idle(t.procs, t.procs.len() as int)].stored_sp != 0,
    ensures
        0 <= best_idle(t.procs, t.procs.len() as int) < t.procs.len(),
        t.procs[best_idle(t.procs, t.procs.len() as int)].status == ProcStatus::Idle,
        forall|j: int|
            0 <= j < t.procs.len() && (#[trigger] t.procs[j]).status == ProcStatus::Idle
                ==> t.procs[best_idle(t.procs, t.procs.len() as int)].priority
                <= t.procs[j].priority,
        forall|j: int|
            0 <= j < best_idle(t.procs, t.procs.len() as int) && (#[trigger] t.procs[j]).status
                == ProcStatus::Idle ==> t.procs[best_idle(t.procs, t.procs.len() as int)].priority
                < t.procs[j].priority,
        schedule(t, m, handoff).result == Ok::<u16, SchedError>(
            t.procs[best_idle(t.procs, t.procs.len() as int)].proc_id,
        ),
        schedule(t, m, handoff).current_process_id == t.procs[best_idle(
            t.procs,
            t.procs.len() as int,
        )].proc_id,
        schedule(t, m, handoff).next_sp == t.procs[best_idle(
            t.procs,
            t.procs.len() as int,
        )].stored_sp,
        forall|j: int|
            0 <= j < schedule(t, m, handoff).procs.len() && (#[trigger] schedule(
                t,
                m,
                handoff,
            ).procs[j]).status == ProcStatus::Running ==> schedule(t, m, handoff).procs[j]
                == with_status(
                t.procs[best_idle(t.procs, t.procs.len() as int)],
                ProcStatus::Running,
            ),
        exists|j: int|
            0 <= j < schedule(t, m, handoff).procs.len() && (#[trigger] schedule(
                t,
                m,
                handoff,
            ).procs[j]).status == ProcStatus::Running,
        forall|j: int, k: int|
            0 <= j < schedule(t, m, handoff).procs.len() && 0 <= k < schedule(
                t,
                m,
                handoff,
            ).procs.len() && (#[trigger] schedule(t, m, handoff).procs[j]).status
                == ProcStatus::Running && (#[trigger] schedule(t, m, handoff).procs[k]).status
                == ProcStatus::Running ==> j == k,
{
    let b = best_idle(t.procs, t.procs.len() as int);
    lemma_best_idle(t.procs, t.procs.len() as int);
    assert(t.procs[i].status == ProcStatus::Idle);
    let reaped = reap(t.procs, m);
    let procs = reaped.procs;
    let n = best_idle(procs, procs.len() as int);
    lemma_choice_after_reap(t.procs, m);
    lemma_best_idle(procs, procs.len() as int);
    lemma_last_running(procs, procs.len() as int);
    let r = last_running(procs, procs.len() as int);
    assert(r < 0) by {
        if r >= 0 {
            assert(procs[r].status == ProcStatus::Running);
        }
    }
    let s = schedule(t, m, handoff);
    assert(s.procs == procs.update(n, with_status(procs[n], ProcStatus::Running)));
    assert(s.procs[n].status == ProcStatus::Running);
    assert forall|j: int|
        0 <= j < s.procs.len() && (#[trigger] s.procs[j]).status
            == ProcStatus::Running implies j == n by {
        if j != n {
            assert(s.procs[j] == procs[j]);
        }
    }
}

/// Where every process is finished, one scheduling pass puts none on the
/// processor: with all cookies in order it empties the table, sets the
/// current identifier to zero and reports that there is nothing to run.
pub proof fn lemma_schedule_halts_when_all_finished(t: TableModel, m: HeapModel, handoff: Handoff)
    requires
        forall|j: int| 0 <= j < t.procs.len() ==> (#[trigger] t.procs[j]).status == ProcStatus::Finished,
    ensures
        schedule(t, m, handoff).result is Err,
        schedule(t, m, handoff).next_sp == handoff.next_sp,
        reap(t.procs, m).ok ==> {
            &&& schedule(t, m, handoff).result == Err::<u16, SchedError>(SchedError::NothingToRun)
            &&& schedule(t, m, handoff).procs.len() == 0
            &&& schedule(t, m, handoff).current_process_id == 0
        },
        !reap(t.procs, m).ok ==> schedule(t, m, handoff).result == Err::<u16, SchedError>(
            SchedError::HeapCorrupted,
        ),
{
    let reaped = reap(t.procs, m);
    lemma_reap_clean(t.procs, m);
    lemma_alive_none(t.procs);
    if reaped.ok {
        lemma_alive_all(reaped.procs);
        assert(reaped.procs.len() == 0);
    }
}

} // verus!
