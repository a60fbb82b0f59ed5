//! The scheduling pass: reap what is finished, park what ran, pick what
//! runs next.

use vstd::prelude::*;
use crate::memory_management::heap::Heap;
use crate::proc::model::{
    index_of_id,
    lemma_find_own,
    lemma_idle_table_sound,
    lemma_index_same_ids,
    lemma_one_running,
    lemma_owns_update,
    lemma_rewrite_keeps_sound,
    lemma_run_keeps_sound,
    owns,
    parked,
    with_status,
    TableModel,
};
use crate::proc::policy::{
    alive,
    best_idle,
    first_finished,
    last_running,
    lemma_alive_remove,
    lemma_alive_update,
    lemma_best_idle,
    lemma_best_idle_is,
    lemma_first_finished,
    lemma_last_running,
    lemma_reap_single,
    reap,
    schedule,
    Handoff,
    SchedError,
};
use crate::proc::process::{ProcStatus, Process};
use crate::proc::table::SystemProcess;

verus! {

impl SystemProcess {
    /// The identifier of the oldest finished process.
    fn find_finished(&mut self) -> (found: Option<u16>)
        requires
            old(self).process_list.wf(),
        ensures
            *final(self) == *old(self),
            found == (if first_finished(old(self).process_list@, 0) < old(self).process_list@.len() {
                Some(old(self).process_list@[first_finished(old(self).process_list@, 0)].proc_id)
            } else {
                None
            }),
    {
        let mut it = self.process_list.iter();
        let ghost procs = self.process_list@;
        loop
            invariant
                it.wf(),
                it.list() == self.process_list,
                procs == self.process_list@,
                *self == *old(self),
                0 <= it.pos() <= procs.len(),
                first_finished(procs, 0) == first_finished(procs, it.pos()),
            decreases procs.len() - it.pos(),
        {
            match it.next() {
                Some(process) => {
                    if process.status == ProcStatus::Finished {
                        return Some(process.proc_id);
                    }
                },
                None => {
                    return None;
                },
            }
        }
    }

    /// The lowest priority value among the idle processes.
    fn min_idle_priority(&mut self) -> (lowest: Option<u8>)
        requires
            old(self).process_list.wf(),
        ensures
            *final(self) == *old(self),
            lowest == (if best_idle(
                old(self).process_list@,
                old(self).process_list@.len() as int,
            ) >= 0 {
                Some(
                    old(self).process_list@[best_idle(
                        old(self).process_list@,
                        old(self).process_list@.len() as int,
                    )].priority,
                )
            } else {
                None
            }),
    {
        let mut lowest: Option<u8> = None;
        let mut it = self.process_list.iter();
        let ghost procs = self.process_list@;
        loop
            invariant
                it.wf(),
                it.list() == self.process_list,
                procs == self.process_list@,
                *self == *old(self),
                0 <= it.pos() <= procs.len(),
                -1 <= best_idle(procs, it.pos()) < it.pos(),
                lowest == (if best_idle(procs, it.pos()) >= 0 {
                    Some(procs[best_idle(procs, it.pos())].priority)
                } else {
                    None
                }),
            decreases procs.len() - it.pos(),
        {
            proof {
                lemma_best_idle(procs, it.pos());
            }
            match it.next() {
                Some(process) => {
                    if process.status == ProcStatus::Idle {
                        match lowest {
                            Some(priority) => {
                                if process.priority < priority {
                                    lowest = Some(process.priority);
                                }
                            },
                            None => {
                                lowest = Some(process.priority);
                            },
                        }
                    }
                },
                None => {
                    return lowest;
                },
            }
        }
    }

    /// The running process, and the oldest idle process with the priority
    /// value `lowest`, which is the lowest among the idle.
    fn find_running_and_next(&mut self, lowest: Option<u8>) -> (found: (
        Option<Process>,
        Option<Process>,
    ))
        requires
            old(self).process_list.wf(),
            lowest == (if best_idle(
                old(self).process_list@,
                old(self).process_list@.len() as int,
            ) >= 0 {
                Some(
                    old(self).process_list@[best_idle(
                        old(self).process_list@,
                        old(self).process_list@.len() as int,
                    )].priority,
                )
            } else {
                None
            }),
        ensures
            *final(self) == *old(self),
            found.0 == (if last_running(
                old(self).process_list@,
                old(self).process_list@.len() as int,
            ) >= 0 {
                Some(
                    old(self).process_list@[last_running(
                        old(self).process_list@,
                        old(self).process_list@.len() as int,
                    )],
                )
            } else {
                None
            }),
            found.1 == (if best_idle(
                old(self).process_list@,
                old(self).process_list@.len() as int,
            ) >= 0 {
                Some(
                    old(self).process_list@[best_idle(
                        old(self).process_list@,
                        old(self).process_list@.len() as int,
                    )],
                )
            } else {
                None
            }),
    {
        let mut current_process: Option<Process> = None;
        let mut next_process: Option<Process> = None;
        let ghost mut picked: int = -1;
        let mut it = self.process_list.iter();
        let ghost procs = self.process_list@;
        let ghost best = best_idle(procs, procs.len() as int);
        proof {
            lemma_best_idle(procs, procs.len() as int);
        }
        loop
            invariant
                it.wf(),
                it.list() == self.process_list,
                procs == self.process_list@,
                *self == *old(self),
                0 <= it.pos() <= procs.len(),
                best == best_idle(procs, procs.len() as int),
                -1 <= best < procs.len(),
                lowest == (if best >= 0 {
                    Some(procs[best].priority)
                } else {
                    None
                }),
                -1 <= last_running(procs, it.pos()) < it.pos(),
                current_process == (if last_running(procs, it.pos()) >= 0 {
                    Some(procs[last_running(procs, it.pos())])
                } else {
                    None
                }),
                -1 <= picked < it.pos(),
                next_process == (if picked >= 0 {
                    Some(procs[picked])
                } else {
                    None
                }),
                picked >= 0 ==> procs[picked].status == ProcStatus::Idle && lowest == Some(
                    procs[picked].priority,
                ),
                forall|j: int|
                    0 <= j < (if picked >= 0 {
                        picked
                    } else {
                        it.pos()
                    }) ==> !((#[trigger] procs[j]).status == ProcStatus::Idle && lowest == Some(
                        procs[j].priority,
                    )),
            decreases procs.len() - it.pos(),
        {
            proof {
                lemma_last_running(procs, it.pos());
            }
            let ghost pos = it.pos();
            match it.next() {
                Some(process) => {
                    if process.status == ProcStatus::Running {
                        current_process = Some(process);
                    } else if process.status == ProcStatus::Idle {
                        match lowest {
                            Some(priority) => {
                                if process.priority == priority && next_process.is_none() {
                                    next_process = Some(process);
                                    proof {
                                        picked = pos;
                                    }
                                }
                            },
                            None => {},
                        }
                    }
                },
                None => {
                    proof {
                        lemma_best_idle(procs, procs.len() as int);
                        if picked >= 0 {
                            assert forall|j: int|
                                0 <= j < procs.len() && (#[trigger] procs[j]).status
                                    == ProcStatus::Idle implies procs[picked].priority
                                <= procs[j].priority by {}
                            assert forall|j: int|
                                0 <= j < picked && (#[trigger] procs[j]).status
                                    == ProcStatus::Idle implies procs[picked].priority
                                < procs[j].priority by {}
                            lemma_best_idle_is(procs, picked);
                        } else if best >= 0 {
                            assert(procs[best].status == ProcStatus::Idle);
                        }
                    }
                    return (current_process, next_process);
                },
            }
        }
    }

    /// Gives the process `proc_id` another status and saved stack pointer.
    fn store_process(&mut self, proc_id: u16, status: ProcStatus, stored_sp: u32)
        requires
            old(self).process_list.wf(),
        ensures
            final(self).process_list.wf(),
            final(self).last_proc_id == old(self).last_proc_id,
            final(self).current_process_id == old(self).current_process_id,
            final(self).process_list@ == (if index_of_id(old(self).process_list@, proc_id, 0) < old(
                self,
            ).process_list@.len() {
                old(self).process_list@.update(
                    index_of_id(old(self).process_list@, proc_id, 0),
                    Process {
                        status,
                        stored_sp,
                        ..old(self).process_list@[index_of_id(old(self).process_list@, proc_id, 0)]
                    },
                )
            } else {
                old(self).process_list@
            }),
    {
        let ghost procs = self.process_list@;
        let mut it = self.process_list.iter_mut();
        loop
            invariant
                it.wf(self.process_list),
                procs == self.process_list@,
                procs == old(self).process_list@,
                self.last_proc_id == old(self).last_proc_id,
                self.current_process_id == old(self).current_process_id,
                0 <= it.pos() <= procs.len(),
                index_of_id(procs, proc_id, 0) == index_of_id(procs, proc_id, it.pos()),
            decreases procs.len() - it.pos(),
        {
            match it.next(&mut self.process_list) {
                Some(process) => {
                    if process.proc_id == proc_id {
                        process.status = status;
                        process.stored_sp = stored_sp;
                        return ;
                    }
                    assert(self.process_list@ =~= procs);
                },
                None => {
                    return ;
                },
            }
        }
    }

    /// Takes the finished processes out of the table and gives their
    /// blocks back, oldest first; stops at the first with a damaged cookie.
    fn reap_finished(&mut self, heap: &mut Heap) -> (clean: bool)
        requires
            old(self).wf(),
            old(heap).wf(),
            owns(old(self)@.procs, old(heap)@),
        ensures
            final(self).wf(),
            final(heap).wf(),
            owns(final(self)@.procs, final(heap)@),
            final(self)@.last_proc_id == old(self)@.last_proc_id,
            final(self)@.current_process_id == old(self)@.current_process_id,
            final(self)@.procs == reap(old(self)@.procs, old(heap)@).procs,
            final(heap)@ == reap(old(self)@.procs, old(heap)@).heap,
            clean == reap(old(self)@.procs, old(heap)@).ok,
            alive(final(self)@.procs) == alive(old(self)@.procs),
            clean ==> forall|j: int|
                0 <= j < final(self)@.procs.len() ==> (#[trigger] final(self)@.procs[j]).status
                    != ProcStatus::Finished,
    {
        loop
            invariant
                self.wf(),
                heap.wf(),
                owns(self@.procs, heap@),
                self@.last_proc_id == old(self)@.last_proc_id,
                self@.current_process_id == old(self)@.current_process_id,
                reap(self@.procs, heap@) == reap(old(self)@.procs, old(heap)@),
                alive(self@.procs) == alive(old(self)@.procs),
            decreases self@.procs.len(),
        {
            let ghost t = self@;
            let ghost m = heap@;
            proof {
                self.lemma_unfold();
                lemma_first_finished(t.procs, 0);
            }
            match self.find_finished() {
                Some(proc_id) => {
                    proof {
                        self.lemma_unfold();
                        lemma_find_own(t, first_finished(t.procs, 0));
                        lemma_alive_remove(t.procs, first_finished(t.procs, 0));
                    }
                    match self.kill_process(heap, proc_id) {
                        Ok(_) => {},
                        Err(_) => {
                            return false;
                        },
                    }
                },
                None => {
                    proof {
                        self.lemma_unfold();
                    }
                    return true;
                },
            }
        }
    }

    /// Picks the next process to run. Finished processes are reaped first.
    /// The running process, if there is one, becomes idle and gets the
    /// current stack pointer of the handoff as its saved one. Of the idle
    /// processes the one with the lowest priority value runs next, the
    /// oldest among equals: its saved stack pointer goes into the handoff
    /// and its identifier becomes the current one. An idle process whose
    /// saved stack pointer is zero cannot run: it is marked finished and the
    /// pass starts over. With no idle process the running one runs on. With
    /// nothing to run, or a damaged cookie in a block to give back, the
    /// error says so: the kernel has to halt.
    pub fn schedule_next_process(&mut self, heap: &mut Heap, handoff: &mut Handoff) -> (result: Result<
        u16,
        SchedError,
    >)
        requires
            old(self).wf(),
            old(heap).wf(),
            owns(old(self)@.procs, old(heap)@),
        ensures
            final(self).wf(),
            final(heap).wf(),
            owns(final(self)@.procs, final(heap)@),
            final(self)@ == (TableModel {
                procs: schedule(old(self)@, old(heap)@, *old(handoff)).procs,
                last_proc_id: old(self)@.last_proc_id,
                current_process_id: schedule(
                    old(self)@,
                    old(heap)@,
                    *old(handoff),
                ).current_process_id,
            }),
            final(heap)@ == schedule(old(self)@, old(heap)@, *old(handoff)).heap,
            *final(handoff) == (Handoff {
                current_sp: old(handoff).current_sp,
                next_sp: schedule(old(self)@, old(heap)@, *old(handoff)).next_sp,
            }),
            result == schedule(old(self)@, old(heap)@, *old(handoff)).result,
        decreases alive(old(self)@.procs),
    {
        if !self.reap_finished(heap) {
            return Err(SchedError::HeapCorrupted);
        }
        let ghost t1 = self@;
        let ghost m1 = heap@;
        let ghost procs = t1.procs;
        let ghost r = last_running(procs, procs.len() as int);
        let ghost n = best_idle(procs, procs.len() as int);
        proof {
            self.lemma_unfold();
            lemma_best_idle(procs, procs.len() as int);
            lemma_last_running(procs, procs.len() as int);
        }
        let lowest = self.min_idle_priority();
        let (current_process, next_process) = self.find_running_and_next(lowest);
        let ghost rested = if r >= 0 {
            procs.update(r, parked(procs[r], handoff.current_sp))
        } else {
            procs
        };
        if let Some(current) = current_process {
            proof {
                lemma_find_own(t1, r);
            }
            self.store_process(current.proc_id, ProcStatus::Idle, handoff.current_sp);
        }
        let ghost t2 = TableModel { procs: rested, ..t1 };
        proof {
            self.lemma_unfold();
            assert(self.process_list@ == rested);
            if r >= 0 {
                lemma_rewrite_keeps_sound(t1, r, parked(procs[r], handoff.current_sp));
                lemma_owns_update(procs, m1, r, parked(procs[r], handoff.current_sp));
                lemma_alive_update(procs, r, parked(procs[r], handoff.current_sp));
            }
            assert forall|j: int| 0 <= j < rested.len() implies (#[trigger] rested[j]).status
                != ProcStatus::Running && rested[j].status != ProcStatus::Finished
                && rested[j].proc_id == procs[j].proc_id by {
                if j != r {
                    assert(procs[j].status != ProcStatus::Finished);
                    if procs[j].status == ProcStatus::Running {
                        lemma_one_running(t1, j, r);
                    }
                }
            }
        }
        match next_process {
            Some(next) => {
                proof {
                    lemma_find_own(t1, n);
                    lemma_index_same_ids(procs, rested, next.proc_id, 0);
                    assert(rested[n] == next);
                }
                if next.stored_sp != 0 {
                    self.store_process(next.proc_id, ProcStatus::Running, next.stored_sp);
                    handoff.next_sp = next.stored_sp;
                    self.current_process_id = next.proc_id;
                    proof {
                        self.lemma_unfold();
                        lemma_run_keeps_sound(t2, n, with_status(next, ProcStatus::Running));
                        lemma_owns_update(rested, m1, n, with_status(next, ProcStatus::Running));
                    }
                    Ok(next.proc_id)
                } else {
                    self.store_process(next.proc_id, ProcStatus::Finished, next.stored_sp);
                    proof {
                        self.lemma_unfold();
                        let marked = rested.update(n, with_status(next, ProcStatus::Finished));
                        lemma_rewrite_keeps_sound(t2, n, with_status(next, ProcStatus::Finished));
                        lemma_owns_update(rested, m1, n, with_status(next, ProcStatus::Finished));
                        lemma_alive_update(rested, n, with_status(next, ProcStatus::Finished));
                        lemma_reap_single(marked, m1, n);
                        assert(marked.remove(n) =~= rested.remove(n));
                    }
                    self.schedule_next_process(heap, handoff)
                }
            },
            None => {
                match current_process {
                    Some(current) => {
                        proof {
                            lemma_find_own(t1, r);
                            lemma_index_same_ids(procs, rested, current.proc_id, 0);
                        }
                        self.store_process(current.proc_id, ProcStatus::Running, handoff.current_sp);
                        handoff.next_sp = handoff.current_sp;
                        self.current_process_id = current.proc_id;
                        proof {
                            self.lemma_unfold();
                            let runs = with_status(
                                parked(procs[r], handoff.current_sp),
                                ProcStatus::Running,
                            );
                            assert(rested.update(r, runs) =~= procs.update(r, runs));
                            lemma_run_keeps_sound(t2, r, runs);
                            lemma_owns_update(rested, m1, r, runs);
                        }
                        Ok(current.proc_id)
                    },
                    None => {
                        self.current_process_id = 0;
                        proof {
                            self.lemma_unfold();
                            lemma_idle_table_sound(t1, 0);
                        }
                        Err(SchedError::NothingToRun)
                    },
                }
            },
        }
    }
}

} // verus!
