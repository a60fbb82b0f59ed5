//! The process table: creating, finding, ending and listing processes.

use vstd::prelude::*;
use crate::proc::model::{index_of_id, lemma_status_keeps_sound, TableModel};
use crate::proc::process::{ProcStatus, Process};
use crate::utils::linked_list::LinkedList;

verus! {

/// The processes of the system and the identifier of the current one.
pub struct SystemProcess {
    pub(super) last_proc_id: u16,
    pub(super) process_list: LinkedList<Process>,
    pub(super) current_process_id: u16,
}

impl SystemProcess {
    /// What the table holds.
    pub closed spec fn view(&self) -> TableModel {
        TableModel {
            procs: self.process_list@,
            last_proc_id: self.last_proc_id,
            current_process_id: self.current_process_id,
        }
    }

    /// The list is sound and so is what it holds.
    pub closed spec fn wf(&self) -> bool {
        self.process_list.wf() && self@.sound()
    }

    /// What the view and soundness are made of, for the rest of this
    /// module's family.
    pub(super) proof fn lemma_unfold(&self)
        ensures
            self@ == (TableModel {
                procs: self.process_list@,
                last_proc_id: self.last_proc_id,
                current_process_id: self.current_process_id,
            }),
            self.wf() == (self.process_list.wf() && self@.sound()),
    {
    }

    /// The table at boot: no process, no identifier given.
    pub fn new() -> (table: SystemProcess)
        ensures
            table.wf(),
            table@ == TableModel::empty(),
    {
        let table = SystemProcess {
            last_proc_id: 0,
            process_list: LinkedList::new(),
            current_process_id: 0,
        };
        proof {
            reveal(TableModel::sound);
        }
        table
    }

    /// The record of the process with identifier `proc_id`.
    pub fn get_process_by_id(&mut self, proc_id: u16) -> (found: Option<Process>)
        requires
            old(self).wf(),
        ensures
            *final(self) == *old(self),
            found == (if old(self)@.has(proc_id) {
                Some(old(self)@.procs[old(self)@.find(proc_id)])
            } else {
                None
            }),
    {
        let mut it = self.process_list.iter();
        let ghost procs = self.process_list@;
        loop
            invariant
                it.wf(),
                it.list() == self.process_list,
                procs == self.process_list@,
                *self == *old(self),
                0 <= it.pos() <= procs.len(),
                index_of_id(procs, proc_id, 0) == index_of_id(procs, proc_id, it.pos()),
            decreases procs.len() - it.pos(),
        {
            match it.next() {
                Some(process) => {
                    if process.proc_id == proc_id {
                        return Some(process);
                    }
                },
                None => {
                    return None;
                },
            }
        }
    }

    /// The record of the current process.
    pub fn get_current_process(&mut self) -> (found: Option<Process>)
        requires
            old(self).wf(),
        ensures
            *final(self) == *old(self),
            found == (if old(self)@.has(old(self)@.current_process_id) {
                Some(old(self)@.procs[old(self)@.find(old(self)@.current_process_id)])
            } else {
                None
            }),
    {
        let id = self.current_process_id;
        self.get_process_by_id(id)
    }

    /// The priority of the current process; 255 if the table does not hold
    /// it.
    pub fn get_current_priority_process(&mut self) -> (priority: u8)
        requires
            old(self).wf(),
        ensures
            *final(self) == *old(self),
            priority == (if old(self)@.has(old(self)@.current_process_id) {
                old(self)@.procs[old(self)@.find(old(self)@.current_process_id)].priority
            } else {
                255
            }),
    {
        let id = self.current_process_id;
        match self.get_process_by_id(id) {
            Some(process) => process.priority,
            None => 255,
        }
    }

    /// A new identifier: one more than the last.
    pub(super) fn get_new_proc_id(&mut self) -> (id: u16)
        requires
            old(self).last_proc_id < u16::MAX,
        ensures
            id == old(self).last_proc_id + 1,
            final(self).last_proc_id == id,
            final(self).process_list == old(self).process_list,
            final(self).current_process_id == old(self).current_process_id,
    {
        self.last_proc_id = self.last_proc_id + 1;
        self.last_proc_id
    }

    /// Marks the current process finished. Its memory stays: the next
    /// scheduling pass gives it back.
    pub fn exit_current_process(&mut self)
        requires
            old(self).wf(),
        ensures
            final(self).wf(),
            final(self)@ == old(self)@.after_exit(),
    {
        let id = self.current_process_id;
        let ghost procs = self.process_list@;
        let mut it = self.process_list.iter_mut();
        loop
            invariant
                it.wf(self.process_list),
                procs == self.process_list@,
                procs == old(self).process_list@,
                self.last_proc_id == old(self).last_proc_id,
                self.current_process_id == old(self).current_process_id,
                id == self.current_process_id,
                old(self)@.sound(),
                0 <= it.pos() <= procs.len(),
                index_of_id(procs, id, 0) == index_of_id(procs, id, it.pos()),
            decreases procs.len() - it.pos(),
        {
            let ghost pos = it.pos();
            match it.next(&mut self.process_list) {
                Some(process) => {
                    if process.proc_id == id {
                        process.status = ProcStatus::Finished;
                        proof {
                            lemma_status_keeps_sound(old(self)@, pos, ProcStatus::Finished);
                        }
                        return ;
                    }
                    assert(self.process_list@ =~= procs);
                },
                None => {
                    return ;
                },
            }
        }
    }

    /// The table line by line: identifier, name and status code of each
    /// process, oldest first.
    pub fn list_proc(&mut self) -> (lines: Vec<(u16, &'static str, u8)>)
        requires
            old(self).wf(),
        ensures
            *final(self) == *old(self),
            lines@.len() == old(self)@.procs.len(),
            forall|i: int|
                0 <= i < lines@.len() ==> #[trigger] lines@[i] == (
                    old(self)@.procs[i].proc_id,
                    old(self)@.procs[i].proc_name,
                    old(self)@.procs[i].status.code_spec(),
                ),
    {
        let mut lines: Vec<(u16, &'static str, u8)> = Vec::new();
        let mut it = self.process_list.iter();
        let ghost procs = self.process_list@;
        loop
            invariant
                it.wf(),
                it.list() == self.process_list,
                procs == self.process_list@,
                *self == *old(self),
                0 <= it.pos() <= procs.len(),
                lines@.len() == it.pos(),
                forall|i: int|
                    0 <= i < lines@.len() ==> #[trigger] lines@[i] == (
                        procs[i].proc_id,
                        procs[i].proc_name,
                        procs[i].status.code_spec(),
                    ),
            decreases procs.len() - it.pos(),
        {
            match it.next() {
                Some(process) => {
                    lines.push((process.proc_id, process.proc_name, process.status.code()));
                },
                None => {
                    return lines;
                },
            }
        }
    }
}

} // verus!
