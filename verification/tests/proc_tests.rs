use krust::memory_management::heap::{
    allocate, check_cookie, get_free_heap_size, initialize_heap, read_byte, write_byte, Heap,
    BLOCK_HEADER_SIZE, HEAP_SIZE,
};
use krust::proc::lifecycle::{create_init_stack_frame, initial_stack_frame, load_process_code};
use krust::proc::model::{ProcError, DEFAULT_STACK_SIZE, INIT_STACK_FRAME_SIZE};
use krust::proc::policy::{Handoff, SchedError};
use krust::proc::process::{same_text, ProcStatus, Process};
use krust::proc::table::SystemProcess;

const CODE: [u8; 8] = [0x0b, 0x4a, 0x0c, 0x49, 0x00, 0xdf, 0xfe, 0xe7];

fn boot() -> (SystemProcess, Heap, Handoff) {
    let mut heap = Heap::new();
    initialize_heap(&mut heap);
    (SystemProcess::new(), heap, Handoff { current_sp: 0, next_sp: 0 })
}

fn status_of(table: &mut SystemProcess, id: u16) -> Option<ProcStatus> {
    table.get_process_by_id(id).map(|p| p.status)
}

fn ids(table: &mut SystemProcess) -> Vec<u16> {
    table.list_proc().iter().map(|l| l.0).collect()
}

#[test]
fn status_codes() {
    assert_eq!(ProcStatus::Idle.code(), 0);
    assert_eq!(ProcStatus::Running.code(), 1);
    assert_eq!(ProcStatus::Waiting.code(), 2);
    assert_eq!(ProcStatus::Finished.code(), 3);
    assert_eq!(ProcStatus::default(), ProcStatus::Idle);
}

#[test]
fn same_text_compares_bytes() {
    assert!(same_text("alpha", "alpha"));
    assert!(!same_text("alpha", "alphb"));
    assert!(!same_text("alpha", "alph"));
    assert!(same_text("", ""));
}

#[test]
fn process_records_compare_by_every_field() {
    let p = Process::new("p", 1, 100, 200, 300, 4);
    assert!(p == Process::new("p", 1, 100, 200, 300, 4));
    assert!(p != Process::new("q", 1, 100, 200, 300, 4));
    assert!(p != Process::new("p", 2, 100, 200, 300, 4));
    assert!(p != Process::new("p", 1, 101, 200, 300, 4));
    assert!(p != Process::new("p", 1, 100, 201, 300, 4));
    assert!(p != Process::new("p", 1, 100, 200, 301, 4));
    assert!(p != Process::new("p", 1, 100, 200, 300, 5));
    let mut q = p;
    q.status = ProcStatus::Running;
    assert!(p != q);
    assert_eq!(p.get_stack_ptr(), 200);
    assert_eq!(p.get_entry_point(), 300);
    assert_eq!(p.status, ProcStatus::Idle);
}

#[test]
fn initial_frame_has_the_known_bytes() {
    let frame = initial_stack_frame(0x0800_1235);
    let mut expected = vec![0u8; 56];
    expected.extend_from_slice(&[0x35, 0x12, 0x00, 0x08]);
    expected.extend_from_slice(&[0x00, 0x00, 0x00, 0x01]);
    assert_eq!(frame, expected);
    assert_eq!(frame.len(), INIT_STACK_FRAME_SIZE);
}

#[test]
fn load_process_code_copies_the_prefix() {
    let (_, mut heap, _) = boot();
    let ptr = load_process_code(&mut heap, &CODE, 6);
    assert_eq!(ptr, 24);
    for i in 0..6 {
        assert_eq!(read_byte(&heap, ptr, i), CODE[i]);
    }
    assert_eq!(read_byte(&heap, ptr, 6), 0);
    assert!(check_cookie(&heap, ptr));
    assert_eq!(load_process_code(&mut heap, &CODE, 0), 0);
}

#[test]
fn create_init_stack_frame_writes_at_the_top_of_the_stack() {
    let (_, mut heap, _) = boot();
    let stack = allocate(&mut heap, DEFAULT_STACK_SIZE);
    create_init_stack_frame(&mut heap, stack, 0x1234_5678);
    let top = DEFAULT_STACK_SIZE - INIT_STACK_FRAME_SIZE;
    for i in 0..top + 56 {
        assert_eq!(read_byte(&heap, stack, i), 0);
    }
    assert_eq!(read_byte(&heap, stack, top + 56), 0x78);
    assert_eq!(read_byte(&heap, stack, top + 57), 0x56);
    assert_eq!(read_byte(&heap, stack, top + 58), 0x34);
    assert_eq!(read_byte(&heap, stack, top + 59), 0x12);
    assert_eq!(read_byte(&heap, stack, top + 60), 0x00);
    assert_eq!(read_byte(&heap, stack, top + 63), 0x01);
    assert!(check_cookie(&heap, stack));
}

#[test]
fn new_table_is_empty() {
    let (mut table, _, _) = boot();
    assert!(table.list_proc().is_empty());
    assert!(table.get_process_by_id(1).is_none());
    assert!(table.get_current_process().is_none());
    assert_eq!(table.get_current_priority_process(), 255);
}

#[test]
fn create_process_builds_the_record() {
    let (mut table, mut heap, _) = boot();
    let pid = table.create_process(&mut heap, "proc_1", &CODE, CODE.len(), 1);
    assert_eq!(pid, Ok(1));
    let p = table.get_process_by_id(1).expect("No process with this ID");
    assert_eq!(p.proc_name, "proc_1");
    assert_eq!(p.proc_id, 1);
    assert_eq!(p.status, ProcStatus::Idle);
    assert_eq!(p.priority, 1);
    // The code takes the first block: 8 bytes need 24 with header and cookie.
    assert_eq!(p.get_entry_point(), 24);
    assert_eq!(p.stack, 24 + 24);
    assert_eq!(
        p.get_stack_ptr() as usize,
        p.stack + DEFAULT_STACK_SIZE - INIT_STACK_FRAME_SIZE
    );
    for i in 0..CODE.len() {
        assert_eq!(read_byte(&heap, p.entry_point, i), CODE[i]);
    }
    let top = DEFAULT_STACK_SIZE - INIT_STACK_FRAME_SIZE;
    assert_eq!(read_byte(&heap, p.stack, top + 56), 24);
    assert_eq!(read_byte(&heap, p.stack, top + 63), 0x01);
    assert!(check_cookie(&heap, p.entry_point));
    assert!(check_cookie(&heap, p.stack));
    assert_eq!(
        get_free_heap_size(&heap),
        HEAP_SIZE - BLOCK_HEADER_SIZE - 24 - (DEFAULT_STACK_SIZE + 16)
    );
}

#[test]
fn identifiers_rise_and_are_not_given_twice() {
    let (mut table, mut heap, _) = boot();
    assert_eq!(table.create_process(&mut heap, "a", &CODE, 8, 0), Ok(1));
    assert_eq!(table.create_process(&mut heap, "b", &CODE, 8, 0), Ok(2));
    assert_eq!(table.kill_process(&mut heap, 2), Ok(()));
    assert_eq!(table.create_process(&mut heap, "c", &CODE, 8, 0), Ok(3));
    assert_eq!(ids(&mut table), vec![1, 3]);
}

#[test]
fn create_process_without_code() {
    let (mut table, mut heap, _) = boot();
    assert_eq!(table.create_process(&mut heap, "empty", &CODE, 0, 3), Ok(1));
    let p = table.get_process_by_id(1).unwrap();
    assert_eq!(p.entry_point, 0);
    assert_eq!(p.stack, 24);
    assert_eq!(table.kill_process(&mut heap, 1), Ok(()));
    assert_eq!(get_free_heap_size(&heap), HEAP_SIZE - BLOCK_HEADER_SIZE);
}

#[test]
fn create_process_out_of_memory_for_the_code() {
    let (mut table, mut heap, _) = boot();
    let big = vec![0u8; HEAP_SIZE];
    let free = get_free_heap_size(&heap);
    assert_eq!(
        table.create_process(&mut heap, "big", &big, big.len(), 0),
        Err(ProcError::OutOfMemory)
    );
    assert_eq!(get_free_heap_size(&heap), free);
    assert!(table.list_proc().is_empty());
    assert_eq!(table.create_process(&mut heap, "small", &CODE, 8, 0), Ok(1));
}

#[test]
fn create_process_out_of_memory_for_the_stack() {
    let (mut table, mut heap, _) = boot();
    // Leave less than a stack: one block takes all but 600 bytes.
    let filler = HEAP_SIZE - BLOCK_HEADER_SIZE - 16 - 600;
    assert_ne!(allocate(&mut heap, filler), 0);
    let free = get_free_heap_size(&heap);
    assert_eq!(free, 600);
    assert_eq!(
        table.create_process(&mut heap, "p", &CODE, 8, 0),
        Err(ProcError::OutOfMemory)
    );
    assert_eq!(get_free_heap_size(&heap), free);
    assert!(table.list_proc().is_empty());
}

#[test]
fn create_process_out_of_identifiers() {
    let (mut table, mut heap, _) = boot();
    for n in 1..=u16::MAX {
        assert_eq!(table.create_process(&mut heap, "p", &CODE, 0, 0), Ok(n));
        assert_eq!(table.kill_process(&mut heap, n), Ok(()));
    }
    let free = get_free_heap_size(&heap);
    assert_eq!(
        table.create_process(&mut heap, "p", &CODE, 0, 0),
        Err(ProcError::OutOfIds)
    );
    assert_eq!(get_free_heap_size(&heap), free);
}

#[test]
fn test_list_proc() {
    let (mut table, mut heap, _) = boot();
    table.create_process(&mut heap, "Process 1", &CODE, 8, 0).unwrap();
    table.create_process(&mut heap, "Process 2", &CODE, 8, 0).unwrap();
    assert_eq!(
        table.list_proc(),
        vec![(1u16, "Process 1", 0u8), (2u16, "Process 2", 0u8)]
    );
}

#[test]
fn test_kill_proc() {
    let (mut table, mut heap, _) = boot();
    table.create_process(&mut heap, "Process 1", &CODE, 8, 0).unwrap();
    table.create_process(&mut heap, "Process 2", &CODE, 8, 0).unwrap();
    let free = get_free_heap_size(&heap);
    assert_eq!(table.kill_process(&mut heap, 1), Ok(()));
    assert_eq!(table.list_proc(), vec![(2u16, "Process 2", 0u8)]);
    assert_eq!(get_free_heap_size(&heap), free + 24 + DEFAULT_STACK_SIZE + 16);
    assert!(table.get_process_by_id(1).is_none());
}

#[test]
fn kill_unknown_process_changes_nothing() {
    let (mut table, mut heap, _) = boot();
    table.create_process(&mut heap, "p", &CODE, 8, 0).unwrap();
    let free = get_free_heap_size(&heap);
    assert_eq!(table.kill_process(&mut heap, 9), Ok(()));
    assert_eq!(ids(&mut table), vec![1]);
    assert_eq!(get_free_heap_size(&heap), free);
}

#[test]
fn kill_process_refuses_a_damaged_stack() {
    let (mut table, mut heap, _) = boot();
    table.create_process(&mut heap, "p", &CODE, 8, 0).unwrap();
    let p = table.get_process_by_id(1).unwrap();
    // The stack overflows into its cookie copy.
    write_byte(&mut heap, p.stack, DEFAULT_STACK_SIZE, 0x00);
    let free = get_free_heap_size(&heap);
    assert_eq!(
        table.kill_process(&mut heap, 1),
        Err(krust::memory_management::heap::HeapError::Corrupted)
    );
    assert_eq!(ids(&mut table), vec![1]);
    assert_eq!(get_free_heap_size(&heap), free);
    assert!(check_cookie(&heap, p.entry_point));
}

#[test]
fn exit_marks_the_current_process_finished_and_frees_nothing() {
    let (mut table, mut heap, mut handoff) = boot();
    table.create_process(&mut heap, "a", &CODE, 8, 0).unwrap();
    table.create_process(&mut heap, "b", &CODE, 8, 1).unwrap();
    assert_eq!(table.schedule_next_process(&mut heap, &mut handoff), Ok(1));
    let free = get_free_heap_size(&heap);
    table.exit_current_process();
    assert_eq!(status_of(&mut table, 1), Some(ProcStatus::Finished));
    assert_eq!(status_of(&mut table, 2), Some(ProcStatus::Idle));
    assert_eq!(get_free_heap_size(&heap), free);
    assert_eq!(ids(&mut table), vec![1, 2]);
}

#[test]
fn exit_without_current_process_changes_nothing() {
    let (mut table, mut heap, _) = boot();
    table.create_process(&mut heap, "a", &CODE, 8, 0).unwrap();
    table.exit_current_process();
    assert_eq!(status_of(&mut table, 1), Some(ProcStatus::Idle));
}

#[test]
fn current_process_and_its_priority() {
    let (mut table, mut heap, mut handoff) = boot();
    table.create_process(&mut heap, "a", &CODE, 8, 7).unwrap();
    assert_eq!(table.get_current_priority_process(), 255);
    assert_eq!(table.schedule_next_process(&mut heap, &mut handoff), Ok(1));
    assert_eq!(table.get_current_priority_process(), 7);
    let p = table.get_current_process().unwrap();
    assert_eq!(p.proc_id, 1);
    assert_eq!(p.status, ProcStatus::Running);
}

#[test]
fn scenario_lower_priority_value_runs_first() {
    let (mut table, mut heap, mut handoff) = boot();
    let alpha = table.create_process(&mut heap, "alpha", &CODE, 8, 0).unwrap();
    let beta = table.create_process(&mut heap, "beta", &CODE, 8, 1).unwrap();
    let alpha_sp = table.get_process_by_id(alpha).unwrap().get_stack_ptr();
    assert_ne!(alpha_sp, 0);
    assert_eq!(table.schedule_next_process(&mut heap, &mut handoff), Ok(alpha));
    assert_eq!(status_of(&mut table, alpha), Some(ProcStatus::Running));
    assert_eq!(status_of(&mut table, beta), Some(ProcStatus::Idle));
    assert_eq!(handoff.next_sp, alpha_sp);
    assert_eq!(handoff.current_sp, 0);
    assert_eq!(table.get_current_process().unwrap().proc_name, "alpha");
}

#[test]
fn scenario_lower_priority_value_runs_first_whatever_the_order() {
    let (mut table, mut heap, mut handoff) = boot();
    let beta = table.create_process(&mut heap, "beta", &CODE, 8, 1).unwrap();
    let alpha = table.create_process(&mut heap, "alpha", &CODE, 8, 0).unwrap();
    assert_eq!(table.schedule_next_process(&mut heap, &mut handoff), Ok(alpha));
    assert_eq!(status_of(&mut table, alpha), Some(ProcStatus::Running));
    assert_eq!(status_of(&mut table, beta), Some(ProcStatus::Idle));
}

#[test]
fn ties_go_to_the_older_process() {
    let (mut table, mut heap, mut handoff) = boot();
    table.create_process(&mut heap, "low", &CODE, 8, 5).unwrap();
    let first = table.create_process(&mut heap, "first", &CODE, 8, 2).unwrap();
    let second = table.create_process(&mut heap, "second", &CODE, 8, 2).unwrap();
    assert_eq!(table.schedule_next_process(&mut heap, &mut handoff), Ok(first));
    assert_eq!(status_of(&mut table, second), Some(ProcStatus::Idle));
    let running: Vec<u16> = table
        .list_proc()
        .iter()
        .filter(|l| l.2 == ProcStatus::Running.code())
        .map(|l| l.0)
        .collect();
    assert_eq!(running, vec![first]);
}

#[test]
fn scenario_exit_then_schedule_reaps_and_promotes() {
    let (mut table, mut heap, mut handoff) = boot();
    let a = table.create_process(&mut heap, "a", &CODE, 8, 0).unwrap();
    let b = table.create_process(&mut heap, "b", &CODE, 8, 2).unwrap();
    let c = table.create_process(&mut heap, "c", &CODE, 8, 1).unwrap();
    assert_eq!(table.schedule_next_process(&mut heap, &mut handoff), Ok(a));
    let free = get_free_heap_size(&heap);
    table.exit_current_process();
    handoff.current_sp = 0x1234;
    assert_eq!(table.schedule_next_process(&mut heap, &mut handoff), Ok(c));
    assert!(table.get_process_by_id(a).is_none());
    assert_eq!(ids(&mut table), vec![b, c]);
    assert_eq!(status_of(&mut table, c), Some(ProcStatus::Running));
    assert_eq!(status_of(&mut table, b), Some(ProcStatus::Idle));
    assert_eq!(get_free_heap_size(&heap), free + 24 + DEFAULT_STACK_SIZE + 16);
    assert_eq!(handoff.next_sp, table.get_process_by_id(c).unwrap().get_stack_ptr());
}

#[test]
fn preempted_process_is_parked_with_the_current_stack_pointer() {
    let (mut table, mut heap, mut handoff) = boot();
    let a = table.create_process(&mut heap, "a", &CODE, 8, 1).unwrap();
    let b = table.create_process(&mut heap, "b", &CODE, 8, 1).unwrap();
    let b_sp = table.get_process_by_id(b).unwrap().get_stack_ptr();
    assert_eq!(table.schedule_next_process(&mut heap, &mut handoff), Ok(a));
    handoff.current_sp = 0x0000_0abc;
    assert_eq!(table.schedule_next_process(&mut heap, &mut handoff), Ok(b));
    let parked = table.get_process_by_id(a).unwrap();
    assert_eq!(parked.status, ProcStatus::Idle);
    assert_eq!(parked.get_stack_ptr(), 0x0000_0abc);
    assert_eq!(handoff.next_sp, b_sp);
    assert_eq!(handoff.current_sp, 0x0000_0abc);
    // And back: the parked process is the only idle one.
    handoff.current_sp = 0x0000_0def;
    assert_eq!(table.schedule_next_process(&mut heap, &mut handoff), Ok(a));
    assert_eq!(handoff.next_sp, 0x0000_0abc);
    assert_eq!(table.get_process_by_id(b).unwrap().get_stack_ptr(), 0x0000_0def);
}

#[test]
fn single_process_runs_on() {
    let (mut table, mut heap, mut handoff) = boot();
    let a = table.create_process(&mut heap, "a", &CODE, 8, 1).unwrap();
    assert_eq!(table.schedule_next_process(&mut heap, &mut handoff), Ok(a));
    handoff.current_sp = 0x0000_0777;
    assert_eq!(table.schedule_next_process(&mut heap, &mut handoff), Ok(a));
    let p = table.get_process_by_id(a).unwrap();
    assert_eq!(p.status, ProcStatus::Running);
    assert_eq!(p.get_stack_ptr(), 0x0000_0777);
    assert_eq!(handoff.next_sp, 0x0000_0777);
}

#[test]
fn running_process_does_not_keep_a_better_idle_one_waiting() {
    let (mut table, mut heap, mut handoff) = boot();
    let a = table.create_process(&mut heap, "a", &CODE, 8, 0).unwrap();
    let b = table.create_process(&mut heap, "b", &CODE, 8, 9).unwrap();
    assert_eq!(table.schedule_next_process(&mut heap, &mut handoff), Ok(a));
    handoff.current_sp = 0x0000_0100;
    // Only the idle compete: b runs although a has the lower value.
    assert_eq!(table.schedule_next_process(&mut heap, &mut handoff), Ok(b));
    handoff.current_sp = 0x0000_0200;
    assert_eq!(table.schedule_next_process(&mut heap, &mut handoff), Ok(a));
}

#[test]
fn empty_table_has_nothing_to_run() {
    let (mut table, mut heap, mut handoff) = boot();
    handoff.next_sp = 0x55;
    assert_eq!(
        table.schedule_next_process(&mut heap, &mut handoff),
        Err(SchedError::NothingToRun)
    );
    assert_eq!(handoff.next_sp, 0x55);
    assert!(table.get_current_process().is_none());
}

#[test]
fn only_finished_processes_halt_the_kernel() {
    let (mut table, mut heap, mut handoff) = boot();
    let a = table.create_process(&mut heap, "a", &CODE, 8, 0).unwrap();
    assert_eq!(table.schedule_next_process(&mut heap, &mut handoff), Ok(a));
    table.exit_current_process();
    assert_eq!(
        table.schedule_next_process(&mut heap, &mut handoff),
        Err(SchedError::NothingToRun)
    );
    assert!(table.list_proc().is_empty());
    assert_eq!(get_free_heap_size(&heap), HEAP_SIZE - BLOCK_HEADER_SIZE);
    assert!(table.get_current_process().is_none());
    assert_eq!(table.get_current_priority_process(), 255);
    // The table is still sound: a new process can be created and run.
    let b = table.create_process(&mut heap, "b", &CODE, 8, 0).unwrap();
    assert_eq!(b, 2);
    assert_eq!(table.schedule_next_process(&mut heap, &mut handoff), Ok(b));
}

#[test]
fn idle_process_without_stack_pointer_is_dropped() {
    let (mut table, mut heap, mut handoff) = boot();
    let a = table.create_process(&mut heap, "a", &CODE, 8, 0).unwrap();
    let b = table.create_process(&mut heap, "b", &CODE, 8, 1).unwrap();
    assert_eq!(table.schedule_next_process(&mut heap, &mut handoff), Ok(a));
    // The running process is parked with a zero stack pointer.
    handoff.current_sp = 0;
    assert_eq!(table.schedule_next_process(&mut heap, &mut handoff), Ok(b));
    assert_eq!(table.get_process_by_id(a).unwrap().get_stack_ptr(), 0);
    // Now a is the best idle process but cannot be resumed: it is dropped,
    // and b, parked in the same pass, runs on.
    handoff.current_sp = 0x0000_0300;
    assert_eq!(table.schedule_next_process(&mut heap, &mut handoff), Ok(b));
    assert!(table.get_process_by_id(a).is_none());
    assert_eq!(ids(&mut table), vec![b]);
    assert_eq!(handoff.next_sp, 0x0000_0300);
}

#[test]
fn last_process_without_stack_pointer_leaves_nothing_to_run() {
    let (mut table, mut heap, mut handoff) = boot();
    let a = table.create_process(&mut heap, "a", &CODE, 8, 0).unwrap();
    assert_eq!(table.schedule_next_process(&mut heap, &mut handoff), Ok(a));
    handoff.current_sp = 0;
    assert_eq!(table.schedule_next_process(&mut heap, &mut handoff), Ok(a));
    // It runs on with a zero stack pointer; parked again it cannot resume.
    table.exit_current_process();
    assert_eq!(
        table.schedule_next_process(&mut heap, &mut handoff),
        Err(SchedError::NothingToRun)
    );
    assert!(table.list_proc().is_empty());
}

#[test]
fn damaged_cookie_of_a_finished_process_halts_the_kernel() {
    let (mut table, mut heap, mut handoff) = boot();
    let a = table.create_process(&mut heap, "a", &CODE, 8, 0).unwrap();
    let b = table.create_process(&mut heap, "b", &CODE, 8, 1).unwrap();
    assert_eq!(table.schedule_next_process(&mut heap, &mut handoff), Ok(a));
    let p = table.get_process_by_id(a).unwrap();
    write_byte(&mut heap, p.stack, DEFAULT_STACK_SIZE + 1, 0x00);
    table.exit_current_process();
    assert_eq!(
        table.schedule_next_process(&mut heap, &mut handoff),
        Err(SchedError::HeapCorrupted)
    );
    assert_eq!(ids(&mut table), vec![a, b]);
    assert_eq!(status_of(&mut table, b), Some(ProcStatus::Idle));
}

#[test]
fn test_scheduler() {
    let (mut table, mut heap, mut handoff) = boot();
    table.create_process(&mut heap, "Process 1", &CODE, 8, 0).unwrap();
    table.create_process(&mut heap, "Process 2", &CODE, 8, 0).unwrap();
    let mut order = Vec::new();
    for round in 0..6u32 {
        handoff.current_sp = 0x1000 + round;
        order.push(table.schedule_next_process(&mut heap, &mut handoff).unwrap());
        let running = table
            .list_proc()
            .iter()
            .filter(|l| l.2 == ProcStatus::Running.code())
            .count();
        assert_eq!(running, 1);
    }
    assert_eq!(order, vec![1, 2, 1, 2, 1, 2]);
}
