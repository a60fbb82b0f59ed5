use krust::init::handlers::{
    popped, pushed, save_current, sv_call, switch_to_next, ContextSwitch, Syscall, PENDSVSET,
    SAVED_REGISTERS_SIZE, SYS_EXIT, SYS_PRINT,
};
use krust::init::Handoff;
use krust::memory_management::heap::{initialize_heap, Heap};
use krust::proc::{ProcStatus, SchedError, SystemProcess};

const CODE: [u8; 4] = [0x00, 0xdf, 0xfe, 0xe7];

fn boot() -> (SystemProcess, Heap, Handoff) {
    let mut heap = Heap::new();
    initialize_heap(&mut heap);
    (SystemProcess::new(), heap, Handoff { current_sp: 0, next_sp: 0 })
}

#[test]
fn pushing_and_popping_move_by_eight_words() {
    assert_eq!(SAVED_REGISTERS_SIZE, 32);
    assert_eq!(pushed(0x2000_0400), 0x2000_03e0);
    assert_eq!(popped(0x2000_03e0), 0x2000_0400);
    assert_eq!(pushed(0), 0xffff_ffe0);
    assert_eq!(pushed(31), 0xffff_ffff);
    assert_eq!(pushed(32), 0);
    assert_eq!(popped(0xffff_ffe0), 0);
    assert_eq!(popped(0xffff_ffff), 31);
    assert_eq!(popped(0xffff_ffdf), 0xffff_ffff);
    for sp in [0u32, 1, 31, 32, 33, 0x8000_0000, 0xffff_ffff] {
        assert_eq!(popped(pushed(sp)), sp);
        assert_eq!(pushed(sp), sp.wrapping_sub(32));
        assert_eq!(popped(sp), sp.wrapping_add(32));
    }
}

#[test]
fn pending_bit_is_bit_28() {
    assert_eq!(PENDSVSET, 1 << 28);
}

#[test]
fn nothing_is_saved_before_the_first_process_runs() {
    let mut handoff = Handoff { current_sp: 0, next_sp: 7 };
    assert_eq!(save_current(&mut handoff, 0x2000_0400), None);
    assert_eq!(handoff, Handoff { current_sp: 0, next_sp: 7 });
}

#[test]
fn active_process_is_saved_below_its_stack_pointer() {
    let mut handoff = Handoff { current_sp: 0x2000_0400, next_sp: 7 };
    assert_eq!(save_current(&mut handoff, 0x2000_0380), Some(0x2000_0360));
    assert_eq!(handoff, Handoff { current_sp: 0x2000_0360, next_sp: 7 });
}

#[test]
fn first_switch_resumes_the_initial_frame() {
    let (mut table, mut heap, mut handoff) = boot();
    let a = table.create_process(&mut heap, "a", &CODE, 4, 0).unwrap();
    let sp = table.get_process_by_id(a).unwrap().get_stack_ptr();
    assert_eq!(save_current(&mut handoff, 0), None);
    let order = switch_to_next(&mut table, &mut heap, &mut handoff);
    assert_eq!(order, ContextSwitch::Resume { restore_from: sp, psp: sp + 32 });
    assert_eq!(handoff, Handoff { current_sp: sp + 32, next_sp: sp });
    assert_eq!(table.get_process_by_id(a).unwrap().status, ProcStatus::Running);
}

#[test]
fn full_switch_between_two_processes() {
    let (mut table, mut heap, mut handoff) = boot();
    let a = table.create_process(&mut heap, "a", &CODE, 4, 0).unwrap();
    let b = table.create_process(&mut heap, "b", &CODE, 4, 0).unwrap();
    let b_sp = table.get_process_by_id(b).unwrap().get_stack_ptr();
    switch_to_next(&mut table, &mut heap, &mut handoff);
    // a runs and has used 40 bytes of stack when the tick comes.
    let psp = handoff.current_sp - 40;
    assert_eq!(save_current(&mut handoff, psp), Some(psp - 32));
    let order = switch_to_next(&mut table, &mut heap, &mut handoff);
    assert_eq!(order, ContextSwitch::Resume { restore_from: b_sp, psp: b_sp + 32 });
    assert_eq!(table.get_process_by_id(a).unwrap().get_stack_ptr(), psp - 32);
    assert_eq!(table.get_process_by_id(a).unwrap().status, ProcStatus::Idle);
    assert_eq!(table.get_process_by_id(b).unwrap().status, ProcStatus::Running);
    assert_eq!(handoff, Handoff { current_sp: b_sp + 32, next_sp: b_sp });
}

#[test]
fn switch_with_nothing_to_run_halts() {
    let (mut table, mut heap, mut handoff) = boot();
    assert_eq!(
        switch_to_next(&mut table, &mut heap, &mut handoff),
        ContextSwitch::Halt(SchedError::NothingToRun)
    );
    assert_eq!(handoff, Handoff { current_sp: 0, next_sp: 0 });
}

#[test]
fn exit_call_finishes_the_current_process() {
    let (mut table, mut heap, mut handoff) = boot();
    let a = table.create_process(&mut heap, "a", &CODE, 4, 0).unwrap();
    let b = table.create_process(&mut heap, "b", &CODE, 4, 1).unwrap();
    switch_to_next(&mut table, &mut heap, &mut handoff);
    assert_eq!(sv_call(&mut table, SYS_EXIT, 0, 0, 0), Syscall::Exit(0));
    assert_eq!(table.get_process_by_id(a).unwrap().status, ProcStatus::Finished);
    assert_eq!(table.get_process_by_id(b).unwrap().status, ProcStatus::Idle);
    let b_sp = table.get_process_by_id(b).unwrap().get_stack_ptr();
    let psp = handoff.current_sp;
    save_current(&mut handoff, psp);
    assert_eq!(
        switch_to_next(&mut table, &mut heap, &mut handoff),
        ContextSwitch::Resume { restore_from: b_sp, psp: b_sp + 32 }
    );
    assert!(table.get_process_by_id(a).is_none());
    assert_eq!(table.get_process_by_id(b).unwrap().status, ProcStatus::Running);
}

#[test]
fn exit_call_carries_the_return_code() {
    let (mut table, _, _) = boot();
    assert_eq!(sv_call(&mut table, 0, 0x0bad_c001, 2, 3), Syscall::Exit(0x0bad_c001));
}

#[test]
fn print_call_leaves_the_table_alone() {
    let (mut table, mut heap, mut handoff) = boot();
    let a = table.create_process(&mut heap, "a", &CODE, 4, 0).unwrap();
    switch_to_next(&mut table, &mut heap, &mut handoff);
    assert_eq!(sv_call(&mut table, SYS_PRINT, 0x0bad_7001, 0, 0), Syscall::Print(0x0bad_7001));
    assert_eq!(table.get_process_by_id(a).unwrap().status, ProcStatus::Running);
}

#[test]
fn unknown_call_is_reported_and_ignored() {
    let (mut table, mut heap, mut handoff) = boot();
    let a = table.create_process(&mut heap, "a", &CODE, 4, 0).unwrap();
    switch_to_next(&mut table, &mut heap, &mut handoff);
    assert_eq!(sv_call(&mut table, 2, 5, 6, 7), Syscall::Unknown(2));
    assert_eq!(sv_call(&mut table, u32::MAX, 5, 6, 7), Syscall::Unknown(u32::MAX));
    assert_eq!(table.get_process_by_id(a).unwrap().status, ProcStatus::Running);
}

#[test]
fn switch_returns_without_a_stack_pointer_to_resume() {
    let (mut table, mut heap, mut handoff) = boot();
    let a = table.create_process(&mut heap, "a", &CODE, 4, 0).unwrap();
    switch_to_next(&mut table, &mut heap, &mut handoff);
    // The current cell was cleared: nothing is saved, and the process that
    // runs on has no stack pointer to resume from.
    handoff.current_sp = 0;
    assert_eq!(save_current(&mut handoff, 0x2000_0000), None);
    assert_eq!(
        switch_to_next(&mut table, &mut heap, &mut handoff),
        ContextSwitch::Return
    );
    assert_eq!(handoff, Handoff { current_sp: 0, next_sp: 0 });
    assert_eq!(table.get_process_by_id(a).unwrap().status, ProcStatus::Running);
}

#[test]
fn switch_halts_on_a_damaged_block() {
    let (mut table, mut heap, mut handoff) = boot();
    let a = table.create_process(&mut heap, "a", &CODE, 4, 0).unwrap();
    switch_to_next(&mut table, &mut heap, &mut handoff);
    let stack = table.get_process_by_id(a).unwrap().stack;
    krust::memory_management::heap::write_byte(&mut heap, stack, 1024, 0x00);
    assert_eq!(sv_call(&mut table, SYS_EXIT, 1, 0, 0), Syscall::Exit(1));
    let before = handoff;
    assert_eq!(
        switch_to_next(&mut table, &mut heap, &mut handoff),
        ContextSwitch::Halt(SchedError::HeapCorrupted)
    );
    assert_eq!(handoff, before);
}
