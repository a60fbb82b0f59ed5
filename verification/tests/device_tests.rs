use krust::init::faults::{
    bus_fault, fault_class, hard_fault, memory_management_fault, usage_fault, FaultCause,
    FaultClass, FaultReport, HardFault,
};
use krust::init::systick::{SysTick, SYST_CSR_ADDR};
use krust::init::{enable_system_handler_fault, setup_priority_handler, trigger_pendsv};
use krust::memory_management::allocator::SimpleAllocator;
use krust::memory_management::heap::{
    check_cookie, get_free_heap_size, initialize_heap, read_byte, write_byte, Heap, HeapError,
    BLOCK_HEADER_SIZE, HEAP_SIZE,
};
use krust::memory_management::memory_layout::{REGION_FLASH_LEN, REGION_RAM_ADDR};
use krust::memory_management::mpu::{
    sizeRegion, Mpu, MpuRegion, FULL_ACCESS, MPU_CTRL_OFF, MPU_CTRL_ON, MPU_REGION_ENABLE,
    NO_ACCESS, PRIVILEGED_RW, SHAREABLE, TYPE_NORMAL,
};
use krust::memory_management::paging::map_page;
use krust::memory_management::word::{load, store};

fn ready() -> Heap {
    let mut heap = Heap::new();
    initialize_heap(&mut heap);
    heap
}

#[test]
fn words_are_little_endian() {
    let mut mem = vec![0u8; 8];
    store(&mut mem, 2, 0xdead_beef);
    assert_eq!(mem, vec![0, 0, 0xef, 0xbe, 0xad, 0xde, 0, 0]);
    assert_eq!(load(&mem, 2), 0xdead_beef);
    assert_eq!(load(&mem, 0), 0xbeef_0000);
}

#[test]
fn systick_starts_without_frequency() {
    let timer = SysTick::new();
    assert_eq!(timer.frequency(), 0);
    assert_eq!(SYST_CSR_ADDR, 0xE000_E010);
}

#[test]
fn systick_frequency_from_calibration() {
    let mut timer = SysTick::new();
    assert_eq!(timer.init_sys_tick(0b100, 0xC000_0000 | 168_000), 0b110);
    assert_eq!(timer.frequency(), 16_800_000);
    assert_eq!(timer.start_sys_tick(0b110), 0b111);
}

#[test]
fn systick_reload_value() {
    let mut timer = SysTick::new();
    timer.init_sys_tick(0, 168_000);
    // 16.8 MHz for ten milliseconds: 168 000 ticks.
    assert_eq!(timer.set_sys_tick_reload_us(10_000, 0xAB00_0000), 0xAB00_0000 | 168_000);
    // Ten seconds need more than 24 bits: the value is cut.
    assert_eq!(
        timer.set_sys_tick_reload_us(10_000_000, 0x00FF_FFFF),
        (168_000_000u32 & 0x00FF_FFFF)
    );
}

#[test]
fn size_codes() {
    assert_eq!(sizeRegion::SIZE_32B.code(), 4);
    assert_eq!(sizeRegion::SIZE_1KB.code(), 9);
    assert_eq!(sizeRegion::SIZE_128KB.code(), 16);
    assert_eq!(sizeRegion::SIZE_512MB.code(), 28);
}

#[test]
fn mpu_refuses_a_region_it_does_not_have() {
    let mut mpu = Mpu::new();
    assert_eq!(
        mpu.configure_region(8, 0, sizeRegion::SIZE_1KB, 0),
        Err("Numéro de région invalide")
    );
    assert_eq!(mpu.configure_region(255, 0, sizeRegion::SIZE_1KB, 0).is_err(), true);
    assert!(mpu.enable().is_empty());
}

#[test]
fn mpu_register_values() {
    let mut mpu = Mpu::new();
    assert!(mpu.enable().is_empty());
    assert_eq!(
        mpu.configure_region(3, REGION_RAM_ADDR, sizeRegion::SIZE_128KB, FULL_ACCESS | TYPE_NORMAL),
        Ok(())
    );
    assert_eq!(
        mpu.configure_region(0, 0x0800_0000, sizeRegion::SIZE_1MB, PRIVILEGED_RW),
        Ok(())
    );
    assert_eq!(
        mpu.enable(),
        vec![
            (0, 0x0800_0001, 0x0100_0000 | (18 << 1) | 1),
            (3, 0x2000_0001, 0x0301_0000 | (15 << 1) | 1),
        ]
    );
    // A region that is configured again is replaced.
    assert_eq!(mpu.configure_region(3, 0x1000_0000, sizeRegion::SIZE_64KB, 0), Ok(()));
    assert_eq!(mpu.enable()[1], (3, 0x1000_0001, (14 << 1) | 1));
    assert_eq!(MPU_CTRL_ON, 7);
    assert_eq!(mpu.disable(), MPU_CTRL_OFF);
    assert_eq!(REGION_FLASH_LEN, 0x10_0000);
}

#[test]
fn region_registers() {
    let region = MpuRegion { base_address: 0x2000_0000, size: 9, attributes: 0x0300_0000, number: 5 };
    assert_eq!(region.registers(), (5, 0x2000_0001, 0x0300_0000 | (8 << 1) | 1));
}

#[test]
fn map_page_register_values() {
    assert_eq!(
        map_page(0x2000_0123, 1024, 0b011, 2),
        (2, 0x2000_0120, 1 | (0b011 << 24) | (9 << 1))
    );
    assert_eq!(map_page(0, 32, 0, 0), (0, 0, 1 | (4 << 1)));
}

#[test]
fn runtime_allocator_asks_for_size_and_alignment() {
    let mut heap = ready();
    let runtime = SimpleAllocator;
    let free = get_free_heap_size(&heap);
    let p = runtime.allocate(&mut heap, 24, 8);
    assert_eq!(p, 24);
    // 24 + 8 bytes, header and cookie: 48.
    assert_eq!(free - get_free_heap_size(&heap), 48);
    assert_eq!(runtime.allocate(&mut heap, usize::MAX, 8), 0);
    assert_eq!(runtime.allocate(&mut heap, 0, 0), 0);
    assert_eq!(runtime.dealloc(&mut heap, p), Ok(()));
    assert_eq!(get_free_heap_size(&heap), free);
}

#[test]
fn runtime_allocator_zeroed() {
    let mut heap = ready();
    let runtime = SimpleAllocator;
    let p = runtime.alloc_zeroed(&mut heap, 16, 4);
    assert_ne!(p, 0);
    for i in 0..20 {
        assert_eq!(read_byte(&heap, p, i), 0);
    }
    assert!(check_cookie(&heap, p));
    assert_eq!(runtime.alloc_zeroed(&mut heap, HEAP_SIZE, 4), 0);
}

#[test]
fn runtime_allocator_realloc_moves_the_bytes() {
    let mut heap = ready();
    let runtime = SimpleAllocator;
    let p = runtime.allocate(&mut heap, 8, 4);
    for i in 0..8 {
        write_byte(&mut heap, p, i, i as u8 + 1);
    }
    let q = runtime.realloc(&mut heap, p, 8, 4, 32).unwrap();
    assert_ne!(q, 0);
    assert_ne!(q, p);
    for i in 0..8 {
        assert_eq!(read_byte(&heap, q, i), i as u8 + 1);
    }
    assert_eq!(read_byte(&heap, q, 8), 0);
    assert!(check_cookie(&heap, q));
    // The old block is free again and zero.
    let r = runtime.allocate(&mut heap, 8, 4);
    assert_eq!(r, p);
    assert_eq!(read_byte(&heap, r, 0), 0);
}

#[test]
fn runtime_allocator_realloc_to_a_smaller_block() {
    let mut heap = ready();
    let runtime = SimpleAllocator;
    let p = runtime.allocate(&mut heap, 32, 4);
    for i in 0..32 {
        write_byte(&mut heap, p, i, 0x10 + i as u8);
    }
    let q = runtime.realloc(&mut heap, p, 32, 4, 4).unwrap();
    for i in 0..4 {
        assert_eq!(read_byte(&heap, q, i), 0x10 + i as u8);
    }
    assert!(check_cookie(&heap, q));
}

#[test]
fn runtime_allocator_realloc_without_room_keeps_the_old_block() {
    let mut heap = ready();
    let runtime = SimpleAllocator;
    let p = runtime.allocate(&mut heap, 8, 4);
    write_byte(&mut heap, p, 0, 9);
    assert_eq!(runtime.realloc(&mut heap, p, 8, 4, HEAP_SIZE), Ok(0));
    assert_eq!(read_byte(&heap, p, 0), 9);
    assert!(check_cookie(&heap, p));
}

#[test]
fn runtime_allocator_realloc_of_null_allocates() {
    let mut heap = ready();
    let runtime = SimpleAllocator;
    assert_eq!(runtime.realloc(&mut heap, 0, 0, 4, 16), Ok(24));
    assert_eq!(
        get_free_heap_size(&heap),
        HEAP_SIZE - BLOCK_HEADER_SIZE - 36
    );
}

#[test]
fn runtime_allocator_realloc_of_a_damaged_block() {
    let mut heap = ready();
    let runtime = SimpleAllocator;
    let p = runtime.allocate(&mut heap, 8, 4);
    write_byte(&mut heap, p, 12, 0x00);
    assert_eq!(runtime.realloc(&mut heap, p, 8, 4, 16), Err(HeapError::Corrupted));
    assert_eq!(runtime.dealloc(&mut heap, p), Err(HeapError::Corrupted));
}

#[test]
fn hard_fault_bits() {
    assert_eq!(
        hard_fault(0),
        HardFault { debug_vt: false, forced: false, vecttbl: false }
    );
    assert_eq!(
        hard_fault(1 << 30),
        HardFault { debug_vt: false, forced: true, vecttbl: false }
    );
    assert_eq!(
        hard_fault((1 << 31) | (1 << 1)),
        HardFault { debug_vt: true, forced: false, vecttbl: true }
    );
    assert_eq!(
        hard_fault(!((1 << 31) | (1 << 30) | (1 << 1))),
        HardFault { debug_vt: false, forced: false, vecttbl: false }
    );
}

#[test]
fn fault_class_order() {
    assert_eq!(fault_class(0), None);
    assert_eq!(fault_class(1 << 16), Some(FaultClass::Usage));
    assert_eq!(fault_class(1 << 9), Some(FaultClass::Bus));
    assert_eq!(fault_class(1 << 1), Some(FaultClass::MemoryManagement));
    assert_eq!(fault_class((1 << 25) | (1 << 9) | 1), Some(FaultClass::Usage));
    assert_eq!(fault_class((1 << 15) | 1), Some(FaultClass::Bus));
    // Bits that name nothing.
    assert_eq!(fault_class((1 << 20) | (1 << 14) | (1 << 2) | (1 << 6)), None);
}

#[test]
fn usage_fault_causes() {
    assert_eq!(
        usage_fault(0),
        FaultReport { raised: false, cause: None, address_valid: false }
    );
    assert_eq!(usage_fault(1 << 25).cause, Some(FaultCause::DivideByZero));
    assert_eq!(usage_fault(1 << 24).cause, Some(FaultCause::UnalignedAccess));
    assert_eq!(usage_fault(1 << 19).cause, Some(FaultCause::NoCoprocessor));
    assert_eq!(usage_fault(1 << 18).cause, Some(FaultCause::InvalidPcLoad));
    assert_eq!(usage_fault(1 << 17).cause, Some(FaultCause::InvalidState));
    assert_eq!(usage_fault(1 << 16).cause, Some(FaultCause::UndefinedInstruction));
    assert_eq!(
        usage_fault((1 << 16) | (1 << 24)),
        FaultReport { raised: true, cause: Some(FaultCause::UnalignedAccess), address_valid: false }
    );
    assert_eq!(usage_fault(0x0000_ffff).raised, false);
    assert_eq!(
        FaultCause::DivideByZero.message(),
        "Divide by zero usage fault."
    );
    assert_eq!(
        FaultCause::InvalidPcLoad.message(),
        "Invalid PC load usage fault, caused by an invalid PC load by EXC_RETURN."
    );
}

#[test]
fn bus_fault_causes() {
    assert_eq!(
        bus_fault(0),
        FaultReport { raised: false, cause: None, address_valid: false }
    );
    assert_eq!(
        bus_fault((1 << 9) | (1 << 15)),
        FaultReport { raised: true, cause: Some(FaultCause::PreciseDataBus), address_valid: true }
    );
    assert_eq!(
        bus_fault(1 << 15),
        FaultReport { raised: true, cause: None, address_valid: true }
    );
    assert_eq!(bus_fault(1 << 13).cause, Some(FaultCause::BusLazyStatePreservation));
    assert_eq!(bus_fault(1 << 12).cause, Some(FaultCause::BusStacking));
    assert_eq!(bus_fault(1 << 11).cause, Some(FaultCause::BusUnstacking));
    assert_eq!(bus_fault(1 << 10).cause, Some(FaultCause::ImpreciseDataBus));
    assert_eq!(bus_fault(1 << 8).cause, Some(FaultCause::InstructionBus));
    assert_eq!(bus_fault((1 << 8) | (1 << 12)).cause, Some(FaultCause::BusStacking));
    assert_eq!(
        bus_fault(1 << 14),
        FaultReport { raised: false, cause: None, address_valid: false }
    );
    assert_eq!(FaultCause::PreciseDataBus.message(), "Precise data bus error.");
}

#[test]
fn memory_management_fault_causes() {
    assert_eq!(
        memory_management_fault(0),
        FaultReport { raised: false, cause: None, address_valid: false }
    );
    assert_eq!(
        memory_management_fault((1 << 1) | (1 << 7)),
        FaultReport {
            raised: true,
            cause: Some(FaultCause::DataAccessViolation),
            address_valid: true
        }
    );
    assert_eq!(memory_management_fault(1 << 5).cause, Some(FaultCause::MemLazyStatePreservation));
    assert_eq!(memory_management_fault(1 << 4).cause, Some(FaultCause::MemStacking));
    assert_eq!(memory_management_fault(1 << 3).cause, Some(FaultCause::MemUnstacking));
    assert_eq!(memory_management_fault(1).cause, Some(FaultCause::InstructionAccessViolation));
    assert_eq!(memory_management_fault(1 | (1 << 4)).cause, Some(FaultCause::MemStacking));
    assert_eq!(
        memory_management_fault((1 << 2) | (1 << 6)),
        FaultReport { raised: false, cause: None, address_valid: false }
    );
    assert_eq!(
        FaultCause::DataAccessViolation.message(),
        "Data access violation flag."
    );
}

#[test]
fn system_control_values() {
    assert_eq!(enable_system_handler_fault(0), (1 << 18) | (1 << 17) | (1 << 16));
    assert_eq!(enable_system_handler_fault(0x8000_0001), 0x8007_0001);
    assert_eq!(
        setup_priority_handler(0xffff_ffff, 0xffff_ffff),
        (0x02ff_ffff, 0x0000_ffff)
    );
    assert_eq!(setup_priority_handler(0, 0), (0x0200_0000, 0));
    assert_eq!(trigger_pendsv(), (0xE000_ED04, 1 << 28));
}

#[test]
#[allow(non_snake_case)]
fn createRegion() {
    let mut mpu = Mpu::new();

    let full_access_addr: u32 = 0x20020000;
    let attributes_full_access = MPU_REGION_ENABLE | FULL_ACCESS | TYPE_NORMAL | SHAREABLE;
    mpu.configure_region(0, full_access_addr, sizeRegion::SIZE_1KB, attributes_full_access)
        .expect("REASON");

    let no_access_addr: u32 = 0x20010000;
    let attributes_no_access = MPU_REGION_ENABLE | NO_ACCESS | TYPE_NORMAL | SHAREABLE;
    mpu.configure_region(1, no_access_addr, sizeRegion::SIZE_1KB, attributes_no_access)
        .expect("REASON");

    assert_eq!(
        mpu.enable(),
        vec![
            (0, 0x2002_0001, 0x0303_0001 | (8 << 1)),
            (1, 0x2001_0001, 0x0003_0001 | (8 << 1)),
        ]
    );
}
