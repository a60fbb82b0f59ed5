use krust::memory_management::heap::{
    allocate, check_cookie, deallocate, generate_random, get_free_heap_size, initialize_heap,
    read_byte, reset_heap, write_byte, write_bytes, zeroes_region, Heap, HeapError,
    BLOCK_HEADER_SIZE, HEAP_SIZE,
};

fn ready() -> Heap {
    let mut heap = Heap::new();
    initialize_heap(&mut heap);
    heap
}

#[test]
fn blank_arena_serves_nothing() {
    let mut heap = Heap::new();
    assert_eq!(get_free_heap_size(&heap), HEAP_SIZE);
    assert_eq!(allocate(&mut heap, 32), 0);
    assert_eq!(get_free_heap_size(&heap), HEAP_SIZE);
}

#[test]
fn initialize_makes_one_free_block() {
    let heap = ready();
    assert_eq!(get_free_heap_size(&heap), HEAP_SIZE - BLOCK_HEADER_SIZE);
}

#[test]
fn initialize_twice_changes_nothing() {
    let mut heap = ready();
    let p = allocate(&mut heap, 32);
    assert_ne!(p, 0);
    let free = get_free_heap_size(&heap);
    initialize_heap(&mut heap);
    assert_eq!(get_free_heap_size(&heap), free);
    assert!(check_cookie(&heap, p));
}

#[test]
fn allocate_zero_is_null() {
    let mut heap = ready();
    assert_eq!(allocate(&mut heap, 0), 0);
    assert_eq!(get_free_heap_size(&heap), HEAP_SIZE - BLOCK_HEADER_SIZE);
}

#[test]
fn allocate_too_much_is_null() {
    let mut heap = ready();
    assert_eq!(allocate(&mut heap, HEAP_SIZE), 0);
    assert_eq!(allocate(&mut heap, usize::MAX), 0);
    assert_eq!(get_free_heap_size(&heap), HEAP_SIZE - BLOCK_HEADER_SIZE);
}

#[test]
fn first_block_lies_behind_sentinel_and_header() {
    let mut heap = ready();
    assert_eq!(allocate(&mut heap, 32), 24);
}

#[test]
fn block_size_is_request_header_cookie_rounded_up() {
    let mut heap = ready();
    let before = get_free_heap_size(&heap);
    allocate(&mut heap, 32);
    assert_eq!(before - get_free_heap_size(&heap), 48);
    let before = get_free_heap_size(&heap);
    allocate(&mut heap, 1);
    assert_eq!(before - get_free_heap_size(&heap), 20);
    let before = get_free_heap_size(&heap);
    allocate(&mut heap, 5);
    assert_eq!(before - get_free_heap_size(&heap), 24);
}

#[test]
fn alloc_heap() {
    let mut heap = ready();
    let ptr1 = allocate(&mut heap, 32);
    assert_ne!(ptr1, 0);
    write_byte(&mut heap, ptr1, 0, 0x13);
    let ptr2 = allocate(&mut heap, 64);
    assert_ne!(ptr2, 0);
    write_byte(&mut heap, ptr2, 0, 0x37);
    assert_eq!(ptr2, ptr1 + 48);
    assert_eq!(read_byte(&heap, ptr1, 0), 0x13);
    assert_eq!(read_byte(&heap, ptr2, 0), 0x37);
}

#[test]
fn free_heap() {
    let mut heap = ready();
    let ptr1 = allocate(&mut heap, 32);
    assert_ne!(ptr1, 0);
    write_byte(&mut heap, ptr1, 0, 0x13);
    assert_eq!(deallocate(&mut heap, ptr1), Ok(()));
    let ptr2 = allocate(&mut heap, 16);
    assert_ne!(ptr2, 0);
    assert_eq!(ptr2, ptr1);
}

#[test]
fn cookie_macro() {
    let mut heap = ready();
    let ptr = allocate(&mut heap, 32);
    assert_ne!(ptr, 0);
    write_byte(&mut heap, ptr, 0, 0x42);
    assert!(check_cookie(&heap, ptr));
}

#[test]
fn cookie_overflow() {
    let mut heap = ready();
    let ptr = allocate(&mut heap, 32);
    assert_ne!(ptr, 0);
    // The user area is the block less its header; its last byte is the
    // highest byte of the cookie copy.
    let user_area = 48 - BLOCK_HEADER_SIZE;
    assert_eq!(read_byte(&heap, ptr, user_area - 1), 0xde);
    write_byte(&mut heap, ptr, user_area - 1, 0x42);
    assert_eq!(read_byte(&heap, ptr, user_area - 1), 0x42);
    let is_valid = check_cookie(&heap, ptr);
    assert!(!is_valid, "Cookie should be invalid after corruption");
}

#[test]
fn cookie_copy_holds_the_generated_value() {
    let mut heap = ready();
    let ptr = allocate(&mut heap, 32);
    let cookie = generate_random();
    assert_eq!(cookie, 0xdeadbeef);
    for k in 0..4 {
        assert_eq!(read_byte(&heap, ptr, 32 + k), ((cookie >> (8 * k)) & 0xff) as u8);
    }
}

#[test]
fn write_just_behind_a_request_that_fills_its_block_breaks_the_cookie() {
    let mut heap = ready();
    let ptr = allocate(&mut heap, 32);
    write_byte(&mut heap, ptr, 32, 0x00);
    assert!(!check_cookie(&heap, ptr));
}

#[test]
fn write_inside_the_request_keeps_the_cookie() {
    let mut heap = ready();
    let ptr = allocate(&mut heap, 32);
    for i in 0..32 {
        write_byte(&mut heap, ptr, i, 0xff);
    }
    assert!(check_cookie(&heap, ptr));
}

#[test]
fn deallocate_refuses_a_damaged_block() {
    let mut heap = ready();
    let ptr = allocate(&mut heap, 32);
    let free = get_free_heap_size(&heap);
    write_byte(&mut heap, ptr, 33, 0x00);
    assert_eq!(deallocate(&mut heap, ptr), Err(HeapError::Corrupted));
    assert_eq!(get_free_heap_size(&heap), free);
    assert_eq!(read_byte(&heap, ptr, 33), 0x00);
}

#[test]
fn deallocate_null_does_nothing() {
    let mut heap = ready();
    let free = get_free_heap_size(&heap);
    assert_eq!(deallocate(&mut heap, 0), Ok(()));
    assert_eq!(get_free_heap_size(&heap), free);
}

#[test]
fn counter_goes_down_and_up_by_the_block_size() {
    let mut heap = ready();
    let start = get_free_heap_size(&heap);
    let p = allocate(&mut heap, 100);
    assert_eq!(get_free_heap_size(&heap), start - 116);
    assert_eq!(deallocate(&mut heap, p), Ok(()));
    assert_eq!(get_free_heap_size(&heap), start);
}

#[test]
fn freed_memory_is_zero_when_handed_out_again() {
    let mut heap = ready();
    let p = allocate(&mut heap, 40);
    for i in 0..40 {
        write_byte(&mut heap, p, i, 0xa5);
    }
    assert_eq!(deallocate(&mut heap, p), Ok(()));
    let q = allocate(&mut heap, 40);
    assert_eq!(q, p);
    for i in 0..40 {
        assert_eq!(read_byte(&heap, q, i), 0);
    }
    assert!(check_cookie(&heap, q));
}

#[test]
fn live_blocks_do_not_overlap() {
    let mut heap = ready();
    let sizes = [1usize, 7, 32, 64, 100, 250, 1024, 3];
    let mut blocks: Vec<(usize, usize)> = Vec::new();
    for (n, size) in sizes.iter().enumerate() {
        let p = allocate(&mut heap, *size);
        assert_ne!(p, 0);
        for i in 0..*size {
            write_byte(&mut heap, p, i, n as u8 + 1);
        }
        blocks.push((p, *size));
    }
    for (i, (p, s)) in blocks.iter().enumerate() {
        for (j, (q, t)) in blocks.iter().enumerate() {
            if i != j {
                assert!(p + s <= *q || q + t <= *p);
            }
        }
        for k in 0..*s {
            assert_eq!(read_byte(&heap, *p, k), i as u8 + 1);
        }
        assert!(check_cookie(&heap, *p));
    }
}

#[test]
fn scenario_reuse_of_a_freed_block() {
    let mut heap = ready();
    let a = allocate(&mut heap, 32);
    let b = allocate(&mut heap, 64);
    assert_ne!(a, 0);
    assert_ne!(b, 0);
    assert_eq!(deallocate(&mut heap, a), Ok(()));
    let c = allocate(&mut heap, 16);
    assert_ne!(c, 0);
    // The block of 32 bytes spans 48 from its header on.
    assert!(a - BLOCK_HEADER_SIZE <= c - BLOCK_HEADER_SIZE);
    assert!(c < a - BLOCK_HEADER_SIZE + 48);
    assert_eq!(c, a);
    assert!(c < b);
}

#[test]
fn small_rest_is_not_split_off() {
    let mut heap = ready();
    let a = allocate(&mut heap, 32);
    let _b = allocate(&mut heap, 64);
    assert_eq!(deallocate(&mut heap, a), Ok(()));
    let free = get_free_heap_size(&heap);
    // 16 bytes need 32; the block of 48 would leave 16, less than a block.
    let c = allocate(&mut heap, 16);
    assert_eq!(c, a);
    assert_eq!(free - get_free_heap_size(&heap), 48);
}

#[test]
fn large_rest_is_split_off() {
    let mut heap = ready();
    let a = allocate(&mut heap, 100);
    let _b = allocate(&mut heap, 64);
    assert_eq!(deallocate(&mut heap, a), Ok(()));
    let free = get_free_heap_size(&heap);
    let c = allocate(&mut heap, 16);
    assert_eq!(c, a);
    assert_eq!(free - get_free_heap_size(&heap), 32);
    let d = allocate(&mut heap, 16);
    assert_eq!(d, a + 32);
}

#[test]
fn first_fit_skips_blocks_that_are_too_small() {
    let mut heap = ready();
    let a = allocate(&mut heap, 16);
    let _b = allocate(&mut heap, 16);
    let c = allocate(&mut heap, 200);
    let _d = allocate(&mut heap, 16);
    assert_eq!(deallocate(&mut heap, a), Ok(()));
    assert_eq!(deallocate(&mut heap, c), Ok(()));
    let e = allocate(&mut heap, 100);
    assert_eq!(e, c);
    let f = allocate(&mut heap, 8);
    assert_eq!(f, a);
}

#[test]
fn free_list_stays_in_address_order() {
    let mut heap = ready();
    let a = allocate(&mut heap, 64);
    let _b = allocate(&mut heap, 16);
    let c = allocate(&mut heap, 64);
    let _d = allocate(&mut heap, 16);
    assert_eq!(deallocate(&mut heap, c), Ok(()));
    assert_eq!(deallocate(&mut heap, a), Ok(()));
    // Both fit; the lower one is found first.
    assert_eq!(allocate(&mut heap, 64), a);
    assert_eq!(allocate(&mut heap, 64), c);
}

#[test]
fn adjacent_free_blocks_are_not_merged() {
    let mut heap = ready();
    let a = allocate(&mut heap, 32);
    let b = allocate(&mut heap, 32);
    let guard = allocate(&mut heap, 32);
    assert_eq!(deallocate(&mut heap, a), Ok(()));
    assert_eq!(deallocate(&mut heap, b), Ok(()));
    let big = allocate(&mut heap, 70);
    assert!(big > guard);
}

#[test]
fn arena_can_be_used_up() {
    let mut heap = ready();
    let mut count = 0;
    while allocate(&mut heap, 1000) != 0 {
        count += 1;
        assert!(count < 100);
    }
    assert_eq!(count, (HEAP_SIZE - BLOCK_HEADER_SIZE) / 1016);
    assert_eq!(allocate(&mut heap, 1000), 0);
}

#[test]
fn zeroes_region_clears_up_to_the_cookie() {
    let mut heap = ready();
    let p = allocate(&mut heap, 32);
    for i in 0..32 {
        write_byte(&mut heap, p, i, 0x77);
    }
    zeroes_region(&mut heap, p);
    for i in 0..32 {
        assert_eq!(read_byte(&heap, p, i), 0);
    }
    assert!(check_cookie(&heap, p));
}

#[test]
fn write_bytes_copies_a_prefix() {
    let mut heap = ready();
    let p = allocate(&mut heap, 8);
    write_bytes(&mut heap, p, 2, &[1, 2, 3, 4, 5], 3);
    let got: Vec<u8> = (0..8).map(|i| read_byte(&heap, p, i)).collect();
    assert_eq!(got, vec![0, 0, 1, 2, 3, 0, 0, 0]);
}

#[test]
fn reset_forgets_every_allocation() {
    let mut heap = ready();
    let p = allocate(&mut heap, 32);
    write_byte(&mut heap, p, 0, 9);
    allocate(&mut heap, 500);
    reset_heap(&mut heap);
    assert_eq!(get_free_heap_size(&heap), HEAP_SIZE - BLOCK_HEADER_SIZE);
    let q = allocate(&mut heap, 32);
    assert_eq!(q, p);
    assert_eq!(read_byte(&heap, q, 0), 0);
}

#[test]
fn long_run_of_requests_keeps_every_block_whole() {
    let mut heap = ready();
    let mut live: Vec<(usize, usize, u8)> = Vec::new();
    let mut state: u32 = 12345;
    for round in 0..2000u32 {
        state = state.wrapping_mul(1664525).wrapping_add(1013904223);
        let pick = (state >> 16) as usize;
        if pick % 3 != 0 || live.is_empty() {
            let size = 1 + pick % 300;
            let p = allocate(&mut heap, size);
            if p != 0 {
                let mark = (round % 251) as u8 + 1;
                for i in 0..size {
                    assert_eq!(read_byte(&heap, p, i), 0);
                    write_byte(&mut heap, p, i, mark);
                }
                for (q, t, _) in live.iter() {
                    assert!(p + size <= *q - BLOCK_HEADER_SIZE || *q + *t <= p - BLOCK_HEADER_SIZE);
                }
                live.push((p, size, mark));
            }
        } else {
            let (p, size, mark) = live.swap_remove(pick % live.len());
            for i in 0..size {
                assert_eq!(read_byte(&heap, p, i), mark);
            }
            assert!(check_cookie(&heap, p));
            assert_eq!(deallocate(&mut heap, p), Ok(()));
        }
    }
    let mut asked = 0;
    for (p, size, mark) in live.iter() {
        for i in 0..*size {
            assert_eq!(read_byte(&heap, *p, i), *mark);
        }
        assert!(check_cookie(&heap, *p));
        assert!(p + size <= HEAP_SIZE);
        asked += size + 16;
    }
    // Each block spans at least what was asked for, header and cookie.
    assert!(get_free_heap_size(&heap) + asked <= HEAP_SIZE - BLOCK_HEADER_SIZE);
    for (p, _, _) in live.iter() {
        assert_eq!(deallocate(&mut heap, *p), Ok(()));
    }
    assert_eq!(get_free_heap_size(&heap), HEAP_SIZE - BLOCK_HEADER_SIZE);
}
