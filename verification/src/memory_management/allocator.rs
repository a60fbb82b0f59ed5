//! The allocator interface of the language runtime, served from the arena.
//! A request names a size and an alignment; the arena is asked for their
//! sum.

use vstd::prelude::*;
use crate::memory_management::heap::{
    allocate,
    deallocate,
    lemma_live_shape,
    read_byte,
    write_byte,
    zeroes_region,
    Heap,
    HeapError,
};
use crate::memory_management::model::{lemma_alloc_room, HeapModel};

verus! {

/// The allocator that serves the runtime from the arena.
pub struct SimpleAllocator;

/// Bytes asked of the arena for a request of `size` bytes aligned to
/// `align`; zero, which the arena refuses, where the sum does not fit a
/// machine word.
pub open spec fn request_size(size: usize, align: usize) -> int {
    if size + align <= usize::MAX {
        size + align
    } else {
        0
    }
}

/// The arena after the first `len` bytes of the block at `from` were copied
/// to the start of the block at `to`.
pub open spec fn after_copy(m: HeapModel, from: int, to: int, len: int) -> HeapModel {
    m.after_store(to, 0, m.live[from].data.take(len))
}

/// The smaller of two numbers.
pub open spec fn min_spec(a: usize, b: usize) -> usize {
    if a <= b {
        a
    } else {
        b
    }
}

impl SimpleAllocator {
    /// Bytes to ask of the arena.
    fn request(size: usize, align: usize) -> (wanted: usize)
        ensures
            wanted == request_size(size, align),
    {
        if size > usize::MAX - align {
            0
        } else {
            size + align
        }
    }

    /// A block for `size` bytes aligned to `align`, or null.
    pub fn allocate(&self, heap: &mut Heap, size: usize, align: usize) -> (ptr: usize)
        requires
            old(heap).wf(),
        ensures
            final(heap).wf(),
            ptr == old(heap)@.alloc_ptr(request_size(size, align)),
            final(heap)@ == old(heap)@.after_alloc(request_size(size, align), 0xdeadbeef),
    {
        allocate(heap, Self::request(size, align))
    }

    /// Gives the block at `ptr` back; refused where its cookie is damaged.
    pub fn dealloc(&self, heap: &mut Heap, ptr: usize) -> (result: Result<(), HeapError>)
        requires
            old(heap).wf(),
            ptr == 0 || old(heap)@.is_live(ptr as int),
        ensures
            final(heap).wf(),
            result is Ok <==> ptr == 0 || old(heap)@.cookie_intact(ptr as int),
            final(heap)@ == (if ptr != 0 && old(heap)@.cookie_intact(ptr as int) {
                old(heap)@.after_free(ptr as int)
            } else {
                old(heap)@
            }),
    {
        deallocate(heap, ptr)
    }

    /// A block for `size` bytes aligned to `align`, cleared up to its cookie
    /// copy, or null.
    pub fn alloc_zeroed(&self, heap: &mut Heap, size: usize, align: usize) -> (ptr: usize)
        requires
            old(heap).wf(),
        ensures
            final(heap).wf(),
            ptr == old(heap)@.alloc_ptr(request_size(size, align)),
            final(heap)@ == (if ptr != 0 {
                old(heap)@.after_alloc(request_size(size, align), 0xdeadbeef).after_zero(ptr as int)
            } else {
                old(heap)@
            }),
    {
        let ptr = allocate(heap, Self::request(size, align));
        if ptr != 0 {
            zeroes_region(heap, ptr);
        }
        ptr
    }

    /// A block for `new_size` bytes aligned to `align` that starts with the
    /// bytes of the block at `ptr`, as many of its first `size` as the new
    /// size has room for; the block at `ptr` is given back. Null, with the
    /// old block in place, where the arena has no such block. For a null
    /// `ptr` nothing is copied or given back. Where the cookie of the old
    /// block is damaged the old block stays beside the new one, and the
    /// error says so.
    pub fn realloc(&self, heap: &mut Heap, ptr: usize, size: usize, align: usize, new_size: usize) -> (result:
        Result<usize, HeapError>)
        requires
            old(heap).wf(),
            ptr == 0 || old(heap)@.is_live(ptr as int),
            ptr != 0 ==> size + 4 <= old(heap)@.live[ptr as int].data.len(),
        ensures
            final(heap).wf(),
            result is Ok <==> ptr == 0 || !old(heap)@.can_allocate(request_size(new_size, align))
                || old(heap)@.cookie_intact(ptr as int),
            result is Ok ==> result == Ok::<usize, HeapError>(
                old(heap)@.alloc_ptr(request_size(new_size, align)) as usize,
            ),
            result is Err ==> result == Err::<usize, HeapError>(HeapError::Corrupted),
            final(heap)@ == ({
                let grown = old(heap)@.after_alloc(request_size(new_size, align), 0xdeadbeef);
                let to = old(heap)@.alloc_ptr(request_size(new_size, align));
                if ptr == 0 || to == 0 {
                    grown
                } else if old(heap)@.cookie_intact(ptr as int) {
                    after_copy(grown, ptr as int, to, min_spec(size, new_size) as int).after_free(
                        ptr as int,
                    )
                } else {
                    after_copy(grown, ptr as int, to, min_spec(size, new_size) as int)
                }
            }),
    {
        let ghost m0 = heap@;
        let wanted = Self::request(new_size, align);
        let new_ptr = allocate(heap, wanted);
        if new_ptr == 0 || ptr == 0 {
            return Ok(new_ptr);
        }
        let ghost m1 = heap@;
        let count = if size <= new_size {
            size
        } else {
            new_size
        };
        proof {
            lemma_alloc_room(m0, wanted as int, 0xdeadbeef);
            lemma_live_shape(*heap, new_ptr as int);
            lemma_live_shape(*heap, ptr as int);
            assert(m1.after_store(new_ptr as int, 0, m1.live[ptr as int].data.take(0)).live
                =~= m1.live) by {
                assert(m1.after_store(
                    new_ptr as int,
                    0,
                    m1.live[ptr as int].data.take(0),
                ).live[new_ptr as int].data =~= m1.live[new_ptr as int].data);
            }
        }
        let mut i: usize = 0;
        while i < count
            invariant
                0 <= i <= count,
                count + 4 <= m1.live[ptr as int].data.len(),
                count + 4 <= m1.live[new_ptr as int].data.len(),
                heap.wf(),
                ptr != new_ptr,
                m1.is_live(ptr as int),
                m1.is_live(new_ptr as int),
                heap@ == after_copy(m1, ptr as int, new_ptr as int, i as int),
            decreases count - i,
        {
            let ghost before = heap@;
            let byte = read_byte(heap, ptr, i);
            write_byte(heap, new_ptr, i, byte);
            proof {
                let next = after_copy(m1, ptr as int, new_ptr as int, i + 1);
                assert(heap@.live[new_ptr as int].data =~= next.live[new_ptr as int].data);
                assert(heap@.live =~= next.live);
            }
            i = i + 1;
        }
        match deallocate(heap, ptr) {
            Ok(_) => Ok(new_ptr),
            Err(e) => Err(e),
        }
    }
}

} // verus!
