//! The arena allocator: one fixed byte region carved into blocks by a free
//! list that is threaded through the region itself.
//!
//! Addresses are byte offsets into the arena, and 0 is the null address. The
//! first twelve bytes of the arena hold the list's head sentinel. A block is a
//! header of three words (next free block, block size, cookie), the user
//! area, and in the last word of the user area a second copy of the cookie.
//! Adjacent free blocks are never merged.

use vstd::prelude::*;
use crate::memory_management::carve::{
    carved,
    carved_list,
    lemma_carve_links,
    lemma_carve_live,
    lemma_carve_view,
    lemma_carve_zero,
    lemma_carved_words,
    lemma_split_bytes,
    lemma_whole_bytes,
};
use crate::memory_management::layout::{
    apart,
    block_ok,
    bodies_zero,
    lemma_free_block,
    lemma_free_head,
    lemma_live_block,
    lemma_live_pair,
    lemma_total_fits,
    lemma_total_insert,
    lemma_total_remove,
    lemma_total_update,
    lemma_zero_byte,
    link_of,
    links_wf,
    live_view,
    live_wf,
    prev_of,
};
use crate::memory_management::release::{
    lemma_insert_pos,
    lemma_prev_place,
    lemma_release_bytes,
    lemma_release_links,
    lemma_release_live,
    lemma_release_view,
    lemma_release_zero,
    lemma_released_words,
    lemma_released_zero,
    lemma_touch_keeps,
    lemma_touched_intro,
    released,
    slot_for,
};
use crate::memory_management::model::{
    block_size_for,
    first_fit_from,
    lemma_alloc_room,
    lemma_fresh_intact,
    total_size,
    Block,
    HeapModel,
};
use crate::memory_management::word::{
    lemma_same_word,
    lemma_store_word,
    lemma_word_at,
    load,
    store,
    word_at,
};

verus! {

/// Bytes in the arena.
pub const HEAP_SIZE: usize = 0x10000;

/// Every block starts and ends on a multiple of this.
pub const ALIGNMENT: usize = 4;

/// Bytes in a block header.
pub const BLOCK_HEADER_SIZE: usize = 12;

/// A block is split only if the part left over is at least this large.
pub const MINIMUM_BLOCK_SIZE: usize = 24;

/// Bytes of the cookie copy that ends the user area.
pub const COOKIE_SIZE: usize = 4;

/// Offset of the block size inside a header.
pub const SIZE_OFFSET: usize = 4;

/// Offset of the cookie inside a header.
pub const COOKIE_OFFSET: usize = 8;

/// Why the allocator refused.
#[derive(Clone, Copy, Debug, PartialEq, Eq, Structural)]
pub enum HeapError {
    /// The two cookie copies of the block differ: something wrote behind
    /// the end of it.
    Corrupted,
}

/// The arena and its bookkeeping.
pub struct Heap {
    mem: Vec<u8>,
    free_bytes: usize,
    initialized: bool,
    free: Ghost<Seq<Block>>,
    live: Ghost<Map<int, int>>,
}

impl Heap {
    /// The bytes encode the free list and the headers of the allocated
    /// blocks, no two blocks share a byte, and free user areas are zero.
    pub closed spec fn wf(&self) -> bool {
        let mem = self.mem@;
        let free = self.free@;
        let live = self.live@;
        &&& mem.len() == HEAP_SIZE
        &&& links_wf(mem, free)
        &&& bodies_zero(mem, free)
        &&& live_wf(mem, live)
        &&& apart(free, live)
        &&& if self.initialized {
            self.free_bytes == total_size(free)
        } else {
            &&& free.len() == 0
            &&& live.dom() =~= Set::empty()
            &&& self.free_bytes == HEAP_SIZE
            &&& forall|x: int| 0 <= x < mem.len() ==> mem[x] == 0
        }
    }

    /// The arena as its users see it.
    pub closed spec fn view(&self) -> HeapModel {
        HeapModel {
            initialized: self.initialized,
            free: self.free@,
            live: live_view(self.mem@, self.live@),
            free_bytes: self.free_bytes as int,
        }
    }

    /// The bytes of the arena, headers and all.
    pub closed spec fn bytes(&self) -> Seq<u8> {
        self.mem@
    }

    /// An arena that is not set up yet: all bytes zero, nothing free.
    pub fn new() -> (heap: Heap)
        ensures
            heap.wf(),
            heap@ == HeapModel::blank(),
    {
        let mut mem: Vec<u8> = Vec::new();
        let mut n: usize = 0;
        while n < HEAP_SIZE
            invariant
                n <= HEAP_SIZE,
                mem@.len() == n,
                forall|i: int| 0 <= i < n ==> mem@[i] == 0,
            decreases HEAP_SIZE - n,
        {
            mem.push(0u8);
            n = n + 1;
        }
        let heap = Heap {
            mem,
            free_bytes: HEAP_SIZE,
            initialized: false,
            free: Ghost(Seq::empty()),
            live: Ghost(Map::empty()),
        };
        proof {
            reveal(links_wf);
            reveal(bodies_zero);
            reveal(live_wf);
            reveal(apart);
            lemma_word_at(heap.mem@, 0);
            assert(heap@.live =~= Map::empty());
        }
        heap
    }
}

/// The cookie written into a new block.
pub fn generate_random() -> (cookie: usize)
    ensures
        cookie == 0xdeadbeef,
{
    0xdeadbeef
}

/// Sets the arena up as one free block, unless it is set up already.
pub fn initialize_heap(heap: &mut Heap)
    requires
        old(heap).wf(),
    ensures
        final(heap).wf(),
        final(heap)@ == (if old(heap)@.initialized {
            old(heap)@
        } else {
            HeapModel::fresh()
        }),
{
    if heap.initialized {
        return ;
    }
    let first: usize = BLOCK_HEADER_SIZE;
    let size: usize = HEAP_SIZE - BLOCK_HEADER_SIZE;
    let ghost m0 = heap.mem@;
    store(&mut heap.mem, first, 0);
    let ghost m1 = heap.mem@;
    store(&mut heap.mem, first + SIZE_OFFSET, size as u32);
    let ghost m2 = heap.mem@;
    store(&mut heap.mem, 0, first as u32);
    heap.free_bytes = size;
    heap.initialized = true;
    proof {
        lemma_store_word(m0, 12, 0);
        lemma_store_word(m1, 16, size as int);
        lemma_store_word(m2, 0, 12);
        heap.free = Ghost(seq![Block { addr: 12, size: 0x10000 - 12 }]);
        heap.live = Ghost(Map::empty());
        reveal(links_wf);
        reveal(bodies_zero);
        reveal(live_wf);
        reveal(apart);
        assert(heap@.live =~= Map::empty());
        assert(heap.free@.drop_last() =~= Seq::empty());
        assert(total_size(heap.free@) == 0x10000 - 12) by {
            reveal_with_fuel(total_size, 2);
        }
    }
}

/// Forgets every allocation and sets the arena up anew, all bytes zero.
pub fn reset_heap(heap: &mut Heap)
    ensures
        final(heap).wf(),
        final(heap)@ == HeapModel::fresh(),
{
    *heap = Heap::new();
    initialize_heap(heap);
}

/// The advisory count of free bytes.
pub fn get_free_heap_size(heap: &Heap) -> (n: usize)
    ensures
        n == heap@.free_bytes,
{
    heap.free_bytes
}

/// Whether the two cookie copies of the block at `ptr` agree.
pub fn check_cookie(heap: &Heap, ptr: usize) -> (valid: bool)
    requires
        heap.wf(),
        heap@.is_live(ptr as int),
    ensures
        valid == heap@.cookie_intact(ptr as int),
{
    proof {
        lemma_live_block(heap.mem@, heap.live@, ptr as int - 12);
    }
    let block: usize = ptr - BLOCK_HEADER_SIZE;
    let block_size: usize = load(&heap.mem, block + SIZE_OFFSET) as usize;
    let start_cookie: u32 = load(&heap.mem, block + COOKIE_OFFSET);
    let end_cookie: u32 = load(&heap.mem, block + block_size - COOKIE_SIZE);
    proof {
        let data = heap@.live[ptr as int].data;
        lemma_same_word(heap.mem@, block + block_size - 4, data, data.len() - 4);
    }
    start_cookie == end_cookie
}

/// Reads byte `offset` of the user area at `ptr`.
pub fn read_byte(heap: &Heap, ptr: usize, offset: usize) -> (value: u8)
    requires
        heap.wf(),
        heap@.is_live(ptr as int),
        offset < heap@.live[ptr as int].data.len(),
    ensures
        value == heap@.live[ptr as int].data[offset as int],
{
    proof {
        lemma_live_block(heap.mem@, heap.live@, ptr as int - 12);
    }
    heap.mem[ptr + offset]
}

/// Sets byte `offset` of the user area at `ptr` to `value`. The user area
/// ends with the cookie copy, so a write behind the bytes asked for can
/// damage it.
pub fn write_byte(heap: &mut Heap, ptr: usize, offset: usize, value: u8)
    requires
        old(heap).wf(),
        old(heap)@.is_live(ptr as int),
        offset < old(heap)@.live[ptr as int].data.len(),
    ensures
        final(heap).wf(),
        final(heap)@ == old(heap)@.after_write(ptr as int, offset as int, value),
{
    let ghost m0 = heap.mem@;
    let ghost a = ptr as int - 12;
    let ghost size = heap.live@[a];
    proof {
        lemma_live_block(m0, heap.live@, a);
    }
    heap.mem[ptr + offset] = value;
    proof {
        let m1 = heap.mem@;
        lemma_touched_intro(m0, m1, a, size);
        lemma_touch_keeps(m0, m1, heap.free@, heap.live@, a);
        assert(m1.subrange(a + 12, a + size) =~= m0.subrange(a + 12, a + size).update(
            offset as int,
            value,
        ));
    }
}

/// Copies the first `len` bytes of `src` into the user area at `ptr`, from
/// byte `offset` on.
pub fn write_bytes(heap: &mut Heap, ptr: usize, offset: usize, src: &[u8], len: usize)
    requires
        old(heap).wf(),
        old(heap)@.is_live(ptr as int),
        len <= src@.len(),
        offset + len <= old(heap)@.live[ptr as int].data.len(),
    ensures
        final(heap).wf(),
        final(heap)@ == old(heap)@.after_store(ptr as int, offset as int, src@.take(len as int)),
{
    let ghost m0 = heap.mem@;
    let ghost a = ptr as int - 12;
    let ghost size = heap.live@[a];
    proof {
        lemma_live_block(m0, heap.live@, a);
    }
    let start: usize = ptr + offset;
    let mut i: usize = 0;
    while i < len
        invariant
            0 <= i <= len,
            len <= src@.len(),
            start == ptr + offset,
            a == ptr - 12,
            offset + len <= size - 12,
            12 <= a,
            a + size <= HEAP_SIZE,
            heap.mem@.len() == HEAP_SIZE,
            m0.len() == HEAP_SIZE,
            heap.free == old(heap).free,
            heap.live == old(heap).live,
            heap.free_bytes == old(heap).free_bytes,
            heap.initialized == old(heap).initialized,
            forall|x: int| start <= x < start + i ==> heap.mem@[x] == src@[x - start],
            forall|x: int| 0 <= x < HEAP_SIZE && !(start <= x < start + i) ==> heap.mem@[x] == m0[x],
        decreases len - i,
    {
        heap.mem[start + i] = src[i];
        i = i + 1;
    }
    proof {
        let m1 = heap.mem@;
        lemma_touched_intro(m0, m1, a, size);
        lemma_touch_keeps(m0, m1, heap.free@, heap.live@, a);
        assert(m1.subrange(a + 12, a + size) =~= old(heap)@.after_store(
            ptr as int,
            offset as int,
            src@.take(len as int),
        ).live[ptr as int].data);
    }
}

/// Clears the user area at `ptr` up to its cookie copy.
pub fn zeroes_region(heap: &mut Heap, ptr: usize)
    requires
        old(heap).wf(),
        old(heap)@.is_live(ptr as int),
    ensures
        final(heap).wf(),
        final(heap)@ == old(heap)@.after_zero(ptr as int),
{
    let ghost m0 = heap.mem@;
    let ghost a = ptr as int - 12;
    let ghost size = heap.live@[a];
    proof {
        lemma_live_block(m0, heap.live@, a);
    }
    let block: usize = ptr - BLOCK_HEADER_SIZE;
    let block_size: usize = load(&heap.mem, block + SIZE_OFFSET) as usize;
    let end: usize = block + block_size - COOKIE_SIZE;
    let mut i: usize = ptr;
    while i < end
        invariant
            ptr <= i <= end,
            end == a + size - 4,
            a == ptr - 12,
            16 <= size,
            a + size <= HEAP_SIZE,
            heap.mem@.len() == HEAP_SIZE,
            m0.len() == HEAP_SIZE,
            heap.free == old(heap).free,
            heap.live == old(heap).live,
            heap.free_bytes == old(heap).free_bytes,
            heap.initialized == old(heap).initialized,
            forall|x: int| ptr <= x < i ==> heap.mem@[x] == 0,
            forall|x: int| 0 <= x < HEAP_SIZE && !(ptr <= x < i) ==> heap.mem@[x] == m0[x],
        decreases end - i,
    {
        heap.mem[i] = 0;
        i = i + 1;
    }
    proof {
        let m1 = heap.mem@;
        lemma_touched_intro(m0, m1, a, size);
        lemma_touch_keeps(m0, m1, heap.free@, heap.live@, a);
        assert(m1.subrange(a + 12, a + size) =~= old(heap)@.after_zero(ptr as int).live[ptr as int].data);
    }
}

/// Where no block from `k` on is large enough, the search finds none.
proof fn lemma_no_fit(mem: Seq<u8>, free: Seq<Block>, want: int, k: int)
    requires
        links_wf(mem, free),
        0 <= k <= free.len(),
        want > 0x10000,
    ensures
        first_fit_from(free, want, k) == free.len(),
    decreases free.len() - k,
{
    if k < free.len() {
        lemma_free_block(mem, free, k);
        lemma_no_fit(mem, free, want, k + 1);
    }
}

/// In a sound arena an allocated block lies behind the sentinel, aligned,
/// with a user area of its size less the header, and room in it for the
/// cookie copy.
pub proof fn lemma_live_shape(heap: Heap, ptr: int)
    requires
        heap.wf(),
        heap@.is_live(ptr),
    ensures
        24 <= ptr,
        ptr % 4 == 0,
        16 <= heap@.live[ptr].size,
        heap@.live[ptr].size % 4 == 0,
        ptr - 12 + heap@.live[ptr].size <= HEAP_SIZE,
        heap@.live[ptr].data.len() == heap@.live[ptr].size - 12,
        0 <= heap@.live[ptr].cookie <= u32::MAX,
{
    lemma_live_block(heap.mem@, heap.live@, ptr - 12);
    lemma_word_at(heap.mem@, ptr - 4);
}

/// In a sound arena every byte of a free block behind its header is zero:
/// what was given back is cleared before it is handed out again.
pub proof fn lemma_free_memory_is_zero(heap: Heap, k: int, x: int)
    requires
        heap.wf(),
        0 <= k < heap@.free.len(),
        heap@.free[k].addr + 12 <= x < heap@.free[k].addr + heap@.free[k].size,
    ensures
        0 <= x < heap.bytes().len(),
        heap.bytes()[x] == 0,
{
    lemma_free_block(heap.mem@, heap.free@, k);
    lemma_zero_byte(heap.mem@, heap.free@, k, x);
}

/// The user area of an allocated block is the part of the arena's bytes
/// from its address to the end of the block.
pub proof fn lemma_live_memory(heap: Heap, ptr: int)
    requires
        heap.wf(),
        heap@.is_live(ptr),
    ensures
        heap.bytes().len() == HEAP_SIZE,
        heap@.live[ptr].data == heap.bytes().subrange(ptr, ptr - 12 + heap@.live[ptr].size),
{
}

/// The null address is never the address of an allocated block.
pub proof fn lemma_null_not_live(heap: Heap)
    requires
        heap.wf(),
    ensures
        !heap@.is_live(0),
{
    if heap@.is_live(0) {
        lemma_live_block(heap.mem@, heap.live@, -12);
    }
}

/// In a sound arena no two allocated blocks share a byte.
pub proof fn lemma_live_blocks_disjoint(heap: Heap, p: int, q: int)
    requires
        heap.wf(),
        heap@.is_live(p),
        heap@.is_live(q),
        p != q,
    ensures
        heap@.disjoint(p, q),
{
    lemma_live_pair(heap.mem@, heap.live@, p - 12, q - 12);
}

/// An arena whose bytes were carved, and whose bookkeeping follows, is sound
/// and is what the request makes of the old one.
proof fn lemma_allocated(h0: Heap, h1: Heap, size: int, k: int, taken: int, cookie: int)
    requires
        h0.wf(),
        0 < size <= 0x10000,
        0 <= k < h0.free@.len(),
        first_fit_from(h0.free@, block_size_for(size), 0) == k,
        taken == (if h0.free@[k].size - block_size_for(size) >= 24 {
            block_size_for(size)
        } else {
            h0.free@[k].size
        }),
        block_size_for(size) <= h0.free@[k].size,
        carved(
            h0.mem@,
            h1.mem@,
            prev_of(h0.free@, k),
            h0.free@[k].addr,
            h0.free@[k].size,
            taken,
            link_of(h0.free@, k),
            cookie,
        ),
        h1.free@ == carved_list(h0.free@, k, taken),
        h1.live@ == h0.live@.insert(h0.free@[k].addr, taken),
        h1.initialized == h0.initialized,
        h1.free_bytes == h0.free_bytes - taken,
    ensures
        h1.wf(),
        h1@ == h0@.after_alloc(size, cookie),
        h1@.cookie_intact(h0.free@[k].addr + 12),
        !h0@.is_live(h0.free@[k].addr + 12),
        forall|q: int| h0@.is_live(q) ==> #[trigger] h1@.disjoint(h0.free@[k].addr + 12, q),
{

    if 0 <= cookie <= u32::MAX {
        lemma_fresh_intact(taken, cookie);
    } else {
        lemma_carved_words(
            h0.mem@,
            h1.mem@,
            prev_of(h0.free@, k),
            h0.free@[k].addr,
            h0.free@[k].size,
            taken,
            link_of(h0.free@, k),
            cookie,
        );
        lemma_word_at(h1.mem@, h0.free@[k].addr + 8);
    }
    let m0 = h0.mem@;
    let m1 = h1.mem@;
    let free = h0.free@;
    let live = h0.live@;
    lemma_free_block(m0, free, k);
    lemma_carve_links(m0, m1, free, k, taken, cookie);
    lemma_carve_zero(m0, m1, free, k, taken, cookie);
    lemma_carve_live(m0, m1, free, live, k, taken, cookie);
    lemma_carve_view(m0, m1, free, live, k, taken, cookie);
    lemma_carved_words(m0, m1, prev_of(free, k), free[k].addr, free[k].size, taken, link_of(free, k), cookie);
    if taken < free[k].size {
        lemma_total_update(free, k, Block { addr: free[k].addr + taken, size: free[k].size - taken });
    } else {
        lemma_total_remove(free, k);
    }
    assert forall|q: int| h0@.is_live(q) implies #[trigger] h1@.disjoint(free[k].addr + 12, q) by {
        lemma_live_pair(m1, h1.live@, free[k].addr, q - 12);
    }
}

/// Hands out a block for `wanted_size` bytes: the first free block that is
/// large enough, split where the rest can stand as a block of its own. Null
/// when `wanted_size` is zero or no free block is large enough. The user area
/// of the new block is zero up to its cookie copy.
pub fn allocate(heap: &mut Heap, wanted_size: usize) -> (ptr: usize)
    requires
        old(heap).wf(),
    ensures
        final(heap).wf(),
        ptr == old(heap)@.alloc_ptr(wanted_size as int),
        (ptr != 0) == old(heap)@.can_allocate(wanted_size as int),
        final(heap)@ == old(heap)@.after_alloc(wanted_size as int, 0xdeadbeef),
        ptr != 0 ==> final(heap)@.is_live(ptr as int) && final(heap)@.cookie_intact(ptr as int),
        ptr != 0 ==> final(heap)@.live[ptr as int].data.len() >= wanted_size + 4,
        ptr != 0 ==> forall|i: int|
            0 <= i < final(heap)@.live[ptr as int].data.len() - 4 ==> final(heap)@.live[ptr as int].data[i]
                == 0,
        forall|q: int|
            old(heap)@.is_live(q) ==> q != ptr && #[trigger] final(heap)@.is_live(q)
                && final(heap)@.live[q] == old(heap)@.live[q]
                && (ptr != 0 ==> final(heap)@.disjoint(ptr as int, q)),
{
    let ghost free = heap.free@;
    let ghost live = heap.live@;
    let ghost m0 = heap.mem@;
    proof {
        lemma_null_not_live(*heap);
    }
    if wanted_size == 0 {
        return 0;
    }
    if wanted_size > HEAP_SIZE {
        proof {
            lemma_no_fit(m0, free, block_size_for(wanted_size as int), 0);
        }
        return 0;
    }
    let total: usize = wanted_size + BLOCK_HEADER_SIZE + COOKIE_SIZE;
    let want: usize = if total % ALIGNMENT == 0 {
        total
    } else {
        total + ALIGNMENT - total % ALIGNMENT
    };
    assert(want == block_size_for(wanted_size as int));
    let mut prev: usize = 0;
    proof {
        lemma_free_head(m0, free);
    }
    let mut cur: usize = load(&heap.mem, 0) as usize;
    let ghost mut k: int = 0;
    proof {
        if free.len() > 0 {
            lemma_free_block(m0, free, 0);
        }
    }
    while cur != 0 && (load(&heap.mem, cur + SIZE_OFFSET) as usize) < want
        invariant
            heap.mem@ == m0,
            m0.len() == HEAP_SIZE,
            links_wf(m0, free),
            0 <= k <= free.len(),
            cur == link_of(free, k - 1),
            prev == prev_of(free, k),
            k < free.len() ==> block_ok(free[k].addr, free[k].size) && word_at(m0, free[k].addr + 4)
                == free[k].size && word_at(m0, free[k].addr as int) == link_of(free, k),
            first_fit_from(free, want as int, 0) == first_fit_from(free, want as int, k),
        decreases free.len() - k,
    {
        prev = cur;
        cur = load(&heap.mem, cur) as usize;
        proof {
            k = k + 1;
            if k < free.len() {
                lemma_free_block(m0, free, k);
            }
        }
    }
    if cur == 0 {
        return 0;
    }
    let block_size: usize = load(&heap.mem, cur + SIZE_OFFSET) as usize;
    let next: u32 = load(&heap.mem, cur);
    let cookie: u32 = generate_random() as u32;
    let taken: usize;
    proof {
        lemma_free_block(m0, free, k);
        lemma_total_fits(m0, free);
    }
    if block_size - want >= MINIMUM_BLOCK_SIZE {
        let new_block: usize = cur + want;
        store(&mut heap.mem, new_block + SIZE_OFFSET, (block_size - want) as u32);
        store(&mut heap.mem, new_block, next);
        store(&mut heap.mem, cur + SIZE_OFFSET, want as u32);
        store(&mut heap.mem, prev, new_block as u32);
        store(&mut heap.mem, cur + COOKIE_OFFSET, cookie);
        store(&mut heap.mem, cur + want - COOKIE_SIZE, cookie);
        taken = want;
        proof {
            lemma_split_bytes(
                m0,
                prev as int,
                cur as int,
                block_size as int,
                want as int,
                next as int,
                cookie as int,
            );
        }
    } else {
        store(&mut heap.mem, prev, next);
        store(&mut heap.mem, cur + COOKIE_OFFSET, cookie);
        store(&mut heap.mem, cur + block_size - COOKIE_SIZE, cookie);
        taken = block_size;
        proof {
            lemma_whole_bytes(
                m0,
                prev as int,
                cur as int,
                block_size as int,
                next as int,
                cookie as int,
            );
        }
    }
    heap.free_bytes = heap.free_bytes - taken;
    proof {
        lemma_alloc_room(old(heap)@, wanted_size as int, 0xdeadbeef);
        heap.free = Ghost(carved_list(free, k, taken as int));
        heap.live = Ghost(live.insert(cur as int, taken as int));
        lemma_allocated(*old(heap), *heap, wanted_size as int, k, taken as int, cookie as int);
    }
    cur + BLOCK_HEADER_SIZE
}

/// An arena whose bytes had a block released, and whose bookkeeping
/// follows, is sound and is what the release makes of the old one.
proof fn lemma_deallocated(h0: Heap, h1: Heap, a: int, k: int)
    requires
        h0.wf(),
        h0.live@.contains_key(a),
        slot_for(h0.free@, a, k),
        released(
            h0.mem@,
            h1.mem@,
            prev_of(h0.free@, k),
            a,
            h0.live@[a],
            link_of(h0.free@, k - 1),
        ),
        h1.free@ == h0.free@.insert(k, Block { addr: a, size: h0.live@[a] }),
        h1.live@ == h0.live@.remove(a),
        h1.initialized == h0.initialized,
        h1.free_bytes == h0.free_bytes + h0.live@[a],
    ensures
        h1.wf(),
        h1@ == h0@.after_free(a + 12),
{
    let m0 = h0.mem@;
    let m1 = h1.mem@;
    let free = h0.free@;
    let live = h0.live@;
    lemma_released_words(m0, m1, prev_of(free, k), a, live[a], link_of(free, k - 1));
    lemma_release_links(m0, m1, free, live, a, k);
    lemma_release_zero(m0, m1, free, live, a, k);
    lemma_release_live(m0, m1, free, live, a, k);
    lemma_release_view(m0, m1, free, live, a, k);
    lemma_insert_pos(m0, free, a, k);
    lemma_total_insert(free, k, Block { addr: a, size: live[a] });
    assert(h0.initialized) by {
        if !h0.initialized {
            assert(live.dom().contains(a));
        }
    }
}

/// Gives the block at `ptr` back: checks its cookie, zeroes its user area
/// and puts it on the free list at its place in address order. Nothing
/// happens for the null address. Nothing changes, and the error says so,
/// where the two cookie copies differ.
pub fn deallocate(heap: &mut Heap, ptr: usize) -> (r: Result<(), HeapError>)
    requires
        old(heap).wf(),
        ptr == 0 || old(heap)@.is_live(ptr as int),
    ensures
        final(heap).wf(),
        r is Ok <==> ptr == 0 || old(heap)@.cookie_intact(ptr as int),
        r is Err ==> r == Err::<(), HeapError>(HeapError::Corrupted),
        final(heap)@ == (if ptr != 0 && old(heap)@.cookie_intact(ptr as int) {
            old(heap)@.after_free(ptr as int)
        } else {
            old(heap)@
        }),
        ptr != 0 && old(heap)@.cookie_intact(ptr as int) ==> forall|x: int|
            ptr <= x < ptr - 12 + old(heap)@.live[ptr as int].size ==> #[trigger] final(heap).bytes()[x]
                == 0,
{
    if ptr == 0 {
        return Ok(());
    }
    if !check_cookie(heap, ptr) {
        return Err(HeapError::Corrupted);
    }
    let ghost free = heap.free@;
    let ghost live = heap.live@;
    let ghost m0 = heap.mem@;
    let ghost a = ptr as int - 12;
    proof {
        lemma_live_block(m0, live, a);
        lemma_free_head(m0, free);
        lemma_total_fits(m0, free);
        if free.len() > 0 {
            lemma_free_block(m0, free, 0);
        }
        if !heap.initialized {
            assert(live.dom().contains(a));
        }
    }
    let block: usize = ptr - BLOCK_HEADER_SIZE;
    let size: usize = load(&heap.mem, block + SIZE_OFFSET) as usize;
    let mut prev: usize = 0;
    let mut cur: usize = load(&heap.mem, 0) as usize;
    let ghost mut k: int = 0;
    while cur != 0 && cur < block
        invariant
            heap.mem@ == m0,
            m0.len() == HEAP_SIZE,
            links_wf(m0, free),
            0 <= k <= free.len(),
            cur == link_of(free, k - 1),
            prev == prev_of(free, k),
            k > 0 ==> free[k - 1].addr < block,
            k < free.len() ==> block_ok(free[k].addr, free[k].size) && word_at(
                m0,
                free[k].addr as int,
            ) == link_of(free, k),
        decreases free.len() - k,
    {
        prev = cur;
        cur = load(&heap.mem, cur) as usize;
        proof {
            k = k + 1;
            if k < free.len() {
                lemma_free_block(m0, free, k);
            }
        }
    }
    proof {
        lemma_prev_place(m0, free, live, a, k);
    }
    let end: usize = block + size;
    let mut i: usize = ptr;
    while i < end
        invariant
            ptr <= i <= end,
            end == a + size,
            a == ptr - 12,
            a + size <= HEAP_SIZE,
            heap.mem@.len() == HEAP_SIZE,
            m0.len() == HEAP_SIZE,
            heap.free == old(heap).free,
            heap.live == old(heap).live,
            heap.free_bytes == old(heap).free_bytes,
            heap.initialized == old(heap).initialized,
            forall|x: int| ptr <= x < i ==> heap.mem@[x] == 0,
            forall|x: int| 0 <= x < HEAP_SIZE && !(ptr <= x < i) ==> heap.mem@[x] == m0[x],
        decreases end - i,
    {
        heap.mem[i] = 0;
        i = i + 1;
    }
    let ghost mz = heap.mem@;
    store(&mut heap.mem, block, cur as u32);
    store(&mut heap.mem, prev, block as u32);
    heap.free_bytes = heap.free_bytes + size;
    proof {
        lemma_release_bytes(m0, mz, prev as int, a, size as int, cur as int);
        heap.free = Ghost(free.insert(k, Block { addr: a, size: size as int }));
        heap.live = Ghost(live.remove(a));
        lemma_deallocated(*old(heap), *heap, a, k);
        assert forall|x: int| ptr <= x < a + size implies #[trigger] heap.bytes()[x] == 0 by {
            lemma_released_zero(m0, heap.mem@, prev as int, a, size as int, cur as int, x);
        }
    }
    Ok(())
}

} // verus!
