//! What an arena is to its users: a free list, the allocated blocks with
//! their contents, and a counter; and what each operation makes of it.

use vstd::prelude::*;
use crate::memory_management::word::{
    byte_of,
    lemma_same_word,
    lemma_word_at,
    lemma_word_bytes,
    lemma_word_round_trip,
    word_at,
};

verus! {

/// A free block: where its header starts and how many bytes it spans.
pub struct Block {
    pub addr: int,
    pub size: int,
}

/// An allocated block as its owner sees it.
pub struct LiveBlock {
    /// Bytes the block spans, header included.
    pub size: int,
    /// The cookie kept in the header.
    pub cookie: int,
    /// The user area: everything behind the header. Its last word is the
    /// second copy of the cookie.
    pub data: Seq<u8>,
}

/// What an arena is, apart from how its bytes encode it.
pub struct HeapModel {
    /// Whether the arena was set up.
    pub initialized: bool,
    /// The free list, in list order, which is address order.
    pub free: Seq<Block>,
    /// The allocated blocks, by the address handed out for each.
    pub live: Map<int, LiveBlock>,
    /// The advisory counter of free bytes.
    pub free_bytes: int,
}

/// `n` rounded up to a multiple of the alignment.
pub open spec fn round_up(n: int) -> int {
    if n % 4 == 0 {
        n
    } else {
        n + 4 - n % 4
    }
}

/// Bytes a block must span to serve a request of `size` bytes: header,
/// request and cookie copy, rounded up.
pub open spec fn block_size_for(size: int) -> int {
    round_up(size + 16)
}

/// Index, from `k` on, of the first free block of at least `want` bytes;
/// the list's length if there is none.
pub open spec fn first_fit_from(free: Seq<Block>, want: int, k: int) -> int
    decreases free.len() - k,
{
    if k < 0 || k >= free.len() {
        free.len() as int
    } else if free[k].size >= want {
        k
    } else {
        first_fit_from(free, want, k + 1)
    }
}

/// Index, from `k` on, of the first free block that does not lie below
/// `addr`; the list's length if there is none.
pub open spec fn insert_pos_from(free: Seq<Block>, addr: int, k: int) -> int
    decreases free.len() - k,
{
    if k < 0 || k >= free.len() {
        free.len() as int
    } else if free[k].addr >= addr {
        k
    } else {
        insert_pos_from(free, addr, k + 1)
    }
}

/// Sum of the sizes of the blocks of a free list.
pub open spec fn total_size(free: Seq<Block>) -> int
    decreases free.len(),
{
    if free.len() == 0 {
        0
    } else {
        total_size(free.drop_last()) + free.last().size
    }
}

/// The user area of a block fresh from the allocator: zeroes, then the cookie.
pub open spec fn fresh_data(len: int, cookie: int) -> Seq<u8> {
    Seq::new(
        len as nat,
        |i: int|
            if i < len - 4 {
                0u8
            } else {
                byte_of(cookie, i - (len - 4))
            },
    )
}

impl LiveBlock {
    /// The cookie copy at the end of the user area.
    pub open spec fn tail_cookie(self) -> int {
        word_at(self.data, self.data.len() - 4)
    }

    /// Whether both copies of the cookie agree.
    pub open spec fn intact(self) -> bool {
        self.cookie == self.tail_cookie()
    }
}

impl HeapModel {
    /// The arena before it is set up: nothing can be allocated from it.
    pub open spec fn blank() -> HeapModel {
        HeapModel { initialized: false, free: Seq::empty(), live: Map::empty(), free_bytes: 0x10000 }
    }

    /// The arena as one free block behind the head sentinel.
    pub open spec fn fresh() -> HeapModel {
        HeapModel {
            initialized: true,
            free: seq![Block { addr: 12, size: 0x10000 - 12 }],
            live: Map::empty(),
            free_bytes: 0x10000 - 12,
        }
    }

    /// Index of the free block that serves a request of `size` bytes; the
    /// list's length if none does.
    pub open spec fn fit(self, size: int) -> int {
        first_fit_from(self.free, block_size_for(size), 0)
    }

    /// Whether a request of `size` bytes is served.
    pub open spec fn can_allocate(self, size: int) -> bool {
        size > 0 && self.fit(size) < self.free.len()
    }

    /// The address that a request of `size` bytes is answered with: the user
    /// area of the first block that fits, or null.
    pub open spec fn alloc_ptr(self, size: int) -> int {
        if self.can_allocate(size) {
            self.free[self.fit(size)].addr + 12
        } else {
            0
        }
    }

    /// Bytes that the block serving a request of `size` bytes spans: the
    /// bytes needed where the block is split, else the whole block.
    pub open spec fn alloc_size(self, size: int) -> int {
        let b = self.free[self.fit(size)];
        if b.size - block_size_for(size) >= 24 {
            block_size_for(size)
        } else {
            b.size
        }
    }

    /// The arena after a request of `size` bytes, with `cookie` as the
    /// block's cookie.
    pub open spec fn after_alloc(self, size: int, cookie: int) -> HeapModel {
        if self.can_allocate(size) {
            let k = self.fit(size);
            let b = self.free[k];
            let taken = self.alloc_size(size);
            HeapModel {
                initialized: self.initialized,
                free: if taken < b.size {
                    self.free.update(k, Block { addr: b.addr + taken, size: b.size - taken })
                } else {
                    self.free.remove(k)
                },
                live: self.live.insert(
                    b.addr + 12,
                    LiveBlock { size: taken, cookie, data: fresh_data(taken - 12, cookie) },
                ),
                free_bytes: self.free_bytes - taken,
            }
        } else {
            self
        }
    }

    /// Whether `ptr` is the address of an allocated block.
    pub open spec fn is_live(self, ptr: int) -> bool {
        self.live.contains_key(ptr)
    }

    /// Whether the two cookie copies of the block at `ptr` agree.
    pub open spec fn cookie_intact(self, ptr: int) -> bool {
        self.live[ptr].intact()
    }

    /// The arena after the block at `ptr` went back to the free list, at its
    /// place in address order.
    pub open spec fn after_free(self, ptr: int) -> HeapModel {
        let b = Block { addr: ptr - 12, size: self.live[ptr].size };
        HeapModel {
            initialized: self.initialized,
            free: self.free.insert(insert_pos_from(self.free, b.addr, 0), b),
            live: self.live.remove(ptr),
            free_bytes: self.free_bytes + b.size,
        }
    }

    /// The arena after byte `offset` of the user area at `ptr` was set to
    /// `value`.
    pub open spec fn after_write(self, ptr: int, offset: int, value: u8) -> HeapModel {
        let b = self.live[ptr];
        HeapModel {
            live: self.live.insert(
                ptr,
                LiveBlock { size: b.size, cookie: b.cookie, data: b.data.update(offset, value) },
            ),
            ..self
        }
    }

    /// The arena after `bytes` were copied into the user area at `ptr`, from
    /// byte `offset` on.
    pub open spec fn after_store(self, ptr: int, offset: int, bytes: Seq<u8>) -> HeapModel {
        let b = self.live[ptr];
        HeapModel {
            live: self.live.insert(
                ptr,
                LiveBlock {
                    size: b.size,
                    cookie: b.cookie,
                    data: Seq::new(
                        b.data.len(),
                        |i: int|
                            if offset <= i < offset + bytes.len() {
                                bytes[i - offset]
                            } else {
                                b.data[i]
                            },
                    ),
                },
            ),
            ..self
        }
    }

    /// The arena after the user area at `ptr` was cleared up to its cookie
    /// copy.
    pub open spec fn after_zero(self, ptr: int) -> HeapModel {
        let b = self.live[ptr];
        HeapModel {
            live: self.live.insert(
                ptr,
                LiveBlock {
                    size: b.size,
                    cookie: b.cookie,
                    data: Seq::new(
                        b.data.len(),
                        |i: int|
                            if i < b.data.len() - 4 {
                                0u8
                            } else {
                                b.data[i]
                            },
                    ),
                },
            ),
            ..self
        }
    }

    /// Whether two allocated blocks share no byte.
    pub open spec fn disjoint(self, p: int, q: int) -> bool {
        p - 12 + self.live[p].size <= q - 12 || q - 12 + self.live[q].size <= p - 12
    }
}

/// The search from `k` ends at the first block that is large enough: every
/// block it passed is too small.
pub proof fn lemma_first_fit(free: Seq<Block>, want: int, k: int)
    requires
        0 <= k <= free.len(),
    ensures
        k <= first_fit_from(free, want, k) <= free.len(),
        first_fit_from(free, want, k) < free.len() ==> free[first_fit_from(free, want, k)].size
            >= want,
        forall|j: int| k <= j < first_fit_from(free, want, k) ==> (#[trigger] free[j]).size < want,
    decreases free.len() - k,
{
    if k < free.len() && free[k].size < want {
        lemma_first_fit(free, want, k + 1);
    }
}

/// A served request gets a user area of at least the bytes asked for, with
/// room for the cookie copy behind them.
pub proof fn lemma_alloc_room(m: HeapModel, size: int, cookie: int)
    requires
        m.can_allocate(size),
    ensures
        m.alloc_size(size) >= block_size_for(size) >= size + 16,
        m.alloc_size(size) <= m.free[m.fit(size)].size,
        m.after_alloc(size, cookie).live[m.alloc_ptr(size)].data.len() >= size + 4,
{
    lemma_first_fit(m.free, block_size_for(size), 0);
}

/// A block fresh from the allocator has both cookie copies equal.
pub proof fn lemma_fresh_intact(size: int, cookie: int)
    requires
        16 <= size,
        0 <= cookie <= u32::MAX,
    ensures
        (LiveBlock { size, cookie, data: fresh_data(size - 12, cookie) }).intact(),
{
    let data = fresh_data(size - 12, cookie);
    lemma_word_at(data, data.len() - 4);
    lemma_word_round_trip(cookie);
}

/// Writing one byte of the cookie copy of a block whose cookie copies agree,
/// with a value other than the byte that was there, makes them differ.
pub proof fn lemma_overrun_breaks_cookie(m: HeapModel, ptr: int, offset: int, value: u8)
    requires
        m.is_live(ptr),
        m.cookie_intact(ptr),
        4 <= m.live[ptr].data.len(),
        m.live[ptr].data.len() - 4 <= offset < m.live[ptr].data.len(),
        value != m.live[ptr].data[offset],
    ensures
        !m.after_write(ptr, offset, value).cookie_intact(ptr),
{
    let d0 = m.live[ptr].data;
    let d1 = d0.update(offset, value);
    let t = d0.len() - 4;
    lemma_word_at(d0, t);
    lemma_word_at(d1, t);
    lemma_word_bytes(d0[t], d0[t + 1], d0[t + 2], d0[t + 3]);
    lemma_word_bytes(d1[t], d1[t + 1], d1[t + 2], d1[t + 3]);
}

/// Copying bytes into a user area before its cookie copy leaves the cookie
/// check as it was.
pub proof fn lemma_store_inside_keeps_cookie(m: HeapModel, ptr: int, offset: int, bytes: Seq<u8>)
    requires
        m.is_live(ptr),
        4 <= m.live[ptr].data.len(),
        0 <= offset,
        offset + bytes.len() <= m.live[ptr].data.len() - 4,
    ensures
        m.after_store(ptr, offset, bytes).cookie_intact(ptr) == m.cookie_intact(ptr),
{
    let d0 = m.live[ptr].data;
    let d1 = m.after_store(ptr, offset, bytes).live[ptr].data;
    let t = d0.len() - 4;
    lemma_same_word(d0, t, d1, t);
}

/// Writing a byte before the cookie copy leaves the cookie check as it was.
pub proof fn lemma_write_inside_keeps_cookie(m: HeapModel, ptr: int, offset: int, value: u8)
    requires
        m.is_live(ptr),
        4 <= m.live[ptr].data.len(),
        0 <= offset < m.live[ptr].data.len() - 4,
    ensures
        m.after_write(ptr, offset, value).cookie_intact(ptr) == m.cookie_intact(ptr),
{
    let d0 = m.live[ptr].data;
    let d1 = d0.update(offset, value);
    let t = d0.len() - 4;
    lemma_same_word(d0, t, d1, t);
}

} // verus!
