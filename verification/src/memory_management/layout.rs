//! How the arena's bytes encode the free list and the allocated blocks, and
//! why each change that the allocator makes keeps the encoding sound.

use vstd::prelude::*;
use crate::memory_management::model::{total_size, Block, LiveBlock};
use crate::memory_management::word::{word_at};

verus! {

/// Whether a block lies in the arena behind the sentinel, aligned, and is
/// large enough for a header and a cookie copy.
pub open spec fn block_ok(addr: int, size: int) -> bool {
    &&& 12 <= addr
    &&& addr % 4 == 0
    &&& size % 4 == 0
    &&& 16 <= size
    &&& addr + size <= 0x10000
}

/// Address of the free block behind block `k`, or null.
pub open spec fn link_of(free: Seq<Block>, k: int) -> int {
    if 0 <= k + 1 < free.len() {
        free[k + 1].addr
    } else {
        0
    }
}

/// Address of the header whose link leads to block `k`: the block before
/// it, or the sentinel.
pub open spec fn prev_of(free: Seq<Block>, k: int) -> int {
    if 0 < k <= free.len() {
        free[k - 1].addr
    } else {
        0
    }
}

/// The sentinel and the free headers hold the list, block behind block in
/// rising addresses.
#[verifier::opaque]
pub open spec fn links_wf(mem: Seq<u8>, free: Seq<Block>) -> bool {
    &&& word_at(mem, 0) == link_of(free, -1)
    &&& forall|k: int|
        0 <= k < free.len() ==> {
            &&& block_ok((#[trigger] free[k]).addr, free[k].size)
            &&& word_at(mem, free[k].addr) == link_of(free, k)
            &&& word_at(mem, free[k].addr + 4) == free[k].size
        }
    &&& forall|i: int, j: int|
        0 <= i < j < free.len() ==> (#[trigger] free[i]).addr + free[i].size <= (#[trigger] free[j]).addr
}

/// Behind its header every free block is zero.
#[verifier::opaque]
pub open spec fn bodies_zero(mem: Seq<u8>, free: Seq<Block>) -> bool {
    forall|k: int, x: int|
        #![trigger free[k], mem[x]]
        0 <= k < free.len() && free[k].addr + 12 <= x < free[k].addr + free[k].size ==> mem[x] == 0
}

/// Every allocated block has its size in its header, and no two share a
/// byte.
#[verifier::opaque]
pub open spec fn live_wf(mem: Seq<u8>, live: Map<int, int>) -> bool {
    &&& forall|a: int| #[trigger]
        live.contains_key(a) ==> block_ok(a, live[a]) && word_at(mem, a + 4) == live[a]
    &&& forall|a: int, b: int|
        #![trigger live.contains_key(a), live.contains_key(b)]
        live.contains_key(a) && live.contains_key(b) && a != b ==> a + live[a] <= b || b + live[b]
            <= a
}

/// No allocated block shares a byte with a free one.
#[verifier::opaque]
pub open spec fn apart(free: Seq<Block>, live: Map<int, int>) -> bool {
    forall|a: int, k: int|
        #![trigger live.contains_key(a), free[k]]
        live.contains_key(a) && 0 <= k < free.len() ==> a + live[a] <= free[k].addr || free[k].addr
            + free[k].size <= a
}

/// The allocated blocks as their owners see them, by user address.
pub open spec fn live_view(mem: Seq<u8>, live: Map<int, int>) -> Map<int, LiveBlock> {
    Map::new(
        |p: int| live.contains_key(p - 12),
        |p: int|
            LiveBlock {
                size: live[p - 12],
                cookie: word_at(mem, p - 4),
                data: mem.subrange(p, p - 12 + live[p - 12]),
            },
    )
}

/// The three facts that make the links of a free list sound.
pub proof fn lemma_links_intro(mem: Seq<u8>, free: Seq<Block>)
    requires
        word_at(mem, 0) == link_of(free, -1),
        forall|k: int|
            0 <= k < free.len() ==> {
                &&& block_ok((#[trigger] free[k]).addr, free[k].size)
                &&& word_at(mem, free[k].addr) == link_of(free, k)
                &&& word_at(mem, free[k].addr + 4) == free[k].size
            },
        forall|i: int, j: int|
            0 <= i < j < free.len() ==> (#[trigger] free[i]).addr + free[i].size <= (
            #[trigger] free[j]).addr,
    ensures
        links_wf(mem, free),
{
    reveal(links_wf);
}

/// What the encoding says of free block `k`.
pub proof fn lemma_free_block(mem: Seq<u8>, free: Seq<Block>, k: int)
    requires
        links_wf(mem, free),
        0 <= k < free.len(),
    ensures
        block_ok(free[k].addr, free[k].size),
        word_at(mem, free[k].addr) == link_of(free, k),
        word_at(mem, free[k].addr + 4) == free[k].size,
        prev_of(free, k) + 4 <= free[k].addr,
        prev_of(free, k) % 4 == 0,
        0 <= prev_of(free, k),
        link_of(free, k) != 0 ==> free[k].addr + free[k].size <= link_of(free, k),
{
    reveal(links_wf);
    if k > 0 {
        assert(free[k - 1].addr + free[k - 1].size <= free[k].addr);
    }
    if k + 1 < free.len() {
        assert(free[k].addr + free[k].size <= free[k + 1].addr);
    }
}

/// Two free blocks lie one behind the other, in list order.
pub proof fn lemma_free_order(mem: Seq<u8>, free: Seq<Block>, i: int, j: int)
    requires
        links_wf(mem, free),
        0 <= i < j < free.len(),
    ensures
        free[i].addr + free[i].size <= free[j].addr,
        block_ok(free[i].addr, free[i].size),
        block_ok(free[j].addr, free[j].size),
{
    reveal(links_wf);
}

/// A byte behind the header of a free block is zero.
pub proof fn lemma_zero_byte(mem: Seq<u8>, free: Seq<Block>, k: int, x: int)
    requires
        bodies_zero(mem, free),
        0 <= k < free.len(),
        free[k].addr + 12 <= x < free[k].addr + free[k].size,
    ensures
        mem[x] == 0,
{
    reveal(bodies_zero);
}

/// Two allocated blocks share no byte.
pub proof fn lemma_live_pair(mem: Seq<u8>, live: Map<int, int>, a: int, b: int)
    requires
        live_wf(mem, live),
        live.contains_key(a),
        live.contains_key(b),
        a != b,
    ensures
        a + live[a] <= b || b + live[b] <= a,
{
    reveal(live_wf);
}

/// An allocated block and a free block share no byte.
pub proof fn lemma_apart(free: Seq<Block>, live: Map<int, int>, a: int, k: int)
    requires
        apart(free, live),
        live.contains_key(a),
        0 <= k < free.len(),
    ensures
        a + live[a] <= free[k].addr || free[k].addr + free[k].size <= a,
{
    reveal(apart);
}

/// What the encoding says of the list's head.
pub proof fn lemma_free_head(mem: Seq<u8>, free: Seq<Block>)
    requires
        links_wf(mem, free),
    ensures
        word_at(mem, 0) == link_of(free, -1),
        free.len() > 0 ==> link_of(free, -1) != 0,
{
    reveal(links_wf);
    if free.len() > 0 {
        assert(block_ok(free[0].addr, free[0].size));
    }
}

/// What the encoding says of the allocated block at `a`.
pub proof fn lemma_live_block(mem: Seq<u8>, live: Map<int, int>, a: int)
    requires
        live_wf(mem, live),
        live.contains_key(a),
    ensures
        block_ok(a, live[a]),
        word_at(mem, a + 4) == live[a],
{
    reveal(live_wf);
}

/// Changing one block of a free list changes the sum by the difference.
pub proof fn lemma_total_update(free: Seq<Block>, k: int, b: Block)
    requires
        0 <= k < free.len(),
    ensures
        total_size(free.update(k, b)) == total_size(free) - free[k].size + b.size,
    decreases free.len(),
{
    if k == free.len() - 1 {
        assert(free.update(k, b).drop_last() =~= free.drop_last());
    } else {
        assert(free.update(k, b).drop_last() =~= free.drop_last().update(k, b));
        lemma_total_update(free.drop_last(), k, b);
    }
}

/// Taking one block out of a free list takes its size out of the sum.
pub proof fn lemma_total_remove(free: Seq<Block>, k: int)
    requires
        0 <= k < free.len(),
    ensures
        total_size(free.remove(k)) == total_size(free) - free[k].size,
    decreases free.len(),
{
    if k == free.len() - 1 {
        assert(free.remove(k) =~= free.drop_last());
    } else {
        assert(free.remove(k).drop_last() =~= free.drop_last().remove(k));
        lemma_total_remove(free.drop_last(), k);
    }
}

/// Putting one block into a free list adds its size to the sum.
pub proof fn lemma_total_insert(free: Seq<Block>, k: int, b: Block)
    requires
        0 <= k <= free.len(),
    ensures
        total_size(free.insert(k, b)) == total_size(free) + b.size,
    decreases free.len(),
{
    if k == free.len() {
        assert(free.insert(k, b).drop_last() =~= free);
    } else {
        assert(free.insert(k, b).drop_last() =~= free.drop_last().insert(k, b));
        lemma_total_insert(free.drop_last(), k, b);
    }
}

/// A sum of sizes that are not negative is not negative.
pub proof fn lemma_total_nonnegative(free: Seq<Block>)
    requires
        forall|i: int| 0 <= i < free.len() ==> (#[trigger] free[i]).size >= 0,
    ensures
        total_size(free) >= 0,
    decreases free.len(),
{
    if free.len() > 0 {
        lemma_total_nonnegative(free.drop_last());
    }
}

/// The sum of a free list is at least the size of each of its blocks.
pub proof fn lemma_total_covers(free: Seq<Block>, k: int)
    requires
        0 <= k < free.len(),
        forall|i: int| 0 <= i < free.len() ==> (#[trigger] free[i]).size >= 0,
    ensures
        total_size(free) >= free[k].size,
    decreases free.len(),
{
    lemma_total_nonnegative(free.drop_last());
    if k < free.len() - 1 {
        lemma_total_covers(free.drop_last(), k);
    }
}

/// The free blocks of a sound encoding lie one behind the other inside the
/// arena: their sizes sum to no more than the arena has bytes, and to no
/// less than any one of them.
pub proof fn lemma_total_fits(mem: Seq<u8>, free: Seq<Block>)
    requires
        links_wf(mem, free),
    ensures
        0 <= total_size(free) <= 0x10000,
        forall|k: int| 0 <= k < free.len() ==> total_size(free) >= (#[trigger] free[k]).size,
{
    reveal(links_wf);
    assert forall|i: int| 0 <= i < free.len() implies (#[trigger] free[i]).size >= 0 by {
        assert(block_ok(free[i].addr, free[i].size));
    }
    lemma_total_nonnegative(free);
    assert forall|k: int| 0 <= k < free.len() implies total_size(free) >= (#[trigger] free[k]).size by {
        lemma_total_covers(free, k);
    }
    lemma_total_below_end(free, free.len() as int);
}

/// The first `n` blocks of a list in rising addresses span no more than the
/// end of the last of them.
proof fn lemma_total_below_end(free: Seq<Block>, n: int)
    requires
        0 <= n <= free.len(),
        forall|k: int| 0 <= k < free.len() ==> block_ok((#[trigger] free[k]).addr, free[k].size),
        forall|i: int, j: int|
            0 <= i < j < free.len() ==> (#[trigger] free[i]).addr + free[i].size <= (
            #[trigger] free[j]).addr,
    ensures
        n == 0 ==> total_size(free.take(n)) == 0,
        n > 0 ==> total_size(free.take(n)) <= free[n - 1].addr + free[n - 1].size,
        n == free.len() ==> total_size(free) <= 0x10000,
    decreases n,
{
    if n > 0 {
        lemma_total_below_end(free, n - 1);
        assert(free.take(n).drop_last() =~= free.take(n - 1));
        assert(block_ok(free[n - 1].addr, free[n - 1].size));
        if n > 1 {
            assert(free[n - 2].addr + free[n - 2].size <= free[n - 1].addr);
        }
    }
    if n == free.len() {
        assert(free.take(n) =~= free);
    }
}

} // verus!
