//! Giving a block back to the free list, and writing into a block's user
//! area: which bytes change, and why the encoding stays sound.

use vstd::prelude::*;
use crate::memory_management::layout::{
    apart,
    block_ok,
    bodies_zero,
    lemma_apart,
    lemma_free_block,
    lemma_free_head,
    lemma_free_order,
    lemma_links_intro,
    lemma_live_block,
    lemma_live_pair,
    lemma_zero_byte,
    link_of,
    links_wf,
    live_view,
    live_wf,
    prev_of,
};
use crate::memory_management::model::{insert_pos_from, Block, LiveBlock};
use crate::memory_management::word::{lemma_same_word, lemma_store_word, store_word, word_at};

verus! {

/// The bytes `m1` are the bytes `m0` but for the user area of the block at
/// `a`, of `size` bytes.
#[verifier::opaque]
pub open spec fn touched(m0: Seq<u8>, m1: Seq<u8>, a: int, size: int) -> bool {
    &&& m1.len() == m0.len()
    &&& forall|x: int|
        #![trigger m1[x]]
        0 <= x < m0.len() && !(a + 12 <= x < a + size) ==> m1[x] == m0[x]
}

/// Bytes that agree everywhere but in one user area are touched there.
pub proof fn lemma_touched_intro(m0: Seq<u8>, m1: Seq<u8>, a: int, size: int)
    requires
        m1.len() == m0.len(),
        forall|x: int|
            #![trigger m1[x]]
            0 <= x < m0.len() && !(a + 12 <= x < a + size) ==> m1[x] == m0[x],
    ensures
        touched(m0, m1, a, size),
{
    reveal(touched);
}

/// A byte outside the touched user area is as before.
pub proof fn lemma_touched_byte(m0: Seq<u8>, m1: Seq<u8>, a: int, size: int, x: int)
    requires
        touched(m0, m1, a, size),
        0 <= x < m0.len(),
        !(a + 12 <= x < a + size),
    ensures
        m1.len() == m0.len(),
        m1[x] == m0[x],
{
    reveal(touched);
}

/// A word outside the touched user area is as before.
pub proof fn lemma_touched_word(m0: Seq<u8>, m1: Seq<u8>, a: int, size: int, x: int)
    requires
        touched(m0, m1, a, size),
        0 <= x,
        x + 4 <= m0.len(),
        x + 4 <= a + 12 || a + size <= x,
    ensures
        word_at(m1, x) == word_at(m0, x),
{
    lemma_touched_byte(m0, m1, a, size, x);
    lemma_touched_byte(m0, m1, a, size, x + 1);
    lemma_touched_byte(m0, m1, a, size, x + 2);
    lemma_touched_byte(m0, m1, a, size, x + 3);
    lemma_same_word(m0, x, m1, x);
}

/// Writing into the user area of an allocated block keeps the encoding
/// sound, and shows every other allocated block as it was.
pub proof fn lemma_touch_keeps(
    m0: Seq<u8>,
    m1: Seq<u8>,
    free: Seq<Block>,
    live: Map<int, int>,
    a: int,
)
    requires
        m0.len() == 0x10000,
        links_wf(m0, free),
        bodies_zero(m0, free),
        live_wf(m0, live),
        apart(free, live),
        live.contains_key(a),
        touched(m0, m1, a, live[a]),
    ensures
        m1.len() == m0.len(),
        links_wf(m1, free),
        bodies_zero(m1, free),
        live_wf(m1, live),
        live_view(m1, live) == live_view(m0, live).insert(
            a + 12,
            LiveBlock {
                size: live[a],
                cookie: word_at(m0, a + 8),
                data: m1.subrange(a + 12, a + live[a]),
            },
        ),
{
    let size = live[a];
    lemma_live_block(m0, live, a);
    lemma_touched_byte(m0, m1, a, size, 0);
    lemma_free_head(m0, free);
    lemma_touched_word(m0, m1, a, size, 0);
    assert forall|k: int| 0 <= k < free.len() implies {
        &&& block_ok((#[trigger] free[k]).addr, free[k].size)
        &&& word_at(m1, free[k].addr) == link_of(free, k)
        &&& word_at(m1, free[k].addr + 4) == free[k].size
    } by {
        lemma_free_block(m0, free, k);
        lemma_apart(free, live, a, k);
        lemma_touched_word(m0, m1, a, size, free[k].addr);
        lemma_touched_word(m0, m1, a, size, free[k].addr + 4);
    }
    assert forall|i: int, j: int| 0 <= i < j < free.len() implies (#[trigger] free[i]).addr
        + free[i].size <= (#[trigger] free[j]).addr by {
        lemma_free_order(m0, free, i, j);
    }
    lemma_links_intro(m1, free);
    assert forall|k: int, x: int|
        #![trigger free[k], m1[x]]
        0 <= k < free.len() && free[k].addr + 12 <= x < free[k].addr + free[k].size implies m1[x]
        == 0 by {
        lemma_free_block(m0, free, k);
        lemma_apart(free, live, a, k);
        lemma_zero_byte(m0, free, k, x);
        lemma_touched_byte(m0, m1, a, size, x);
    }
    assert(bodies_zero(m1, free)) by {
        reveal(bodies_zero);
    }
    assert forall|b: int| #[trigger] live.contains_key(b) implies block_ok(b, live[b]) && word_at(
        m1,
        b + 4,
    ) == live[b] by {
        lemma_live_block(m0, live, b);
        if b != a {
            lemma_live_pair(m0, live, a, b);
        }
        lemma_touched_word(m0, m1, a, size, b + 4);
    }
    assert forall|b: int, c: int|
        #![trigger live.contains_key(b), live.contains_key(c)]
        live.contains_key(b) && live.contains_key(c) && b != c implies b + live[b] <= c || c
        + live[c] <= b by {
        lemma_live_pair(m0, live, b, c);
    }
    assert(live_wf(m1, live)) by {
        reveal(live_wf);
    }
    let v1 = live_view(m1, live);
    let v0 = live_view(m0, live).insert(
        a + 12,
        LiveBlock { size, cookie: word_at(m0, a + 8), data: m1.subrange(a + 12, a + size) },
    );
    assert forall|p: int| v1.contains_key(p) implies #[trigger] v1[p] == v0[p] by {
        let b = p - 12;
        lemma_live_block(m0, live, b);
        lemma_touched_word(m0, m1, a, size, p - 4);
        if b != a {
            lemma_live_pair(m0, live, a, b);
            let d1 = m1.subrange(p, p - 12 + live[b]);
            let d0 = m0.subrange(p, p - 12 + live[b]);
            assert forall|i: int| 0 <= i < live[b] - 12 implies d1[i] == d0[i] by {
                lemma_touched_byte(m0, m1, a, size, p + i);
            }
            assert(d1 =~= d0);
        }
    }
    assert(v1 =~= v0);
}

/// The bytes `m1` are the bytes `m0` after the block at `a`, of `size`
/// bytes, went back to the free list between the header at `prev` and the
/// block at `next`: its user area is zero, its link leads on to `next`, and
/// the link at `prev` leads to it.
#[verifier::opaque]
pub open spec fn released(m0: Seq<u8>, m1: Seq<u8>, prev: int, a: int, size: int, next: int) -> bool {
    &&& m1.len() == m0.len()
    &&& forall|x: int|
        #![trigger m1[x]]
        0 <= x < m0.len() && !(prev <= x < prev + 4) && !(a <= x < a + 4) && !(a + 12 <= x < a
            + size) ==> m1[x] == m0[x]
    &&& forall|x: int| #![trigger m1[x]] a + 12 <= x < a + size ==> m1[x] == 0
    &&& word_at(m1, prev) == a
    &&& word_at(m1, a) == next
}

/// Zeroing a user area and storing the two links releases the block.
pub proof fn lemma_release_bytes(
    m0: Seq<u8>,
    mz: Seq<u8>,
    prev: int,
    a: int,
    size: int,
    next: int,
)
    requires
        0 <= prev,
        prev + 4 <= a,
        16 <= size,
        a + size <= m0.len() <= 0x10000,
        0 <= next <= u32::MAX,
        mz.len() == m0.len(),
        forall|x: int| #![trigger mz[x]] a + 12 <= x < a + size ==> mz[x] == 0,
        forall|x: int|
            #![trigger mz[x]]
            0 <= x < m0.len() && !(a + 12 <= x < a + size) ==> mz[x] == m0[x],
    ensures
        released(m0, store_word(store_word(mz, a, next), prev, a), prev, a, size, next),
{
    let m1 = store_word(mz, a, next);
    let m2 = store_word(m1, prev, a);
    lemma_store_word(mz, a, next);
    lemma_store_word(m1, prev, a);
    assert forall|x: int|
        #![trigger m2[x]]
        0 <= x < m0.len() && !(prev <= x < prev + 4) && !(a <= x < a + 4) && !(a + 12 <= x < a
            + size) implies m2[x] == m0[x] by {
        assert(m2[x] == m1[x]);
        assert(m1[x] == mz[x]);
    }
    assert forall|x: int| #![trigger m2[x]] a + 12 <= x < a + size implies m2[x] == 0 by {
        assert(m2[x] == m1[x]);
        assert(m1[x] == mz[x]);
    }
    assert(word_at(m2, a) == word_at(m1, a));
    reveal(released);
}

/// The links that releasing a block stores.
pub proof fn lemma_released_words(m0: Seq<u8>, m1: Seq<u8>, prev: int, a: int, size: int, next: int)
    requires
        released(m0, m1, prev, a, size, next),
    ensures
        m1.len() == m0.len(),
        word_at(m1, prev) == a,
        word_at(m1, a) == next,
{
    reveal(released);
}

/// Releasing a block leaves a byte alone that lies clear of the two links
/// and of the block's user area.
pub proof fn lemma_released_byte(
    m0: Seq<u8>,
    m1: Seq<u8>,
    prev: int,
    a: int,
    size: int,
    next: int,
    x: int,
)
    requires
        released(m0, m1, prev, a, size, next),
        0 <= x < m0.len(),
        !(prev <= x < prev + 4),
        !(a <= x < a + 4),
        !(a + 12 <= x < a + size),
    ensures
        m1[x] == m0[x],
{
    reveal(released);
}

/// Releasing a block zeroes its user area.
pub proof fn lemma_released_zero(
    m0: Seq<u8>,
    m1: Seq<u8>,
    prev: int,
    a: int,
    size: int,
    next: int,
    x: int,
)
    requires
        released(m0, m1, prev, a, size, next),
        a + 12 <= x < a + size,
    ensures
        m1[x] == 0,
{
    reveal(released);
}

/// Releasing a block leaves a word alone that lies clear of the link before
/// the block, and of the block but for its size and cookie.
pub proof fn lemma_released_word(
    m0: Seq<u8>,
    m1: Seq<u8>,
    prev: int,
    a: int,
    size: int,
    next: int,
    x: int,
)
    requires
        released(m0, m1, prev, a, size, next),
        0 <= x,
        x + 4 <= m0.len(),
        x + 4 <= prev || prev + 4 <= x,
        x + 4 <= a || a + size <= x || (a + 4 <= x && x + 4 <= a + 12),
        16 <= size,
    ensures
        word_at(m1, x) == word_at(m0, x),
{
    lemma_released_byte(m0, m1, prev, a, size, next, x);
    lemma_released_byte(m0, m1, prev, a, size, next, x + 1);
    lemma_released_byte(m0, m1, prev, a, size, next, x + 2);
    lemma_released_byte(m0, m1, prev, a, size, next, x + 3);
    lemma_same_word(m0, x, m1, x);
}

/// Whether the block at `a` belongs at index `k` of the free list: behind
/// every block below it, before every other.
pub open spec fn slot_for(free: Seq<Block>, a: int, k: int) -> bool {
    &&& 0 <= k <= free.len()
    &&& k > 0 ==> free[k - 1].addr < a
    &&& k < free.len() ==> free[k].addr >= a
}

/// Index in the old list of block `j` of the list that got a block at `k`.
pub open spec fn source(k: int, j: int) -> int {
    if j < k {
        j
    } else {
        j - 1
    }
}

/// Where the search for a block's place stands at `k`, with every block
/// before it lying lower, it ends at the block's slot.
pub proof fn lemma_insert_pos(mem: Seq<u8>, free: Seq<Block>, a: int, k: int)
    requires
        links_wf(mem, free),
        slot_for(free, a, k),
    ensures
        insert_pos_from(free, a, 0) == k,
{
    lemma_insert_pos_from(mem, free, a, k, 0);
}

proof fn lemma_insert_pos_from(mem: Seq<u8>, free: Seq<Block>, a: int, k: int, i: int)
    requires
        links_wf(mem, free),
        slot_for(free, a, k),
        0 <= i <= k,
    ensures
        insert_pos_from(free, a, i) == k,
    decreases k - i,
{
    if i < k {
        lemma_free_block(mem, free, i);
        if i < k - 1 {
            lemma_free_order(mem, free, i, k - 1);
        }
        lemma_insert_pos_from(mem, free, a, k, i + 1);
    }
}

/// A free block lies wholly before or wholly behind a block that is being
/// released, as its index tells, and clear of the link that will lead to
/// that block, unless the link is its own.
proof fn lemma_neighbour(
    mem: Seq<u8>,
    free: Seq<Block>,
    live: Map<int, int>,
    a: int,
    k: int,
    i: int,
)
    requires
        mem.len() == 0x10000,
        links_wf(mem, free),
        live_wf(mem, live),
        apart(free, live),
        live.contains_key(a),
        slot_for(free, a, k),
        0 <= i < free.len(),
    ensures
        block_ok(free[i].addr, free[i].size),
        block_ok(a, live[a]),
        i < k ==> free[i].addr + free[i].size <= a,
        i >= k ==> a + live[a] <= free[i].addr,
        i != k - 1 ==> free[i].addr + free[i].size <= prev_of(free, k) || prev_of(free, k) + 4
            <= free[i].addr,
        word_at(mem, free[i].addr) == link_of(free, i),
        word_at(mem, free[i].addr + 4) == free[i].size,
{
    lemma_free_block(mem, free, i);
    lemma_live_block(mem, live, a);
    lemma_apart(free, live, a, i);
    if i < k {
        lemma_free_block(mem, free, k - 1);
        if i < k - 1 {
            lemma_free_order(mem, free, i, k - 1);
        }
    } else {
        lemma_free_block(mem, free, k);
        if i > k {
            lemma_free_order(mem, free, k, i);
        }
        if k > 0 {
            lemma_free_block(mem, free, k - 1);
            lemma_free_order(mem, free, k - 1, i);
        }
    }
}

/// Where the link to a released block stands: in the sentinel or in the
/// header of the free block before it, clear of the block itself.
pub proof fn lemma_prev_place(mem: Seq<u8>, free: Seq<Block>, live: Map<int, int>, a: int, k: int)
    requires
        mem.len() == 0x10000,
        links_wf(mem, free),
        live_wf(mem, live),
        apart(free, live),
        live.contains_key(a),
        slot_for(free, a, k),
    ensures
        0 <= prev_of(free, k),
        prev_of(free, k) + 4 <= a,
        block_ok(a, live[a]),
        k > 0 ==> prev_of(free, k) == free[k - 1].addr && free[k - 1].addr + free[k - 1].size <= a,
        k == 0 ==> prev_of(free, k) == 0,
{
    lemma_live_block(mem, live, a);
    if k > 0 {
        lemma_neighbour(mem, free, live, a, k, k - 1);
    }
}

/// After a release, block `j` of the list has a sound header.
proof fn lemma_release_link_at(
    m0: Seq<u8>,
    m1: Seq<u8>,
    free: Seq<Block>,
    live: Map<int, int>,
    a: int,
    k: int,
    j: int,
)
    requires
        m0.len() == 0x10000,
        links_wf(m0, free),
        live_wf(m0, live),
        apart(free, live),
        live.contains_key(a),
        slot_for(free, a, k),
        released(m0, m1, prev_of(free, k), a, live[a], link_of(free, k - 1)),
        0 <= j <= free.len(),
    ensures
        ({
            let after = free.insert(k, Block { addr: a, size: live[a] });
            &&& block_ok(after[j].addr, after[j].size)
            &&& word_at(m1, after[j].addr) == link_of(after, j)
            &&& word_at(m1, after[j].addr + 4) == after[j].size
        }),
{
    let size = live[a];
    let prev = prev_of(free, k);
    let next = link_of(free, k - 1);
    let after = free.insert(k, Block { addr: a, size });
    lemma_prev_place(m0, free, live, a, k);
    lemma_live_block(m0, live, a);
    lemma_released_words(m0, m1, prev, a, size, next);
    if j + 1 < after.len() {
        if j + 1 != k {
            assert(after[j + 1] == free[source(k, j + 1)]);
        }
    }
    if j == k {
        lemma_released_word(m0, m1, prev, a, size, next, a + 4);
    } else {
        let i = source(k, j);
        assert(after[j] == free[i]);
        lemma_neighbour(m0, free, live, a, k, i);
        lemma_released_word(m0, m1, prev, a, size, next, free[i].addr + 4);
        if i != k - 1 {
            lemma_released_word(m0, m1, prev, a, size, next, free[i].addr);
        }
    }
}

/// After a release, blocks `i` and `j` of the list lie one behind the
/// other.
proof fn lemma_release_order_at(
    m0: Seq<u8>,
    free: Seq<Block>,
    live: Map<int, int>,
    a: int,
    k: int,
    i: int,
    j: int,
)
    requires
        m0.len() == 0x10000,
        links_wf(m0, free),
        live_wf(m0, live),
        apart(free, live),
        live.contains_key(a),
        slot_for(free, a, k),
        0 <= i < j <= free.len(),
    ensures
        ({
            let after = free.insert(k, Block { addr: a, size: live[a] });
            after[i].addr + after[i].size <= after[j].addr
        }),
{
    let after = free.insert(k, Block { addr: a, size: live[a] });
    if i == k {
        assert(after[j] == free[j - 1]);
        lemma_neighbour(m0, free, live, a, k, j - 1);
    } else if j == k {
        assert(after[i] == free[i]);
        lemma_neighbour(m0, free, live, a, k, i);
    } else {
        assert(after[i] == free[source(k, i)]);
        assert(after[j] == free[source(k, j)]);
        lemma_free_order(m0, free, source(k, i), source(k, j));
    }
}

/// After a release, the sentinel leads to the first block of the list.
proof fn lemma_release_head(
    m0: Seq<u8>,
    m1: Seq<u8>,
    free: Seq<Block>,
    live: Map<int, int>,
    a: int,
    k: int,
)
    requires
        m0.len() == 0x10000,
        links_wf(m0, free),
        live_wf(m0, live),
        apart(free, live),
        live.contains_key(a),
        slot_for(free, a, k),
        released(m0, m1, prev_of(free, k), a, live[a], link_of(free, k - 1)),
    ensures
        word_at(m1, 0) == link_of(free.insert(k, Block { addr: a, size: live[a] }), -1),
{
    let size = live[a];
    let prev = prev_of(free, k);
    let next = link_of(free, k - 1);
    let after = free.insert(k, Block { addr: a, size });
    lemma_prev_place(m0, free, live, a, k);
    lemma_released_words(m0, m1, prev, a, size, next);
    lemma_free_head(m0, free);
    if k > 0 {
        lemma_free_block(m0, free, 0);
        lemma_free_block(m0, free, k - 1);
        lemma_released_word(m0, m1, prev, a, size, next, 0);
        assert(after[0] == free[0]);
    } else {
        assert(after[0] == Block { addr: a, size });
    }
}

/// Releasing a block keeps the list's links sound.
pub proof fn lemma_release_links(
    m0: Seq<u8>,
    m1: Seq<u8>,
    free: Seq<Block>,
    live: Map<int, int>,
    a: int,
    k: int,
)
    requires
        m0.len() == 0x10000,
        links_wf(m0, free),
        live_wf(m0, live),
        apart(free, live),
        live.contains_key(a),
        slot_for(free, a, k),
        released(m0, m1, prev_of(free, k), a, live[a], link_of(free, k - 1)),
    ensures
        links_wf(m1, free.insert(k, Block { addr: a, size: live[a] })),
{
    let after = free.insert(k, Block { addr: a, size: live[a] });
    assert forall|j: int| 0 <= j < after.len() implies {
        &&& block_ok((#[trigger] after[j]).addr, after[j].size)
        &&& word_at(m1, after[j].addr) == link_of(after, j)
        &&& word_at(m1, after[j].addr + 4) == after[j].size
    } by {
        lemma_release_link_at(m0, m1, free, live, a, k, j);
    }
    assert forall|i: int, j: int| 0 <= i < j < after.len() implies (#[trigger] after[i]).addr
        + after[i].size <= (#[trigger] after[j]).addr by {
        lemma_release_order_at(m0, free, live, a, k, i, j);
    }
    lemma_release_head(m0, m1, free, live, a, k);
    lemma_links_intro(m1, after);
}

/// Releasing a block keeps the free user areas zero.
pub proof fn lemma_release_zero(
    m0: Seq<u8>,
    m1: Seq<u8>,
    free: Seq<Block>,
    live: Map<int, int>,
    a: int,
    k: int,
)
    requires
        m0.len() == 0x10000,
        links_wf(m0, free),
        bodies_zero(m0, free),
        live_wf(m0, live),
        apart(free, live),
        live.contains_key(a),
        slot_for(free, a, k),
        released(m0, m1, prev_of(free, k), a, live[a], link_of(free, k - 1)),
    ensures
        bodies_zero(m1, free.insert(k, Block { addr: a, size: live[a] })),
{
    let size = live[a];
    let prev = prev_of(free, k);
    let next = link_of(free, k - 1);
    let after = free.insert(k, Block { addr: a, size });
    lemma_prev_place(m0, free, live, a, k);
    assert forall|j: int, x: int|
        #![trigger after[j], m1[x]]
        0 <= j < after.len() && after[j].addr + 12 <= x < after[j].addr + after[j].size implies m1[x]
        == 0 by {
        if j == k {
            lemma_released_zero(m0, m1, prev, a, size, next, x);
        } else {
            let i = source(k, j);
            assert(after[j] == free[i]);
            lemma_neighbour(m0, free, live, a, k, i);
            lemma_zero_byte(m0, free, i, x);
            lemma_released_byte(m0, m1, prev, a, size, next, x);
        }
    }
    assert(bodies_zero(m1, after)) by {
        reveal(bodies_zero);
    }
}

/// An allocated block other than the one being released lies clear of it
/// and of the link that will lead to it.
proof fn lemma_survivor(
    mem: Seq<u8>,
    free: Seq<Block>,
    live: Map<int, int>,
    a: int,
    k: int,
    b: int,
)
    requires
        mem.len() == 0x10000,
        links_wf(mem, free),
        live_wf(mem, live),
        apart(free, live),
        live.contains_key(a),
        live.contains_key(b),
        a != b,
        slot_for(free, a, k),
    ensures
        block_ok(b, live[b]),
        block_ok(a, live[a]),
        word_at(mem, b + 4) == live[b],
        b + live[b] <= a || a + live[a] <= b,
        b + live[b] <= prev_of(free, k) || prev_of(free, k) + 4 <= b,
        0 <= prev_of(free, k),
        prev_of(free, k) + 4 <= a,
{
    lemma_live_block(mem, live, a);
    lemma_live_block(mem, live, b);
    lemma_live_pair(mem, live, a, b);
    lemma_prev_place(mem, free, live, a, k);
    if k > 0 {
        lemma_free_block(mem, free, k - 1);
        lemma_apart(free, live, b, k - 1);
    }
}

/// Releasing a block leaves the other allocated blocks sound, and clear of
/// all that is free.
pub proof fn lemma_release_live(
    m0: Seq<u8>,
    m1: Seq<u8>,
    free: Seq<Block>,
    live: Map<int, int>,
    a: int,
    k: int,
)
    requires
        m0.len() == 0x10000,
        links_wf(m0, free),
        live_wf(m0, live),
        apart(free, live),
        live.contains_key(a),
        slot_for(free, a, k),
        released(m0, m1, prev_of(free, k), a, live[a], link_of(free, k - 1)),
    ensures
        live_wf(m1, live.remove(a)),
        apart(free.insert(k, Block { addr: a, size: live[a] }), live.remove(a)),
{
    let size = live[a];
    let prev = prev_of(free, k);
    let next = link_of(free, k - 1);
    let after = free.insert(k, Block { addr: a, size });
    let live1 = live.remove(a);
    assert forall|b: int| #[trigger] live1.contains_key(b) implies block_ok(b, live1[b]) && word_at(
        m1,
        b + 4,
    ) == live1[b] by {
        lemma_survivor(m0, free, live, a, k, b);
        lemma_released_word(m0, m1, prev, a, size, next, b + 4);
    }
    assert forall|b: int, c: int|
        #![trigger live1.contains_key(b), live1.contains_key(c)]
        live1.contains_key(b) && live1.contains_key(c) && b != c implies b + live1[b] <= c || c
        + live1[c] <= b by {
        lemma_live_pair(m0, live, b, c);
    }
    assert forall|b: int, j: int|
        #![trigger live1.contains_key(b), after[j]]
        live1.contains_key(b) && 0 <= j < after.len() implies b + live1[b] <= after[j].addr
        || after[j].addr + after[j].size <= b by {
        if j == k {
            lemma_live_pair(m0, live, a, b);
        } else {
            assert(after[j] == free[source(k, j)]);
            lemma_apart(free, live, b, source(k, j));
        }
    }
    assert(live_wf(m1, live1)) by {
        reveal(live_wf);
    }
    assert(apart(after, live1)) by {
        reveal(apart);
    }
}

/// Releasing a block takes it from its owner's sight and leaves every
/// other allocated block as it was.
pub proof fn lemma_release_view(
    m0: Seq<u8>,
    m1: Seq<u8>,
    free: Seq<Block>,
    live: Map<int, int>,
    a: int,
    k: int,
)
    requires
        m0.len() == 0x10000,
        links_wf(m0, free),
        live_wf(m0, live),
        apart(free, live),
        live.contains_key(a),
        slot_for(free, a, k),
        released(m0, m1, prev_of(free, k), a, live[a], link_of(free, k - 1)),
    ensures
        live_view(m1, live.remove(a)) == live_view(m0, live).remove(a + 12),
{
    let size = live[a];
    let prev = prev_of(free, k);
    let next = link_of(free, k - 1);
    let live1 = live.remove(a);
    let v1 = live_view(m1, live1);
    let v0 = live_view(m0, live).remove(a + 12);
    lemma_released_words(m0, m1, prev, a, size, next);
    assert forall|p: int| v1.contains_key(p) implies #[trigger] v1[p] == v0[p] by {
        let b = p - 12;
        assert(live1.contains_key(b));
        lemma_survivor(m0, free, live, a, k, b);
        let d1 = m1.subrange(p, p - 12 + live[b]);
        let d0 = m0.subrange(p, p - 12 + live[b]);
        assert forall|i: int| 0 <= i < live[b] - 12 implies d1[i] == d0[i] by {
            lemma_released_byte(m0, m1, prev, a, size, next, p + i);
        }
        assert(d1 =~= d0);
        lemma_released_word(m0, m1, prev, a, size, next, p - 4);
    }
    assert(v1 =~= v0);
}

} // verus!
