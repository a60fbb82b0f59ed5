//! Taking a block out of the free list: which bytes change, and why the
//! encoding stays sound.

use vstd::prelude::*;
use crate::memory_management::layout::{
    apart,
    block_ok,
    bodies_zero,
    lemma_apart,
    lemma_free_block,
    lemma_free_head,
    lemma_free_order,
    lemma_links_intro,
    lemma_live_block,
    lemma_live_pair,
    lemma_zero_byte,
    link_of,
    links_wf,
    live_view,
    live_wf,
    prev_of,
};
use crate::memory_management::model::{fresh_data, Block, LiveBlock};
use crate::memory_management::word::{
    byte_of,
    lemma_same_word,
    lemma_store_word,
    store_word,
    word_at,
};

verus! {

/// The bytes `m1` are the bytes `m0` after the free block at `cur`, of
/// `bsize` bytes, was handed out as a block of `taken` bytes: the link at
/// `prev` skips it, its header holds size and cookie, its user area ends
/// with the cookie, and where it was split the rest has a header of its own.
#[verifier::opaque]
pub open spec fn carved(
    m0: Seq<u8>,
    m1: Seq<u8>,
    prev: int,
    cur: int,
    bsize: int,
    taken: int,
    next: int,
    cookie: int,
) -> bool {
    &&& m1.len() == m0.len()
    &&& forall|x: int|
        #![trigger m1[x]]
        0 <= x < m0.len() && !(prev <= x < prev + 4) && !(cur + 4 <= x < cur + 12) && !(cur + taken
            - 4 <= x < cur + taken) && !(taken < bsize && cur + taken <= x < cur + taken + 8)
            ==> m1[x] == m0[x]
    &&& word_at(m1, prev) == (if taken < bsize {
        cur + taken
    } else {
        next
    })
    &&& word_at(m1, cur + 4) == taken
    &&& word_at(m1, cur + 8) == cookie
    &&& forall|j: int| 0 <= j < 4 ==> #[trigger] m1[cur + taken - 4 + j] == byte_of(cookie, j)
    &&& taken < bsize ==> word_at(m1, cur + taken) == next && word_at(m1, cur + taken + 4) == bsize
        - taken
}

/// The bytes after the stores that split a block.
pub open spec fn split_bytes(
    m0: Seq<u8>,
    prev: int,
    cur: int,
    bsize: int,
    want: int,
    next: int,
    cookie: int,
) -> Seq<u8> {
    let m1 = store_word(m0, cur + want + 4, bsize - want);
    let m2 = store_word(m1, cur + want, next);
    let m3 = store_word(m2, cur + 4, want);
    let m4 = store_word(m3, prev, cur + want);
    let m5 = store_word(m4, cur + 8, cookie);
    store_word(m5, cur + want - 4, cookie)
}

/// The bytes after the stores that hand out a whole block.
pub open spec fn whole_bytes(m0: Seq<u8>, prev: int, cur: int, bsize: int, next: int, cookie: int) -> Seq<u8> {
    let m1 = store_word(m0, prev, next);
    let m2 = store_word(m1, cur + 8, cookie);
    store_word(m2, cur + bsize - 4, cookie)
}

/// The stores that split a block carve it.
pub proof fn lemma_split_bytes(
    m0: Seq<u8>,
    prev: int,
    cur: int,
    bsize: int,
    want: int,
    next: int,
    cookie: int,
)
    requires
        0 <= prev,
        prev + 4 <= cur,
        20 <= want,
        want + 24 <= bsize,
        cur + bsize <= m0.len() <= 0x10000,
        0 <= next <= u32::MAX,
        0 <= cookie <= u32::MAX,
    ensures
        carved(m0, split_bytes(m0, prev, cur, bsize, want, next, cookie), prev, cur, bsize, want, next, cookie),
{
    let m1 = store_word(m0, cur + want + 4, bsize - want);
    let m2 = store_word(m1, cur + want, next);
    let m3 = store_word(m2, cur + 4, want);
    let m4 = store_word(m3, prev, cur + want);
    let m5 = store_word(m4, cur + 8, cookie);
    let m6 = store_word(m5, cur + want - 4, cookie);
    reveal(carved);
    lemma_store_word(m0, cur + want + 4, bsize - want);
    lemma_store_word(m1, cur + want, next);
    lemma_store_word(m2, cur + 4, want);
    lemma_store_word(m3, prev, cur + want);
    lemma_store_word(m4, cur + 8, cookie);
    lemma_store_word(m5, cur + want - 4, cookie);
    assert forall|x: int|
        #![trigger m6[x]]
        0 <= x < m0.len() && !(prev <= x < prev + 4) && !(cur + 4 <= x < cur + 12) && !(cur + want - 4
            <= x < cur + want) && !(cur + want <= x < cur + want + 8) implies m6[x] == m0[x] by {
        assert(m6[x] == m5[x]);
        assert(m5[x] == m4[x]);
        assert(m4[x] == m3[x]);
        assert(m3[x] == m2[x]);
        assert(m2[x] == m1[x]);
        assert(m1[x] == m0[x]);
    }
    assert(word_at(m6, prev) == cur + want) by {
        assert(word_at(m6, prev) == word_at(m5, prev));
        assert(word_at(m5, prev) == word_at(m4, prev));
    }
    assert(word_at(m6, cur + 4) == want) by {
        assert(word_at(m6, cur + 4) == word_at(m5, cur + 4));
        assert(word_at(m5, cur + 4) == word_at(m4, cur + 4));
        assert(word_at(m4, cur + 4) == word_at(m3, cur + 4));
    }
    assert(word_at(m6, cur + 8) == cookie) by {
        assert(word_at(m6, cur + 8) == word_at(m5, cur + 8));
    }
    assert(word_at(m6, cur + want) == next) by {
        assert(word_at(m6, cur + want) == word_at(m5, cur + want));
        assert(word_at(m5, cur + want) == word_at(m4, cur + want));
        assert(word_at(m4, cur + want) == word_at(m3, cur + want));
        assert(word_at(m3, cur + want) == word_at(m2, cur + want));
    }
    assert(word_at(m6, cur + want + 4) == bsize - want) by {
        assert(word_at(m6, cur + want + 4) == word_at(m5, cur + want + 4));
        assert(word_at(m5, cur + want + 4) == word_at(m4, cur + want + 4));
        assert(word_at(m4, cur + want + 4) == word_at(m3, cur + want + 4));
        assert(word_at(m3, cur + want + 4) == word_at(m2, cur + want + 4));
        assert(word_at(m2, cur + want + 4) == word_at(m1, cur + want + 4));
    }
}

/// The stores that hand out a whole block carve it.
pub proof fn lemma_whole_bytes(m0: Seq<u8>, prev: int, cur: int, bsize: int, next: int, cookie: int)
    requires
        0 <= prev,
        prev + 4 <= cur,
        20 <= bsize,
        cur + bsize <= m0.len() <= 0x10000,
        0 <= next <= u32::MAX,
        0 <= cookie <= u32::MAX,
        word_at(m0, cur + 4) == bsize,
    ensures
        carved(m0, whole_bytes(m0, prev, cur, bsize, next, cookie), prev, cur, bsize, bsize, next, cookie),
{
    let m1 = store_word(m0, prev, next);
    let m2 = store_word(m1, cur + 8, cookie);
    let m3 = store_word(m2, cur + bsize - 4, cookie);
    reveal(carved);
    lemma_store_word(m0, prev, next);
    lemma_store_word(m1, cur + 8, cookie);
    lemma_store_word(m2, cur + bsize - 4, cookie);
    assert forall|x: int|
        #![trigger m3[x]]
        0 <= x < m0.len() && !(prev <= x < prev + 4) && !(cur + 4 <= x < cur + 12) && !(cur + bsize
            - 4 <= x < cur + bsize) implies m3[x] == m0[x] by {
        assert(m3[x] == m2[x]);
        assert(m2[x] == m1[x]);
        assert(m1[x] == m0[x]);
    }
    assert(word_at(m3, prev) == next) by {
        assert(word_at(m3, prev) == word_at(m2, prev));
        assert(word_at(m2, prev) == word_at(m1, prev));
    }
    assert(word_at(m3, cur + 4) == bsize) by {
        assert(word_at(m3, cur + 4) == word_at(m2, cur + 4));
        assert(word_at(m2, cur + 4) == word_at(m1, cur + 4));
        assert(word_at(m1, cur + 4) == word_at(m0, cur + 4));
    }
    assert(word_at(m3, cur + 8) == cookie) by {
        assert(word_at(m3, cur + 8) == word_at(m2, cur + 8));
    }
}

/// The words that carving leaves in place of the old ones.
pub proof fn lemma_carved_words(
    m0: Seq<u8>,
    m1: Seq<u8>,
    prev: int,
    cur: int,
    bsize: int,
    taken: int,
    next: int,
    cookie: int,
)
    requires
        carved(m0, m1, prev, cur, bsize, taken, next, cookie),
    ensures
        m1.len() == m0.len(),
        word_at(m1, prev) == (if taken < bsize {
            cur + taken
        } else {
            next
        }),
        word_at(m1, cur + 4) == taken,
        word_at(m1, cur + 8) == cookie,
        taken < bsize ==> word_at(m1, cur + taken) == next && word_at(m1, cur + taken + 4) == bsize
            - taken,
{
    reveal(carved);
}

/// Carving leaves a byte alone that lies clear of the link before the
/// block, of the block's size and cookie, of its cookie copy and of the new
/// header behind it.
pub proof fn lemma_carved_byte(
    m0: Seq<u8>,
    m1: Seq<u8>,
    prev: int,
    cur: int,
    bsize: int,
    taken: int,
    next: int,
    cookie: int,
    x: int,
)
    requires
        carved(m0, m1, prev, cur, bsize, taken, next, cookie),
        0 <= x < m0.len(),
        !(prev <= x < prev + 4),
        !(cur + 4 <= x < cur + 12),
        !(cur + taken - 4 <= x < cur + taken),
        !(taken < bsize && cur + taken <= x < cur + taken + 8),
    ensures
        m1[x] == m0[x],
{
    reveal(carved);
}

/// Carving leaves a word alone that lies clear of the link before the block
/// and of the block itself.
pub proof fn lemma_carved_word(
    m0: Seq<u8>,
    m1: Seq<u8>,
    prev: int,
    cur: int,
    bsize: int,
    taken: int,
    next: int,
    cookie: int,
    x: int,
)
    requires
        carved(m0, m1, prev, cur, bsize, taken, next, cookie),
        0 <= x,
        x + 4 <= m0.len(),
        x + 4 <= prev || prev + 4 <= x,
        x + 4 <= cur || cur + bsize <= x,
        16 <= taken <= bsize,
        taken == bsize || taken + 8 <= bsize,
    ensures
        word_at(m1, x) == word_at(m0, x),
{
    lemma_carved_byte(m0, m1, prev, cur, bsize, taken, next, cookie, x);
    lemma_carved_byte(m0, m1, prev, cur, bsize, taken, next, cookie, x + 1);
    lemma_carved_byte(m0, m1, prev, cur, bsize, taken, next, cookie, x + 2);
    lemma_carved_byte(m0, m1, prev, cur, bsize, taken, next, cookie, x + 3);
    lemma_same_word(m0, x, m1, x);
}

/// Carving ends the block's user area with the bytes of the cookie.
pub proof fn lemma_carved_cookie(
    m0: Seq<u8>,
    m1: Seq<u8>,
    prev: int,
    cur: int,
    bsize: int,
    taken: int,
    next: int,
    cookie: int,
    j: int,
)
    requires
        carved(m0, m1, prev, cur, bsize, taken, next, cookie),
        0 <= j < 4,
    ensures
        m1[cur + taken - 4 + j] == byte_of(cookie, j),
{
    reveal(carved);
}

/// The free list after block `k` gave `taken` of its bytes away: without the
/// block, or with what is left of it in its place.
pub open spec fn carved_list(free: Seq<Block>, k: int, taken: int) -> Seq<Block> {
    if taken < free[k].size {
        free.update(k, Block { addr: free[k].addr + taken, size: free[k].size - taken })
    } else {
        free.remove(k)
    }
}

/// Whether `taken` bytes can be carved from free block `k`.
pub open spec fn carvable(free: Seq<Block>, k: int, taken: int) -> bool {
    &&& 0 <= k < free.len()
    &&& 20 <= taken <= free[k].size
    &&& taken % 4 == 0
    &&& taken == free[k].size || free[k].size - taken >= 24
}

/// Index in the old list of block `j` of the carved list.
pub open spec fn origin(free: Seq<Block>, k: int, taken: int, j: int) -> int {
    if taken < free[k].size || j < k {
        j
    } else {
        j + 1
    }
}

/// An old free block other than the carved one lies clear of it and of the
/// link before it, but for its own link where it is the block before.
proof fn lemma_bystander(mem: Seq<u8>, free: Seq<Block>, k: int, i: int)
    requires
        mem.len() == 0x10000,
        links_wf(mem, free),
        0 <= k < free.len(),
        0 <= i < free.len(),
        i != k,
    ensures
        block_ok(free[i].addr, free[i].size),
        block_ok(free[k].addr, free[k].size),
        free[i].addr + free[i].size <= free[k].addr || free[k].addr + free[k].size <= free[i].addr,
        i != k - 1 ==> free[i].addr + free[i].size <= prev_of(free, k) || prev_of(free, k) + 4
            <= free[i].addr,
        i == k - 1 ==> prev_of(free, k) == free[i].addr,
        0 <= prev_of(free, k),
        prev_of(free, k) + 4 <= free[k].addr,
        word_at(mem, free[i].addr) == link_of(free, i),
        word_at(mem, free[i].addr + 4) == free[i].size,
{
    lemma_free_block(mem, free, i);
    lemma_free_block(mem, free, k);
    if i < k {
        lemma_free_order(mem, free, i, k);
        if i < k - 1 {
            lemma_free_order(mem, free, i, k - 1);
        }
    } else {
        lemma_free_order(mem, free, k, i);
        if k > 0 {
            lemma_free_order(mem, free, k - 1, i);
        }
    }
}

/// The link of block `j` of the carved list, in terms of the old list.
proof fn lemma_carved_link(free: Seq<Block>, k: int, taken: int, j: int)
    requires
        carvable(free, k, taken),
        0 <= j < carved_list(free, k, taken).len(),
    ensures
        link_of(carved_list(free, k, taken), j) == (if origin(free, k, taken, j) == k - 1 {
            if taken < free[k].size {
                free[k].addr + taken
            } else {
                link_of(free, k)
            }
        } else {
            link_of(free, origin(free, k, taken, j))
        }),
{
    let after = carved_list(free, k, taken);
    if j + 1 < after.len() {
        let i = origin(free, k, taken, j + 1);
        if i != k {
            assert(after[j + 1] == free[i]);
        }
    }
}

/// After carving, block `j` of the list has a sound header.
proof fn lemma_carve_link_at(
    m0: Seq<u8>,
    m1: Seq<u8>,
    free: Seq<Block>,
    k: int,
    taken: int,
    cookie: int,
    j: int,
)
    requires
        m0.len() == 0x10000,
        links_wf(m0, free),
        carvable(free, k, taken),
        carved(m0, m1, prev_of(free, k), free[k].addr, free[k].size, taken, link_of(free, k), cookie),
        0 <= j < carved_list(free, k, taken).len(),
    ensures
        block_ok(carved_list(free, k, taken)[j].addr, carved_list(free, k, taken)[j].size),
        word_at(m1, carved_list(free, k, taken)[j].addr) == link_of(carved_list(free, k, taken), j),
        word_at(m1, carved_list(free, k, taken)[j].addr + 4) == carved_list(free, k, taken)[j].size,
{
    let after = carved_list(free, k, taken);
    let cur = free[k].addr;
    let bsize = free[k].size;
    let prev = prev_of(free, k);
    let next = link_of(free, k);
    lemma_free_block(m0, free, k);
    lemma_carved_words(m0, m1, prev, cur, bsize, taken, next, cookie);
    lemma_carved_link(free, k, taken, j);
    let i = origin(free, k, taken, j);
    if i != k {
        assert(after[j] == free[i]);
        lemma_bystander(m0, free, k, i);
        lemma_carved_word(m0, m1, prev, cur, bsize, taken, next, cookie, free[i].addr + 4);
        if i != k - 1 {
            lemma_carved_word(m0, m1, prev, cur, bsize, taken, next, cookie, free[i].addr);
        }
    }
}

/// After carving, blocks `i` and `j` of the list lie one behind the other.
proof fn lemma_carve_order_at(m0: Seq<u8>, free: Seq<Block>, k: int, taken: int, i: int, j: int)
    requires
        m0.len() == 0x10000,
        links_wf(m0, free),
        carvable(free, k, taken),
        0 <= i < j < carved_list(free, k, taken).len(),
    ensures
        carved_list(free, k, taken)[i].addr + carved_list(free, k, taken)[i].size <= carved_list(
            free,
            k,
            taken,
        )[j].addr,
{
    let after = carved_list(free, k, taken);
    let i0 = origin(free, k, taken, i);
    let j0 = origin(free, k, taken, j);
    lemma_free_order(m0, free, i0, j0);
    if i0 != k {
        assert(after[i] == free[i0]);
    }
    if j0 != k {
        assert(after[j] == free[j0]);
    }
}

/// After carving, the sentinel leads to the first block of the list.
proof fn lemma_carve_head(
    m0: Seq<u8>,
    m1: Seq<u8>,
    free: Seq<Block>,
    k: int,
    taken: int,
    cookie: int,
)
    requires
        m0.len() == 0x10000,
        links_wf(m0, free),
        carvable(free, k, taken),
        carved(m0, m1, prev_of(free, k), free[k].addr, free[k].size, taken, link_of(free, k), cookie),
    ensures
        word_at(m1, 0) == link_of(carved_list(free, k, taken), -1),
{
    let after = carved_list(free, k, taken);
    let cur = free[k].addr;
    let bsize = free[k].size;
    let prev = prev_of(free, k);
    let next = link_of(free, k);
    lemma_free_block(m0, free, k);
    lemma_free_head(m0, free);
    lemma_carved_words(m0, m1, prev, cur, bsize, taken, next, cookie);
    if k > 0 {
        lemma_free_block(m0, free, 0);
        lemma_free_block(m0, free, k - 1);
        lemma_carved_word(m0, m1, prev, cur, bsize, taken, next, cookie, 0);
        assert(after[0] == free[0]);
    } else if after.len() > 0 && taken == bsize {
        assert(after[0] == free[1]);
    }
}

/// Carving keeps the list's links sound.
pub proof fn lemma_carve_links(
    m0: Seq<u8>,
    m1: Seq<u8>,
    free: Seq<Block>,
    k: int,
    taken: int,
    cookie: int,
)
    requires
        m0.len() == 0x10000,
        links_wf(m0, free),
        carvable(free, k, taken),
        carved(m0, m1, prev_of(free, k), free[k].addr, free[k].size, taken, link_of(free, k), cookie),
    ensures
        links_wf(m1, carved_list(free, k, taken)),
{
    let after = carved_list(free, k, taken);
    assert forall|j: int| 0 <= j < after.len() implies {
        &&& block_ok((#[trigger] after[j]).addr, after[j].size)
        &&& word_at(m1, after[j].addr) == link_of(after, j)
        &&& word_at(m1, after[j].addr + 4) == after[j].size
    } by {
        lemma_carve_link_at(m0, m1, free, k, taken, cookie, j);
    }
    assert forall|i: int, j: int| 0 <= i < j < after.len() implies (#[trigger] after[i]).addr
        + after[i].size <= (#[trigger] after[j]).addr by {
        lemma_carve_order_at(m0, free, k, taken, i, j);
    }
    lemma_carve_head(m0, m1, free, k, taken, cookie);
    lemma_links_intro(m1, after);
}

/// Carving keeps the free user areas zero.
pub proof fn lemma_carve_zero(
    m0: Seq<u8>,
    m1: Seq<u8>,
    free: Seq<Block>,
    k: int,
    taken: int,
    cookie: int,
)
    requires
        m0.len() == 0x10000,
        links_wf(m0, free),
        bodies_zero(m0, free),
        carvable(free, k, taken),
        carved(m0, m1, prev_of(free, k), free[k].addr, free[k].size, taken, link_of(free, k), cookie),
    ensures
        bodies_zero(m1, carved_list(free, k, taken)),
{
    let after = carved_list(free, k, taken);
    let cur = free[k].addr;
    let bsize = free[k].size;
    let prev = prev_of(free, k);
    let next = link_of(free, k);
    lemma_free_block(m0, free, k);
    assert forall|j: int, x: int|
        #![trigger after[j], m1[x]]
        0 <= j < after.len() && after[j].addr + 12 <= x < after[j].addr + after[j].size implies m1[x]
        == 0 by {
        let i = origin(free, k, taken, j);
        if i != k {
            assert(after[j] == free[i]);
            lemma_bystander(m0, free, k, i);
        }
        lemma_zero_byte(m0, free, i, x);
        lemma_carved_byte(m0, m1, prev, cur, bsize, taken, next, cookie, x);
    }
    assert(bodies_zero(m1, after)) by {
        reveal(bodies_zero);
    }
}

/// An allocated block lies clear of a free block and of the link before it.
proof fn lemma_outsider(mem: Seq<u8>, free: Seq<Block>, live: Map<int, int>, k: int, a: int)
    requires
        mem.len() == 0x10000,
        links_wf(mem, free),
        live_wf(mem, live),
        apart(free, live),
        0 <= k < free.len(),
        live.contains_key(a),
    ensures
        block_ok(a, live[a]),
        block_ok(free[k].addr, free[k].size),
        word_at(mem, a + 4) == live[a],
        a + live[a] <= free[k].addr || free[k].addr + free[k].size <= a,
        a + live[a] <= prev_of(free, k) || prev_of(free, k) + 4 <= a,
        0 <= prev_of(free, k),
        prev_of(free, k) + 4 <= free[k].addr,
{
    lemma_free_block(mem, free, k);
    lemma_live_block(mem, live, a);
    lemma_apart(free, live, a, k);
    if k > 0 {
        lemma_free_block(mem, free, k - 1);
        lemma_apart(free, live, a, k - 1);
    }
}

/// Carving adds one allocated block, clear of all others and of what is
/// still free.
pub proof fn lemma_carve_live(
    m0: Seq<u8>,
    m1: Seq<u8>,
    free: Seq<Block>,
    live: Map<int, int>,
    k: int,
    taken: int,
    cookie: int,
)
    requires
        m0.len() == 0x10000,
        links_wf(m0, free),
        live_wf(m0, live),
        apart(free, live),
        carvable(free, k, taken),
        carved(m0, m1, prev_of(free, k), free[k].addr, free[k].size, taken, link_of(free, k), cookie),
    ensures
        !live.contains_key(free[k].addr),
        live_wf(m1, live.insert(free[k].addr, taken)),
        apart(carved_list(free, k, taken), live.insert(free[k].addr, taken)),
{
    let after = carved_list(free, k, taken);
    let cur = free[k].addr;
    let bsize = free[k].size;
    let prev = prev_of(free, k);
    let next = link_of(free, k);
    let live1 = live.insert(cur, taken);
    lemma_free_block(m0, free, k);
    lemma_carved_words(m0, m1, prev, cur, bsize, taken, next, cookie);
    if live.contains_key(cur) {
        lemma_outsider(m0, free, live, k, cur);
    }
    assert forall|a: int| #[trigger] live1.contains_key(a) implies block_ok(a, live1[a]) && word_at(
        m1,
        a + 4,
    ) == live1[a] by {
        if a != cur {
            lemma_outsider(m0, free, live, k, a);
            lemma_carved_word(m0, m1, prev, cur, bsize, taken, next, cookie, a + 4);
        }
    }
    assert forall|a: int, b: int|
        #![trigger live1.contains_key(a), live1.contains_key(b)]
        live1.contains_key(a) && live1.contains_key(b) && a != b implies a + live1[a] <= b || b
        + live1[b] <= a by {
        if a == cur {
            lemma_outsider(m0, free, live, k, b);
        } else if b == cur {
            lemma_outsider(m0, free, live, k, a);
        } else {
            lemma_live_pair(m0, live, a, b);
        }
    }
    assert forall|a: int, j: int|
        #![trigger live1.contains_key(a), after[j]]
        live1.contains_key(a) && 0 <= j < after.len() implies a + live1[a] <= after[j].addr
        || after[j].addr + after[j].size <= a by {
        let i = origin(free, k, taken, j);
        if i != k {
            assert(after[j] == free[i]);
            lemma_bystander(m0, free, k, i);
        }
        if a != cur {
            lemma_apart(free, live, a, i);
        }
    }
    assert(live_wf(m1, live1)) by {
        reveal(live_wf);
    }
    assert(apart(after, live1)) by {
        reveal(apart);
    }
}

/// Carving shows its owner a new block, zero up to its cookie, and leaves
/// every other allocated block as it was.
pub proof fn lemma_carve_view(
    m0: Seq<u8>,
    m1: Seq<u8>,
    free: Seq<Block>,
    live: Map<int, int>,
    k: int,
    taken: int,
    cookie: int,
)
    requires
        m0.len() == 0x10000,
        links_wf(m0, free),
        bodies_zero(m0, free),
        live_wf(m0, live),
        apart(free, live),
        carvable(free, k, taken),
        carved(m0, m1, prev_of(free, k), free[k].addr, free[k].size, taken, link_of(free, k), cookie),
    ensures
        live_view(m1, live.insert(free[k].addr, taken)) == live_view(m0, live).insert(
            free[k].addr + 12,
            LiveBlock { size: taken, cookie, data: fresh_data(taken - 12, cookie) },
        ),
{
    let cur = free[k].addr;
    let bsize = free[k].size;
    let prev = prev_of(free, k);
    let next = link_of(free, k);
    let live1 = live.insert(cur, taken);
    let v1 = live_view(m1, live1);
    let v0 = live_view(m0, live).insert(
        cur + 12,
        LiveBlock { size: taken, cookie, data: fresh_data(taken - 12, cookie) },
    );
    lemma_free_block(m0, free, k);
    lemma_carved_words(m0, m1, prev, cur, bsize, taken, next, cookie);
    assert forall|p: int| v1.contains_key(p) implies #[trigger] v1[p] == v0[p] by {
        let a = p - 12;
        if a == cur {
            let d = m1.subrange(p, p - 12 + taken);
            let f = fresh_data(taken - 12, cookie);
            assert forall|i: int| 0 <= i < taken - 12 implies d[i] == f[i] by {
                if i < taken - 16 {
                    lemma_zero_byte(m0, free, k, p + i);
                    lemma_carved_byte(m0, m1, prev, cur, bsize, taken, next, cookie, p + i);
                } else {
                    lemma_carved_cookie(m0, m1, prev, cur, bsize, taken, next, cookie, i - (taken - 16));
                }
            }
            assert(d =~= f);
        } else {
            lemma_outsider(m0, free, live, k, a);
            let d1 = m1.subrange(p, p - 12 + live[a]);
            let d0 = m0.subrange(p, p - 12 + live[a]);
            assert forall|i: int| 0 <= i < live[a] - 12 implies d1[i] == d0[i] by {
                lemma_carved_byte(m0, m1, prev, cur, bsize, taken, next, cookie, p + i);
            }
            assert(d1 =~= d0);
            lemma_carved_word(m0, m1, prev, cur, bsize, taken, next, cookie, p - 4);
        }
    }
    assert(v1 =~= v0);
}

} // verus!
